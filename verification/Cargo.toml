[package]
name = "coll-birth"
version = "0.2.0"
edition = "2021"
publish = false

[dependencies]
anyhow = "1"
arrayvec = "0.7"
bytemuck = "1"
cdflib = "*"
clap = { version = "4", features = ["derive"] }
dary_heap = "0.3"
env_logger = "0.11"
jiff = "0.2"
libc = "0.2"
mmap-rs = "*"
num = "0.4"
rayon = "1"
