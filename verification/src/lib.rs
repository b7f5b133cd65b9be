//! Collision and birthday-spacings tests for pseudorandom number generators.
//!
//! The unit hypercube of dimension *t* is divided into 2^*ut* cells. A sample reads *t* outputs of a
//! generator and falls into one of them. The collision test counts how often a sample falls into a
//! cell that is taken already; the birthday-spacings test sorts the cells and counts how often a
//! distance between neighbours occurs again.
//!
//! Both tests have variants for samples that do not fit in memory: a time-space tradeoff that makes
//! several passes over the same orbit, decimation that keeps only some of the samples, and parallel
//! versions in which each thread walks a part of the orbit. All of them count the same thing, and
//! the functions whose names begin with `law_` say so.

pub mod birthday;
pub mod cell;
pub mod chunks;
pub mod cli;
pub mod collision;
pub mod common;
pub mod counting;
pub mod merging;
pub mod orbit;
pub mod outside;
pub mod parallel;
pub mod parallel_birthday;
pub mod prng;
pub mod progress;
pub mod runs;
pub mod sampling;
pub mod seqs;
pub mod sizing;
pub mod sorting;
pub mod text;
