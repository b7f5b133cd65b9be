# Collision and birthday-spacings tests, verified

Two empirical tests for pseudorandom number generators, written in Verus: the *collision test*
counts how often samples of a generator fall into the same cell of a grid, the *birthday-spacings
test* counts how often distances between neighbouring cells occur again. A time-space tradeoff,
decimation and parallel generation allow for more samples than fit in memory.

What is proved is that none of these techniques changes what is counted. The contracts speak of the
samples that a generator yields along its orbit; the functions whose names begin with `law_` relate
the techniques to each other.

## Layout

- `src/` is the library.
  - `prng`, `sampling`, `cell`: generators as orbits, and how samples are made of their outputs.
  - `common`: the grid, and scans of an orbit that keep or count samples.
  - `counting`, `seqs`, `chunks`: collisions of a multiset, and lemmas on sequences.
  - `sorting`, `merging`: the radix sort, and merges of sorted runs.
  - `collision`, `birthday`: the two tests, plain, with a tradeoff, and with decimation.
  - `orbit`, `parallel`, `parallel_birthday`: the parallel versions.
  - `runs`, `sizing`, `cli`, `text`: whole runs, their parameters and their texts.
  - `progress`: what a run tells on its way.
  - `outside`: what is believed of other crates.
- `app/` is the command-line program: arguments, floating-point statistics, and output.
- `tests/` runs the library.
