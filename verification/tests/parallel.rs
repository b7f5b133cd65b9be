//! Tests of whole runs, sequential and parallel.

use coll_birth::cli::Args;
use coll_birth::collision::Tally;
use coll_birth::common::{scan_samples, BinOverflow};
use coll_birth::parallel::{offsets_fit, run_test_parallel};
use coll_birth::parallel_birthday::run_birthday_parallel;
use coll_birth::prng::{Orbit, Prng, SplitMix, WyRand};
use coll_birth::progress::{Event, Recorder};
use coll_birth::runs::{run_test, Capacities};

/// A generator that cannot jump along its orbit.
#[derive(Clone, Copy)]
struct Walker(u64);

impl Orbit for Walker {
    fn seeded(seed: u64) -> Self {
        Walker(seed ^ 0x9e37_79b9_7f4a_7c15)
    }

    fn step(self) -> Self {
        let x = self.0 ^ (self.0 << 13);
        let y = x ^ (x >> 7);
        Walker(y ^ (y << 17))
    }

    fn output(self) -> u64 {
        self.step().0.wrapping_mul(0x2545_f491_4f6c_dd1d)
    }

    fn can_skip() -> bool {
        false
    }
}

impl Prng for Walker {
    fn new(seed: u64) -> Self {
        Self::seeded(seed)
    }

    fn next_u64(&mut self) -> u64 {
        let r = self.output();
        *self = self.step();
        r
    }

    fn try_skip(&mut self, _n: u64) -> Result<(), ()> {
        Err(())
    }
}

fn base() -> Args {
    Args {
        u: 8,
        t: 2,
        m: Some(3_000),
        s: 0,
        tradeoff: None,
        decimate: None,
        checkpoints: false,
        birthday_spacings: false,
        reps: 3,
        seed: 42,
        pretty_p: false,
        parallel: None,
        pass: None,
    }
}

fn points_of(args: &Args) -> usize {
    args.m.unwrap() << args.tradeoff_bits()
}

fn samples_of(args: &Args) -> usize {
    scan_samples(points_of(args), args.t, args.decimation_bits()).unwrap()
}

/// What a run gives, and what it told on its way.
struct Outcome {
    total: u128,
    reps: Vec<Tally>,
    events: Vec<Event>,
}

/// A sequential run with room for everything.
fn sequential<P: Prng>(args: &Args) -> Outcome {
    let n = samples_of(args);
    let caps = Capacities {
        buffer: n,
        interval: n,
        stage: n,
    };
    let cells = args.cells().unwrap();
    let mut progress = Recorder::new();
    let run = run_test::<u64, P>(args, points_of(args), &cells, caps, &mut progress).unwrap();
    Outcome {
        total: run.total,
        reps: run.reps,
        events: progress.events,
    }
}

/// A parallel run with room for everything.
fn parallel<P: Prng>(args: &Args, cpus: usize) -> Outcome {
    let n = samples_of(args);
    let points = points_of(args);
    let cells = args.cells().unwrap();
    let mut progress = Recorder::new();
    let run = if args.birthday_spacings {
        run_birthday_parallel::<u64, P>(args, points, &cells, cpus, n, n, &mut progress)
    } else {
        let caps = vec![n; cpus.min(n).max(1)];
        run_test_parallel::<u64, P>(args, points, &cells, cpus, &caps, n, n, &mut progress)
    }
    .unwrap();
    Outcome {
        total: run.total,
        reps: run.reps,
        events: progress.events,
    }
}

fn agree<P: Prng>(args: &Args) {
    let expected = sequential::<P>(args);
    assert_eq!(expected.reps.len(), args.reps);
    assert_eq!(
        expected.total,
        expected.reps.iter().map(|r| r.collisions as u128).sum()
    );
    for cpus in [1usize, 2, 3, 7] {
        let got = parallel::<P>(args, cpus);
        assert_eq!(got.total, expected.total);
        assert_eq!(got.reps, expected.reps);
        if args.checkpoints || args.tradeoff.is_some() {
            assert_eq!(got.events, expected.events);
        }
    }
}

fn modes() -> Vec<Args> {
    let decimated = Args {
        u: 10,
        decimate: Some(2),
        ..base()
    };
    vec![
        base(),
        Args {
            m: Some(700),
            tradeoff: Some(3),
            ..base()
        },
        decimated,
        Args {
            checkpoints: true,
            ..decimated
        },
        Args {
            m: Some(500),
            tradeoff: Some(2),
            ..decimated
        },
        Args {
            m: Some(300),
            tradeoff: Some(4),
            pass: Some(5),
            ..base()
        },
        Args {
            birthday_spacings: true,
            m: Some(800),
            ..base()
        },
        Args {
            birthday_spacings: true,
            m: Some(300),
            tradeoff: Some(2),
            ..base()
        },
        Args {
            birthday_spacings: true,
            m: Some(300),
            ..decimated
        },
        Args {
            birthday_spacings: true,
            m: Some(150),
            tradeoff: Some(2),
            pass: Some(3),
            ..decimated
        },
    ]
}

#[test]
fn parallel_runs_of_jumping_generators_are_sequential_ones() {
    for args in modes() {
        agree::<SplitMix>(&args);
        agree::<WyRand>(&args);
    }
}

#[test]
fn parallel_runs_of_walking_generators_are_sequential_ones() {
    for args in modes() {
        agree::<Walker>(&args);
    }
}

#[test]
fn more_cpus_than_samples() {
    let args = Args {
        m: Some(5),
        ..base()
    };
    assert_eq!(
        parallel::<SplitMix>(&args, 64).reps,
        sequential::<SplitMix>(&args).reps
    );
}

#[test]
fn a_tradeoff_changes_no_count() {
    for birthday_spacings in [false, true] {
        let plain = Args {
            birthday_spacings,
            m: Some(2_048),
            ..base()
        };
        let traded = Args {
            m: Some(256),
            tradeoff: Some(3),
            ..plain
        };
        assert_eq!(
            sequential::<SplitMix>(&plain).reps,
            sequential::<SplitMix>(&traded).reps
        );
    }
}

#[test]
fn units_of_a_tradeoff_recombine() {
    for birthday_spacings in [false, true] {
        let whole = Args {
            birthday_spacings,
            m: Some(256),
            tradeoff: Some(3),
            ..base()
        };
        let sum: u128 = (0..8)
            .map(|k| {
                let unit = Args {
                    pass: Some(k),
                    ..whole
                };
                assert_eq!(
                    parallel::<SplitMix>(&unit, 2).total,
                    sequential::<SplitMix>(&unit).total
                );
                sequential::<SplitMix>(&unit).total
            })
            .sum();
        assert_eq!(sum, sequential::<SplitMix>(&whole).total);
        assert!(sum > 0);
    }
}

#[test]
fn repetitions_continue_the_orbit() {
    let long = Args {
        m: Some(3_000),
        reps: 2,
        ..base()
    };
    let run = sequential::<SplitMix>(&long);
    let mut shifted = SplitMix::new(long.seed);
    shifted.try_skip(2 * 3_000).unwrap();
    let second = Args {
        seed: shifted.x,
        reps: 1,
        ..long
    };
    assert_eq!(sequential::<SplitMix>(&second).reps[0], run.reps[1]);
}

#[test]
fn cell_types_agree() {
    let args = base();
    let cells = args.cells().unwrap();
    let caps = Capacities {
        buffer: 0,
        interval: 0,
        stage: 0,
    };
    let mut progress = Recorder::new();
    let narrow = run_test::<u32, SplitMix>(&args, 3_000, &cells, caps, &mut progress).unwrap();
    let mut progress = Recorder::new();
    let medium = run_test::<u64, SplitMix>(&args, 3_000, &cells, caps, &mut progress).unwrap();
    let mut progress = Recorder::new();
    let wide = run_test::<u128, SplitMix>(&args, 3_000, &cells, caps, &mut progress).unwrap();
    assert_eq!(narrow.reps, medium.reps);
    assert_eq!(wide.reps, medium.reps);
    let told: Vec<Event> = wide.reps.iter().map(|r| Event::Repetition(*r)).collect();
    assert_eq!(progress.events, told);
}

#[test]
fn no_repetitions() {
    let args = Args { reps: 0, ..base() };
    let run = sequential::<SplitMix>(&args);
    assert_eq!(run.total, 0);
    assert_eq!(run.reps, Vec::<Tally>::new());
}

#[test]
fn long_tuples() {
    let args = Args {
        u: 3,
        t: 9,
        ..base()
    };
    agree::<SplitMix>(&args);
}

#[test]
fn overflows_of_sequential_runs() {
    let caps = |buffer: usize, interval: usize, stage: usize| Capacities {
        buffer,
        interval,
        stage,
    };
    let outcome = |args: &Args, c: Capacities| {
        let cells = args.cells().unwrap();
        let mut progress = Recorder::new();
        run_test::<u64, SplitMix>(args, points_of(args), &cells, c, &mut progress).map(|r| r.total)
    };
    let many = 1 << 20;
    let traded = Args {
        tradeoff: Some(2),
        ..base()
    };
    assert_eq!(
        outcome(&traded, caps(10, many, many)),
        Err(BinOverflow::CollisionTradeoffPass)
    );
    let decimated = Args {
        u: 10,
        decimate: Some(2),
        ..base()
    };
    assert_eq!(
        outcome(&decimated, caps(10, many, many)),
        Err(BinOverflow::DecimatedCollisionRun)
    );
    let staged = Args {
        checkpoints: true,
        ..decimated
    };
    assert_eq!(
        outcome(&staged, caps(many, many, 10)),
        Err(BinOverflow::DecimationCheckpointStage)
    );
    assert_eq!(
        outcome(&staged, caps(10, many, many)),
        Err(BinOverflow::DecimationCheckpointAccumulator)
    );
    assert_eq!(
        outcome(&staged, caps(10, many, 10)),
        Err(BinOverflow::DecimationCheckpointStage)
    );
    let spaced = Args {
        birthday_spacings: true,
        ..decimated
    };
    assert_eq!(
        outcome(&spaced, caps(10, many, many)),
        Err(BinOverflow::DecimatedBirthdayRun)
    );
    let both = Args {
        birthday_spacings: true,
        ..traded
    };
    assert_eq!(
        outcome(&both, caps(many, 10, many)),
        Err(BinOverflow::BirthdayValueInterval)
    );
    assert_eq!(
        outcome(&both, caps(10, many, many)),
        Err(BinOverflow::BirthdaySpacingsClass)
    );
    // The points of an interval are generated before their spacings.
    assert_eq!(
        outcome(&both, caps(10, 10, many)),
        Err(BinOverflow::BirthdayValueInterval)
    );
}

#[test]
fn overflows_of_parallel_runs() {
    let many = 1 << 20;
    let outcome = |args: &Args, thread_cap: usize, acc_cap: usize, stage_cap: usize| {
        run_test_parallel::<u64, SplitMix>(
            args,
            points_of(args),
            &args.cells().unwrap(),
            3,
            &[thread_cap; 3],
            acc_cap,
            stage_cap,
            &mut Recorder::new(),
        )
        .map(|r| r.total)
    };
    let traded = Args {
        tradeoff: Some(2),
        ..base()
    };
    assert_eq!(
        outcome(&traded, 10, many, many),
        Err(BinOverflow::TradeoffBin)
    );
    let decimated = Args {
        u: 10,
        decimate: Some(2),
        ..base()
    };
    assert_eq!(
        outcome(&decimated, 10, many, many),
        Err(BinOverflow::ParallelDecimationChunk)
    );
    let staged = Args {
        checkpoints: true,
        ..decimated
    };
    assert_eq!(
        outcome(&staged, many, many, 10),
        Err(BinOverflow::ParallelDecimationChunk)
    );
    assert_eq!(
        outcome(&staged, many, 10, many),
        Err(BinOverflow::CheckpointAccumulator)
    );
    let spaced = Args {
        birthday_spacings: true,
        ..traded
    };
    let birthday = |unit_cap: usize, class_cap: usize| {
        run_birthday_parallel::<u64, SplitMix>(
            &spaced,
            points_of(&spaced),
            &spaced.cells().unwrap(),
            3,
            unit_cap,
            class_cap,
            &mut Recorder::new(),
        )
        .map(|r| r.total)
    };
    assert_eq!(birthday(10, many), Err(BinOverflow::ParallelGenerationUnit));
    assert_eq!(birthday(many, 10), Err(BinOverflow::BirthdaySpacingsClass));
}

#[test]
fn texts_of_all_bins() {
    let texts = [
        (BinOverflow::CollisionTradeoffPass, "a collision tradeoff pass"),
        (BinOverflow::DecimatedCollisionRun, "a decimated collision run"),
        (
            BinOverflow::DecimationCheckpointStage,
            "a decimation checkpoint stage",
        ),
        (
            BinOverflow::DecimationCheckpointAccumulator,
            "the decimation checkpoint accumulator",
        ),
        (BinOverflow::DecimatedBirthdayRun, "a decimated birthday run"),
        (BinOverflow::BirthdayValueInterval, "a birthday value interval"),
        (BinOverflow::BirthdaySpacingsClass, "a birthday-spacings class"),
        (BinOverflow::ParallelGenerationUnit, "a parallel generation unit"),
        (BinOverflow::ParallelDecimationChunk, "a parallel decimation chunk"),
        (BinOverflow::TradeoffBin, "a tradeoff bin"),
        (
            BinOverflow::CheckpointAccumulator,
            "the checkpoint accumulator",
        ),
    ];
    for (bin, text) in texts {
        assert_eq!(bin.what(), text);
    }
}

#[test]
fn recorders_are_told_everything_in_order() {
    let args = Args {
        m: Some(300),
        tradeoff: Some(2),
        ..base()
    };
    for birthday_spacings in [false, true] {
        let args = Args {
            birthday_spacings,
            ..args
        };
        let run = sequential::<SplitMix>(&args);
        assert_eq!(run.events.len(), 15);
        for (i, rep) in run.reps.iter().enumerate() {
            let events = &run.events[5 * i..5 * (i + 1)];
            assert_eq!(events[4], Event::Repetition(*rep));
            let collisions: usize = events[..4]
                .iter()
                .map(|event| match event {
                    Event::Part(tally) => tally.collisions,
                    Event::Repetition(_) => panic!("a repetition among its parts"),
                })
                .sum();
            assert_eq!(collisions, rep.collisions);
        }
        assert_eq!(parallel::<SplitMix>(&args, 2).events, run.events);
    }
}

#[test]
fn overflowing_runs_have_told_what_they_did() {
    let args = Args {
        m: Some(300),
        tradeoff: Some(2),
        ..base()
    };
    let n = samples_of(&args);
    let cells = args.cells().unwrap();
    let whole = sequential::<SplitMix>(&args).events;
    // With room for all but the largest pass, the run stops there.
    let load = |event: &Event| match event {
        Event::Part(tally) => tally.points,
        Event::Repetition(_) => 0,
    };
    let largest = whole.iter().map(load).max().unwrap();
    let at = whole.iter().position(|e| load(e) == largest).unwrap();
    let caps = Capacities {
        buffer: largest - 1,
        interval: n,
        stage: n,
    };
    let mut told = Recorder::new();
    let r = run_test::<u64, SplitMix>(&args, n, &cells, caps, &mut told);
    assert_eq!(
        r.map(|run| run.total),
        Err(BinOverflow::CollisionTradeoffPass)
    );
    assert_eq!(told.events, whole[..at]);
}

#[test]
fn offsets_that_can_be_counted() {
    // The last of 4 threads starts at three quarters of the last repetition.
    let args = Args {
        reps: 4,
        t: 2,
        ..base()
    };
    let quarter = 1usize << 61;
    // 3 * 2^61 + 3 * 2^59 samples of two draws are before it.
    assert!(offsets_fit::<SplitMix>(&args, quarter, 4));
    assert!(offsets_fit::<Walker>(&args, quarter, 4));
    // One more repetition starts beyond what two draws per sample allow for.
    let more = Args { reps: 5, ..args };
    assert!(!offsets_fit::<SplitMix>(&more, quarter, 4));
    assert!(offsets_fit::<Walker>(&more, quarter, 4));
    // With a single thread only the start of the last repetition counts.
    let four = Args {
        reps: 4,
        t: 2,
        ..base()
    };
    assert!(offsets_fit::<SplitMix>(&four, 2_900_000_000_000_000_000, 1));
    assert!(!offsets_fit::<SplitMix>(&four, 2_900_000_000_000_000_000, 2));
    let none = Args { reps: 0, ..base() };
    assert!(offsets_fit::<SplitMix>(&none, usize::MAX, 1));
    let staged = Args {
        u: 10,
        decimate: Some(2),
        checkpoints: true,
        ..base()
    };
    assert!(offsets_fit::<SplitMix>(&staged, 3_000, 3));
}
