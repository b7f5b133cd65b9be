//! Tests of the sequential runners on a reasonably uniform generator.

use coll_birth::birthday::{run_birthday, run_birthday_tradeoff};
use coll_birth::collision::{
    num_checkpoints, run_collision, run_collision_decimate, run_collision_tradeoff, Tally,
};
use coll_birth::common::{BinOverflow, CellCount, GridParams};
use coll_birth::prng::{Incr, Prng, SplitMix};
use coll_birth::progress::{Event, Recorder};

fn grid(u: usize, t: usize, d: usize, cells: &CellCount) -> GridParams<'_> {
    GridParams {
        u,
        t,
        s: 0,
        d,
        cells,
    }
}

/// The tallies that a recorder was told of, none of them that of a repetition.
fn tallies(recorder: &Recorder) -> Vec<Tally> {
    let tally = |event: &Event| match event {
        Event::Part(tally) => *tally,
        Event::Repetition(_) => panic!("a single run has no repetitions"),
    };
    recorder.events.iter().map(tally).collect()
}

/// Balls-into-bins headroom.
fn buffer_size(points: usize, partition_bits: usize) -> usize {
    if partition_bits == 0 {
        return points;
    }
    let mean = points as f64 / 2.0f64.powi(partition_bits as i32);
    let ln_n = (partition_bits as f64) * std::f64::consts::LN_2;
    let l = ln_n + 1000.0 * std::f64::consts::LN_10;
    let dev = l / 3.0 + (l * l / 9.0 + 2.0 * mean * l).sqrt();
    ((mean + dev).ceil() as usize).min(points)
}

/// The accepted points of a scan, straight from the definition.
fn points_of(mut prng: SplitMix, g: &GridParams, samples: usize) -> Vec<u128> {
    let mut points = Vec::new();
    for _ in 0..samples {
        let mut index = 0u128;
        let mut keep = true;
        for _ in 0..g.t {
            let e = (prng.next_u64() << g.s) >> (64 - g.u);
            keep &= e & ((1u64 << g.d) - 1) == 0;
            let high = (e >> g.d) as u128;
            index = if g.u - g.d == 64 && g.t == 1 {
                high
            } else {
                (index << (g.u - g.d)) | high
            };
        }
        if keep {
            points.push(index);
        }
    }
    points
}

fn collisions_of(mut points: Vec<u128>) -> usize {
    points.sort_unstable();
    points.windows(2).filter(|w| w[0] == w[1]).count()
}

// Summing collisions over 2^b tradeoff passes equals a single run on the
// same point stream (decimation off).
#[test]
fn tradeoff_sum_equals_single_run_no_decimation() {
    let (u, t, b, d) = (8usize, 2usize, 4usize, 0usize);
    let cells = CellCount::from_u128(1u128 << (u * t)); // 2^16
    let g = grid(u, t, d, &cells);

    let passes = 1usize << b; // 2^4 = 16
    let m = 1_500usize;
    let points = m * passes; // 24_000 > sqrt(2^16) -> collisions occur

    let start = SplitMix::new(2024);

    let mut single = start;
    let mut buf_single = vec![0u64; points];
    let c_single = run_collision::<u64, SplitMix, 0, false>(&mut single, &g, &mut buf_single);

    let mut traded = start;
    let cap = buffer_size(points, b);
    let mut buf_traded = vec![0u64; cap];
    let mut progress = Recorder::new();
    let c_traded = run_collision_tradeoff::<u64, SplitMix, 0, false>(
        &mut traded,
        &g,
        &mut buf_traded,
        points,
        b,
        None,
        &mut progress,
    );

    assert_eq!(
        Ok(c_single),
        c_traded,
        "tradeoff passes must sum to the single-run count"
    );
    assert_eq!(tallies(&progress).len(), passes);
    assert_eq!(tallies(&progress).iter().map(|p| p.points).sum::<usize>(), points);
    assert_eq!(single.x, traded.x);
    assert_eq!(c_single.0, collisions_of(points_of(start, &g, points)));
}

// Same exactness property with decimation on (d > 0): both runs decimate the
// same stream, so kept points and their collisions match.
#[test]
fn tradeoff_sum_equals_single_run_with_decimation() {
    let (u, t, b, d) = (10usize, 2usize, 4usize, 2usize);
    // effective cell space after decimation: 2^((u-d)*t) = 2^16
    let cells = CellCount::from_u128(1u128 << ((u - d) * t));
    let g = grid(u, t, d, &cells);

    let passes = 1usize << b;
    let m = 1_500usize;
    let points = m * passes;

    let start = SplitMix::new(7);

    // Fixed-sample: both runs scan scan_len = points * 2^(t*d) samples; the
    // kept count is variable, so buffers carry balls-into-bins headroom.
    let scan_len = points << (t * d);

    let mut single = start;
    let mut buf_single = vec![0u64; buffer_size(scan_len, t * d)];
    let c_single = run_collision_decimate::<u64, SplitMix, 0, false>(
        &mut single,
        &g,
        &mut buf_single,
        points,
        false,
        0,
        &mut Recorder::new(),
    );

    let mut traded = start;
    let cap = buffer_size(scan_len, t * d + b);
    let mut buf_traded = vec![0u64; cap];
    let c_traded = run_collision_tradeoff::<u64, SplitMix, 0, true>(
        &mut traded,
        &g,
        &mut buf_traded,
        points,
        b,
        None,
        &mut Recorder::new(),
    );

    assert_eq!(c_single, c_traded);
    let kept = points_of(start, &g, scan_len);
    assert_eq!(c_single, Ok((collisions_of(kept.clone()), kept.len())));
}

// The two-level birthday tradeoff visits the same point multiset as a single
// sweep, so its summed per-class spacing-collision count equals plain birthday.
#[test]
fn birthday_tradeoff_matches_plain_no_decimation() {
    let (u, t, b, d) = (8usize, 2usize, 4usize, 0usize);
    let cells = CellCount::from_u128(1u128 << (u * t)); // 2^16
    let g = grid(u, t, d, &cells);
    let points = 4_000usize;
    let start = SplitMix::new(12_345);

    let mut plain = start;
    let mut buf_plain = vec![0u64; points];
    let c_plain =
        run_birthday::<u64, SplitMix, 0, false, false>(&mut plain, &g, &mut buf_plain, points);

    let mut traded = start;
    let mut class_buf = vec![0u64; buffer_size(points, b)];
    let c_traded = run_birthday_tradeoff::<u64, SplitMix, 0, false, false>(
        &mut traded,
        &g,
        &mut class_buf,
        buffer_size(points, b),
        points,
        b,
        None,
        &mut Recorder::new(),
    );
    assert_eq!(
        c_plain, c_traded,
        "birthday tradeoff must match the plain birthday count"
    );
    assert_eq!(plain.x, traded.x);

    let mut sorted = points_of(start, &g, points);
    sorted.sort_unstable();
    let mut spacings: Vec<u128> = sorted.windows(2).map(|w| w[1] - w[0]).collect();
    spacings.push((1 << 16) - sorted[points - 1] + sorted[0]);
    assert_eq!(c_plain, Ok((collisions_of(spacings), points)));
}

// The wrap-around is computed via cells - 1, so an N-bit type works even when
// cells == 2^N exactly (no strictly-wider type needed). At the 2^32 boundary
// u32 and u64 storage must produce identical counts.
#[test]
fn birthday_width_boundary_u32_matches_u64() {
    let (u, t) = (16usize, 2usize);
    let cells = CellCount::from_u128(1u128 << 32); // exactly 2^32
    let g = grid(u, t, 0, &cells);
    let points = 50_000usize; // lambda = n^3/4k ~ 7276, so collisions occur

    let mut p32 = SplitMix::new(42);
    let mut buf32 = vec![0u32; points];
    let c32 = run_birthday::<u32, SplitMix, 0, false, false>(&mut p32, &g, &mut buf32, points)
        .unwrap();

    let mut p64 = SplitMix::new(42);
    let mut buf64 = vec![0u64; points];
    let c64 = run_birthday::<u64, SplitMix, 0, false, false>(&mut p64, &g, &mut buf64, points)
        .unwrap();

    assert!(c32.0 > 0, "boundary test should observe spacing collisions");
    assert_eq!(c32, c64, "u32 and u64 storage must agree at cells == 2^32");
}

// cells == 2^128 in u128 storage: the largest possible grid. Both runners must
// complete and agree (the counts are ~0 at this density - the value of the
// test is exercising the wrap arithmetic at the type limit).
#[test]
fn birthday_2_pow_128_cells_tradeoff_matches_plain() {
    let (u, t, b) = (64usize, 2usize, 2usize);
    let cells = CellCount::power_of_two(128);
    let g = grid(u, t, 0, &cells);
    let points = 4_000usize;
    let start = SplitMix::new(7);

    let mut plain = start;
    let mut buf_plain = vec![0u128; points];
    let c_plain =
        run_birthday::<u128, SplitMix, 0, false, true>(&mut plain, &g, &mut buf_plain, points);

    let mut traded = start;
    let mut class_buf = vec![0u128; buffer_size(points, b)];
    let c_traded = run_birthday_tradeoff::<u128, SplitMix, 0, false, true>(
        &mut traded,
        &g,
        &mut class_buf,
        buffer_size(points, b),
        points,
        b,
        None,
        &mut Recorder::new(),
    );
    assert_eq!(c_plain, c_traded);
}

// Same property with decimation on: both runs decimate the same stream, so the
// accepted points (and therefore the spacings) match.
#[test]
fn birthday_tradeoff_matches_plain_with_decimation() {
    let (u, t, b, d) = (10usize, 2usize, 4usize, 2usize);
    let cells = CellCount::from_u128(1u128 << ((u - d) * t)); // 2^16 effective
    let g = grid(u, t, d, &cells);
    let points = 4_000usize;
    let scan_len = points << (t * d);
    let start = SplitMix::new(99);

    let mut plain = start;
    let mut buf_plain = vec![0u64; buffer_size(scan_len, t * d)];
    let c_plain =
        run_birthday::<u64, SplitMix, 0, true, false>(&mut plain, &g, &mut buf_plain, points);

    let mut traded = start;
    let mut class_buf = vec![0u64; buffer_size(points, b)];
    let c_traded = run_birthday_tradeoff::<u64, SplitMix, 0, true, false>(
        &mut traded,
        &g,
        &mut class_buf,
        buffer_size(scan_len, t * d + b),
        points,
        b,
        None,
        &mut Recorder::new(),
    );
    assert_eq!(c_plain, c_traded);
}

#[test]
fn specialized_dimensions_agree_with_the_general_one() {
    let cells = CellCount::power_of_two(24);
    let g = grid(8, 3, 0, &cells);
    let mut general = SplitMix::new(5);
    let mut special = SplitMix::new(5);
    let mut a = vec![0u32; 3000];
    let mut b = vec![0u32; 3000];
    let x = run_collision::<u32, SplitMix, 0, false>(&mut general, &g, &mut a);
    let y = run_collision::<u32, SplitMix, 3, false>(&mut special, &g, &mut b);
    assert_eq!(x, y);
    assert_eq!(a, b);
    assert!(a.windows(2).all(|w| w[0] <= w[1]));
}

#[test]
fn full_outputs_agree_with_the_general_reading() {
    let cells = CellCount::power_of_two(64);
    let g = grid(64, 1, 0, &cells);
    let mut general = SplitMix::new(5);
    let mut special = SplitMix::new(5);
    let mut a = vec![0u64; 1000];
    let mut b = vec![0u64; 1000];
    run_collision::<u64, SplitMix, 1, false>(&mut general, &g, &mut a);
    run_collision::<u64, SplitMix, 1, true>(&mut special, &g, &mut b);
    assert_eq!(a, b);
}

#[test]
fn single_passes_recombine() {
    let cells = CellCount::power_of_two(16);
    let g = grid(8, 2, 0, &cells);
    let (points, b) = (20_000, 3);
    let start = SplitMix::new(1);
    let mut whole = start;
    let mut progress = Recorder::new();
    let mut buf = vec![0u32; points];
    let total = run_collision_tradeoff::<u32, SplitMix, 2, false>(
        &mut whole,
        &g,
        &mut buf,
        points,
        b,
        None,
        &mut progress,
    )
    .unwrap();
    let mut sum = (0, 0);
    for k in 0..8 {
        let mut one = start;
        let mut tally = Recorder::new();
        let r = run_collision_tradeoff::<u32, SplitMix, 2, false>(
            &mut one,
            &g,
            &mut buf,
            points,
            b,
            Some(k),
            &mut tally,
        )
        .unwrap();
        assert_eq!(one.x, whole.x);
        assert_eq!(tallies(&tally), [tallies(&progress)[k as usize]]);
        sum = (sum.0 + r.0, sum.1 + r.1);
    }
    assert_eq!(sum, total);
}

#[test]
fn single_classes_recombine() {
    let cells = CellCount::power_of_two(16);
    let g = grid(8, 2, 0, &cells);
    let (points, b) = (3_000, 2);
    let start = SplitMix::new(3);
    let run = |pass: Option<u64>| {
        let mut prng = start;
        let mut class_buf = vec![0u64; points];
        run_birthday_tradeoff::<u64, SplitMix, 2, false, false>(
            &mut prng,
            &g,
            &mut class_buf,
            points,
            points,
            b,
            pass,
            &mut Recorder::new(),
        )
        .unwrap()
    };
    let total = run(None);
    let classes: Vec<(usize, usize)> = (0..4).map(|k| run(Some(k))).collect();
    assert_eq!(classes.iter().map(|c| c.0).sum::<usize>(), total.0);
    assert!(classes.iter().all(|c| c.1 == points));
}

#[test]
fn checkpoints_do_not_change_the_count() {
    let (u, t, d) = (12usize, 1usize, 4usize);
    let cells = CellCount::power_of_two(8);
    let g = grid(u, t, d, &cells);
    let points = 500;
    let scan_len = points << (t * d);
    let start = SplitMix::new(11);
    let kept = points_of(start, &g, scan_len);

    let mut plain = start;
    let mut buf = vec![0u32; scan_len];
    let a = run_collision_decimate::<u32, SplitMix, 1, false>(
        &mut plain, &g, &mut buf, points, false, 0, &mut Recorder::new(),
    );
    let mut staged = start;
    let mut progress = Recorder::new();
    let b = run_collision_decimate::<u32, SplitMix, 1, false>(
        &mut staged, &g, &mut buf, points, true, scan_len, &mut progress,
    );
    assert_eq!(a, b);
    assert_eq!(a, Ok((collisions_of(kept.clone()), kept.len())));
    assert_eq!(plain.x, staged.x);
    assert_eq!(tallies(&progress).len(), 4);
    for (i, tally) in tallies(&progress).iter().enumerate() {
        let so_far = points_of(start, &g, scan_len * (i + 1) / 4);
        assert_eq!(
            *tally,
            Tally {
                points: so_far.len(),
                collisions: collisions_of(so_far)
            }
        );
    }
}

#[test]
fn numbers_of_checkpoints() {
    assert_eq!(num_checkpoints(1, 100), 1);
    assert_eq!(num_checkpoints(2, 100), 2);
    assert_eq!(num_checkpoints(3, 100), 2);
    assert_eq!(num_checkpoints(7, 100), 11);
    assert_eq!(num_checkpoints(7, 5), 5);
    assert_eq!(num_checkpoints(62, usize::MAX), 1 << 31);
    assert_eq!(num_checkpoints(63, usize::MAX), 3_037_000_499);
}

#[test]
fn overflowing_bins_are_named() {
    let cells = CellCount::power_of_two(16);
    let g = grid(8, 2, 0, &cells);
    let points = 10_000;
    let start = SplitMix::new(17);

    let mut prng = start;
    let mut small = vec![0u64; 10];
    let r = run_collision_tradeoff::<u64, SplitMix, 0, false>(
        &mut prng, &g, &mut small, points, 4, None, &mut Recorder::new(),
    );
    assert_eq!(r, Err(BinOverflow::CollisionTradeoffPass));
    assert_eq!(prng.x, start.x);

    let mut large = vec![0u64; points];
    let r = run_birthday_tradeoff::<u64, SplitMix, 0, false, false>(
        &mut prng, &g, &mut large, 10, points, 4, None, &mut Recorder::new(),
    );
    assert_eq!(r, Err(BinOverflow::BirthdayValueInterval));
    let r = run_birthday_tradeoff::<u64, SplitMix, 0, false, false>(
        &mut prng, &g, &mut small, points, points, 4, None, &mut Recorder::new(),
    );
    assert_eq!(r, Err(BinOverflow::BirthdaySpacingsClass));
    assert_eq!(prng.x, start.x);

    let decimated_cells = CellCount::power_of_two(12);
    let decimated = grid(8, 2, 2, &decimated_cells);
    let mut prng = start;
    let r = run_collision_decimate::<u64, SplitMix, 0, false>(
        &mut prng, &decimated, &mut small, points, false, 0, &mut Recorder::new(),
    );
    assert_eq!(r, Err(BinOverflow::DecimatedCollisionRun));
    let mut prng = start;
    let r = run_collision_decimate::<u64, SplitMix, 0, false>(
        &mut prng, &decimated, &mut large, points, true, 10, &mut Recorder::new(),
    );
    assert_eq!(r, Err(BinOverflow::DecimationCheckpointStage));
    let mut prng = start;
    let r = run_collision_decimate::<u64, SplitMix, 0, false>(
        &mut prng, &decimated, &mut small, points, true, 4 * points, &mut Recorder::new(),
    );
    assert_eq!(r, Err(BinOverflow::DecimationCheckpointAccumulator));
    let mut prng = start;
    let r = run_birthday::<u64, SplitMix, 0, true, false>(&mut prng, &decimated, &mut small, points);
    assert_eq!(r, Err(BinOverflow::DecimatedBirthdayRun));
}

/// The lowest two bits of a counter that starts at 1.
fn low_bits(d: usize, cells: &CellCount) -> GridParams<'_> {
    GridParams {
        u: 2,
        t: 1,
        s: 62,
        d,
        cells,
    }
}

#[test]
fn the_last_pass_is_left_sorted() {
    let cells = CellCount::power_of_two(2);
    let g = low_bits(0, &cells);
    let mut prng = Incr::new(0);
    let mut buf = [0u32; 4];
    let r = run_collision_tradeoff::<u32, Incr, 1, false>(
        &mut prng,
        &g,
        &mut buf,
        8,
        1,
        Some(1),
        &mut Recorder::new(),
    );
    assert_eq!(r, Ok((2, 4)));
    assert_eq!(buf, [2, 2, 3, 3]);
    assert_eq!(prng.next_u64(), 9);

    let mut prng = Incr::new(0);
    let mut buf = [9u32; 6];
    let r = run_collision_tradeoff::<u32, Incr, 1, false>(
        &mut prng,
        &g,
        &mut buf,
        7,
        1,
        None,
        &mut Recorder::new(),
    );
    // The samples are 1, 2, 3, 0, 1, 2, 3: three are low, then four are high.
    assert_eq!(r, Ok((3, 7)));
    assert_eq!(buf, [2, 2, 3, 3, 9, 9]);
}

#[test]
fn shorter_passes_leave_the_tail_of_longer_ones() {
    let cells = CellCount::power_of_two(2);
    let g = low_bits(0, &cells);
    let mut prng = Incr::new(2);
    let mut buf = [9u32; 5];
    // The samples are 3, 0, 1, 2, 3, 0, 1: four are low, then three are high.
    let r = run_collision_tradeoff::<u32, Incr, 1, false>(
        &mut prng,
        &g,
        &mut buf,
        7,
        1,
        None,
        &mut Recorder::new(),
    );
    assert_eq!(r, Ok((3, 7)));
    assert_eq!(buf, [2, 3, 3, 1, 9]);
}

#[test]
fn rejected_samples_are_not_stored() {
    let cells = CellCount::power_of_two(1);
    let g = low_bits(1, &cells);
    // The samples are 1, 2, 3, 0, 1, 2, 3, 0; the even ones are kept, halved.
    for checkpoints in [false, true] {
        let mut prng = Incr::new(0);
        let mut buf = [9u32; 8];
        let r = run_collision_decimate::<u32, Incr, 1, false>(
            &mut prng,
            &g,
            &mut buf,
            4,
            checkpoints,
            8,
            &mut Recorder::new(),
        );
        assert_eq!(r, Ok((2, 4)));
        assert_eq!(buf, [0, 0, 1, 1, 9, 9, 9, 9]);
    }
    let mut prng = Incr::new(0);
    let mut buf = [9u32; 8];
    let r = run_birthday::<u32, Incr, 1, true, false>(&mut prng, &g, &mut buf, 4);
    // The spacings of 0, 0, 1, 1 on two cells are 1, 0, 1, 0.
    assert_eq!(r, Ok((2, 4)));
    assert_eq!(buf, [0, 0, 1, 1, 9, 9, 9, 9]);
}

#[test]
fn spacings_are_left_sorted() {
    let cells = CellCount::power_of_two(8);
    let g = GridParams {
        u: 8,
        t: 1,
        s: 56,
        d: 0,
        cells: &cells,
    };
    let mut prng = Incr::new(9);
    let mut buf = [77u64; 6];
    let r = run_birthday::<u64, Incr, 1, false, false>(&mut prng, &g, &mut buf, 4);
    // The points are 10, 11, 12, 13.
    assert_eq!(r, Ok((2, 4)));
    assert_eq!(buf, [1, 1, 1, 253, 77, 77]);

    let mut prng = Incr::new(9);
    let mut class_buf = [77u64; 6];
    let r = run_birthday_tradeoff::<u64, Incr, 1, false, false>(
        &mut prng,
        &g,
        &mut class_buf,
        4,
        4,
        1,
        None,
        &mut Recorder::new(),
    );
    // All spacings are odd.
    assert_eq!(r, Ok((2, 4)));
    assert_eq!(class_buf, [1, 1, 1, 253, 77, 77]);
}

#[test]
fn coinciding_points_leave_a_stand_in() {
    let cells = CellCount::power_of_two(8);
    let g = GridParams {
        u: 8,
        t: 1,
        s: 0,
        d: 0,
        cells: &cells,
    };
    // A counter never leaves the first cell.
    let mut prng = Incr::new(0);
    let mut buf = [77u64; 4];
    let r = run_birthday::<u64, Incr, 1, false, false>(&mut prng, &g, &mut buf, 3);
    assert_eq!(r, Ok((1, 3)));
    assert_eq!(buf, [0, 0, 1, 77]);
}

#[test]
fn an_overflow_keeps_the_passes_before_it() {
    let cells = CellCount::power_of_two(2);
    let g = low_bits(0, &cells);
    let mut prng = Incr::new(0);
    let mut buf = [0u32; 3];
    let mut progress = Recorder::new();
    let r = run_collision_tradeoff::<u32, Incr, 1, false>(
        &mut prng,
        &g,
        &mut buf,
        7,
        1,
        None,
        &mut progress,
    );
    assert_eq!(r, Err(BinOverflow::CollisionTradeoffPass));
    let first = Tally {
        points: 3,
        collisions: 1,
    };
    assert_eq!(tallies(&progress), [first]);
}
