//! Tests of the generators, of single samples and of scans.

use coll_birth::cell::Cell;
use coll_birth::common::{
    gen_count_dispatch, gen_pass_dispatch, scan_count, scan_keep, scan_samples, BinOverflow,
    CellCount, GridParams,
};
use coll_birth::orbit::{gen_unit_contiguous, prescan_checkpoints, OrbitPartition};
use coll_birth::prng::{Incr, Orbit, Prng, SplitMix, WyRand};

/// A counter that has forgotten how to jump.
#[derive(Clone, Copy)]
struct Walker(u64);

impl Orbit for Walker {
    fn seeded(seed: u64) -> Self {
        Walker(seed)
    }

    fn step(self) -> Self {
        Walker(self.0.wrapping_add(1))
    }

    fn output(self) -> u64 {
        self.step().0.wrapping_mul(0x9e37_79b9_7f4a_7c15)
    }

    fn can_skip() -> bool {
        false
    }
}

impl Prng for Walker {
    fn new(seed: u64) -> Self {
        Walker(seed)
    }

    fn next_u64(&mut self) -> u64 {
        self.0 = self.0.wrapping_add(1);
        self.0.wrapping_mul(0x9e37_79b9_7f4a_7c15)
    }

    fn try_skip(&mut self, _n: u64) -> Result<(), ()> {
        Err(())
    }
}

fn grid(u: usize, t: usize, s: usize, d: usize, cells: &CellCount) -> GridParams<'_> {
    GridParams { u, t, s, d, cells }
}

// incr has analytic state: next_u64 does x += 1 then returns x, so a
// generator seeded at seed reaches state x = seed + n after n steps and its
// next output is seed + n + 1. That lets us verify prescan_checkpoints landed
// each snapshot exactly where a jump-by-(boundary*t) would, with a
// hand-computed ground truth (no try_skip in the assertions).
#[test]
fn prescan_lands_at_jump_targets() {
    let seed = 0x1234_5678_9abc_def0u64;
    let t = 3usize;
    let total = 1000usize;
    let boundaries = [0usize, 137, 500, 999];
    let (snaps, end) = prescan_checkpoints(Incr::new(seed), t, total, &boundaries);
    assert_eq!(snaps.len(), boundaries.len());
    for (k, &b) in boundaries.iter().enumerate() {
        let mut s = snaps[k];
        let expected = seed.wrapping_add((b * t) as u64).wrapping_add(1);
        assert_eq!(
            s.next_u64(),
            expected,
            "snapshot {k} at boundary {b} landed wrong"
        );
    }
    let mut e = end;
    let expected_end = seed.wrapping_add((total * t) as u64).wrapping_add(1);
    assert_eq!(e.next_u64(), expected_end, "chained end state landed wrong");
}

#[test]
fn prescan_and_jump_agree() {
    let boundaries = [0usize, 0, 5, 77, 100];
    let (snaps, end) = prescan_checkpoints(SplitMix::new(9), 4, 100, &boundaries);
    for (snap, b) in snaps.iter().zip(boundaries) {
        let mut jumped = SplitMix::new(9);
        assert_eq!(jumped.try_skip(4 * b as u64), Ok(()));
        assert_eq!(jumped.x, snap.x);
    }
    assert_eq!(end.x, snaps[4].x);
}

#[test]
fn outputs_of_the_generators() {
    let mut incr = Incr::new(u64::MAX);
    assert_eq!(incr.next_u64(), 0);
    assert_eq!(incr.next_u64(), 1);
    let mut splitmix = SplitMix::new(0);
    assert_eq!(splitmix.next_u64(), 0xe220_a839_7b1d_cdaf);
    assert_eq!(splitmix.next_u64(), 0x6e78_9e6a_a1b9_65f4);
    let mut splitmix = SplitMix::new(1_234_567);
    assert_eq!(splitmix.next_u64(), 6_457_827_717_110_365_317);
    assert_eq!(splitmix.next_u64(), 3_203_168_211_198_807_973);
    let mut wyrand = WyRand::new(0);
    let s = 0x2d35_8dcc_aa6c_78a5u64;
    let t = (s as u128) * ((s ^ 0x8bb8_4b93_962e_acc9) as u128);
    assert_eq!(wyrand.next_u64(), ((t >> 64) as u64) ^ (t as u64));
}

#[test]
fn jumps_are_repeated_draws() {
    for n in [0u64, 1, 2, 1000] {
        let (mut a, mut b) = (SplitMix::new(3), SplitMix::new(3));
        let (mut c, mut d) = (WyRand::new(3), WyRand::new(3));
        let (mut e, mut f) = (Incr::new(3), Incr::new(3));
        for _ in 0..n {
            a.next_u64();
            c.next_u64();
            e.next_u64();
        }
        assert!(b.try_skip(n).is_ok() && d.try_skip(n).is_ok() && f.try_skip(n).is_ok());
        assert_eq!((a.x, c.x, e.x), (b.x, d.x, f.x));
    }
}

#[test]
fn the_first_output_is_the_most_significant() {
    let cells = CellCount::power_of_two(16);
    // The outputs are 0x0100...00 and 0x0100...01.
    let mut prng = Incr::new(0x00ff_ffff_ffff_ffff);
    let g = grid(8, 2, 0, 0, &cells);
    assert_eq!(g.draw::<u64, Incr, 2, false>(&mut prng), 0x0101);
    // With the topmost 56 bits shifted out, they are 0x00 and 0x01 again.
    let mut prng = Incr::new(0x00ff_ffff_ffff_ffff);
    let g = grid(8, 2, 56, 0, &cells);
    assert_eq!(g.draw::<u32, Incr, 0, false>(&mut prng), 0x0001);
    assert_eq!(g.draw::<u128, Incr, 0, false>(&mut prng), 0x0203);
}

#[test]
fn whole_outputs() {
    let cells = CellCount::power_of_two(128);
    let g = grid(64, 2, 0, 0, &cells);
    let mut prng = Incr::new(6);
    assert_eq!(
        g.draw::<u128, Incr, 2, true>(&mut prng),
        (7u128 << 64) | 8
    );
}

#[test]
fn decimation_keeps_tuples_of_multiples() {
    let cells = CellCount::power_of_two(12);
    // Elements are the lowest byte of the outputs.
    let g = grid(8, 2, 56, 2, &cells);
    // 3, 4: the first is no multiple of 4.
    let mut prng = Incr::new(2);
    assert_eq!(g.draw_decimate_once::<u32, Incr, 0, false>(&mut prng), None);
    // With one dimension, 4 and 8 are kept.
    let one_cells = CellCount::power_of_two(6);
    let one = grid(8, 1, 56, 2, &one_cells);
    let mut prng = Incr::new(0);
    let kept: Vec<Option<u32>> = (0..8)
        .map(|_| one.draw_decimate_once::<u32, Incr, 1, false>(&mut prng))
        .collect();
    assert_eq!(
        kept,
        [None, None, None, Some(1), None, None, None, Some(2)]
    );
    let mut prng = Incr::new(3);
    assert_eq!(
        one.draw_candidate::<u32, Incr, 1, true, false>(&mut prng),
        (1, true)
    );
    assert!(!one.draw_candidate::<u32, Incr, 1, true, false>(&mut prng).1);
    let plain = one.draw_candidate::<u32, Incr, 1, false, false>(&mut prng);
    assert_eq!(plain, (6, true));
}

#[test]
fn samples_of_a_scan() {
    assert_eq!(scan_samples(1000, 3, 0), Some(1000));
    assert_eq!(scan_samples(1000, 3, 2), Some(64_000));
    assert_eq!(scan_samples(1, 1, 63), Some(1 << 63));
    assert_eq!(scan_samples(2, 1, 63), None);
    assert_eq!(scan_samples(0, 8, 8), None);
    assert_eq!(scan_samples(1, usize::MAX, 2), None);
}

#[test]
fn scans_keep_and_count_alike() {
    let cells = CellCount::power_of_two(12);
    let g = grid(8, 2, 0, 2, &cells);
    let n = 20_000;
    for pass in 0..4 {
        let count =
            scan_count::<u64, SplitMix, 2, true, false, true>(SplitMix::new(1), &g, n, pass, 2);
        let mut exact = vec![0u64; count];
        let mut prng = SplitMix::new(1);
        let kept = scan_keep::<u64, SplitMix, 2, true, false, true>(
            &mut prng,
            &g,
            &mut exact,
            n,
            pass,
            2,
            BinOverflow::TradeoffBin,
        );
        assert_eq!(kept, Ok(count));
        assert!(exact.iter().all(|x| x >> 10 == pass));
        let mut jumped = SplitMix::new(1);
        jumped.try_skip(2 * n as u64).unwrap();
        assert_eq!(prng.x, jumped.x);

        let mut short = vec![0u64; count - 1];
        let mut prng = SplitMix::new(1);
        let overflow = scan_keep::<u64, SplitMix, 2, true, false, true>(
            &mut prng,
            &g,
            &mut short,
            n,
            pass,
            2,
            BinOverflow::TradeoffBin,
        );
        assert_eq!(overflow, Err(BinOverflow::TradeoffBin));
    }
}

#[test]
fn dispatched_generation() {
    for t in 1..=9usize {
        let cells = CellCount::power_of_two(4 * t);
        let g = grid(6, t, 0, 2, &cells);
        for (b, decimating) in [(0usize, true), (2, true), (2, false), (0, false)] {
            let plain = grid(6, t, 0, 0, &cells);
            let params = if decimating { &g } else { &plain };
            let start = SplitMix::new(t as u64);
            let count = gen_count_dispatch::<u64, SplitMix>(start, params, 3000, 1, b, decimating, false);
            let mut buf = vec![0u64; 3000];
            let (used, end) = gen_pass_dispatch::<u64, SplitMix>(
                start, params, &mut buf, 3000, 1, b, decimating, false,
            )
            .unwrap();
            assert_eq!(used, count);
            let mut jumped = start;
            jumped.try_skip(3000 * t as u64).unwrap();
            assert_eq!(end.x, jumped.x);
            if b == 0 && !decimating {
                assert_eq!(used, 3000);
            }
        }
    }
}

#[test]
fn overflow_of_generated_passes() {
    let cells = CellCount::power_of_two(6);
    let g = grid(8, 1, 0, 2, &cells);
    let mut buf = vec![0u32; 5];
    let r = gen_pass_dispatch::<u32, SplitMix>(SplitMix::new(1), &g, &mut buf, 4000, 0, 0, true, false);
    assert!(matches!(r, Err(BinOverflow::ParallelDecimationChunk)));
    let r = gen_pass_dispatch::<u32, SplitMix>(SplitMix::new(1), &g, &mut buf, 4000, 0, 1, true, false);
    assert!(matches!(r, Err(BinOverflow::TradeoffBin)));
    let snapshots = [SplitMix::new(1), SplitMix::new(2)];
    let r = gen_unit_contiguous::<u32, SplitMix>(
        &mut buf, &snapshots, &g, &[4000, 10], 0, 0, true, false,
    );
    assert_eq!(r, Err(BinOverflow::ParallelGenerationUnit));
}

#[test]
fn ranges_are_contiguous() {
    for (cpus, total) in [(1usize, 10usize), (3, 10), (4, 12), (7, 3), (5, 0), (0, 4)] {
        let part: OrbitPartition<SplitMix> = OrbitPartition::new(1, cpus, total, 2);
        let n = part.num_cpus;
        assert_eq!(n, cpus.min(total).max(1));
        assert_eq!(part.start_sample(0), 0);
        for i in 0..n {
            assert_eq!(part.start_sample(i) + part.chunk(i), part.start_sample(i + 1));
        }
        assert_eq!(part.start_sample(n), total);
    }
}

#[test]
fn snapshots_by_walking_and_by_jumping() {
    let mut jumper: OrbitPartition<SplitMix> = OrbitPartition::new(77, 3, 100, 5);
    assert_eq!(jumper.split_desc(), "jump-ahead");
    let mut walker: OrbitPartition<Walker> = OrbitPartition::new(77, 3, 100, 5);
    assert_eq!(walker.split_desc(), "pre-scan");
    for rep in 1..=3usize {
        let jumped = jumper.rep_snapshots(rep);
        let walked = walker.rep_snapshots(rep);
        for i in 0..3 {
            let draws = (((rep - 1) * 100 + jumper.start_sample(i)) * 5) as u64;
            let mut expected = SplitMix::new(77);
            expected.try_skip(draws).unwrap();
            assert_eq!(jumped[i].x, expected.x);
            assert_eq!(walked[i].0, 77 + draws);
        }
    }
}

#[test]
fn contiguous_units_are_one_scan() {
    let cells = CellCount::power_of_two(12);
    let g = grid(8, 2, 0, 2, &cells);
    let total = 5000usize;
    let mut whole = vec![0u64; total];
    let (n, _) = gen_pass_dispatch::<u64, SplitMix>(
        SplitMix::new(4), &g, &mut whole, total, 1, 1, true, false,
    )
    .unwrap();
    for cpus in [1usize, 2, 3, 16] {
        let mut part: OrbitPartition<SplitMix> = OrbitPartition::new(4, cpus, total, 2);
        let snapshots = part.rep_snapshots(1);
        let lens: Vec<usize> = (0..cpus).map(|i| part.chunk(i)).collect();
        let mut buf = vec![0u64; n];
        let r = gen_unit_contiguous::<u64, SplitMix>(
            &mut buf, &snapshots, &g, &lens, 1, 1, true, false,
        );
        assert_eq!(r, Ok(n));
        assert_eq!(buf, whole[..n]);
    }
}

#[test]
fn cells_compute() {
    assert_eq!(u32::from_u64(7).append_bits(5, 3), 61);
    assert_eq!(<u64 as Cell>::zero().append_bits(u64::MAX, 64), u64::MAX);
    assert_eq!(1u128.append_bits(2, 64), (1u128 << 64) | 2);
    assert_eq!(0xabcdu64.high_bits(8), 0xab);
    assert_eq!(0xabcdu32.low_bits(8), 0xcd);
    assert_eq!(u32::MAX.low_bits(32), u32::MAX);
    assert_eq!(u128::MAX.low_bits(100), (1u128 << 100) - 1);
    assert_eq!(u128::from_u128(5).plus(6), 11);
    assert_eq!(9u32.minus(4), 5);
    assert!(3u64.at_most(3) && !4u64.at_most(3) && 3u64.equals(3));
}

#[test]
fn cells_sort() {
    let mut words: Vec<u64> = (0..5000u64).map(|i| i.wrapping_mul(0x9e37_79b9_7f4a_7c15)).collect();
    let mut narrow: Vec<u32> = words.iter().map(|w| (w >> 32) as u32).collect();
    let mut wide: Vec<u128> = words.iter().map(|w| (*w as u128) << 64 | 1).collect();
    let mut again = words.clone();
    let mut expected = words.clone();
    expected.sort_unstable();
    u64::sort_mt(&mut words);
    u64::sort_st(&mut again);
    u32::sort_mt(&mut narrow);
    u128::sort_mt(&mut wide);
    assert_eq!(words, expected);
    assert_eq!(again, expected);
    let narrow_expected: Vec<u32> = expected.iter().map(|w| (w >> 32) as u32).collect();
    assert_eq!(narrow, narrow_expected);
    let wide_expected: Vec<u128> = expected.iter().map(|w| (*w as u128) << 64 | 1).collect();
    assert_eq!(wide, wide_expected);
}

#[test]
fn units_write_nothing_past_their_points() {
    let cells = CellCount::power_of_two(2);
    let g = grid(2, 1, 62, 0, &cells);
    let mut buf = [9u32; 6];
    let r = gen_unit_contiguous::<u32, Incr>(
        &mut buf,
        &[Incr::new(0), Incr::new(4)],
        &g,
        &[4, 4],
        1,
        1,
        false,
        false,
    );
    assert_eq!(r, Ok(4));
    assert_eq!(buf, [2, 3, 2, 3, 9, 9]);
}

#[test]
fn plain_generation_leaves_the_rest_alone() {
    let cells = CellCount::power_of_two(2);
    let g = grid(2, 1, 62, 0, &cells);
    let mut buf = [9u32; 6];
    let (len, end) =
        gen_pass_dispatch::<u32, Incr>(Incr::new(0), &g, &mut buf, 4, 0, 0, false, false).unwrap();
    assert_eq!((len, end.x), (4, 4));
    assert_eq!(buf, [1, 2, 3, 0, 9, 9]);
}
