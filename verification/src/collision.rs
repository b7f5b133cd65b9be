//! The collision test: the sequential runners (plain, tradeoff, decimation).

use crate::cell;
use crate::cell::{Cell, Value};
use crate::cli::passes_of;
use crate::common;
use crate::common::{fill, scan_samples, scan_store, BinOverflow, GridParams};
use crate::counting;
use crate::merging::{count_adjacent_equals, merge_into};
use crate::prng;
use crate::prng::{Orbit, Prng};
use crate::progress;
use crate::progress::{Event, Log, Reporter};
use crate::sampling;
use crate::sampling::Shape;
use vstd::arithmetic::div_mod::*;
use vstd::arithmetic::mul::*;
use vstd::arithmetic::power2::*;
use vstd::multiset::Multiset;
use vstd::prelude::*;

verus! {

broadcast use {vstd::multiset::group_multiset_axioms, vstd::seq_lib::group_to_multiset_ensures};

/// The points that were examined, and the collisions among them.
#[derive(Clone, Copy, PartialEq, Eq, Structural, Debug)]
pub struct Tally {
    pub points: usize,
    pub collisions: usize,
}

/// The tally of some points.
pub open spec fn tally_of(m: Multiset<nat>) -> Tally {
    Tally { points: m.len() as usize, collisions: counting::collisions(m) as usize }
}

/// The passes that are run: one, or all of them.
pub open spec fn pass_range(b: usize, pass: Option<u64>) -> (nat, nat) {
    match pass {
        Some(k) => (k as nat, k as nat + 1),
        None => (0, pow2(b as nat)),
    }
}

/// Sorts the front of a buffer and counts the collisions in it.
pub fn sort_and_count<T: Cell>(buf: &mut [T], len: usize) -> (count: usize)
    requires
        len <= old(buf)@.len(),
    ensures
        final(buf)@.len() == old(buf)@.len(),
        cell::vals(final(buf)@.take(len as int)) == counting::in_ascending_order(
            cell::vals(old(buf)@.take(len as int)),
        ),
        final(buf)@.skip(len as int) == old(buf)@.skip(len as int),
        count == counting::collisions(cell::vals(old(buf)@.take(len as int)).to_multiset()),
{
    let ghost b0 = buf@;
    let (front, back) = buf.split_at_mut(len);
    T::sort_mt(front);
    let count: usize = count_adjacent_equals(front);
    proof {
        counting::lemma_ascending_unique(cell::vals(front@), cell::vals(b0.take(len as int)));
        assert(buf@.take(len as int) =~= front@);
        assert(buf@.skip(len as int) =~= b0.skip(len as int));
    }
    count
}

/// Runs a collision test on as many points as `buf` holds.
///
/// Returns the collision count and the number of points examined; `buf` is left with the points
/// in ascending order.
pub fn run_collision<T: Cell, P: Prng, const DIM: usize, const FULL: bool>(
    prng: &mut P,
    params: &GridParams,
    buf: &mut [T],
) -> (r: (usize, usize))
    requires
        params.fits::<T>(false),
        params.specialized(DIM, FULL),
    ensures
        final(buf)@.len() == old(buf)@.len(),
        ({
            let g = params.shape(false);
            let n = old(buf)@.len();
            let points = sampling::kept(*old(prng), g, n);
            &&& r.0 == counting::collisions(points.to_multiset())
            &&& r.1 == n == points.len()
            &&& cell::vals(final(buf)@) == counting::in_ascending_order(points)
            &&& *final(prng) == sampling::sample_start(*old(prng), g, n)
        }),
{
    let n: usize = buf.len();
    fill::<T, P, DIM, FULL>(prng, params, buf, n);
    let c: usize = sort_and_count(buf, n);
    assert(buf@.take(n as int) =~= buf@);
    (c, n)
}

/// The tallies of the passes `lo..hi`, in their order.
pub open spec fn pass_tallies(
    m: Multiset<nat>,
    key: spec_fn(nat) -> nat,
    lo: nat,
    hi: nat,
) -> Seq<Tally> {
    Seq::new((hi - lo) as nat, |i: int| tally_of(counting::class(m, key, (lo + i) as nat)))
}

/// What a buffer of numbers holds after the passes `lo..hi` over `points`: each pass leaves its own
/// points at the front, in ascending order, and the places behind them as they were.
pub open spec fn left_by_passes(
    before: Seq<nat>,
    points: Seq<nat>,
    key: spec_fn(nat) -> nat,
    lo: nat,
    hi: nat,
) -> Seq<nat>
    decreases hi - lo,
{
    if hi <= lo {
        before
    } else {
        let k = (hi - 1) as nat;
        let front = counting::in_ascending_order(points.filter(counting::has_key(key, k)));
        front + left_by_passes(before, points, key, lo, k).skip(front.len() as int)
    }
}

/// The points of each of the passes `lo..hi` fit a buffer of length `cap`.
pub open spec fn passes_fit(
    m: Multiset<nat>,
    key: spec_fn(nat) -> nat,
    lo: nat,
    hi: nat,
    cap: nat,
) -> bool {
    forall|k: nat| lo <= k < hi ==> (#[trigger] counting::class(m, key, k)).len() <= cap
}

/// One of the passes `lo..hi` does not fit a buffer of length `cap`, and the tallies of those
/// before the first such pass come after those of `before`.
pub open spec fn stops_at_pass(
    m: Multiset<nat>,
    key: spec_fn(nat) -> nat,
    lo: nat,
    hi: nat,
    cap: nat,
    before: Log,
    after: Log,
) -> bool {
    exists|k: nat|
        {
            &&& lo <= k < hi
            &&& (#[trigger] counting::class(m, key, k)).len() > cap
            &&& passes_fit(m, key, lo, k, cap)
            &&& after == before + progress::parts(pass_tallies(m, key, lo, k))
        }
}

/// The samples of a scan can be counted.
pub open spec fn scan_fits(points: usize, t: usize, d: usize) -> bool {
    points * pow2((t * d) as nat) <= usize::MAX && t * d < usize::BITS
}

/// The samples of a scan.
pub open spec fn scan_of(points: usize, t: usize, d: usize) -> nat {
    points as nat * pow2((t * d) as nat)
}

/// Every cell index lies in one of the 2^`b` intervals.
pub proof fn lemma_interval_exists(g: Shape, b: nat, x: nat)
    requires
        b <= g.index_bits(),
        x < pow2(g.index_bits()),
    ensures
        common::interval_of(g, b)(x) < pow2(b),
{
    let w = (g.index_bits() - b) as nat;
    lemma_pow2_pos(w);
    lemma_pow2_adds(w, b);
    lemma_multiply_divide_lt(x as int, pow2(w) as int, pow2(b) as int);
}

/// The tradeoff is exact: over all the 2^`b` intervals, the collisions and the points of the passes
/// add up to those of one run on the same samples, with or without decimation.
pub proof fn law_tradeoff_exact<P: Orbit>(p: P, g: Shape, n: nat, b: nat)
    requires
        g.valid(),
        b <= g.index_bits(),
    ensures
        ({
            let points = sampling::kept(p, g, n);
            let key = common::interval_of(g, b);
            &&& counting::class_collisions(points.to_multiset(), key, 0, pow2(b))
                == counting::collisions(points.to_multiset())
            &&& counting::class_points(points.to_multiset(), key, 0, pow2(b)) == points.len()
        }),
{
    let points = sampling::kept(p, g, n);
    let m = points.to_multiset();
    let key = common::interval_of(g, b);
    sampling::lemma_kept_bound(p, g, n);
    assert forall|x: nat| #[trigger] m.count(x) > 0 implies key(x) < pow2(b) by {
        let i = choose|i: int| 0 <= i < points.len() && points[i] == x;
        lemma_interval_exists(g, b, points[i]);
    }
    counting::law_classes_add_up(m, key, pow2(b));
    assert(points.len() == m.len());
}

/// Some of the passes have no more points and collisions than there are points.
pub proof fn lemma_passes_bounded<P: Orbit>(p: P, g: Shape, n: nat, b: nat, lo: nat, hi: nat)
    requires
        g.valid(),
        b <= g.index_bits(),
        lo <= hi <= pow2(b),
    ensures
        ({
            let m = sampling::kept(p, g, n).to_multiset();
            let key = common::interval_of(g, b);
            &&& counting::class_points(m, key, lo, hi) <= n
            &&& counting::class_collisions(m, key, lo, hi) <= n
        }),
{
    let m = sampling::kept(p, g, n).to_multiset();
    let key = common::interval_of(g, b);
    law_tradeoff_exact(p, g, n, b);
    counting::lemma_classes_cut(m, key, 0, lo, pow2(b));
    counting::lemma_classes_cut(m, key, lo, hi, pow2(b));
    counting::lemma_distinct_bound(m);
    sampling::lemma_kept_bound(p, g, n);
}

/// A buffer of which only the front has changed.
pub(crate) proof fn lemma_overlaid<T: Value>(before: Seq<T>, after: Seq<T>, len: int)
    requires
        0 <= len <= before.len() == after.len(),
        after.skip(len) == before.skip(len),
    ensures
        cell::vals(after) == cell::vals(after.take(len)) + cell::vals(before).skip(len),
{
    assert(after =~= after.take(len) + after.skip(len));
    assert(cell::vals(after) =~= cell::vals(after.take(len)) + cell::vals(after.skip(len)));
    assert(cell::vals(before.skip(len)) =~= cell::vals(before).skip(len));
}

/// Runs a collision test using a space/time tradeoff on the top bits.
///
/// The cell index is partitioned into 2^*b* contiguous value intervals by its top *b* bits; pass
/// *k* keeps the points falling in interval *k*. Equal points share all bits, hence land in the
/// same interval, so the passes are disjoint and their collision counts sum to the exact total
/// while only about `points` / 2^*b* points are resident at once.
///
/// Returns the collision count and the number of points kept, over all passes or the one that is
/// asked for; the tally of each pass is appended to `progress`, and the points of the last pass are
/// left at the front of `buf`, in ascending order. Where a pass keeps more points than `buf` holds,
/// that is an error, and the generator is left as it was.
pub fn run_collision_tradeoff<T: Cell, P: Prng, const DIM: usize, const DECIMATE: bool>(
    prng: &mut P,
    params: &GridParams,
    buf: &mut [T],
    points: usize,
    b: usize,
    pass: Option<u64>,
    progress: &mut impl Reporter,
) -> (r: Result<(usize, usize), BinOverflow>)
    requires
        params.fits::<T>(DECIMATE),
        params.specialized(DIM, false),
        scan_fits(points, params.t, params.d),
        1 <= b <= params.shape(DECIMATE).index_bits(),
        b < 64,
        pass matches Some(k) ==> k < pow2(b as nat),
    ensures
        final(buf)@.len() == old(buf)@.len(),
        ({
            let g = params.shape(DECIMATE);
            let n = scan_of(points, params.t, params.d);
            let all = sampling::kept(*old(prng), g, n);
            let m = all.to_multiset();
            let key = common::interval_of(g, b as nat);
            let (lo, hi) = pass_range(b, pass);
            let cap = old(buf)@.len();
            match r {
                Ok((collisions, kept)) => {
                    &&& collisions == counting::class_collisions(m, key, lo, hi)
                    &&& kept == counting::class_points(m, key, lo, hi)
                    &&& passes_fit(m, key, lo, hi, cap)
                    &&& final(progress).told() == old(progress).told() + progress::parts(
                        pass_tallies(m, key, lo, hi),
                    )
                    &&& cell::vals(final(buf)@) == left_by_passes(
                        cell::vals(old(buf)@),
                        all,
                        key,
                        lo,
                        hi,
                    )
                    &&& ({
                        let last = all.filter(counting::has_key(key, (hi - 1) as nat));
                        cell::vals(final(buf)@.take(last.len() as int))
                            == counting::in_ascending_order(last)
                    })
                    &&& *final(prng) == sampling::sample_start(*old(prng), g, n)
                },
                Err(e) => {
                    &&& e == BinOverflow::CollisionTradeoffPass
                    &&& stops_at_pass(
                        m,
                        key,
                        lo,
                        hi,
                        cap,
                        old(progress).told(),
                        final(progress).told(),
                    )
                    &&& *final(prng) == *old(prng)
                },
            }
        }),
{
    let ghost p = *prng;
    let ghost g = params.shape(DECIMATE);
    let ghost n = scan_of(points, params.t, params.d);
    let ghost all = sampling::kept(p, g, n);
    let ghost m = all.to_multiset();
    let ghost key = common::interval_of(g, b as nat);
    let ghost cap = buf@.len();
    let ghost log0 = progress.told();
    let ghost vals0 = cell::vals(buf@);
    let num_passes: u64 = passes_of(b);
    let (pass_lo, pass_hi): (u64, u64) = match pass {
        Some(k) => (k, k + 1),
        None => (0, num_passes),
    };
    let ghost lo = pass_lo as nat;
    let ghost hi = pass_hi as nat;
    let scan_len: usize = match scan_samples(points, params.t, params.d) {
        Some(len) => len,
        None => 0,
    };
    let mut end_state = *prng;
    let mut total_coll: usize = 0;
    let mut total_len: usize = 0;
    let mut k: u64 = pass_lo;
    assert(pass_tallies(m, key, lo, lo) =~= Seq::<Tally>::empty());
    while k < pass_hi
        invariant
            pass_lo <= k <= pass_hi,
            pass_hi <= pow2(b as nat),
            lo == pass_lo,
            hi == pass_hi,
            (lo, hi) == pass_range(b, pass),
            params.fits::<T>(DECIMATE),
            params.specialized(DIM, false),
            1 <= b <= g.index_bits(),
            b < 64,
            p == *old(prng),
            *prng == p,
            g == params.shape(DECIMATE),
            n == scan_of(points, params.t, params.d),
            n == scan_len,
            all == sampling::kept(p, g, n),
            m == all.to_multiset(),
            key == common::interval_of(g, b as nat),
            cap == buf@.len(),
            cap == old(buf)@.len(),
            log0 == old(progress).told(),
            passes_fit(m, key, lo, k as nat, cap),
            total_coll == counting::class_collisions(m, key, lo, k as nat),
            total_len == counting::class_points(m, key, lo, k as nat),
            progress.told() == log0 + progress::parts(pass_tallies(m, key, lo, k as nat)),
            vals0 == cell::vals(old(buf)@),
            cell::vals(buf@) == left_by_passes(vals0, all, key, lo, k as nat),
            k > pass_lo ==> ({
                let last = all.filter(counting::has_key(key, (k - 1) as nat));
                cell::vals(buf@.take(last.len() as int)) == counting::in_ascending_order(last)
            }),
            k > pass_lo ==> end_state == sampling::sample_start(p, g, n),
        decreases pass_hi - k,
    {
        let mut local = *prng;
        let ghost kn = k as nat;
        let ghost this = counting::class(m, key, kn);
        let ghost before = buf@;
        proof {
            lemma_pow2_pos(b as nat);
            counting::lemma_filter_is_class(all, key, kn);
            lemma_passes_bounded(p, g, n, b as nat, lo, kn + 1);
        }
        match scan_store::<T, P, DIM, DECIMATE, false, true>(
            &mut local,
            params,
            buf,
            scan_len,
            k,
            b,
            BinOverflow::CollisionTradeoffPass,
        ) {
            Err(e) => {
                return Err(e);
            },
            Ok(len) => {
                let c: usize = sort_and_count(buf, len);
                assert(c == counting::collisions(this));
                total_coll += c;
                total_len += len;
                progress.part_done(Tally { points: len, collisions: c });
                proof {
                    assert(pass_tallies(m, key, lo, kn + 1) =~= pass_tallies(m, key, lo, kn).push(
                        tally_of(this),
                    ));
                    assert(progress.told() =~= log0 + progress::parts(
                        pass_tallies(m, key, lo, kn + 1),
                    ));
                    lemma_overlaid(before, buf@, len as int);
                    counting::lemma_in_ascending_order(all.filter(counting::has_key(key, kn)));
                    assert forall|j: nat| lo <= j < kn + 1 implies (#[trigger] counting::class(
                        m,
                        key,
                        j,
                    )).len() <= cap by {}
                }
                end_state = local;
            },
        }
        k += 1;
    }
    *prng = end_state;
    Ok((total_coll, total_len))
}

/// `r` is the integer square root of 2^`d`.
pub open spec fn is_root(r: nat, d: nat) -> bool {
    r * r <= pow2(d) < (r + 1) * (r + 1)
}

/// The integer square root of 2^`d`.
pub open spec fn root_of(d: nat) -> nat {
    choose|r: nat| is_root(r, d)
}

/// In how many stages a decimated scan of `n` samples is reported: the integer square root of
/// 2^`d`, but no more than there are samples.
pub open spec fn stages_of(d: nat, n: nat) -> nat {
    if root_of(d) > n {
        n
    } else {
        root_of(d)
    }
}

/// There is only one integer square root.
proof fn lemma_root_unique(a: nat, b: nat, d: nat)
    requires
        is_root(a, d),
        is_root(b, d),
    ensures
        a == b,
{
    if a < b {
        assert((a + 1) * (a + 1) <= b * b) by (nonlinear_arith)
            requires
                a + 1 <= b,
        ;
    } else if b < a {
        assert((b + 1) * (b + 1) <= a * a) by (nonlinear_arith)
            requires
                b + 1 <= a,
        ;
    }
}

/// The greatest number whose square is at most 2^`d`.
fn root_of_power(d: usize) -> (r: usize)
    requires
        d < 64,
    ensures
        is_root(r as nat, d as nat),
        r >= 1,
{
    let n: u64 = passes_of(d);
    let mut lo: u64 = 1;
    let mut hi: u64 = 0x1_0000_0000;
    proof {
        assert(lo * lo <= n < hi * hi) by (nonlinear_arith)
            requires
                lo == 1,
                hi == 0x1_0000_0000,
                1 <= n <= 0xffff_ffff_ffff_ffff,
        ;
    }
    while hi - lo > 1
        invariant
            1 <= lo < hi <= 0x1_0000_0000,
            lo * lo <= n < hi * hi,
        decreases hi - lo,
    {
        let mid: u64 = lo + (hi - lo) / 2;
        assert(mid * mid <= 0xffff_ffff * 0xffff_ffff) by (nonlinear_arith)
            requires
                0 <= mid <= 0xffff_ffff,
        ;
        if mid * mid <= n {
            lo = mid;
        } else {
            hi = mid;
        }
    }
    assert(lo + 1 == hi);
    lo as usize
}

/// In how many stages a decimated scan of `n` samples is reported.
pub fn num_checkpoints(d: usize, n: usize) -> (stages: usize)
    requires
        d < 64,
        n >= 1,
    ensures
        1 <= stages <= n,
        stages == stages_of(d as nat, n as nat),
{
    let root: usize = root_of_power(d);
    proof {
        lemma_root_unique(root as nat, root_of(d as nat), d as nat);
    }
    if root > n {
        n
    } else {
        root
    }
}

/// The samples that are scanned by the end of stage `k` of `stages`.
pub open spec fn stage_end(n: nat, k: nat, stages: nat) -> nat {
    (n * k) / stages
}

/// Later stages end later, and the last one ends with the scan.
pub proof fn lemma_stage_ends(n: nat, k: nat, stages: nat)
    requires
        1 <= k <= stages,
    ensures
        stage_end(n, (k - 1) as nat, stages) <= stage_end(n, k, stages) <= n,
        stage_end(n, 0, stages) == 0,
        stage_end(n, stages, stages) == n,
{
    assert(n * (k - 1) <= n * k <= n * stages) by (nonlinear_arith)
        requires
            1 <= k <= stages,
    ;
    lemma_div_is_ordered(n * (k - 1), (n * k) as int, stages as int);
    lemma_div_is_ordered((n * k) as int, (n * stages) as int, stages as int);
    lemma_mul_is_commutative(n as int, stages as int);
    lemma_div_multiples_vanish(n as int, stages as int);
    assert(n * 0 == 0);
    lemma_div_basics_1(stages as int);
}

/// The points of stage `k`.
pub open spec fn stage_points<P: Orbit>(p: P, g: Shape, n: nat, k: nat, stages: nat) -> Seq<nat> {
    let start = stage_end(n, (k - 1) as nat, stages);
    sampling::kept(
        sampling::sample_start(p, g, start),
        g,
        (stage_end(n, k, stages) - start) as nat,
    )
}

/// Stage `k` fits its own buffer, and the points up to it fit the buffer of all points.
pub open spec fn stage_fits<P: Orbit>(
    p: P,
    g: Shape,
    n: nat,
    k: nat,
    stages: nat,
    cap: nat,
    stage_cap: nat,
) -> bool {
    &&& stage_points(p, g, n, k, stages).len() <= stage_cap
    &&& sampling::kept(p, g, stage_end(n, k, stages)).len() <= cap
}

/// The tallies at the ends of the first `k` stages.
pub open spec fn checkpoint_tallies<P: Orbit>(
    p: P,
    g: Shape,
    n: nat,
    k: nat,
    stages: nat,
) -> Seq<Tally> {
    Seq::new(
        k,
        |i: int|
            tally_of(sampling::kept(p, g, stage_end(n, (i + 1) as nat, stages)).to_multiset()),
    )
}

/// The last checkpoint is the end of the test: its tally is that of all points.
pub proof fn law_last_checkpoint_is_the_whole<P: Orbit>(p: P, g: Shape, n: nat, stages: nat)
    requires
        stages >= 1,
    ensures
        checkpoint_tallies(p, g, n, stages, stages).last() == tally_of(
            sampling::kept(p, g, n).to_multiset(),
        ),
{
    lemma_stage_ends(n, stages, stages);
}

/// The points up to the end of a stage are those up to its start, then its own.
pub proof fn lemma_stage_adds<P: Orbit>(p: P, g: Shape, n: nat, k: nat, stages: nat)
    requires
        1 <= k <= stages,
    ensures
        sampling::kept(p, g, stage_end(n, k, stages)) == sampling::kept(
            p,
            g,
            stage_end(n, (k - 1) as nat, stages),
        ) + stage_points(p, g, n, k, stages),
        sampling::sample_start(
            sampling::sample_start(p, g, stage_end(n, (k - 1) as nat, stages)),
            g,
            (stage_end(n, k, stages) - stage_end(n, (k - 1) as nat, stages)) as nat,
        ) == sampling::sample_start(p, g, stage_end(n, k, stages)),
{
    lemma_stage_ends(n, k, stages);
    let a = stage_end(n, (k - 1) as nat, stages);
    let z = (stage_end(n, k, stages) - a) as nat;
    sampling::law_kept_concat(p, g, a, z);
    prng::law_advance_adds(p, a * g.t, z * g.t);
    assert(a * g.t + z * g.t == (a + z) * g.t) by (nonlinear_arith);
}

/// Runs a collision test by decimating the samples, keeping only those tuples in which every
/// coordinate has its lower *d* bits equal to zero.
///
/// A fixed budget of `points` · 2^(*t* · *d*) samples is scanned. With `checkpoints`, the scan is
/// split into equally spaced stages: the points of each are sorted in a buffer of `stage_cap`
/// places and merged into those so far, and the tally so far is appended to `progress`.
///
/// Returns the collision count and the number of points kept, which are left at the front of `buf`
/// in ascending order, or which buffer they overflow.
pub fn run_collision_decimate<T: Cell, P: Prng, const DIM: usize, const FULL: bool>(
    prng: &mut P,
    params: &GridParams,
    buf: &mut [T],
    points: usize,
    checkpoints: bool,
    stage_cap: usize,
    progress: &mut impl Reporter,
) -> (r: Result<(usize, usize), BinOverflow>)
    requires
        params.fits::<T>(true),
        params.specialized(DIM, FULL),
        scan_fits(points, params.t, params.d),
        checkpoints ==> points >= 1,
    ensures
        final(buf)@.len() == old(buf)@.len(),
        ({
            let g = params.shape(true);
            let n = scan_of(points, params.t, params.d);
            let all = sampling::kept(*old(prng), g, n);
            let cap = old(buf)@.len();
            match r {
                Ok((collisions, kept)) => {
                    &&& collisions == counting::collisions(all.to_multiset())
                    &&& kept == all.len() <= cap
                    &&& cell::vals(final(buf)@.take(kept as int)) == counting::in_ascending_order(
                        all,
                    )
                    &&& final(buf)@.skip(kept as int) == old(buf)@.skip(kept as int)
                    &&& *final(prng) == sampling::sample_start(*old(prng), g, n)
                },
                Err(_) => exists|i: nat|
                    i <= n && *final(prng) == #[trigger] sampling::sample_start(
                        *old(prng),
                        g,
                        i,
                    ),
            }
        }),
        !checkpoints ==> {
            let g = params.shape(true);
            let n = scan_of(points, params.t, params.d);
            let all = sampling::kept(*old(prng), g, n);
            &&& r is Err <==> all.len() > old(buf)@.len()
            &&& r matches Err(e) ==> e == BinOverflow::DecimatedCollisionRun
            &&& final(progress).told() == old(progress).told()
        },
        checkpoints ==> {
            let g = params.shape(true);
            let n = scan_of(points, params.t, params.d);
            checkpoints_report(
                r,
                *old(prng),
                g,
                n,
                stages_of(params.d as nat, n),
                old(buf)@.len(),
                stage_cap as nat,
                old(progress).told(),
                final(progress).told(),
            )
        },
{
    let ghost p = *prng;
    let ghost g = params.shape(true);
    let ghost n = scan_of(points, params.t, params.d);
    let ghost all = sampling::kept(p, g, n);
    let scan_len: usize = match scan_samples(points, params.t, params.d) {
        Some(len) => len,
        None => 0,
    };
    if !checkpoints {
        match scan_store::<T, P, DIM, true, FULL, false>(
            prng,
            params,
            buf,
            scan_len,
            0,
            0,
            BinOverflow::DecimatedCollisionRun,
        ) {
            Err(e) => Err(e),
            Ok(len) => {
                let c: usize = sort_and_count(buf, len);
                Ok((c, len))
            },
        }
    } else {
        proof {
            lemma_pow2_pos((params.t * params.d) as nat);
            assert(scan_len >= 1) by (nonlinear_arith)
                requires
                    scan_len == points * pow2((params.t * params.d) as nat),
                    points >= 1,
                    pow2((params.t * params.d) as nat) >= 1,
            ;
        }
        let stages: usize = num_checkpoints(params.d, scan_len);
        run_checkpoints::<T, P, DIM, FULL>(
            prng,
            params,
            buf,
            scan_len,
            stages,
            stage_cap,
            progress,
        )
    }
}

/// What a run with checkpoints reports: the tally at the end of each stage, or the first stage that
/// does not fit, and which buffer it overflows.
pub open spec fn checkpoints_report<P: Orbit>(
    r: Result<(usize, usize), BinOverflow>,
    p: P,
    g: Shape,
    n: nat,
    stages: nat,
    cap: nat,
    stage_cap: nat,
    before: Log,
    after: Log,
) -> bool {
    match r {
        Ok(_) => {
            &&& forall|k: nat|
                1 <= k <= stages ==> #[trigger] stage_fits(p, g, n, k, stages, cap, stage_cap)
            &&& after == before + progress::parts(checkpoint_tallies(p, g, n, stages, stages))
        },
        Err(e) => stops_at_stage(p, g, n, stages, cap, stage_cap, e, before, after),
    }
}

/// One of the stages does not fit, which buffer the first such stage overflows, and the tallies of
/// those before it, which come after those of `before`.
pub open spec fn stops_at_stage<P: Orbit>(
    p: P,
    g: Shape,
    n: nat,
    stages: nat,
    cap: nat,
    stage_cap: nat,
    bin: BinOverflow,
    before: Log,
    after: Log,
) -> bool {
    exists|k: nat|
        {
            &&& 1 <= k <= stages
            &&& !#[trigger] stage_fits(p, g, n, k, stages, cap, stage_cap)
            &&& forall|j: nat|
                1 <= j < k ==> #[trigger] stage_fits(p, g, n, j, stages, cap, stage_cap)
            &&& bin == (if stage_points(p, g, n, k, stages).len() > stage_cap {
                BinOverflow::DecimationCheckpointStage
            } else {
                BinOverflow::DecimationCheckpointAccumulator
            })
            &&& after == before + progress::parts(
                checkpoint_tallies(p, g, n, (k - 1) as nat, stages),
            )
        }
}

/// [`run_collision_decimate`] with checkpoints.
fn run_checkpoints<T: Cell, P: Prng, const DIM: usize, const FULL: bool>(
    prng: &mut P,
    params: &GridParams,
    buf: &mut [T],
    scan_len: usize,
    stages: usize,
    stage_cap: usize,
    progress: &mut impl Reporter,
) -> (r: Result<(usize, usize), BinOverflow>)
    requires
        params.fits::<T>(true),
        params.specialized(DIM, FULL),
        1 <= stages <= scan_len,
    ensures
        final(buf)@.len() == old(buf)@.len(),
        ({
            let g = params.shape(true);
            let n = scan_len as nat;
            let all = sampling::kept(*old(prng), g, n);
            let cap = old(buf)@.len();
            match r {
                Ok((collisions, kept)) => {
                    &&& collisions == counting::collisions(all.to_multiset())
                    &&& kept == all.len() <= cap
                    &&& cell::vals(final(buf)@.take(kept as int)) == counting::in_ascending_order(
                        all,
                    )
                    &&& final(buf)@.skip(kept as int) == old(buf)@.skip(kept as int)
                    &&& *final(prng) == sampling::sample_start(*old(prng), g, n)
                },
                Err(_) => exists|i: nat|
                    i <= n && *final(prng) == #[trigger] sampling::sample_start(
                        *old(prng),
                        g,
                        i,
                    ),
            }
        }),
        checkpoints_report(
            r,
            *old(prng),
            params.shape(true),
            scan_len as nat,
            stages as nat,
            old(buf)@.len(),
            stage_cap as nat,
            old(progress).told(),
            final(progress).told(),
        ),
{
    let ghost p = *prng;
    let ghost g = params.shape(true);
    let ghost n = scan_len as nat;
    let ghost st = stages as nat;
    let ghost cap = buf@.len();
    let ghost log0 = progress.told();
    let mut aux: Vec<T> = vec![T::zero(); stage_cap];
    let mut len: usize = 0;
    let mut scanned: usize = 0;
    let mut c: usize = 0;
    let mut done: usize = 0;
    proof {
        lemma_stage_ends(n, 1, st);
        assert(0 * g.t == 0);
        assert(cell::vals(buf@.take(0)) =~= Seq::<nat>::empty());
        assert(checkpoint_tallies(p, g, n, 0, st) =~= Seq::<Tally>::empty());
    }
    while done < stages
        invariant
            done <= stages,
            1 <= stages <= scan_len,
            n == scan_len,
            st == stages,
            params.fits::<T>(true),
            params.specialized(DIM, FULL),
            g == params.shape(true),
            p == *old(prng),
            cap == buf@.len(),
            cap == old(buf)@.len(),
            log0 == old(progress).told(),
            aux@.len() == stage_cap,
            scanned == stage_end(n, done as nat, st),
            *prng == sampling::sample_start(p, g, scanned as nat),
            len == sampling::kept(p, g, scanned as nat).len() <= cap,
            counting::ascending(cell::vals(buf@.take(len as int))),
            cell::vals(buf@.take(len as int)).to_multiset() == sampling::kept(
                p,
                g,
                scanned as nat,
            ).to_multiset(),
            buf@.skip(len as int) == old(buf)@.skip(len as int),
            done > 0 ==> c == counting::collisions(
                sampling::kept(p, g, scanned as nat).to_multiset(),
            ),
            forall|j: nat|
                1 <= j <= done ==> #[trigger] stage_fits(p, g, n, j, st, cap, stage_cap as nat),
            progress.told() == log0 + progress::parts(checkpoint_tallies(p, g, n, done as nat, st)),
        decreases stages - done,
    {
        let k: usize = done + 1;
        let ghost kn = k as nat;
        proof {
            lemma_stage_ends(n, kn, st);
            lemma_stage_adds(p, g, n, kn, st);
            assert(0 <= scan_len * k <= u128::MAX) by (nonlinear_arith)
                requires
                    0 <= scan_len <= u64::MAX,
                    0 <= k <= u64::MAX,
            ;
        }
        let target: usize = (scan_len as u128 * k as u128 / stages as u128) as usize;
        assert(target == stage_end(n, kn, st));
        let stage: usize = target - scanned;
        let ghost start = *prng;
        let got: usize = match scan_store::<T, P, DIM, true, FULL, false>(
            prng,
            params,
            aux.as_mut_slice(),
            stage,
            0,
            0,
            BinOverflow::DecimationCheckpointStage,
        ) {
            Err(e) => {
                proof {
                    let i = choose|i: nat|
                        i <= stage && *prng == #[trigger] sampling::sample_start(start, g, i);
                    prng::law_advance_adds(p, scanned as nat * g.t, i * g.t);
                    assert(scanned as nat * g.t + i * g.t == (scanned as nat + i) * g.t)
                        by (nonlinear_arith);
                    assert(*prng == sampling::sample_start(p, g, scanned as nat + i));
                    assert(!stage_fits(p, g, n, kn, st, cap, stage_cap as nat));
                }
                return Err(e);
            },
            Ok(got) => got,
        };
        let ghost mine = stage_points(p, g, n, kn, st);
        let ghost up_to = sampling::kept(p, g, target as nat);
        let _ = sort_and_count(aux.as_mut_slice(), got);
        if got > buf.len() - len {
            proof {
                assert(*prng == sampling::sample_start(p, g, target as nat));
                assert(!stage_fits(p, g, n, kn, st, cap, stage_cap as nat));
            }
            return Err(BinOverflow::DecimationCheckpointAccumulator);
        }
        let ghost before = buf@;
        let part: &[T] = vstd::slice::slice_subrange(aux.as_slice(), 0, got);
        proof {
            assert(part@ =~= aux@.take(got as int));
            counting::lemma_in_ascending_order(mine);
        }
        merge_into(buf, len, part);
        proof {
            let old_points = sampling::kept(p, g, scanned as nat);
            vstd::seq_lib::lemma_multiset_commutative(old_points, mine);
            assert(up_to.to_multiset() == cell::vals(buf@.take(len + got)).to_multiset());
            assert(before.skip(len + got) =~= before.skip(len as int).skip(got as int));
            assert(old(buf)@.skip(len + got) =~= old(buf)@.skip(len as int).skip(got as int));
        }
        len += got;
        scanned = target;
        let front: &[T] = vstd::slice::slice_subrange(&*buf, 0, len);
        assert(front@ =~= buf@.take(len as int));
        c = count_adjacent_equals(front);
        progress.part_done(Tally { points: len, collisions: c });
        proof {
            assert(up_to.len() == up_to.to_multiset().len());
            counting::lemma_distinct_bound(up_to.to_multiset());
            assert(checkpoint_tallies(p, g, n, kn, st) =~= checkpoint_tallies(
                p,
                g,
                n,
                (kn - 1) as nat,
                st,
            ).push(tally_of(up_to.to_multiset())));
            assert(progress.told() =~= log0 + progress::parts(checkpoint_tallies(p, g, n, kn, st)));
            assert(stage_fits(p, g, n, kn, st, cap, stage_cap as nat));
        }
        done = k;
    }
    proof {
        lemma_stage_ends(n, st, st);
        counting::lemma_ascending_unique(
            cell::vals(buf@.take(len as int)),
            sampling::kept(p, g, n),
        );
    }
    Ok((c, len))
}

/// The pass that is asked for is run, and no other; where none is asked for, all the 2^`b` are.
pub proof fn law_passes_that_are_run(b: usize, pass: Option<u64>, k: nat)
    ensures
        ({
            let (lo, hi) = pass_range(b, pass);
            lo <= k < hi <==> match pass {
                Some(only) => k == only,
                None => k < pow2(b as nat),
            }
        }),
{
}

/// The tally of some points counts them, and those that fall on a cell that is taken.
pub proof fn law_tally_counts(points: Seq<nat>)
    requires
        points.len() <= usize::MAX,
    ensures
        tally_of(points.to_multiset()).points == points.len(),
        tally_of(points.to_multiset()).collisions + points.to_set().len() == points.len(),
{
    counting::law_collisions_and_taken_cells(points);
    assert(points.len() == points.to_multiset().len());
}

/// A class of points by a key has the points with that key, in any order.
pub proof fn law_pass_is_a_filter(
    points: Seq<nat>,
    key: spec_fn(nat) -> nat,
    k: nat,
    inside: spec_fn(nat) -> bool,
)
    requires
        forall|x: nat| #[trigger] inside(x) <==> key(x) == k,
    ensures
        counting::class(points.to_multiset(), key, k) == points.filter(inside).to_multiset(),
        counting::class(points.to_multiset(), key, k).len() == points.filter(inside).len(),
{
    let has = counting::has_key(key, k);
    assert forall|x: nat| #[trigger] has(x) == inside(x) by {}
    assert(has =~= inside);
    counting::lemma_filter_is_class(points, key, k);
}

/// The tallies of passes are those of their points, pass by pass.
pub proof fn law_pass_tallies(
    points: Seq<nat>,
    key: spec_fn(nat) -> nat,
    lo: nat,
    hi: nat,
    k: nat,
    inside: spec_fn(nat) -> bool,
)
    requires
        lo <= k < hi,
        forall|x: nat| #[trigger] inside(x) <==> key(x) == k,
        points.len() <= usize::MAX,
    ensures
        ({
            let tallies = pass_tallies(points.to_multiset(), key, lo, hi);
            let part = points.filter(inside);
            &&& tallies.len() == hi - lo
            &&& tallies[k - lo].points == part.len()
            &&& tallies[k - lo].collisions + part.to_set().len() == part.len()
        }),
{
    law_pass_is_a_filter(points, key, k, inside);
    points.lemma_filter_len(inside);
    law_tally_counts(points.filter(inside));
}

/// Passes fit a buffer if and only if none of them has more points than the buffer has places.
pub proof fn law_passes_fit(
    points: Seq<nat>,
    key: spec_fn(nat) -> nat,
    lo: nat,
    hi: nat,
    cap: nat,
)
    ensures
        forall|k: nat, x: nat| #[trigger] counting::has_key(key, k)(x) <==> key(x) == k,
        passes_fit(points.to_multiset(), key, lo, hi, cap) <==> forall|k: nat|
            lo <= k < hi ==> (#[trigger] points.filter(counting::has_key(key, k))).len() <= cap,
{
    let m = points.to_multiset();
    assert forall|k: nat|
        (#[trigger] counting::class(m, key, k)).len() == points.filter(
            counting::has_key(key, k),
        ).len() by {
        counting::lemma_filter_is_class(points, key, k);
    }
    if passes_fit(m, key, lo, hi, cap) {
        assert forall|k: nat| lo <= k < hi implies (#[trigger] points.filter(
            counting::has_key(key, k),
        )).len() <= cap by {
            assert(counting::class(m, key, k).len() <= cap);
        }
    }
    if forall|k: nat|
        lo <= k < hi ==> (#[trigger] points.filter(counting::has_key(key, k))).len() <= cap {
        assert forall|k: nat| lo <= k < hi implies (#[trigger] counting::class(m, key, k)).len()
            <= cap by {
            assert(points.filter(counting::has_key(key, k)).len() <= cap);
        }
    }
}

/// After some passes over a buffer, a place holds what the last pass that reached it has put there,
/// and what it held before where none did.
pub proof fn law_places_left_by_passes(
    before: Seq<nat>,
    points: Seq<nat>,
    key: spec_fn(nat) -> nat,
    lo: nat,
    hi: nat,
    i: int,
)
    requires
        lo <= hi,
        0 <= i < before.len(),
        forall|k: nat|
            lo <= k < hi ==> (#[trigger] points.filter(counting::has_key(key, k))).len()
                <= before.len(),
    ensures
        left_by_passes(before, points, key, lo, hi).len() == before.len(),
        (forall|k: nat|
            lo <= k < hi ==> (#[trigger] points.filter(counting::has_key(key, k))).len() <= i)
            ==> left_by_passes(before, points, key, lo, hi)[i] == before[i],
        forall|k: nat|
            {
                &&& lo <= k < hi
                &&& (#[trigger] points.filter(counting::has_key(key, k))).len() > i
                &&& forall|j: nat|
                    k < j < hi ==> (#[trigger] points.filter(counting::has_key(key, j))).len() <= i
            } ==> left_by_passes(before, points, key, lo, hi)[i] == counting::in_ascending_order(
                points.filter(counting::has_key(key, k)),
            )[i],
    decreases hi - lo,
{
    if lo < hi {
        let last = (hi - 1) as nat;
        law_places_left_by_passes(before, points, key, lo, last, i);
        let mine = points.filter(counting::has_key(key, last));
        counting::lemma_in_ascending_order(mine);
    }
}

/// The number of samples of a scan: as many as points without decimation, and each decimation bit
/// multiplies it by 2^`t`.
pub proof fn law_scan_grows_with_decimation(points: usize, t: usize, d: usize)
    ensures
        scan_of(points, t, 0) == points,
        d < usize::MAX ==> scan_of(points, t, (d + 1) as usize) == scan_of(points, t, d) * pow2(
            t as nat,
        ),
        scan_of(points, t, d) == points * pow2((t * d) as nat),
        scan_fits(points, t, d) <==> scan_of(points, t, d) <= usize::MAX && t * d < usize::BITS,
{
    lemma2_to64();
    assert(t * 0 == 0);
    assert(points as nat * 1 == points);
    if d < usize::MAX {
        assert(0 <= t * d) by (nonlinear_arith);
        assert(t * (d + 1) == t * d + t) by (nonlinear_arith);
        lemma_pow2_adds((t * d) as nat, t as nat);
        lemma_mul_is_associative(
            points as int,
            pow2((t * d) as nat) as int,
            pow2(t as nat) as int,
        );
    }
}

/// There is an integer square root of every number.
proof fn lemma_root_exists(n: nat) -> (r: nat)
    ensures
        r * r <= n < (r + 1) * (r + 1),
    decreases n,
{
    if n == 0 {
        assert(0 * 0 == 0);
        assert(1 * 1 == 1);
        0
    } else {
        let r = lemma_root_exists((n - 1) as nat);
        if (r + 1) * (r + 1) <= n {
            assert((r + 1) * (r + 1) < (r + 2) * (r + 2)) by (nonlinear_arith);
            r + 1
        } else {
            r
        }
    }
}

/// A decimated scan is reported in as many stages as the square root of 2^`d`, rounded down, says,
/// or in one per sample where there are fewer samples.
pub proof fn law_number_of_stages(d: nat, n: nat)
    ensures
        ({
            let stages = stages_of(d, n);
            &&& stages <= n
            &&& stages * stages <= pow2(d)
            &&& stages == n || pow2(d) < (stages + 1) * (stages + 1)
        }),
{
    let r = lemma_root_exists(pow2(d));
    assert(is_root(r, d));
    let root = root_of(d);
    assert(is_root(root, d));
    if root > n {
        assert(n * n <= root * root) by (nonlinear_arith)
            requires
                n <= root,
        ;
    }
}

/// The stages are evenly spaced: stage `k` ends at `k` / `stages` of the scan, rounded down.
pub proof fn law_stages_are_even(n: nat, k: nat, stages: nat)
    requires
        1 <= stages,
    ensures
        stage_end(n, k, stages) * stages <= n * k < (stage_end(n, k, stages) + 1) * stages,
{
    let q = stage_end(n, k, stages) as int;
    lemma_fundamental_div_mod((n * k) as int, stages as int);
    lemma_mod_bound((n * k) as int, stages as int);
    lemma_mul_is_commutative(stages as int, q);
    lemma_mul_is_distributive_add_other_way(stages as int, q, 1);
}

/// The points of a stage are those of the samples from the end of the previous one to its own end.
pub proof fn law_stage_points<P: Orbit>(p: P, g: Shape, n: nat, k: nat, stages: nat)
    requires
        1 <= k <= stages,
    ensures
        sampling::kept(p, g, (n * (k - 1)) as nat / stages) + stage_points(p, g, n, k, stages)
            == sampling::kept(p, g, (n * k) / stages),
{
    lemma_stage_adds(p, g, n, k, stages);
}

/// The tally at a checkpoint is that of all the points up to it.
pub proof fn law_checkpoint_tallies<P: Orbit>(
    p: P,
    g: Shape,
    n: nat,
    k: nat,
    stages: nat,
    i: nat,
)
    requires
        i < k <= stages,
        g.t >= 1,
        g.d < g.u,
        g.u + g.s <= 64,
        n <= usize::MAX,
    ensures
        ({
            let tallies = checkpoint_tallies(p, g, n, k, stages);
            let points = sampling::kept(p, g, (n * (i + 1)) / stages);
            &&& tallies.len() == k
            &&& tallies[i as int].points == points.len()
            &&& tallies[i as int].collisions + points.to_set().len() == points.len()
        }),
{
    lemma_stage_ends(n, i + 1, stages);
    sampling::lemma_kept_bound(p, g, (n * (i + 1)) / stages);
    law_tally_counts(sampling::kept(p, g, (n * (i + 1)) / stages));
}

/// The points between the bounds of an interval are the class of the interval.
pub proof fn lemma_between_is_class(points: Seq<nat>, g: Shape, b: nat, k: nat)
    requires
        g.d <= g.u,
        b <= g.t * (g.u - g.d),
    ensures
        ({
            let width = pow2((g.t * (g.u - g.d) - b) as nat);
            let class = counting::class(points.to_multiset(), common::interval_of(g, b), k);
            &&& common::between(points, width, k).to_multiset() == class
            &&& common::between(points, width, k).len() == class.len()
        }),
{
    let width = pow2((g.t * (g.u - g.d) - b) as nat);
    let key = common::interval_of(g, b);
    let inside = |x: nat| k * width <= x && x < (k + 1) * width;
    assert forall|x: nat| #[trigger] inside(x) <==> key(x) == k by {
        common::law_interval_bounds(g, b, x, k);
    }
    law_pass_is_a_filter(points, key, k, inside);
}

/// The passes that are run count what falls on a taken cell among the points in their intervals:
/// all points, or those from `k` · 2^(*w* − `b`) up to the next interval where only pass `k` is
/// run.
pub proof fn law_passes_count_their_intervals<P: Orbit>(
    p: P,
    g: Shape,
    n: nat,
    b: usize,
    pass: Option<u64>,
)
    requires
        g.t >= 1,
        g.d < g.u,
        g.u + g.s <= 64,
        b <= g.t * (g.u - g.d),
        pass matches Some(k) ==> k < pow2(b as nat),
    ensures
        ({
            let m = sampling::kept(p, g, n).to_multiset();
            let key = common::interval_of(g, b as nat);
            let (lo, hi) = pass_range(b, pass);
            let width = pow2((g.t * (g.u - g.d) - b) as nat);
            let points = match pass {
                Some(k) => common::between(sampling::kept(p, g, n), width, k as nat),
                None => sampling::kept(p, g, n),
            };
            &&& counting::class_collisions(m, key, lo, hi) + points.to_set().len() == points.len()
            &&& counting::class_points(m, key, lo, hi) == points.len()
        }),
{
    let all = sampling::kept(p, g, n);
    let m = all.to_multiset();
    let key = common::interval_of(g, b as nat);
    match pass {
        Some(k) => {
            let width = pow2((g.t * (g.u - g.d) - b) as nat);
            lemma_between_is_class(all, g, b as nat, k as nat);
            counting::law_classes_between(m, key, k as nat, k as nat + 1);
            let between = m.filter(|x: nat| k as nat <= key(x) && key(x) < k as nat + 1);
            assert(between =~= counting::class(m, key, k as nat));
            counting::law_collisions_and_taken_cells(common::between(all, width, k as nat));
        },
        None => {
            law_tradeoff_exact(p, g, n, b as nat);
            counting::law_collisions_and_taken_cells(all);
        },
    }
}

/// A collision test counts, among the cells of the next samples, as many as its buffer has places,
/// those that fall on a taken one: the collisions and the taken cells add up to the points. It
/// makes all its draws, and leaves the cells sorted.
pub proof fn law_run_collision<T: Cell, P: Prng, const DIM: usize, const FULL: bool>(
    prng: &mut P,
    params: &GridParams,
    buf: &mut [T],
    r: (usize, usize),
)
    requires
        call_ensures(run_collision::<T, P, DIM, FULL>, (prng, params, buf), r),
    ensures
        ({
            let g = Shape { u: params.u as nat, t: params.t as nat, s: params.s as nat, d: 0 };
            let points = sampling::kept(*old(prng), g, old(buf)@.len());
            &&& r.1 == points.len() == old(buf)@.len()
            &&& r.0 + points.to_set().len() == points.len()
            &&& counting::ascending(cell::vals(final(buf)@))
            &&& cell::vals(final(buf)@).to_multiset() == points.to_multiset()
            &&& *final(prng) == prng::advance(*old(prng), old(buf)@.len() * g.t)
        }),
{
    let points = sampling::kept(*prng, params.shape(false), buf@.len());
    counting::law_collisions_and_taken_cells(points);
    counting::lemma_in_ascending_order(points);
}

/// A collision test with a tradeoff counts, among the points of `points` · 2^(*t* · *d*) samples,
/// those that fall on a taken cell; with a single pass only among the points in its interval. It
/// fails if and only if one of the passes that are run has more points than the buffer has places.
pub proof fn law_run_collision_tradeoff<
    T: Cell,
    P: Prng,
    R: Reporter,
    const DIM: usize,
    const DECIMATE: bool,
>(
    prng: &mut P,
    params: &GridParams,
    buf: &mut [T],
    points: usize,
    b: usize,
    pass: Option<u64>,
    progress: &mut R,
    r: Result<(usize, usize), BinOverflow>,
    d: nat,
    all: Seq<nat>,
    width: nat,
)
    requires
        params.t >= 1,
        params.d < params.u,
        params.u + params.s <= 64,
        d == (if DECIMATE {
            params.d as nat
        } else {
            0
        }),
        all == sampling::kept(
            *old(prng),
            (Shape { u: params.u as nat, t: params.t as nat, s: params.s as nat, d }),
            points as nat * pow2((params.t * params.d) as nat),
        ),
        b <= params.t * (params.u - d),
        width == pow2((params.t * (params.u - d) - b) as nat),
        pass matches Some(k) ==> k < pow2(b as nat),
        call_ensures(
            run_collision_tradeoff::<T, P, DIM, DECIMATE>,
            (prng, params, buf, points, b, pass, progress),
            r,
        ),
    ensures
        r matches Ok((collisions, kept)) ==> {
            let mine = match pass {
                Some(k) => common::between(all, width, k as nat),
                None => all,
            };
            &&& kept == mine.len()
            &&& collisions + mine.to_set().len() == mine.len()
            &&& *final(prng) == prng::advance(
                *old(prng),
                points as nat * pow2((params.t * params.d) as nat) * params.t as nat,
            )
            &&& final(progress).told() == old(progress).told() + progress::parts(
                pass_tallies(
                    all.to_multiset(),
                    common::interval_of(
                        (Shape { u: params.u as nat, t: params.t as nat, s: params.s as nat, d }),
                        b as nat,
                    ),
                    pass_range(b, pass).0,
                    pass_range(b, pass).1,
                ),
            )
        },
        r is Err ==> *final(prng) == *old(prng) && r->Err_0 == BinOverflow::CollisionTradeoffPass,
        r is Err <==> exists|k: nat|
            (match pass {
                Some(only) => k == only,
                None => k < pow2(b as nat),
            }) && (#[trigger] common::between(all, width, k)).len() > old(buf)@.len(),
{
    let g = params.shape(DECIMATE);
    let n = scan_of(points, params.t, params.d);
    assert(g == (Shape { u: params.u as nat, t: params.t as nat, s: params.s as nat, d }));
    let m = all.to_multiset();
    let key = common::interval_of(g, b as nat);
    let (lo, hi) = pass_range(b, pass);
    let cap = old(buf)@.len();
    law_passes_count_their_intervals(*prng, g, n, b, pass);
    assert forall|k: nat|
        (#[trigger] counting::class(m, key, k)).len() == common::between(all, width, k).len() by {
        lemma_between_is_class(all, g, b as nat, k);
    }
    if r is Err {
        let k = choose|k: nat| lo <= k < hi && (#[trigger] counting::class(m, key, k)).len() > cap;
        assert(lo <= k < hi && common::between(all, width, k).len() > cap);
    } else {
        assert forall|k: nat| lo <= k < hi implies (#[trigger] common::between(
            all,
            width,
            k,
        )).len() <= cap by {
            assert(counting::class(m, key, k).len() <= cap);
        }
    }
}

/// A decimated collision test counts, among the accepted ones of `points` · 2^(*t* · *d*) samples,
/// those that fall on a taken cell. Without checkpoints it fails if and only if more samples are
/// accepted than the buffer has places.
pub proof fn law_run_collision_decimate<
    T: Cell,
    P: Prng,
    R: Reporter,
    const DIM: usize,
    const FULL: bool,
>(
    prng: &mut P,
    params: &GridParams,
    buf: &mut [T],
    points: usize,
    checkpoints: bool,
    stage_cap: usize,
    progress: &mut R,
    r: Result<(usize, usize), BinOverflow>,
)
    requires
        call_ensures(
            run_collision_decimate::<T, P, DIM, FULL>,
            (prng, params, buf, points, checkpoints, stage_cap, progress),
            r,
        ),
    ensures
        ({
            let g = Shape {
                u: params.u as nat,
                t: params.t as nat,
                s: params.s as nat,
                d: params.d as nat,
            };
            let n = points as nat * pow2((params.t * params.d) as nat);
            let all = sampling::kept(*old(prng), g, n);
            &&& r matches Ok((collisions, kept)) ==> {
                &&& kept == all.len() <= old(buf)@.len()
                &&& collisions + all.to_set().len() == all.len()
                &&& *final(prng) == prng::advance(*old(prng), n * g.t)
                &&& counting::ascending(cell::vals(final(buf)@.take(kept as int)))
                &&& cell::vals(final(buf)@.take(kept as int)).to_multiset() == all.to_multiset()
                &&& final(buf)@.skip(kept as int) == old(buf)@.skip(kept as int)
            }
            &&& !checkpoints ==> {
                &&& r is Err <==> all.len() > old(buf)@.len()
                &&& r matches Err(e) ==> e == BinOverflow::DecimatedCollisionRun
                &&& final(progress).told() == old(progress).told()
            }
            &&& checkpoints ==> checkpoints_report(
                r,
                *old(prng),
                g,
                n,
                stages_of(params.d as nat, n),
                old(buf)@.len(),
                stage_cap as nat,
                old(progress).told(),
                final(progress).told(),
            )
        }),
{
    let n = scan_of(points, params.t, params.d);
    let all = sampling::kept(*prng, params.shape(true), n);
    counting::law_collisions_and_taken_cells(all);
    counting::lemma_in_ascending_order(all);
}

/// The number of checkpoints is the square root of 2^`d`, rounded down, or the number of samples
/// where that is less.
pub proof fn law_num_checkpoints(d: usize, n: usize, stages: usize)
    requires
        call_ensures(num_checkpoints, (d, n), stages),
    ensures
        stages <= n,
        stages * stages <= pow2(d as nat),
        stages == n || pow2(d as nat) < (stages + 1) * (stages + 1),
{
    law_number_of_stages(d as nat, n as nat);
}

/// Where a pass does not fit, those before the first such pass were told of, each with its tally,
/// and nothing else was.
pub proof fn law_overflow_tells_the_passes_before(
    m: Multiset<nat>,
    key: spec_fn(nat) -> nat,
    lo: nat,
    hi: nat,
    cap: nat,
    before: Log,
    after: Log,
    k: nat,
)
    requires
        stops_at_pass(m, key, lo, hi, cap, before, after),
        lo <= k < hi,
        counting::class(m, key, k).len() > cap,
        forall|j: nat| lo <= j < k ==> (#[trigger] counting::class(m, key, j)).len() <= cap,
    ensures
        after.len() == before.len() + (k - lo),
        forall|i: int| 0 <= i < before.len() ==> #[trigger] after[i] == before[i],
        forall|j: nat|
            lo <= j < k ==> after[before.len() + (j - lo)] == Event::Part(
                tally_of(#[trigger] counting::class(m, key, j)),
            ),
{
    let first = choose|first: nat|
        {
            &&& lo <= first < hi
            &&& (#[trigger] counting::class(m, key, first)).len() > cap
            &&& passes_fit(m, key, lo, first, cap)
            &&& after == before + progress::parts(pass_tallies(m, key, lo, first))
        };
    if first < k {
        assert(counting::class(m, key, first).len() <= cap);
    } else if k < first {
        assert(counting::class(m, key, k).len() <= cap);
    }
}

/// Where a stage does not fit, the buffer that the first such stage overflows is told from the
/// other: the one of the stage comes first. The stages before it were told of, and nothing else
/// was.
pub proof fn law_overflow_tells_the_stages_before<P: Orbit>(
    p: P,
    g: Shape,
    n: nat,
    stages: nat,
    cap: nat,
    stage_cap: nat,
    bin: BinOverflow,
    before: Log,
    after: Log,
    k: nat,
)
    requires
        stops_at_stage(p, g, n, stages, cap, stage_cap, bin, before, after),
        1 <= k <= stages,
        stage_points(p, g, n, k, stages).len() > stage_cap || sampling::kept(
            p,
            g,
            stage_end(n, k, stages),
        ).len() > cap,
        forall|j: nat|
            1 <= j < k ==> (#[trigger] stage_points(p, g, n, j, stages)).len() <= stage_cap
                && sampling::kept(p, g, stage_end(n, j, stages)).len() <= cap,
    ensures
        bin == (if stage_points(p, g, n, k, stages).len() > stage_cap {
            BinOverflow::DecimationCheckpointStage
        } else {
            BinOverflow::DecimationCheckpointAccumulator
        }),
        after == before + progress::parts(checkpoint_tallies(p, g, n, (k - 1) as nat, stages)),
{
    let first = choose|first: nat|
        {
            &&& 1 <= first <= stages
            &&& !#[trigger] stage_fits(p, g, n, first, stages, cap, stage_cap)
            &&& forall|j: nat|
                1 <= j < first ==> #[trigger] stage_fits(p, g, n, j, stages, cap, stage_cap)
            &&& bin == (if stage_points(p, g, n, first, stages).len() > stage_cap {
                BinOverflow::DecimationCheckpointStage
            } else {
                BinOverflow::DecimationCheckpointAccumulator
            })
            &&& after == before + progress::parts(
                checkpoint_tallies(p, g, n, (first - 1) as nat, stages),
            )
        };
    if first < k {
        assert(stage_points(p, g, n, first, stages).len() <= stage_cap);
    } else if k < first {
        assert(stage_fits(p, g, n, k, stages, cap, stage_cap));
    }
}

/// A run with checkpoints that succeeds has told of every stage; one that fails, of those before
/// the first that does not fit.
pub proof fn law_checkpoints_report<P: Orbit>(
    r: Result<(usize, usize), BinOverflow>,
    p: P,
    g: Shape,
    n: nat,
    stages: nat,
    cap: nat,
    stage_cap: nat,
    before: Log,
    after: Log,
    k: nat,
)
    requires
        checkpoints_report(r, p, g, n, stages, cap, stage_cap, before, after),
        1 <= k <= stages,
    ensures
        r is Ok ==> {
            &&& stage_points(p, g, n, k, stages).len() <= stage_cap
            &&& sampling::kept(p, g, stage_end(n, k, stages)).len() <= cap
            &&& after.len() == before.len() + stages
            &&& after[before.len() + k - 1] == Event::Part(
                tally_of(sampling::kept(p, g, stage_end(n, k, stages)).to_multiset()),
            )
        },
        r matches Err(bin) ==> stops_at_stage(
            p,
            g,
            n,
            stages,
            cap,
            stage_cap,
            bin,
            before,
            after,
        ),
{
    if r is Ok {
        assert(stage_fits(p, g, n, k, stages, cap, stage_cap));
    }
}

/// Sorting and counting the front of a buffer counts the elements whose value occurred already.
pub proof fn law_sort_and_count<T: Cell>(buf: &mut [T], len: usize, count: usize)
    requires
        len <= old(buf)@.len(),
        call_ensures(sort_and_count::<T>, (buf, len), count),
    ensures
        ({
            let front = cell::vals(old(buf)@.take(len as int));
            &&& count + front.to_set().len() == len
            &&& counting::ascending(cell::vals(final(buf)@.take(len as int)))
            &&& cell::vals(final(buf)@.take(len as int)).to_multiset() == front.to_multiset()
            &&& final(buf)@.skip(len as int) == old(buf)@.skip(len as int)
        }),
{
    let front = cell::vals(old(buf)@.take(len as int));
    counting::law_collisions_and_taken_cells(front);
    counting::lemma_in_ascending_order(front);
}

} // verus!
