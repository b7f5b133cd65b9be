//! The parallel collision test.

use crate::cell;
use crate::cell::{Cell, Value};
use crate::chunks;
use crate::cli::{passes_of, Args};
use crate::collision;
use crate::collision::{num_checkpoints, Tally};
use crate::common;
use crate::common::{
    gen_pass_dispatch, scan_samples, BinOverflow, CellCount, GridParams, Selection,
};
use crate::counting;
use crate::merging;
use crate::merging::{
    count_adjacent_equals, merge_count_collisions, merge_into, merge_sorted,
};
use crate::orbit;
use crate::orbit::OrbitPartition;
use crate::outside;
use crate::prng;
use crate::prng::{Orbit, Prng};
use crate::progress;
use crate::progress::{Event, Log, Reporter};
use crate::runs;
use crate::runs::TestRun;
use crate::sampling;
use crate::sampling::Shape;
use crate::seqs;
use vstd::arithmetic::div_mod::*;
use vstd::arithmetic::power2::*;
use vstd::multiset::Multiset;
use vstd::prelude::*;

verus! {

broadcast use {vstd::multiset::group_multiset_axioms, vstd::seq_lib::group_to_multiset_ensures};

/// The numbers in some vectors, together.
pub open spec fn union_of_vecs<T: Value>(bufs: Seq<Vec<T>>) -> Multiset<nat>
    decreases bufs.len(),
{
    if bufs.len() == 0 {
        Multiset::empty()
    } else {
        union_of_vecs(bufs.drop_last()).add(cell::vals(bufs.last()@).to_multiset())
    }
}

/// Every vector is sorted.
pub open spec fn all_sorted<T: Value>(bufs: Seq<Vec<T>>) -> bool {
    forall|i: int| 0 <= i < bufs.len() ==> counting::ascending(cell::vals((#[trigger] bufs[i])@))
}

/// What each thread selects fits its buffer.
pub open spec fn threads_fit<P: Orbit>(
    snapshots: Seq<P>,
    lens: Seq<usize>,
    caps: Seq<usize>,
    g: Shape,
    sel: Selection,
) -> bool {
    forall|i: int|
        0 <= i < snapshots.len() ==> common::selected(
            #[trigger] snapshots[i],
            g,
            lens[i] as nat,
            sel,
        ).len() <= caps[i]
}

/// The outcome of the generation by one thread.
spec fn thread_done<T: Cell, P: Prng>(
    r: Result<Vec<T>, BinOverflow>,
    snapshot: P,
    len: usize,
    cap: usize,
    g: Shape,
    sel: Selection,
    b: usize,
) -> bool {
    let points = common::selected(snapshot, g, len as nat, sel);
    match r {
        Ok(v) => cell::vals(v@) == points && points.len() <= cap,
        Err(e) => points.len() > cap && e == common::pass_bin(b),
    }
}

/// Lets every thread generate its part of one pass in a buffer of its own, in parallel, and then
/// sorts the buffers one at a time with all threads.
fn generate_sorted<T: Cell, P: Prng>(
    snapshots: &[P],
    params: &GridParams,
    lens: &[usize],
    caps: &[usize],
    pass: u64,
    b: usize,
    decimating: bool,
    full: bool,
) -> (r: Result<Vec<Vec<T>>, BinOverflow>)
    requires
        snapshots@.len() == lens@.len() == caps@.len(),
        params.fits::<T>(decimating),
        params.specialized(0, full),
        common::pass_exists(params.shape(decimating), b > 0, b, pass),
        b == 0 && !decimating ==> forall|i: int|
            0 <= i < lens@.len() ==> #[trigger] lens@[i] <= caps@[i],
    ensures
        ({
            let g = params.shape(decimating);
            let sel = common::selection(b > 0, b, pass);
            match r {
                Ok(bufs) => {
                    &&& threads_fit(snapshots@, lens@, caps@, g, sel)
                    &&& all_sorted(bufs@)
                    &&& union_of_vecs(bufs@) == orbit::unit_points(
                        snapshots@,
                        lens@,
                        g,
                        sel,
                        lens@.len(),
                    ).to_multiset()
                },
                Err(e) => {
                    &&& !threads_fit(snapshots@, lens@, caps@, g, sel)
                    &&& e == common::pass_bin(b)
                },
            }
        }),
{
    let ghost g = params.shape(decimating);
    let ghost sel = common::selection(b > 0, b, pass);
    let ghost n = lens@.len();
    let numbers: Vec<usize> = chunks::indices(snapshots.len());
    let generate = |i: &usize| -> (r: Result<Vec<T>, BinOverflow>)
        requires
            *i < snapshots@.len(),
        ensures
            thread_done(
                r,
                snapshots@[*i as int],
                lens@[*i as int],
                caps@[*i as int],
                params.shape(decimating),
                common::selection(b > 0, b, pass),
                b,
            ),
        {
            let mut v: Vec<T> = vec![T::zero(); caps[*i]];
            assert(b == 0 && !decimating ==> lens@[*i as int] <= caps@[*i as int]);
            match gen_pass_dispatch::<T, P>(
                snapshots[*i],
                params,
                v.as_mut_slice(),
                lens[*i],
                pass,
                b,
                decimating,
                full,
            ) {
                Ok((len, _)) => {
                    let ghost before = v@;
                    v.truncate(len);
                    assert(v@ =~= before.take(len as int));
                    Ok(v)
                },
                Err(e) => Err(e),
            }
        };
    let mut results: Vec<Result<Vec<T>, BinOverflow>> = outside::par_map(
        numbers.as_slice(),
        generate,
    );
    let ghost outcome = results@;
    proof {
        assert forall|i: int| 0 <= i < n implies thread_done(
            #[trigger] outcome[i],
            snapshots@[i],
            lens@[i],
            caps@[i],
            g,
            sel,
            b,
        ) by {
            assert(numbers@[i] == i);
        }
    }
    let mut bufs: Vec<Vec<T>> = Vec::new();
    let ghost all = orbit::unit_points(snapshots@, lens@, g, sel, n).to_multiset();
    proof {
        assert(results@ =~= outcome.take(n as int));
        assert(all =~= union_of_vecs(bufs@).add(all));
    }
    while results.len() > 0
        invariant
            snapshots@.len() == lens@.len() == caps@.len(),
            n == lens@.len(),
            g == params.shape(decimating),
            sel == common::selection(b > 0, b, pass),
            outcome.len() == n,
            results@.len() <= n,
            results@ == outcome.take(results@.len() as int),
            forall|i: int|
                0 <= i < n ==> thread_done(
                    #[trigger] outcome[i],
                    snapshots@[i],
                    lens@[i],
                    caps@[i],
                    g,
                    sel,
                    b,
                ),
            forall|i: int| results@.len() <= i < n ==> (#[trigger] outcome[i]) is Ok,
            all_sorted(bufs@),
            all == union_of_vecs(bufs@).add(
                orbit::unit_points(snapshots@, lens@, g, sel, results@.len()).to_multiset(),
            ),
        decreases results@.len(),
    {
        let ghost k = results@.len() - 1;
        let ghost before = bufs@;
        proof {
            assert(results@[k] == outcome[k]);
            assert(thread_done(
                outcome[k],
                snapshots@[k],
                lens@[k],
                caps@[k],
                g,
                sel,
                b,
            ));
        }
        match results.pop() {
            None => {},
            Some(r) => {
                match r {
                    Err(e) => {
                        proof {
                            assert(common::selected(snapshots@[k], g, lens@[k] as nat, sel).len()
                                > caps@[k]);
                        }
                        return Err(e);
                    },
                    Ok(v) => {
                        let mut v = v;
                        let ghost mine = cell::vals(v@);
                        T::sort_mt(v.as_mut_slice());
                        bufs.push(v);
                        proof {
                            let rest = orbit::unit_points(snapshots@, lens@, g, sel, k as nat);
                            vstd::seq_lib::lemma_multiset_commutative(rest, mine);
                            assert(bufs@.drop_last() =~= before);
                            assert forall|i: int| 0 <= i < bufs@.len() implies counting::ascending(
                                cell::vals((#[trigger] bufs@[i])@),
                            ) by {
                                if i < before.len() {
                                    assert(bufs@[i] == before[i]);
                                }
                            }
                            assert(all =~= union_of_vecs(bufs@).add(rest.to_multiset()));
                            assert(results@ =~= outcome.take(k));
                        }
                    },
                }
            },
        }
    }
    proof {
        assert(orbit::unit_points(snapshots@, lens@, g, sel, 0).to_multiset() =~= Multiset::<
            nat,
        >::empty());
        assert(all =~= union_of_vecs(bufs@));
        assert forall|i: int| 0 <= i < snapshots@.len() implies common::selected(
            #[trigger] snapshots@[i],
            g,
            lens@[i] as nat,
            sel,
        ).len() <= caps@[i] by {
            assert(outcome[i] is Ok);
        }
    }
    Ok(bufs)
}

/// The vectors as slices.
fn as_slices<T: Cell>(bufs: &Vec<Vec<T>>) -> (slices: Vec<&[T]>)
    requires
        all_sorted(bufs@),
    ensures
        merging::all_ascending(slices@),
        merging::union_of(slices@) == union_of_vecs(bufs@),
{
    let mut slices: Vec<&[T]> = Vec::with_capacity(bufs.len());
    let mut i: usize = 0;
    proof {
        assert(bufs@.take(0) =~= Seq::<Vec<T>>::empty());
    }
    while i < bufs.len()
        invariant
            i <= bufs@.len(),
            all_sorted(bufs@),
            slices@.len() == i,
            merging::all_ascending(slices@),
            merging::union_of(slices@) == union_of_vecs(bufs@.take(i as int)),
        decreases bufs@.len() - i,
    {
        let ghost before = slices@;
        slices.push(bufs[i].as_slice());
        proof {
            assert(slices@.drop_last() =~= before);
            assert(bufs@.take(i + 1).drop_last() =~= bufs@.take(i as int));
            assert(counting::ascending(cell::vals(bufs@[i as int]@)));
            assert forall|j: int| 0 <= j < slices@.len() implies counting::ascending(
                cell::vals((#[trigger] slices@[j])@),
            ) by {
                if j < before.len() {
                    assert(slices@[j] == before[j]);
                }
            }
        }
        i += 1;
    }
    assert(bufs@.take(bufs@.len() as int) =~= bufs@);
    slices
}

/// One pass: every thread generates its part, the parts are sorted, and the collisions within and
/// across them are counted by a merge. Returns the collision count and the number of points.
fn parallel_pass<T: Cell, P: Prng>(
    snapshots: &[P],
    params: &GridParams,
    lens: &[usize],
    caps: &[usize],
    pass: u64,
    b: usize,
    decimating: bool,
    full: bool,
) -> (r: Result<(usize, usize), BinOverflow>)
    requires
        snapshots@.len() == lens@.len() == caps@.len(),
        orbit::sum_of(lens@, lens@.len()) <= usize::MAX,
        params.fits::<T>(decimating),
        params.specialized(0, full),
        common::pass_exists(params.shape(decimating), b > 0, b, pass),
        b == 0 && !decimating ==> forall|i: int|
            0 <= i < lens@.len() ==> #[trigger] lens@[i] <= caps@[i],
    ensures
        ({
            let g = params.shape(decimating);
            let sel = common::selection(b > 0, b, pass);
            let points = orbit::unit_points(snapshots@, lens@, g, sel, lens@.len());
            match r {
                Ok((collisions, kept)) => {
                    &&& threads_fit(snapshots@, lens@, caps@, g, sel)
                    &&& collisions == counting::collisions(points.to_multiset())
                    &&& kept == points.len()
                },
                Err(e) => {
                    &&& !threads_fit(snapshots@, lens@, caps@, g, sel)
                    &&& e == common::pass_bin(b)
                },
            }
        }),
{
    let ghost g = params.shape(decimating);
    let ghost sel = common::selection(b > 0, b, pass);
    let ghost points = orbit::unit_points(snapshots@, lens@, g, sel, lens@.len());
    match generate_sorted::<T, P>(snapshots, params, lens, caps, pass, b, decimating, full) {
        Err(e) => Err(e),
        Ok(bufs) => {
            proof {
                orbit::lemma_unit_points_grow(
                    snapshots@,
                    lens@,
                    g,
                    sel,
                    lens@.len(),
                    lens@.len(),
                );
                assert(points.len() == points.to_multiset().len());
            }
            let slices: Vec<&[T]> = as_slices(&bufs);
            let c: usize = merge_count_collisions(slices.as_slice());
            let kept: usize = merging::total_len(slices.as_slice());
            Ok((c, kept))
        },
    }
}

/// Where the parts of an even split of a scan from `p` start.
pub open spec fn range_starts<P: Orbit>(p: P, g: Shape, base: int, rem: int, count: nat) -> Seq<P> {
    Seq::new(
        count,
        |i: int| sampling::sample_start(p, g, orbit::even_start(base, rem, i) as nat),
    )
}

/// How long the parts of an even split are.
pub open spec fn range_lens(base: int, rem: int, count: nat) -> Seq<usize> {
    Seq::new(count, |i: int| orbit::even_len(base, rem, i) as usize)
}

/// The lengths of the first parts add up to where the next one starts.
proof fn lemma_range_sums(base: int, rem: int, count: nat, total: nat, k: nat)
    requires
        orbit::even_split(base, rem, count as int, total as int),
        total <= usize::MAX,
        k <= count,
    ensures
        orbit::sum_of(range_lens(base, rem, count), k) == orbit::even_start(base, rem, k as int),
    decreases k,
{
    orbit::law_even_split(base, rem, count as int, total as int, k as int);
    if k > 0 {
        let j = (k - 1) as nat;
        lemma_range_sums(base, rem, count, total, j);
        orbit::law_even_split(base, rem, count as int, total as int, j as int);
        assert(0 <= orbit::even_len(base, rem, j as int) <= usize::MAX);
    }
}

/// The parallel split is faithful: the threads that scan the parts of an even split select, one
/// after the other, exactly the points that one scan selects, however many threads there are.
pub proof fn law_split_is_faithful<P: Orbit>(
    p: P,
    g: Shape,
    base: int,
    rem: int,
    count: nat,
    total: nat,
    sel: Selection,
)
    requires
        orbit::even_split(base, rem, count as int, total as int),
        total <= usize::MAX,
    ensures
        orbit::unit_points(
            range_starts(p, g, base, rem, count),
            range_lens(base, rem, count),
            g,
            sel,
            count,
        ) == common::selected(p, g, total, sel),
        orbit::sum_of(range_lens(base, rem, count), count) == total,
{
    let starts = range_starts(p, g, base, rem, count);
    let lens = range_lens(base, rem, count);
    lemma_range_sums(base, rem, count, total, count);
    orbit::law_even_split(base, rem, count as int, total as int, count as int);
    assert(orbit::contiguous(starts, lens, g)) by {
        assert forall|i: int| 0 <= i < starts.len() - 1 implies starts[i + 1]
            == sampling::sample_start(#[trigger] starts[i], g, lens[i] as nat) by {
            orbit::law_even_split(base, rem, count as int, total as int, i);
            orbit::law_even_split(base, rem, count as int, total as int, i + 1);
            let a = orbit::even_start(base, rem, i) as nat;
            let z = orbit::even_len(base, rem, i) as nat;
            assert(lens[i] == z);
            prng::law_advance_adds(p, a * g.t, z * g.t);
            assert(a * g.t + z * g.t == (a + z) * g.t) by (nonlinear_arith);
        }
    }
    orbit::law_ranges_select_all(starts, lens, g, sel, count);
    assert(0 * g.t == 0);
    assert(orbit::even_start(base, rem, 0) == 0) by {
        orbit::law_even_split(base, rem, count as int, total as int, 0);
    }
    assert(starts[0] == p);
}

/// How many threads share `n` samples if `num_cpus` are asked for.
pub open spec fn cpus_of(num_cpus: usize, n: nat) -> nat {
    if num_cpus == 0 || n == 0 {
        1
    } else if num_cpus < n {
        num_cpus as nat
    } else {
        n
    }
}

/// In a pass of a repetition that starts at `p`, what each of the threads keeps fits its buffer.
pub open spec fn pass_fits<P: Orbit>(
    p: P,
    args: Args,
    points: usize,
    count: nat,
    caps: Seq<usize>,
    pass: u64,
) -> bool {
    let n = runs::samples_of(args, points) as int;
    threads_fit(
        range_starts(p, runs::shape_of(args), n / count as int, n % count as int, count),
        range_lens(n / count as int, n % count as int, count),
        caps,
        runs::shape_of(args),
        common::selection(args.b() > 0, args.b() as usize, pass),
    )
}

/// In each of the passes that are run, what the threads keep fits their buffers.
pub open spec fn passes_fit<P: Orbit>(
    p: P,
    args: Args,
    points: usize,
    count: nat,
    caps: Seq<usize>,
) -> bool {
    let (lo, hi) = collision::pass_range(args.b() as usize, args.pass);
    forall|k: u64| lo <= k < hi ==> #[trigger] pass_fits(p, args, points, count, caps, k)
}

/// The points of a pass are a class of all the points.
pub proof fn lemma_pass_is_class<P: Orbit>(p: P, g: Shape, n: nat, b: usize, pass: u64)
    requires
        g.valid(),
        b <= g.index_bits(),
        b == 0 ==> pass == 0,
    ensures
        ({
            let points = common::selected(p, g, n, common::selection(b > 0, b, pass));
            let m = sampling::kept(p, g, n).to_multiset();
            let key = common::interval_of(g, b as nat);
            &&& points.to_multiset() == counting::class(m, key, pass as nat)
            &&& points.len() == counting::class(m, key, pass as nat).len()
        }),
{
    let all = sampling::kept(p, g, n);
    let m = all.to_multiset();
    let key = common::interval_of(g, b as nat);
    counting::lemma_filter_is_class(all, key, pass as nat);
    if b == 0 {
        sampling::lemma_kept_bound(p, g, n);
        assert forall|x: nat| #[trigger] m.count(x) > 0 implies key(x) == 0 by {
            let i = choose|i: int| 0 <= i < all.len() && all[i] == x;
            lemma_basic_div(all[i] as int, pow2(g.index_bits()) as int);
        }
        assert(counting::class(m, key, 0) =~= m);
        assert(all.len() == m.len());
    }
}

/// What the threads keep in one of the passes of a repetition does not fit their buffers, and the
/// tallies of those before the first such pass come after those of `before`.
pub open spec fn stops_at_pass<P: Orbit>(
    p: P,
    args: Args,
    points: usize,
    count: nat,
    caps: Seq<usize>,
    before: Log,
    after: Log,
) -> bool {
    let (lo, hi) = collision::pass_range(args.b() as usize, args.pass);
    exists|k: u64|
        {
            &&& lo <= k < hi
            &&& !#[trigger] pass_fits(p, args, points, count, caps, k)
            &&& forall|j: u64|
                lo <= j < k ==> #[trigger] pass_fits(p, args, points, count, caps, j)
            &&& after == before + progress::parts(
                collision::pass_tallies(
                    runs::points_from(p, args, points).to_multiset(),
                    common::interval_of(runs::shape_of(args), args.b()),
                    lo,
                    k as nat,
                ),
            )
        }
}

/// One repetition of the parallel test: the passes, one after the other. The tally of each pass is
/// appended to `progress`.
fn parallel_rep<T: Cell, P: Prng>(
    snapshots: &[P],
    params: &GridParams,
    lens: &[usize],
    caps: &[usize],
    args: &Args,
    points: usize,
    progress: &mut impl Reporter,
    Ghost(p): Ghost<P>,
) -> (r: Result<(usize, usize), BinOverflow>)
    requires
        runs::runnable::<T>(*args, points, params.cells@),
        params.u == args.u,
        params.t == args.t,
        params.s == args.s,
        params.d == args.d(),
        snapshots@.len() == lens@.len() == caps@.len(),
        lens@.len() > 0,
        ({
            let n = runs::samples_of(*args, points) as int;
            let count = lens@.len() as int;
            &&& snapshots@ == range_starts(
                p,
                runs::shape_of(*args),
                n / count,
                n % count,
                lens@.len(),
            )
            &&& lens@ == range_lens(n / count, n % count, lens@.len())
        }),
        args.b() == 0 && args.d() == 0 ==> caps@ == lens@,
    ensures
        ({
            let g = runs::shape_of(*args);
            let m = runs::points_from(p, *args, points).to_multiset();
            let key = common::interval_of(g, args.b());
            let (lo, hi) = collision::pass_range(args.b() as usize, args.pass);
            match r {
                Ok((collisions, kept)) => {
                    &&& collisions == counting::class_collisions(m, key, lo, hi)
                    &&& kept == counting::class_points(m, key, lo, hi)
                    &&& final(progress).told() == old(progress).told() + progress::parts(
                        collision::pass_tallies(
                            m,
                            key,
                            lo,
                            hi,
                        ),
                    )
                    &&& passes_fit(p, *args, points, lens@.len(), caps@)
                },
                Err(e) => {
                    &&& e == common::pass_bin(args.b() as usize)
                    &&& stops_at_pass(
                        p,
                        *args,
                        points,
                        lens@.len(),
                        caps@,
                        old(progress).told(),
                        final(progress).told(),
                    )
                },
            }
        }),
{
    let ghost g = runs::shape_of(*args);
    let ghost n = runs::samples_of(*args, points);
    let ghost count = lens@.len();
    let ghost m = runs::points_from(p, *args, points).to_multiset();
    let ghost key = common::interval_of(g, args.b());
    let ghost log0 = progress.told();
    let b: usize = args.tradeoff_bits();
    let d: usize = params.d;
    let full = args.u == 64 && args.s == 0;
    let decimating = d > 0;
    proof {
        assert(params.shape(decimating) == g);
        lemma2_to64();
        lemma_fundamental_div_mod(n as int, count as int);
        lemma_div_pos_is_pos(n as int, count as int);
        lemma_mod_bound(n as int, count as int);
        assert(orbit::even_split(n as int / count as int, n as int % count as int, count as int, n as int));
        law_split_is_faithful(
            p,
            g,
            n as int / count as int,
            n as int % count as int,
            count,
            n,
            Selection::All,
        );
    }
    let num_passes: u64 = passes_of(b);
    let (pass_lo, pass_hi): (u64, u64) = match args.pass {
        Some(k) => (k, k + 1),
        None => (0, num_passes),
    };
    let ghost lo = pass_lo as nat;
    let ghost hi = pass_hi as nat;
    let mut rep_coll: usize = 0;
    let mut total_points: usize = 0;
    let mut k: u64 = pass_lo;
    assert(collision::pass_tallies(m, key, lo, lo) =~= Seq::<Tally>::empty());
    while k < pass_hi
        invariant
            pass_lo <= k <= pass_hi,
            pass_hi <= pow2(args.b()),
            lo == pass_lo,
            hi == pass_hi,
            (lo, hi) == collision::pass_range(args.b() as usize, args.pass),
            runs::runnable::<T>(*args, points, params.cells@),
            params.valid(),
            params.specialized(0, full),
            params.shape(decimating) == g,
            decimating == (args.d() > 0),
            g == runs::shape_of(*args),
            n == runs::samples_of(*args, points),
            n <= usize::MAX,
            b == args.b(),
            b == 0 ==> pow2(args.b()) == 1,
            count == lens@.len() > 0,
            snapshots@.len() == lens@.len() == caps@.len(),
            snapshots@ == range_starts(
                p,
                g,
                n as int / count as int,
                n as int % count as int,
                count,
            ),
            lens@ == range_lens(n as int / count as int, n as int % count as int, count),
            orbit::even_split(
                n as int / count as int,
                n as int % count as int,
                count as int,
                n as int,
            ),
            orbit::sum_of(lens@, count) == n,
            args.b() == 0 && args.d() == 0 ==> caps@ == lens@,
            m == runs::points_from(p, *args, points).to_multiset(),
            key == common::interval_of(g, args.b()),
            log0 == old(progress).told(),
            forall|i: u64|
                lo <= i < k ==> #[trigger] pass_fits(p, *args, points, count, caps@, i),
            rep_coll == counting::class_collisions(m, key, lo, k as nat),
            total_points == counting::class_points(m, key, lo, k as nat),
            progress.told() == log0 + progress::parts(
                collision::pass_tallies(m, key, lo, k as nat),
            ),
        decreases pass_hi - k,
    {
        let ghost kn = k as nat;
        let ghost sel = common::selection(b > 0, b, k);
        let ghost this = counting::class(m, key, kn);
        proof {
            law_split_is_faithful(
                p,
                g,
                n as int / count as int,
                n as int % count as int,
                count,
                n,
                sel,
            );
            lemma_pass_is_class(p, g, n, b, k);
            collision::lemma_passes_bounded(p, g, n, b as nat, lo, kn + 1);
        }
        match parallel_pass::<T, P>(snapshots, params, lens, caps, k, b, decimating, full) {
            Err(e) => {
                assert(!pass_fits(p, *args, points, count, caps@, k));
                return Err(e);
            },
            Ok((c, pass_points)) => {
                assert(c == counting::collisions(this));
                rep_coll += c;
                total_points += pass_points;
                progress.part_done(Tally { points: pass_points, collisions: c });
                proof {
                    assert(collision::pass_tallies(m, key, lo, kn + 1) =~= collision::pass_tallies(
                        m,
                        key,
                        lo,
                        kn,
                    ).push(collision::tally_of(this)));
                    assert(progress.told() =~= log0 + progress::parts(
                        collision::pass_tallies(m, key, lo, kn + 1),
                    ));
                    assert(pass_fits(p, *args, points, count, caps@, k));
                }
            },
        }
        k += 1;
    }
    Ok((rep_coll, total_points))
}

/// What each of `count` threads keeps of stage `k` fits a buffer of `stage_cap` places.
pub open spec fn stage_threads_fit<P: Orbit>(
    p: P,
    g: Shape,
    n: nat,
    k: nat,
    stages: nat,
    count: nat,
    stage_cap: usize,
) -> bool {
    let start = collision::stage_end(n, (k - 1) as nat, stages);
    let len = collision::stage_end(n, k, stages) - start;
    threads_fit(
        range_starts(
            sampling::sample_start(p, g, start),
            g,
            len / count as int,
            len % count as int,
            count,
        ),
        range_lens(len / count as int, len % count as int, count),
        Seq::new(count, |i: int| stage_cap),
        g,
        Selection::All,
    )
}

/// What each of `count` threads keeps of stage `k` fits a buffer of `stage_cap` places, and the
/// points up to the end of the stage fit one of `acc_cap` places.
pub open spec fn stage_split_fits<P: Orbit>(
    p: P,
    g: Shape,
    n: nat,
    k: nat,
    stages: nat,
    count: nat,
    acc_cap: nat,
    stage_cap: usize,
) -> bool {
    &&& stage_threads_fit(p, g, n, k, stages, count, stage_cap)
    &&& sampling::kept(p, g, collision::stage_end(n, k, stages)).len() <= acc_cap
}

/// What the threads keep of each stage fits their buffers, and the points up to its end theirs.
pub open spec fn stages_fit<P: Orbit>(
    p: P,
    g: Shape,
    n: nat,
    stages: nat,
    count: nat,
    acc_cap: nat,
    stage_cap: usize,
) -> bool {
    forall|k: nat|
        1 <= k <= stages ==> #[trigger] stage_split_fits(
            p,
            g,
            n,
            k,
            stages,
            count,
            acc_cap,
            stage_cap,
        )
}

/// The buffer that overflows in the first stage that does not fit, and the tallies of the stages
/// before it, which come after those of `before`.
pub open spec fn stages_overflow<P: Orbit>(
    p: P,
    g: Shape,
    n: nat,
    stages: nat,
    count: nat,
    acc_cap: nat,
    stage_cap: usize,
    bin: BinOverflow,
    before: Log,
    after: Log,
) -> bool {
    exists|k: nat|
        {
            &&& 1 <= k <= stages
            &&& !#[trigger] stage_split_fits(p, g, n, k, stages, count, acc_cap, stage_cap)
            &&& forall|j: nat|
                1 <= j < k ==> #[trigger] stage_split_fits(
                    p,
                    g,
                    n,
                    j,
                    stages,
                    count,
                    acc_cap,
                    stage_cap,
                )
            &&& bin == (if stage_threads_fit(p, g, n, k, stages, count, stage_cap) {
                BinOverflow::CheckpointAccumulator
            } else {
                BinOverflow::ParallelDecimationChunk
            })
            &&& after == before + progress::parts(
                collision::checkpoint_tallies(p, g, n, (k - 1) as nat, stages),
            )
        }
}

/// The starts and the lengths of the parts into which `len` samples are split.
pub(crate) fn even_parts(len: usize, count: usize) -> (r: (Vec<usize>, Vec<usize>))
    requires
        count > 0,
    ensures
        orbit::even_split(
            len as int / count as int,
            len as int % count as int,
            count as int,
            len as int,
        ),
        r.0@.len() == count,
        forall|i: int|
            0 <= i < count ==> #[trigger] r.0@[i] == orbit::even_start(
                len as int / count as int,
                len as int % count as int,
                i,
            ),
        orbit::boundaries_within(r.0@, len as nat),
        r.1@ == range_lens(len as int / count as int, len as int % count as int, count as nat),
{
    let base: usize = len / count;
    let rem: usize = len % count;
    proof {
        lemma_fundamental_div_mod(len as int, count as int);
        lemma_mod_bound(len as int, count as int);
    }
    let mut starts: Vec<usize> = Vec::with_capacity(count);
    let mut lens: Vec<usize> = Vec::with_capacity(count);
    let mut i: usize = 0;
    while i < count
        invariant
            i <= count,
            orbit::even_split(base as int, rem as int, count as int, len as int),
            starts@.len() == i,
            lens@.len() == i,
            forall|j: int|
                0 <= j < i ==> #[trigger] starts@[j] == orbit::even_start(
                    base as int,
                    rem as int,
                    j,
                ),
            forall|j: int|
                0 <= j < i ==> #[trigger] lens@[j] == orbit::even_len(base as int, rem as int, j),
        decreases count - i,
    {
        proof {
            orbit::law_even_split(base as int, rem as int, count as int, len as int, i as int);
            orbit::law_even_split(base as int, rem as int, count as int, len as int, i + 1);
        }
        starts.push(
            orbit::part_start(base, rem, i, Ghost(count as int), Ghost(len as int)),
        );
        lens.push(
            if i < rem {
                base + 1
            } else {
                base
            },
        );
        i += 1;
    }
    proof {
        assert(lens@ =~= range_lens(base as int, rem as int, count as nat));
        assert forall|a: int, b: int| 0 <= a < b < starts@.len() implies #[trigger] starts@[a]
            <= #[trigger] starts@[b] by {
            orbit::law_even_split(base as int, rem as int, count as int, len as int, b);
            assert(orbit::even_start(base as int, rem as int, a) <= orbit::even_start(
                base as int,
                rem as int,
                b,
            ));
        }
        assert forall|a: int| 0 <= a < starts@.len() implies #[trigger] starts@[a] <= len by {
            orbit::law_even_split(base as int, rem as int, count as int, len as int, a);
        }
    }
    (starts, lens)
}

/// Where the last scan of a test starts, and how long it is: the last stage of the last repetition
/// with checkpoints, else the last repetition.
pub open spec fn last_scan(args: Args, points: usize) -> (nat, nat) {
    let n = runs::samples_of(args, points);
    let base = ((args.reps - 1) * n) as nat;
    let stages = collision::stages_of(args.d(), n);
    let done = collision::stage_end(n, (stages - 1) as nat, stages);
    if args.checkpoints {
        (base + done, (n - done) as nat)
    } else {
        (base, n)
    }
}

/// Where the last one of `count` threads starts in the last scan of a test.
pub open spec fn last_start(args: Args, points: usize, count: nat) -> int {
    let (start, len) = last_scan(args, points);
    start + orbit::even_start(
        len as int / count as int,
        len as int % count as int,
        count as int - 1,
    )
}

/// The samples at which scans start can be counted and, where the generator can jump, so can the
/// draws before each start of a thread: the last one is the greatest.
pub open spec fn orbit_fits<P: Prng>(args: Args, points: usize, count: nat) -> bool {
    args.reps > 0 ==> {
        &&& last_scan(args, points).0 <= usize::MAX
        &&& P::can_skip() ==> {
            let last = last_start(args, points, count);
            last <= usize::MAX && last * args.t <= u64::MAX
        }
    }
}

/// Whether the offsets of a test can be counted, so that it can run in parallel.
pub fn offsets_fit<P: Prng>(args: &Args, points: usize, num_cpus: usize) -> (fit: bool)
    requires
        args.valid(),
        collision::scan_fits(points, args.t, args.d() as usize),
        points >= 1,
    ensures
        fit == orbit_fits::<P>(
            *args,
            points,
            cpus_of(num_cpus, runs::samples_of(*args, points)),
        ),
{
    if args.reps == 0 {
        return true;
    }
    let d: usize = args.decimation_bits();
    let ghost n = runs::samples_of(*args, points);
    let scan: usize = match scan_samples(points, args.t, d) {
        Some(len) => len,
        None => 0,
    };
    let count: usize = if num_cpus == 0 || scan == 0 {
        1
    } else if num_cpus < scan {
        num_cpus
    } else {
        scan
    };
    proof {
        lemma_samples_exist(*args, points);
        lemma_product_fits((args.reps - 1) as nat, n);
    }
    let base: u128 = (args.reps - 1) as u128 * scan as u128;
    let (start, len): (u128, usize) = if args.checkpoints {
        let stages: usize = num_checkpoints(d, scan);
        proof {
            collision::lemma_stage_ends(n, stages as nat, stages as nat);
            lemma_product_fits(n, (stages - 1) as nat);
        }
        let done: usize = (scan as u128 * (stages - 1) as u128 / stages as u128) as usize;
        assert(done == collision::stage_end(n, (stages - 1) as nat, stages as nat));
        (base + done as u128, scan - done)
    } else {
        (base, scan)
    };
    assert((start as nat, len as nat) == last_scan(*args, points));
    if start > usize::MAX as u128 {
        return false;
    }
    let mut probe: P = P::new(args.seed);
    match probe.try_skip(0) {
        Err(()) => true,
        Ok(()) => {
            let part: usize = len / count;
            let rem: usize = len % count;
            proof {
                lemma_fundamental_div_mod(len as int, count as int);
                lemma_mod_bound(len as int, count as int);
                lemma_div_pos_is_pos(len as int, count as int);
            }
            let last: u128 = start + orbit::part_start(
                part,
                rem,
                count - 1,
                Ghost(count as int),
                Ghost(len as int),
            ) as u128;
            assert(last == last_start(*args, points, count as nat));
            if last > usize::MAX as u128 {
                return false;
            }
            proof {
                lemma_product_fits(last as nat, args.t as nat);
            }
            last * args.t as u128 <= u64::MAX as u128
        },
    }
}

/// A scan has samples.
proof fn lemma_samples_exist(args: Args, points: usize)
    requires
        points >= 1,
    ensures
        runs::samples_of(args, points) >= 1,
{
    lemma_pow2_pos((args.t * args.d()) as nat);
    assert(points * pow2((args.t * args.d()) as nat) >= 1) by (nonlinear_arith)
        requires
            points >= 1,
            pow2((args.t * args.d()) as nat) >= 1,
    ;
}

/// The product of two numbers of 64 bits leaves room for one more of them in 128 bits.
proof fn lemma_product_fits(a: nat, b: nat)
    requires
        a <= u64::MAX,
        b <= u64::MAX,
    ensures
        0 <= a * b <= u128::MAX - u64::MAX,
{
    assert(0 <= a * b <= u64::MAX * u64::MAX) by (nonlinear_arith)
        requires
            0 <= a <= u64::MAX,
            0 <= b <= u64::MAX,
    ;
}

/// One repetition with checkpoints: in each stage the threads share the samples, their sorted
/// points are merged into those so far, and the tally so far is appended to `progress`.
fn parallel_checkpoints<T: Cell, P: Prng>(
    partition: &mut OrbitPartition<P>,
    params: &GridParams,
    args: &Args,
    points: usize,
    rep: usize,
    acc_cap: usize,
    stage_cap: usize,
    progress: &mut impl Reporter,
) -> (r: Result<(usize, usize), BinOverflow>)
    requires
        runs::runnable::<T>(*args, points, params.cells@),
        args.d() > 0,
        params.u == args.u,
        params.t == args.t,
        params.s == args.s,
        params.d == args.d(),
        old(partition).valid(),
        old(partition).t == args.t,
        old(partition).seed == args.seed,
        old(partition).scan_total == runs::samples_of(*args, points),
        old(partition).walked_to((rep * runs::samples_of(*args, points)) as nat),
        rep < args.reps,
        args.checkpoints,
        orbit_fits::<P>(*args, points, old(partition).num_cpus as nat),
    ensures
        final(partition).valid(),
        final(partition).same_partition(*old(partition)),
        ({
            let g = runs::shape_of(*args);
            let p = runs::rep_start::<P>(*args, points, rep as nat);
            let n = runs::samples_of(*args, points);
            let all = runs::points_from(p, *args, points);
            let stages = collision::stages_of(args.d(), n);
            let count = old(partition).num_cpus as nat;
            match r {
                Ok((collisions, kept)) => {
                    &&& collisions == counting::collisions(all.to_multiset())
                    &&& kept == all.len()
                    &&& final(partition).walked_to(((rep + 1) * n) as nat)
                    &&& final(progress).told() == old(progress).told() + progress::parts(
                        collision::checkpoint_tallies(
                            p,
                            g,
                            n,
                            stages,
                            stages,
                        ),
                    )
                    &&& stages_fit(p, g, n, stages, count, acc_cap as nat, stage_cap)
                },
                Err(e) => stages_overflow(
                    p,
                    g,
                    n,
                    stages,
                    count,
                    acc_cap as nat,
                    stage_cap,
                    e,
                    old(progress).told(),
                    final(progress).told(),
                ),
            }
        }),
{
    let ghost g = runs::shape_of(*args);
    let ghost p = runs::rep_start::<P>(*args, points, rep as nat);
    let ghost n = runs::samples_of(*args, points);
    let ghost log0 = progress.told();
    let ghost part0 = *partition;
    let scan_len: usize = partition.scan_total;
    let count: usize = partition.num_cpus;
    let full = args.u == 64 && args.s == 0;
    proof {
        assert(params.shape(true) == g);
        lemma_pow2_pos((args.t * args.d()) as nat);
        assert(n >= 1) by (nonlinear_arith)
            requires
                n == points * pow2((args.t * args.d()) as nat),
                points >= 1,
                pow2((args.t * args.d()) as nat) >= 1,
        ;
        assert(0 <= rep * n <= (args.reps - 1) * n) by (nonlinear_arith)
            requires
                rep + 1 <= args.reps,
        ;
    }
    let stages: usize = num_checkpoints(params.d, scan_len);
    let ghost st = stages as nat;
    let base: usize = rep * scan_len;
    let mut acc: Vec<T> = vec![T::zero(); acc_cap];
    let caps: Vec<usize> = vec![stage_cap; count];
    let mut len: usize = 0;
    let mut scanned: usize = 0;
    let mut c: usize = 0;
    let mut done: usize = 0;
    proof {
        collision::lemma_stage_ends(n, 1, st);
        assert(cell::vals(acc@.take(0)) =~= Seq::<nat>::empty());
        assert(collision::checkpoint_tallies(p, g, n, 0, st) =~= Seq::<Tally>::empty());
        assert(caps@ =~= Seq::new(count as nat, |i: int| stage_cap));
    }
    while done < stages
        invariant
            done <= stages,
            1 <= stages <= scan_len,
            n == scan_len,
            st == stages,
            st == collision::stages_of(args.d(), n),
            count == part0.num_cpus,
            count > 0,
            base == rep * n,
            base <= (args.reps - 1) * n,
            rep < args.reps,
            args.checkpoints,
            orbit_fits::<P>(*args, points, count as nat),
            runs::runnable::<T>(*args, points, params.cells@),
            params.valid(),
            params.shape(true) == g,
            params.specialized(0, full),
            g == runs::shape_of(*args),
            n == runs::samples_of(*args, points),
            p == runs::rep_start::<P>(*args, points, rep as nat),
            part0 == *old(partition),
            partition.valid(),
            partition.same_partition(part0),
            part0.t == args.t,
            part0.seed == args.seed,
            partition.walked_to((base + scanned) as nat),
            acc@.len() == acc_cap,
            caps@ == Seq::new(count as nat, |i: int| stage_cap),
            log0 == old(progress).told(),
            scanned == collision::stage_end(n, done as nat, st),
            len == sampling::kept(p, g, scanned as nat).len() <= acc_cap,
            counting::ascending(cell::vals(acc@.take(len as int))),
            cell::vals(acc@.take(len as int)).to_multiset() == sampling::kept(
                p,
                g,
                scanned as nat,
            ).to_multiset(),
            done > 0 ==> c == counting::collisions(
                sampling::kept(p, g, scanned as nat).to_multiset(),
            ),
            forall|j: nat|
                1 <= j <= done ==> #[trigger] stage_split_fits(
                    p,
                    g,
                    n,
                    j,
                    st,
                    count as nat,
                    acc_cap as nat,
                    stage_cap,
                ),
            progress.told() == log0 + progress::parts(
                collision::checkpoint_tallies(p, g, n, done as nat, st),
            ),
        decreases stages - done,
    {
        let k: usize = done + 1;
        let ghost kn = k as nat;
        proof {
            collision::lemma_stage_ends(n, kn, st);
            collision::lemma_stage_adds(p, g, n, kn, st);
            assert(0 <= scan_len * k <= u128::MAX) by (nonlinear_arith)
                requires
                    0 <= scan_len <= u64::MAX,
                    0 <= k <= u64::MAX,
            ;
        }
        let target: usize = (scan_len as u128 * k as u128 / stages as u128) as usize;
        assert(target == collision::stage_end(n, kn, st));
        let stage: usize = target - scanned;
        let (boundaries, lens) = even_parts(stage, count);
        let ghost start = sampling::sample_start(p, g, scanned as nat);
        proof {
            lemma_offsets_fit::<P>(*args, points, base as nat, kn, boundaries@, count as nat);
        }
        let snapshots: Vec<P> = partition.snapshots(base + scanned, stage, boundaries.as_slice());
        let ghost sb = stage as int / count as int;
        let ghost sr = stage as int % count as int;
        proof {
            lemma_stage_snapshots::<P>(
                *args,
                points,
                rep as nat,
                scanned as nat,
                snapshots@,
                boundaries@,
                sb,
                sr,
                count as nat,
                stage as nat,
            );
            assert(snapshots@ =~= range_starts(start, g, sb, sr, count as nat));
            law_split_is_faithful(start, g, sb, sr, count as nat, stage as nat, Selection::All);
        }
        let bufs: Vec<Vec<T>> = match generate_sorted::<T, P>(
            snapshots.as_slice(),
            params,
            lens.as_slice(),
            caps.as_slice(),
            0,
            0,
            true,
            full,
        ) {
            Err(e) => {
                assert(!stage_split_fits(
                    p,
                    g,
                    n,
                    kn,
                    st,
                    count as nat,
                    acc_cap as nat,
                    stage_cap,
                ));
                return Err(e);
            },
            Ok(bufs) => bufs,
        };
        let ghost mine = collision::stage_points(p, g, n, kn, st);
        let ghost up_to = sampling::kept(p, g, target as nat);
        proof {
            assert(union_of_vecs(bufs@) == mine.to_multiset());
            assert(mine.len() == mine.to_multiset().len());
            sampling::lemma_kept_bound(start, g, stage as nat);
        }
        let slices: Vec<&[T]> = as_slices(&bufs);
        let stage_run: Vec<T> = merge_sorted(slices.as_slice());
        let got: usize = stage_run.len();
        if got > acc.len() - len {
            assert(!stage_split_fits(
                p,
                g,
                n,
                kn,
                st,
                count as nat,
                acc_cap as nat,
                stage_cap,
            ));
            return Err(BinOverflow::CheckpointAccumulator);
        }
        merge_into(acc.as_mut_slice(), len, stage_run.as_slice());
        proof {
            let before = sampling::kept(p, g, scanned as nat);
            vstd::seq_lib::lemma_multiset_commutative(before, mine);
            assert(up_to.to_multiset() == cell::vals(acc@.take(len + got)).to_multiset());
        }
        len += got;
        scanned = target;
        let front: &[T] = vstd::slice::slice_subrange(acc.as_slice(), 0, len);
        assert(front@ =~= acc@.take(len as int));
        c = count_adjacent_equals(front);
        progress.part_done(Tally { points: len, collisions: c });
        proof {
            assert(up_to.len() == up_to.to_multiset().len());
            counting::lemma_distinct_bound(up_to.to_multiset());
            assert(collision::checkpoint_tallies(p, g, n, kn, st)
                =~= collision::checkpoint_tallies(p, g, n, (kn - 1) as nat, st).push(
                collision::tally_of(up_to.to_multiset()),
            ));
            assert(progress.told() =~= log0 + progress::parts(
                collision::checkpoint_tallies(p, g, n, kn, st),
            ));
            assert(stage_split_fits(
                p,
                g,
                n,
                kn,
                st,
                count as nat,
                acc_cap as nat,
                stage_cap,
            ));
        }
        done = k;
    }
    proof {
        collision::lemma_stage_ends(n, st, st);
        assert(base + n == (rep + 1) * n) by (nonlinear_arith)
            requires
                base == rep * n,
        ;
    }
    Ok((c, len))
}

/// The offsets of the starts in stage `k` can be counted.
proof fn lemma_offsets_fit<P: Prng>(
    args: Args,
    points: usize,
    base: nat,
    k: nat,
    boundaries: Seq<usize>,
    count: nat,
)
    requires
        args.reps > 0,
        args.checkpoints,
        orbit_fits::<P>(args, points, count),
        base <= (args.reps - 1) * runs::samples_of(args, points),
        1 <= k <= collision::stages_of(args.d(), runs::samples_of(args, points)),
        boundaries.len() == count > 0,
        ({
            let n = runs::samples_of(args, points);
            let stages = collision::stages_of(args.d(), n);
            let len = collision::stage_end(n, k, stages) - collision::stage_end(
                n,
                (k - 1) as nat,
                stages,
            );
            &&& orbit::boundaries_within(boundaries, len as nat)
            &&& forall|i: int|
                0 <= i < count ==> #[trigger] boundaries[i] == orbit::even_start(
                    len / count as int,
                    len % count as int,
                    i,
                )
        }),
    ensures
        ({
            let n = runs::samples_of(args, points);
            let stages = collision::stages_of(args.d(), n);
            let start = base + collision::stage_end(n, (k - 1) as nat, stages);
            &&& start <= usize::MAX
            &&& P::can_skip() ==> forall|i: int|
                0 <= i < boundaries.len() ==> start + #[trigger] boundaries[i] <= usize::MAX && (
                start + boundaries[i]) * args.t <= u64::MAX
        }),
{
    let n = runs::samples_of(args, points);
    let stages = collision::stages_of(args.d(), n);
    let start = base + collision::stage_end(n, (k - 1) as nat, stages);
    let last = last_start(args, points, count);
    let (last_scan_start, last_len) = last_scan(args, points);
    collision::lemma_stage_ends(n, k, stages);
    collision::lemma_stage_ends(n, stages, stages);
    lemma_stage_ends_ascend(n, k, (stages - 1) as nat, stages);
    lemma_stage_ends_ascend(n, (k - 1) as nat, (stages - 1) as nat, stages);
    lemma_fundamental_div_mod(last_len as int, count as int);
    lemma_mod_bound(last_len as int, count as int);
    lemma_div_pos_is_pos(last_len as int, count as int);
    orbit::law_even_split(
        last_len as int / count as int,
        last_len as int % count as int,
        count as int,
        last_len as int,
        count as int - 1,
    );
    if P::can_skip() {
        assert forall|i: int| 0 <= i < boundaries.len() implies start + #[trigger] boundaries[i]
            <= usize::MAX && (start + boundaries[i]) * args.t <= u64::MAX by {
            assert(start + boundaries[i] <= last);
            assert((start + boundaries[i]) * args.t <= last * args.t) by (nonlinear_arith)
                requires
                    start + boundaries[i] <= last,
            ;
        }
    }
}

/// Later stages end no earlier.
proof fn lemma_stage_ends_ascend(n: nat, j: nat, k: nat, stages: nat)
    requires
        stages >= 1,
    ensures
        j <= k ==> collision::stage_end(n, j, stages) <= collision::stage_end(n, k, stages),
{
    if j <= k {
        assert(n * j <= n * k) by (nonlinear_arith)
            requires
                j <= k,
        ;
        lemma_div_is_ordered((n * j) as int, (n * k) as int, stages as int);
    }
}

/// The snapshots of a split within a repetition are the starts of its parts.
proof fn lemma_stage_snapshots<P: Prng>(
    args: Args,
    points: usize,
    rep: nat,
    scanned: nat,
    snapshots: Seq<P>,
    boundaries: Seq<usize>,
    base: int,
    rem: int,
    count: nat,
    len: nat,
)
    requires
        orbit::even_split(base, rem, count as int, len as int),
        boundaries.len() == count,
        snapshots.len() == count,
        forall|i: int|
            0 <= i < count ==> #[trigger] boundaries[i] == orbit::even_start(base, rem, i),
        forall|i: int|
            0 <= i < count ==> #[trigger] snapshots[i] == orbit::at_sample(
                P::seeded(args.seed),
                args.t,
                (rep * runs::samples_of(args, points) + scanned + boundaries[i]) as nat,
            ),
    ensures
        forall|i: int|
            0 <= i < count ==> #[trigger] snapshots[i] == sampling::sample_start(
                sampling::sample_start(
                    runs::rep_start::<P>(args, points, rep),
                    runs::shape_of(args),
                    scanned,
                ),
                runs::shape_of(args),
                orbit::even_start(base, rem, i) as nat,
            ),
{
    let n = runs::samples_of(args, points);
    let t = args.t as nat;
    let seed = P::seeded(args.seed);
    assert forall|i: int| 0 <= i < count implies #[trigger] snapshots[i] == sampling::sample_start(
        sampling::sample_start(
            runs::rep_start::<P>(args, points, rep),
            runs::shape_of(args),
            scanned,
        ),
        runs::shape_of(args),
        orbit::even_start(base, rem, i) as nat,
    ) by {
        assert(boundaries[i] == orbit::even_start(base, rem, i));
        let off = boundaries[i] as nat;
        prng::law_advance_adds(seed, (rep * n) * t, scanned * t);
        prng::law_advance_adds(seed, (rep * n) * t + scanned * t, off * t);
        assert((rep * n) * t + scanned * t + off * t == (rep * n + scanned + off) * t)
            by (nonlinear_arith);
    }
}

/// The buffers of the threads: as large as their parts where every sample is kept, else as given.
pub open spec fn buffers_of(args: Args, points: usize, count: nat, thread_caps: Seq<usize>) -> Seq<
    usize,
> {
    let n = runs::samples_of(args, points) as int;
    if args.b() == 0 && args.d() == 0 {
        range_lens(n / count as int, n % count as int, count)
    } else {
        thread_caps
    }
}

/// A repetition of the parallel test that starts at `p` overflows none of the buffers.
pub open spec fn parallel_rep_fits<P: Orbit>(
    p: P,
    args: Args,
    points: usize,
    count: nat,
    thread_caps: Seq<usize>,
    acc_cap: usize,
    stage_cap: usize,
) -> bool {
    let n = runs::samples_of(args, points);
    if args.checkpoints {
        stages_fit(
            p,
            runs::shape_of(args),
            n,
            collision::stages_of(args.d(), n),
            count,
            acc_cap as nat,
            stage_cap,
        )
    } else {
        passes_fit(p, args, points, count, buffers_of(args, points, count, thread_caps))
    }
}

/// None of the repetitions of the parallel test overflows a buffer.
pub open spec fn all_fit<P: Orbit>(
    args: Args,
    points: usize,
    thread_caps: Seq<usize>,
    acc_cap: usize,
    stage_cap: usize,
) -> bool {
    forall|i: nat|
        i < args.reps ==> #[trigger] parallel_rep_fits(
            runs::rep_start::<P>(args, points, i),
            args,
            points,
            thread_caps.len(),
            thread_caps,
            acc_cap,
            stage_cap,
        )
}

/// The bin that a repetition of the parallel test which does not fit overflows first, and the
/// tallies of what was done before, which come after those of `before`.
pub open spec fn parallel_overflows_first<P: Orbit>(
    p: P,
    args: Args,
    points: usize,
    count: nat,
    thread_caps: Seq<usize>,
    acc_cap: usize,
    stage_cap: usize,
    bin: BinOverflow,
    before: Log,
    after: Log,
) -> bool {
    let n = runs::samples_of(args, points);
    if args.checkpoints {
        stages_overflow(
            p,
            runs::shape_of(args),
            n,
            collision::stages_of(args.d(), n),
            count,
            acc_cap as nat,
            stage_cap,
            bin,
            before,
            after,
        )
    } else {
        bin == common::pass_bin(args.b() as usize) && stops_at_pass(
            p,
            args,
            points,
            count,
            buffers_of(args, points, count, thread_caps),
            before,
            after,
        )
    }
}

/// The bin that the first repetition of the parallel test which does not fit overflows, and the
/// tallies of what was done before.
pub open spec fn parallel_overflows<P: Orbit>(
    args: Args,
    points: usize,
    cells: nat,
    thread_caps: Seq<usize>,
    acc_cap: usize,
    stage_cap: usize,
    bin: BinOverflow,
    before: Log,
    after: Log,
) -> bool {
    let count = thread_caps.len();
    exists|i: nat|
        #![trigger runs::rep_start::<P>(args, points, i)]
        {
            &&& i < args.reps
            &&& !parallel_rep_fits(
                runs::rep_start::<P>(args, points, i),
                args,
                points,
                count,
                thread_caps,
                acc_cap,
                stage_cap,
            )
            &&& forall|j: nat|
                j < i ==> #[trigger] parallel_rep_fits(
                    runs::rep_start::<P>(args, points, j),
                    args,
                    points,
                    count,
                    thread_caps,
                    acc_cap,
                    stage_cap,
                )
            &&& parallel_overflows_first(
                runs::rep_start::<P>(args, points, i),
                args,
                points,
                count,
                thread_caps,
                acc_cap,
                stage_cap,
                bin,
                before + parallel_progress::<P>(args, points, cells, i),
                after,
            )
        }
}

/// What a repetition of the parallel test reports on the way: the tallies of its stages or passes.
pub open spec fn parallel_rep_progress<P: Orbit>(p: P, args: Args, points: usize) -> Seq<Tally> {
    let n = runs::samples_of(args, points);
    let stages = collision::stages_of(args.d(), n);
    let (lo, hi) = collision::pass_range(args.b() as usize, args.pass);
    if args.checkpoints {
        collision::checkpoint_tallies(p, runs::shape_of(args), n, stages, stages)
    } else {
        collision::pass_tallies(
            runs::points_from(p, args, points).to_multiset(),
            common::interval_of(runs::shape_of(args), args.b()),
            lo,
            hi,
        )
    }
}

/// What the first `k` repetitions report: each its parts, then itself.
pub open spec fn parallel_progress<P: Orbit>(
    args: Args,
    points: usize,
    cells: nat,
    k: nat,
) -> Log
    decreases k,
{
    if k == 0 {
        Seq::empty()
    } else {
        let start = runs::rep_start::<P>(args, points, (k - 1) as nat);
        (parallel_progress::<P>(args, points, cells, (k - 1) as nat) + progress::parts(
            parallel_rep_progress(start, args, points),
        )).push(Event::Repetition(runs::rep_tally(start, args, points, cells)))
    }
}

/// Without a tradeoff the only pass is the whole repetition.
proof fn lemma_rep_is_passes<P: Orbit>(p: P, args: Args, points: usize, cells: nat)
    requires
        args.valid(),
        !args.birthday_spacings,
    ensures
        ({
            let m = runs::points_from(p, args, points).to_multiset();
            let key = common::interval_of(runs::shape_of(args), args.b());
            let (lo, hi) = collision::pass_range(args.b() as usize, args.pass);
            &&& counting::class_collisions(m, key, lo, hi) == runs::rep_collisions(
                p,
                args,
                points,
                cells,
            )
            &&& counting::class_points(m, key, lo, hi) == runs::rep_points(p, args, points)
        }),
{
    if args.b() == 0 {
        lemma2_to64();
        collision::law_tradeoff_exact(
            p,
            runs::shape_of(args),
            runs::samples_of(args, points),
            0,
        );
    }
}

/// Parallel version of the collision test.
///
/// The samples of a repetition are split into contiguous ranges, one per thread. A thread reaches the
/// start of its range by jump-ahead or, for generators that cannot jump, through a sequential
/// pre-scan; repetitions go on along the orbit. The tallies are those of the sequential test for
/// every number of threads, repetition by repetition.
///
/// For each pass every thread fills a buffer, the buffers are sorted, and the collisions within and
/// across them are counted by a parallel value-segmented merge.
pub fn run_test_parallel<T: Cell, P: Prng>(
    args: &Args,
    points: usize,
    cells: &CellCount,
    num_cpus: usize,
    thread_caps: &[usize],
    acc_cap: usize,
    stage_cap: usize,
    progress: &mut impl Reporter,
) -> (r: Result<TestRun, BinOverflow>)
    requires
        runs::runnable::<T>(*args, points, cells@),
        !args.birthday_spacings,
        args.checkpoints ==> args.d() > 0 && args.b() == 0,
        orbit_fits::<P>(*args, points, thread_caps@.len()),
        thread_caps@.len() == cpus_of(num_cpus, runs::samples_of(*args, points)),
    ensures
        r is Ok <==> all_fit::<P>(*args, points, thread_caps@, acc_cap, stage_cap),
        r matches Ok(run) ==> {
            &&& run.reps@.len() == args.reps
            &&& runs::reps_counted::<P>(run.reps@, *args, points, cells@)
            &&& run.total == runs::total_collisions::<P>(*args, points, cells@, args.reps as nat)
            &&& final(progress).told() == old(progress).told() + parallel_progress::<P>(
                *args,
                points,
                cells@,
                args.reps as nat,
            )
        },
        r matches Err(bin) ==> parallel_overflows::<P>(
            *args,
            points,
            cells@,
            thread_caps@,
            acc_cap,
            stage_cap,
            bin,
            old(progress).told(),
            final(progress).told(),
        ),
{
    let d: usize = args.decimation_bits();
    let b: usize = args.tradeoff_bits();
    let ghost n = runs::samples_of(*args, points);
    let ghost count = thread_caps@.len();
    let scan_total: usize = match scan_samples(points, args.t, d) {
        Some(len) => len,
        None => 0,
    };
    let mut partition: OrbitPartition<P> = OrbitPartition::new(
        args.seed,
        num_cpus,
        scan_total,
        args.t,
    );
    let ghost part0 = partition;
    let params = GridParams { u: args.u, t: args.t, s: args.s, d, cells };
    let cpus: usize = partition.num_cpus;
    let (_, lens) = even_parts(scan_total, cpus);
    let buffers: &[usize] = if d == 0 && b == 0 {
        lens.as_slice()
    } else {
        thread_caps
    };
    let mut total: u128 = 0;
    let mut reps: Vec<Tally> = Vec::new();
    let ghost log0 = progress.told();
    let mut rep: usize = 0;
    proof {
        assert(0 * n == 0);
        lemma_partition_bases(partition);
    }
    while rep < args.reps
        invariant
            rep <= args.reps,
            runs::runnable::<T>(*args, points, cells@),
            !args.birthday_spacings,
            args.checkpoints ==> args.d() > 0 && args.b() == 0,
            orbit_fits::<P>(*args, points, count),
            params == (GridParams { u: args.u, t: args.t, s: args.s, d, cells }),
            d == args.d(),
            n == runs::samples_of(*args, points),
            n == scan_total,
            count == thread_caps@.len() == cpus > 0,
            part0.valid(),
            part0.num_cpus == cpus,
            part0.base_chunk == n as int / count as int,
            part0.rem == n as int % count as int,
            part0.scan_total == scan_total,
            part0.t == args.t,
            part0.seed == args.seed,
            partition.valid(),
            partition.same_partition(part0),
            partition.walked_to((rep * n) as nat),
            lens@ == range_lens(n as int / count as int, n as int % count as int, count),
            buffers@ == buffers_of(*args, points, count, thread_caps@),
            reps@.len() == rep,
            runs::reps_counted::<P>(reps@, *args, points, cells@),
            total == runs::total_collisions::<P>(*args, points, cells@, rep as nat),
            total <= rep * usize::MAX,
            log0 == old(progress).told(),
            progress.told() == log0 + parallel_progress::<P>(*args, points, cells@, rep as nat),
            forall|i: nat|
                i < rep ==> #[trigger] parallel_rep_fits(
                    runs::rep_start::<P>(*args, points, i),
                    *args,
                    points,
                    count,
                    thread_caps@,
                    acc_cap,
                    stage_cap,
                ),
        decreases args.reps - rep,
    {
        let ghost before = reps@;
        let ghost p = runs::rep_start::<P>(*args, points, rep as nat);
        proof {
            assert(rep * usize::MAX + usize::MAX == (rep + 1) * usize::MAX) by (nonlinear_arith);
            assert((rep + 1) * usize::MAX <= u128::MAX) by (nonlinear_arith)
                requires
                    0 <= rep + 1 <= u64::MAX + 1,
                    0 <= usize::MAX <= u64::MAX,
                    rep < usize::MAX,
            ;
            lemma_rep_is_passes(p, *args, points, cells@);
        }
        let r = if args.checkpoints {
            parallel_checkpoints::<T, P>(
                &mut partition,
                &params,
                args,
                points,
                rep,
                acc_cap,
                stage_cap,
                progress,
            )
        } else {
            proof {
                lemma_rep_offsets(*args, points, partition, rep as nat);
            }
            let snapshots: Vec<P> = partition.rep_snapshots(rep + 1);
            proof {
                lemma_rep_snapshots(*args, points, part0, rep as nat, snapshots@);
                assert(snapshots@ =~= range_starts(
                    p,
                    runs::shape_of(*args),
                    n as int / count as int,
                    n as int % count as int,
                    count,
                ));
            }
            parallel_rep::<T, P>(
                snapshots.as_slice(),
                &params,
                lens.as_slice(),
                buffers,
                args,
                points,
                progress,
                Ghost(p),
            )
        };
        match r {
            Err(e) => {
                assert(!parallel_rep_fits(
                    p,
                    *args,
                    points,
                    count,
                    thread_caps@,
                    acc_cap,
                    stage_cap,
                ));
                return Err(e);
            },
            Ok((c, used)) => {
                assert(parallel_rep_fits(
                    p,
                    *args,
                    points,
                    count,
                    thread_caps@,
                    acc_cap,
                    stage_cap,
                )) by {
                    assert(args.checkpoints || buffers@ == buffers_of(
                        *args,
                        points,
                        count,
                        thread_caps@,
                    ));
                }
                total += c as u128;
                reps.push(Tally { points: used, collisions: c });
                progress.repetition_done(Tally { points: used, collisions: c });
                proof {
                    assert forall|i: int| 0 <= i < reps@.len() implies {
                        let start = runs::rep_start::<P>(*args, points, i as nat);
                        &&& (#[trigger] reps@[i]).collisions == runs::rep_collisions(
                            start,
                            *args,
                            points,
                            cells@,
                        )
                        &&& reps@[i].points == runs::rep_points(start, *args, points)
                    } by {
                        if i < before.len() {
                            assert(reps@[i] == before[i]);
                        }
                    }
                }
            },
        }
        rep += 1;
    }
    Ok(TestRun { total, reps })
}

/// A partition splits its samples by division with remainder.
pub proof fn lemma_partition_bases<P: Prng>(part: OrbitPartition<P>)
    requires
        part.valid(),
    ensures
        part.base_chunk == part.scan_total as int / part.num_cpus as int,
        part.rem == part.scan_total as int % part.num_cpus as int,
{
    lemma_fundamental_div_mod_converse(
        part.scan_total as int,
        part.num_cpus as int,
        part.base_chunk as int,
        part.rem as int,
    );
}

/// The offsets of the ranges of a repetition can be counted.
pub proof fn lemma_rep_offsets<P: Prng>(
    args: Args,
    points: usize,
    part: OrbitPartition<P>,
    rep: nat,
)
    requires
        part.valid(),
        part.scan_total == runs::samples_of(args, points),
        part.t == args.t,
        rep < args.reps,
        !args.checkpoints,
        orbit_fits::<P>(args, points, part.num_cpus as nat),
    ensures
        rep * part.scan_total <= usize::MAX,
        rep * part.scan_total + part.scan_total == (rep + 1) * part.scan_total,
        P::can_skip() ==> {
            let last = rep * part.scan_total + part.start_of(part.num_cpus - 1);
            last <= usize::MAX && last * part.t <= u64::MAX
        },
{
    let n = part.scan_total as nat;
    lemma_partition_bases(part);
    assert(rep * n + n == (rep + 1) * n) by (nonlinear_arith);
    assert(rep * n <= (args.reps - 1) * n) by (nonlinear_arith)
        requires
            rep <= args.reps - 1,
    ;
    if P::can_skip() {
        let start = rep * n + part.start_of(part.num_cpus - 1);
        let last = last_start(args, points, part.num_cpus as nat);
        assert(start * part.t <= last * part.t) by (nonlinear_arith)
            requires
                start <= last,
        ;
    }
}

/// The snapshots of a repetition are the starts of its ranges.
pub proof fn lemma_rep_snapshots<P: Prng>(
    args: Args,
    points: usize,
    part: OrbitPartition<P>,
    rep: nat,
    snapshots: Seq<P>,
)
    requires
        part.valid(),
        part.scan_total == runs::samples_of(args, points),
        snapshots.len() == part.num_cpus,
        forall|i: int|
            0 <= i < part.num_cpus ==> #[trigger] snapshots[i] == orbit::at_sample(
                P::seeded(args.seed),
                args.t,
                (rep * part.scan_total + part.start_of(i)) as nat,
            ),
    ensures
        forall|i: int|
            0 <= i < part.num_cpus ==> #[trigger] snapshots[i] == sampling::sample_start(
                runs::rep_start::<P>(args, points, rep),
                runs::shape_of(args),
                part.start_of(i) as nat,
            ),
{
    let n = runs::samples_of(args, points);
    let t = args.t as nat;
    assert forall|i: int| 0 <= i < part.num_cpus implies #[trigger] snapshots[i]
        == sampling::sample_start(
        runs::rep_start::<P>(args, points, rep),
        runs::shape_of(args),
        part.start_of(i) as nat,
    ) by {
        orbit::law_ranges_partition(part, i);
        let off = part.start_of(i) as nat;
        prng::law_advance_adds(P::seeded(args.seed), (rep * n) * t, off * t);
        assert((rep * n) * t + off * t == (rep * n + off) * t) by (nonlinear_arith);
    }
}

/// With a tradeoff or with checkpoints, the parallel test reports on the way what the sequential
/// one does.
pub proof fn law_parallel_reports_alike<P: Orbit>(args: Args, points: usize, cells: nat, k: nat)
    requires
        !args.birthday_spacings,
        args.b() > 0 && !args.checkpoints || args.b() == 0 && runs::with_checkpoints(args),
    ensures
        parallel_progress::<P>(args, points, cells, k) == runs::total_progress::<P>(
            args,
            points,
            cells,
            k,
        ),
    decreases k,
{
    if k > 0 {
        law_parallel_reports_alike::<P>(args, points, cells, (k - 1) as nat);
    }
}

/// As many threads share some samples as are asked for, but no more than there are samples, and at
/// least one.
pub proof fn law_number_of_threads(num_cpus: usize, n: nat)
    ensures
        cpus_of(num_cpus, n) >= 1,
        num_cpus >= 1 && n >= 1 ==> {
            &&& cpus_of(num_cpus, n) <= num_cpus
            &&& cpus_of(num_cpus, n) <= n
            &&& cpus_of(num_cpus, n) == num_cpus || cpus_of(num_cpus, n) == n
        },
        num_cpus == 0 || n == 0 ==> cpus_of(num_cpus, n) == 1,
{
}

/// Thread `i` of an even split scans as many samples as the others, or one more if it is among the
/// first, from where the threads before it end.
pub proof fn law_range_of_thread<P: Orbit>(p: P, g: Shape, n: nat, count: nat, i: nat)
    requires
        i < count,
        n <= usize::MAX,
    ensures
        ({
            let base = n as int / count as int;
            let rem = n as int % count as int;
            let starts = range_starts(p, g, base, rem, count);
            let lens = range_lens(base, rem, count);
            &&& starts.len() == count && lens.len() == count
            &&& starts[i as int] == prng::advance(
                p,
                (i * base + (if i < rem {
                    i as int
                } else {
                    rem
                })) as nat * g.t,
            )
            &&& lens[i as int] == base + (if i < rem {
                1int
            } else {
                0
            })
        }),
{
    let base = n as int / count as int;
    let rem = n as int % count as int;
    lemma_fundamental_div_mod(n as int, count as int);
    lemma_mod_bound(n as int, count as int);
    lemma_div_pos_is_pos(n as int, count as int);
    orbit::law_even_split(base, rem, count as int, n as int, i as int);
    orbit::law_even_split(base, rem, count as int, n as int, i as int + 1);
}

/// A pass of the parallel test fits if and only if what each thread keeps of its range, in the
/// interval of the pass, has no more points than the buffer of the thread has places.
pub proof fn law_pass_fits<P: Orbit>(
    p: P,
    args: Args,
    points: usize,
    count: nat,
    caps: Seq<usize>,
    pass: u64,
    d: nat,
    b: nat,
    g: Shape,
    width: nat,
    starts: Seq<P>,
    lens: Seq<usize>,
)
    requires
        args.decimate matches Some(n) ==> d == n,
        args.decimate is None ==> d == 0,
        args.tradeoff matches Some(n) ==> b == n && b >= 1,
        args.tradeoff is None ==> b == 0,
        g == (Shape { u: args.u as nat, t: args.t as nat, s: args.s as nat, d }),
        d <= args.u,
        b <= g.t * (g.u - g.d),
        width == pow2((g.t * (g.u - g.d) - b) as nat),
        ({
            let n = (points as nat * pow2(args.t as nat * d)) as int;
            &&& starts == range_starts(p, g, n / count as int, n % count as int, count)
            &&& lens == range_lens(n / count as int, n % count as int, count)
        }),
    ensures
        pass_fits(p, args, points, count, caps, pass) <==> forall|i: int|
            0 <= i < count ==> {
                let all = sampling::kept(#[trigger] starts[i], g, lens[i] as nat);
                &&& b > 0 ==> common::between(all, width, pass as nat).len() <= caps[i]
                &&& b == 0 ==> all.len() <= caps[i]
            },
{
    assert(runs::shape_of(args) == g);
    assert forall|i: int| 0 <= i < count implies ({
        let all = sampling::kept(#[trigger] starts[i], g, lens[i] as nat);
        common::selected(
            starts[i],
            g,
            lens[i] as nat,
            common::selection(b > 0, b as usize, pass),
        ).len() == if b > 0 {
            common::between(all, width, pass as nat).len()
        } else {
            all.len()
        }
    }) by {
        let all = sampling::kept(starts[i], g, lens[i] as nat);
        if b > 0 {
            collision::lemma_between_is_class(all, g, b, pass as nat);
            counting::lemma_filter_is_class(all, common::interval_of(g, b), pass as nat);
        }
    }
}

/// The buffers of the threads are as long as their ranges where every sample is kept, and else
/// those that are given.
pub proof fn law_buffers_of_threads(
    args: Args,
    points: usize,
    count: nat,
    thread_caps: Seq<usize>,
)
    requires
        args.tradeoff matches Some(b) ==> b >= 1,
        args.decimate matches Some(d) ==> d >= 1,
    ensures
        args.tradeoff is Some || args.decimate is Some ==> buffers_of(
            args,
            points,
            count,
            thread_caps,
        ) == thread_caps,
        args.tradeoff is None && args.decimate is None ==> buffers_of(
            args,
            points,
            count,
            thread_caps,
        ) == range_lens(points as int / count as int, points as int % count as int, count),
{
    if args.decimate is None {
        lemma2_to64();
        assert(args.t * 0 == 0);
        assert(points as nat * 1 == points);
    }
}

/// A repetition of the parallel test fits if and only if each of its passes does or, with
/// checkpoints, each of its stages.
pub proof fn law_parallel_repetition_fits<P: Orbit>(
    p: P,
    args: Args,
    points: usize,
    count: nat,
    thread_caps: Seq<usize>,
    acc_cap: usize,
    stage_cap: usize,
    d: nat,
    b: nat,
    g: Shape,
    n: nat,
    stages: nat,
)
    requires
        args.decimate matches Some(n) ==> d == n,
        args.decimate is None ==> d == 0,
        args.tradeoff matches Some(n) ==> b == n && b >= 1,
        args.tradeoff is None ==> b == 0,
        g == (Shape { u: args.u as nat, t: args.t as nat, s: args.s as nat, d }),
        b < 64,
        args.pass matches Some(k) ==> k < pow2(b),
        n == points * pow2(args.t as nat * d),
        stages == collision::stages_of(d, n),
    ensures
        !args.checkpoints ==> (parallel_rep_fits(
            p,
            args,
            points,
            count,
            thread_caps,
            acc_cap,
            stage_cap,
        ) <==> forall|k: u64|
            (match args.pass {
                Some(only) => k == only,
                None => k < pow2(b),
            }) ==> #[trigger] pass_fits(
                p,
                args,
                points,
                count,
                buffers_of(args, points, count, thread_caps),
                k,
            )),
        args.checkpoints ==> (parallel_rep_fits(
            p,
            args,
            points,
            count,
            thread_caps,
            acc_cap,
            stage_cap,
        ) <==> forall|k: nat|
            1 <= k <= stages ==> #[trigger] stage_split_fits(
                p,
                g,
                n,
                k,
                stages,
                count,
                acc_cap as nat,
                stage_cap,
            )),
{
    assert(runs::shape_of(args) == g);
    assert(n == runs::samples_of(args, points));
}

/// A stage of the parallel test fits if and only if what each thread keeps of it fits the buffer of
/// the thread, and all the points up to its end fit theirs.
pub proof fn law_stage_split_fits<P: Orbit>(
    p: P,
    g: Shape,
    n: nat,
    k: nat,
    stages: nat,
    count: nat,
    acc_cap: nat,
    stage_cap: usize,
)
    ensures
        stage_split_fits(p, g, n, k, stages, count, acc_cap, stage_cap) <==> stage_threads_fit(
            p,
            g,
            n,
            k,
            stages,
            count,
            stage_cap,
        ) && sampling::kept(p, g, (n * k) / stages).len() <= acc_cap,
{
}

/// The threads of a stage fit if and only if none of them keeps more points of its share of the
/// stage than its buffer has places.
pub proof fn law_stage_threads_fit<P: Orbit>(
    p: P,
    g: Shape,
    n: nat,
    k: nat,
    stages: nat,
    count: nat,
    stage_cap: usize,
    starts: Seq<P>,
    lens: Seq<usize>,
)
    requires
        1 <= k <= stages,
        ({
            let start = (n * (k - 1)) as nat / stages;
            let len = (n * k) / stages - start;
            &&& starts == range_starts(
                prng::advance(p, start * g.t),
                g,
                len / count as int,
                len % count as int,
                count,
            )
            &&& lens == range_lens(len / count as int, len % count as int, count)
        }),
    ensures
        stage_threads_fit(p, g, n, k, stages, count, stage_cap) <==> forall|i: int|
            0 <= i < count ==> sampling::kept(#[trigger] starts[i], g, lens[i] as nat).len()
                <= stage_cap,
{
}

/// One more repetition of the parallel test reports its parts, and then itself.
pub proof fn law_parallel_repetition_reports_its_parts_first<P: Orbit>(
    args: Args,
    points: usize,
    cells: nat,
    k: nat,
)
    ensures
        parallel_progress::<P>(args, points, cells, 0) == Seq::<Event>::empty(),
        ({
            let start = runs::rep_start::<P>(args, points, k);
            let tally = Tally {
                points: runs::rep_points(start, args, points) as usize,
                collisions: runs::rep_collisions(start, args, points, cells) as usize,
            };
            parallel_progress::<P>(args, points, cells, k + 1) == parallel_progress::<P>(
                args,
                points,
                cells,
                k,
            ) + progress::parts(parallel_rep_progress(start, args, points)) + seq![
                Event::Repetition(tally),
            ]
        }),
{
    let start = runs::rep_start::<P>(args, points, k);
    let tally = runs::rep_tally(start, args, points, cells);
    let before = parallel_progress::<P>(args, points, cells, k) + progress::parts(
        parallel_rep_progress(start, args, points),
    );
    assert(before.push(Event::Repetition(tally)) =~= before + seq![Event::Repetition(tally)]);
}

/// The parts of the parallel test are its stages with checkpoints, else its passes; without a
/// tradeoff the one pass has all points.
pub proof fn law_parallel_parts<P: Orbit>(
    p: P,
    args: Args,
    points: usize,
    d: nat,
    b: nat,
    g: Shape,
    n: nat,
    k: nat,
    mine: Seq<nat>,
)
    requires
        args.decimate matches Some(n) ==> d == n,
        args.decimate is None ==> d == 0,
        args.tradeoff matches Some(n) ==> b == n && b >= 1,
        args.tradeoff is None ==> b == 0,
        g == (Shape { u: args.u as nat, t: args.t as nat, s: args.s as nat, d }),
        g.t >= 1,
        g.d < g.u,
        g.u + g.s <= 64,
        b <= g.t * (g.u - g.d),
        n == points * pow2(args.t as nat * d),
        n <= usize::MAX,
        match args.pass {
            Some(only) => k == only,
            None => k < pow2(b),
        },
        mine == common::between(
            sampling::kept(p, g, n),
            pow2((g.t * (g.u - g.d) - b) as nat),
            k,
        ),
    ensures
        args.checkpoints ==> parallel_rep_progress(p, args, points)
            == collision::checkpoint_tallies(
            p,
            g,
            n,
            collision::stages_of(d, n),
            collision::stages_of(d, n),
        ),
        !args.checkpoints ==> {
            let parts = parallel_rep_progress(p, args, points);
            let place = if args.pass is Some {
                0
            } else {
                k as int
            };
            &&& parts.len() == (if args.pass is Some {
                1
            } else {
                pow2(b)
            })
            &&& parts[place].points == mine.len()
            &&& parts[place].collisions + mine.to_set().len() == mine.len()
        },
        b == 0 && args.pass is None ==> mine == sampling::kept(p, g, n),
{
    let all = sampling::kept(p, g, n);
    assert(runs::shape_of(args) == g);
    assert(all == runs::points_from(p, args, points));
    sampling::lemma_kept_bound(p, g, n);
    collision::lemma_between_is_class(all, g, b, k);
    assert(mine.len() <= all.len()) by {
        counting::lemma_filter_is_class(all, common::interval_of(g, b), k);
        all.lemma_filter_len(counting::has_key(common::interval_of(g, b), k));
    }
    collision::law_tally_counts(mine);
    if b == 0 && args.pass is None {
        lemma2_to64();
        let width = pow2((g.t * (g.u - g.d) - b) as nat);
        let inside = |x: nat| k * width <= x && x < (k + 1) * width;
        assert forall|i: int| 0 <= i < all.len() implies (inside(#[trigger] all[i]) <==> 0 <= i
            < all.len()) by {
            assert(all[i] < width);
            assert(0 * width == 0 && 1 * width == width);
        }
        seqs::lemma_filter_range(all, inside, 0, all.len() as int);
        assert(all.subrange(0, all.len() as int) =~= all);
    }
}

/// The parallel test gives, repetition by repetition, what a sequential repetition that starts
/// there has, on any number of threads; their collisions are its total, and it has told of every
/// repetition.
pub proof fn law_run_test_parallel<T: Cell, P: Prng, R: Reporter>(
    args: &Args,
    points: usize,
    cells: &CellCount,
    num_cpus: usize,
    thread_caps: &[usize],
    acc_cap: usize,
    stage_cap: usize,
    progress: &mut R,
    r: Result<TestRun, BinOverflow>,
    i: nat,
    d: nat,
    start: P,
)
    requires
        i < args.reps,
        args.decimate matches Some(n) ==> d == n,
        args.decimate is None ==> d == 0,
        start == prng::advance(
            P::seeded(args.seed),
            i * (points as nat * pow2(args.t as nat * d)) * args.t as nat,
        ),
        call_ensures(
            run_test_parallel::<T, P>,
            (args, points, cells, num_cpus, thread_caps, acc_cap, stage_cap, progress),
            r,
        ),
    ensures
        r matches Ok(run) ==> {
            &&& run.reps@.len() == args.reps
            &&& run.reps@[i as int].points == runs::rep_points(start, *args, points)
            &&& run.reps@[i as int].collisions == runs::rep_collisions(
                start,
                *args,
                points,
                cells@,
            )
            &&& run.total == run.reps@.fold_left(
                0nat,
                |sum: nat, tally: Tally| sum + tally.collisions as nat,
            )
            &&& parallel_rep_fits(
                start,
                *args,
                points,
                thread_caps@.len(),
                thread_caps@,
                acc_cap,
                stage_cap,
            )
            &&& final(progress).told() == old(progress).told() + parallel_progress::<P>(
                *args,
                points,
                cells@,
                args.reps as nat,
            )
        },
        r is Err ==> exists|j: nat|
            j < args.reps && !#[trigger] parallel_rep_fits(
                runs::rep_start::<P>(*args, points, j),
                *args,
                points,
                thread_caps@.len(),
                thread_caps@,
                acc_cap,
                stage_cap,
            ),
{
    assert(start == runs::rep_start::<P>(*args, points, i));
    assert(r is Ok <==> all_fit::<P>(*args, points, thread_caps@, acc_cap, stage_cap));
    if let Ok(run) = r {
        runs::law_tally_of_repetition::<P>(run.reps@, *args, points, cells@, i, d, start);
        runs::law_total_is_the_sum::<P>(run.reps@, *args, points, cells@);
    }
}

/// The parallel test that overflows reports the bin of the first repetition that does not fit,
/// after it has told of all those before it.
#[verifier::spinoff_prover]
#[verifier::rlimit(40)]
pub proof fn law_first_parallel_overflow_is_reported<P: Orbit>(
    args: Args,
    points: usize,
    cells: nat,
    thread_caps: Seq<usize>,
    acc_cap: usize,
    stage_cap: usize,
    bin: BinOverflow,
    before: Log,
    after: Log,
    i: nat,
)
    requires
        parallel_overflows::<P>(
            args,
            points,
            cells,
            thread_caps,
            acc_cap,
            stage_cap,
            bin,
            before,
            after,
        ),
        i < args.reps,
        !parallel_rep_fits(
            runs::rep_start::<P>(args, points, i),
            args,
            points,
            thread_caps.len(),
            thread_caps,
            acc_cap,
            stage_cap,
        ),
        forall|j: nat|
            j < i ==> #[trigger] parallel_rep_fits(
                runs::rep_start::<P>(args, points, j),
                args,
                points,
                thread_caps.len(),
                thread_caps,
                acc_cap,
                stage_cap,
            ),
    ensures
        parallel_overflows_first(
            runs::rep_start::<P>(args, points, i),
            args,
            points,
            thread_caps.len(),
            thread_caps,
            acc_cap,
            stage_cap,
            bin,
            before + parallel_progress::<P>(args, points, cells, i),
            after,
        ),
        !args.checkpoints && (args.tradeoff matches Some(b) && b >= 1) ==> bin
            == BinOverflow::TradeoffBin,
        !args.checkpoints && args.tradeoff is None ==> bin == BinOverflow::ParallelDecimationChunk,
{
    let count = thread_caps.len();
    let first = choose|first: nat|
        #![trigger runs::rep_start::<P>(args, points, first)]
        {
            &&& first < args.reps
            &&& !parallel_rep_fits(
                runs::rep_start::<P>(args, points, first),
                args,
                points,
                count,
                thread_caps,
                acc_cap,
                stage_cap,
            )
            &&& forall|j: nat|
                j < first ==> #[trigger] parallel_rep_fits(
                    runs::rep_start::<P>(args, points, j),
                    args,
                    points,
                    count,
                    thread_caps,
                    acc_cap,
                    stage_cap,
                )
            &&& parallel_overflows_first(
                runs::rep_start::<P>(args, points, first),
                args,
                points,
                count,
                thread_caps,
                acc_cap,
                stage_cap,
                bin,
                before + parallel_progress::<P>(args, points, cells, first),
                after,
            )
        };
    if first < i {
        assert(parallel_rep_fits(
            runs::rep_start::<P>(args, points, first),
            args,
            points,
            count,
            thread_caps,
            acc_cap,
            stage_cap,
        ));
    } else if i < first {
        assert(parallel_rep_fits(
            runs::rep_start::<P>(args, points, i),
            args,
            points,
            count,
            thread_caps,
            acc_cap,
            stage_cap,
        ));
    }
}

/// Where a pass of the parallel test does not fit, those before the first such pass were told of,
/// and nothing else was.
pub proof fn law_parallel_overflow_tells_the_passes_before<P: Orbit>(
    p: P,
    args: Args,
    points: usize,
    count: nat,
    caps: Seq<usize>,
    before: Log,
    after: Log,
    k: u64,
)
    requires
        stops_at_pass(p, args, points, count, caps, before, after),
        ({
            let (lo, hi) = collision::pass_range(args.b() as usize, args.pass);
            &&& lo <= k < hi
            &&& forall|j: u64|
                lo <= j < k ==> #[trigger] pass_fits(p, args, points, count, caps, j)
        }),
        !pass_fits(p, args, points, count, caps, k),
    ensures
        after == before + progress::parts(
            collision::pass_tallies(
                runs::points_from(p, args, points).to_multiset(),
                common::interval_of(runs::shape_of(args), args.b()),
                collision::pass_range(args.b() as usize, args.pass).0,
                k as nat,
            ),
        ),
{
    let (lo, hi) = collision::pass_range(args.b() as usize, args.pass);
    let first = choose|first: u64|
        {
            &&& lo <= first < hi
            &&& !#[trigger] pass_fits(p, args, points, count, caps, first)
            &&& forall|j: u64|
                lo <= j < first ==> #[trigger] pass_fits(p, args, points, count, caps, j)
            &&& after == before + progress::parts(
                collision::pass_tallies(
                    runs::points_from(p, args, points).to_multiset(),
                    common::interval_of(runs::shape_of(args), args.b()),
                    lo,
                    first as nat,
                ),
            )
        };
    if first < k {
        assert(pass_fits(p, args, points, count, caps, first));
    } else if k < first {
        assert(pass_fits(p, args, points, count, caps, k));
    }
}

/// Without checkpoints, the offsets of a test can be counted if and only if the last repetition
/// starts at a sample that can be and, where the generator jumps, the last thread after draws that
/// can be.
pub proof fn law_orbit_fits<P: Prng>(
    args: Args,
    points: usize,
    count: nat,
    d: nat,
    n: nat,
    last: int,
)
    requires
        args.decimate matches Some(n) ==> d == n,
        args.decimate is None ==> d == 0,
        n == points * pow2(args.t as nat * d),
        !args.checkpoints,
        args.reps >= 1,
        count >= 1,
        last == (args.reps - 1) * n + (count - 1) * (n as int / count as int) + (if count - 1 < n
            as int % count as int {
            count - 1
        } else {
            n as int % count as int
        }),
    ensures
        orbit_fits::<P>(args, points, count) <==> {
            &&& (args.reps - 1) * n <= usize::MAX
            &&& P::can_skip() ==> last <= usize::MAX && last * args.t <= u64::MAX
        },
{
    assert((args.reps - 1) * n >= 0) by (nonlinear_arith)
        requires
            args.reps >= 1,
            n >= 0,
    ;
}

/// With checkpoints, the last scan is the last stage of the last repetition: the offsets of a test
/// can be counted if and only if it starts at a sample that can be and, where the generator jumps,
/// its last thread after draws that can be.
pub proof fn law_orbit_fits_with_checkpoints<P: Prng>(
    args: Args,
    points: usize,
    count: nat,
    d: nat,
    n: nat,
    stages: nat,
    start: nat,
    len: nat,
    last: int,
)
    requires
        args.decimate matches Some(n) ==> d == n,
        args.decimate is None ==> d == 0,
        n == points * pow2(args.t as nat * d),
        stages == collision::stages_of(d, n),
        stages >= 1,
        args.checkpoints,
        args.reps >= 1,
        count >= 1,
        start == (args.reps - 1) * n + (n * (stages - 1)) as nat / stages,
        len == n - (n * (stages - 1)) as nat / stages,
        last == start + (count - 1) * (len as int / count as int) + (if count - 1 < len as int
            % count as int {
            count - 1
        } else {
            len as int % count as int
        }),
    ensures
        orbit_fits::<P>(args, points, count) <==> {
            &&& start <= usize::MAX
            &&& P::can_skip() ==> last <= usize::MAX && last * args.t <= u64::MAX
        },
{
    assert((args.reps - 1) * n >= 0) by (nonlinear_arith)
        requires
            args.reps >= 1,
            n >= 0,
    ;
}

/// Whether a test can run in parallel is whether its offsets can be counted.
pub proof fn law_offsets_fit<P: Prng>(args: Args, points: usize, num_cpus: usize, fit: bool, d: nat)
    requires
        args.decimate matches Some(n) ==> d == n,
        args.decimate is None ==> d == 0,
        call_ensures(offsets_fit::<P>, (&args, points, num_cpus), fit),
    ensures
        fit == orbit_fits::<P>(
            args,
            points,
            cpus_of(num_cpus, points as nat * pow2(args.t as nat * d)),
        ),
        args.reps == 0 ==> fit,
{
}

/// Where a stage of the parallel test does not fit, the buffer that the first such stage overflows
/// is told from the other: those of the threads come first. The stages before it were told of, and
/// nothing else was.
pub proof fn law_parallel_overflow_tells_the_stages_before<P: Orbit>(
    p: P,
    g: Shape,
    n: nat,
    stages: nat,
    count: nat,
    acc_cap: nat,
    stage_cap: usize,
    bin: BinOverflow,
    before: Log,
    after: Log,
    k: nat,
)
    requires
        stages_overflow(p, g, n, stages, count, acc_cap, stage_cap, bin, before, after),
        1 <= k <= stages,
        !stage_split_fits(p, g, n, k, stages, count, acc_cap, stage_cap),
        forall|j: nat|
            1 <= j < k ==> #[trigger] stage_split_fits(
                p,
                g,
                n,
                j,
                stages,
                count,
                acc_cap,
                stage_cap,
            ),
    ensures
        bin == (if stage_threads_fit(p, g, n, k, stages, count, stage_cap) {
            BinOverflow::CheckpointAccumulator
        } else {
            BinOverflow::ParallelDecimationChunk
        }),
        after == before + progress::parts(
            collision::checkpoint_tallies(p, g, n, (k - 1) as nat, stages),
        ),
{
    let first = choose|first: nat|
        {
            &&& 1 <= first <= stages
            &&& !#[trigger] stage_split_fits(p, g, n, first, stages, count, acc_cap, stage_cap)
            &&& forall|j: nat|
                1 <= j < first ==> #[trigger] stage_split_fits(
                    p,
                    g,
                    n,
                    j,
                    stages,
                    count,
                    acc_cap,
                    stage_cap,
                )
            &&& bin == (if stage_threads_fit(p, g, n, first, stages, count, stage_cap) {
                BinOverflow::CheckpointAccumulator
            } else {
                BinOverflow::ParallelDecimationChunk
            })
            &&& after == before + progress::parts(
                collision::checkpoint_tallies(p, g, n, (first - 1) as nat, stages),
            )
        };
    if first < k {
        assert(stage_split_fits(p, g, n, first, stages, count, acc_cap, stage_cap));
    } else if k < first {
        assert(stage_split_fits(p, g, n, k, stages, count, acc_cap, stage_cap));
    }
}

/// A repetition of the parallel test that overflows does so at its first stage that does not fit
/// with checkpoints, else at its first such pass.
pub proof fn law_overflowing_parallel_repetition<P: Orbit>(
    p: P,
    args: Args,
    points: usize,
    count: nat,
    thread_caps: Seq<usize>,
    acc_cap: usize,
    stage_cap: usize,
    bin: BinOverflow,
    before: Log,
    after: Log,
    d: nat,
    g: Shape,
    n: nat,
)
    requires
        args.decimate matches Some(n) ==> d == n,
        args.decimate is None ==> d == 0,
        g == (Shape { u: args.u as nat, t: args.t as nat, s: args.s as nat, d }),
        n == points * pow2(args.t as nat * d),
        parallel_overflows_first(
            p,
            args,
            points,
            count,
            thread_caps,
            acc_cap,
            stage_cap,
            bin,
            before,
            after,
        ),
    ensures
        args.checkpoints ==> stages_overflow(
            p,
            g,
            n,
            collision::stages_of(d, n),
            count,
            acc_cap as nat,
            stage_cap,
            bin,
            before,
            after,
        ),
        !args.checkpoints ==> stops_at_pass(
            p,
            args,
            points,
            count,
            buffers_of(args, points, count, thread_caps),
            before,
            after,
        ),
{
    assert(runs::shape_of(args) == g);
}

} // verus!
