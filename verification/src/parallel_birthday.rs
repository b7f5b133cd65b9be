//! The parallel birthday-spacings test.

use crate::birthday;
use crate::birthday::{sort_and_count_front, Sweep};
use crate::cell;
use crate::cell::Cell;
use crate::cli::{passes_of, Args};
use crate::collision;
use crate::collision::Tally;
use crate::common;
use crate::common::{scan_samples, BinOverflow, CellCount, GridParams, Selection};
use crate::counting;
use crate::orbit;
use crate::orbit::{gen_unit_contiguous, OrbitPartition};
use crate::parallel;
use crate::prng;
use crate::prng::{Orbit, Prng};
use crate::progress;
use crate::progress::{Event, Log, Reporter};
use crate::runs;
use crate::runs::TestRun;
use crate::sampling;
use crate::sampling::Shape;
use vstd::arithmetic::div_mod::*;
use vstd::arithmetic::power2::*;
use vstd::prelude::*;

verus! {

broadcast use {vstd::multiset::group_multiset_axioms, vstd::seq_lib::group_to_multiset_ensures};

/// The points of each value interval fit a buffer of `unit_cap` places, and the spacings of each
/// class that is counted fit one of `class_cap`.
pub open spec fn birthday_fits<P: Orbit>(
    p: P,
    args: Args,
    points: usize,
    cells: nat,
    unit_cap: usize,
    class_cap: usize,
) -> bool {
    let (lo, hi) = collision::pass_range(args.b() as usize, args.pass);
    &&& collision::passes_fit(
        runs::points_from(p, args, points).to_multiset(),
        common::interval_of(runs::shape_of(args), args.b()),
        0,
        pow2(args.b()),
        unit_cap as nat,
    )
    &&& collision::passes_fit(
        runs::spacings_from(p, args, points, cells).to_multiset(),
        birthday::class_of(args.b()),
        lo,
        hi,
        class_cap as nat,
    )
}

/// None of the repetitions overflows a buffer.
pub open spec fn all_fit<P: Orbit>(
    args: Args,
    points: usize,
    cells: nat,
    unit_cap: usize,
    class_cap: usize,
) -> bool {
    forall|i: nat|
        i < args.reps ==> #[trigger] birthday_fits(
            runs::rep_start::<P>(args, points, i),
            args,
            points,
            cells,
            unit_cap,
            class_cap,
        )
}

/// The bin that a repetition which does not fit overflows first, and the tallies of what was done
/// before, which come after those of `before`.
pub open spec fn birthday_overflows_first<P: Orbit>(
    p: P,
    args: Args,
    points: usize,
    cells: nat,
    unit_cap: nat,
    class_cap: nat,
    bin: BinOverflow,
    before: Log,
    after: Log,
) -> bool {
    let (lo, hi) = collision::pass_range(args.b() as usize, args.pass);
    if birthday::interval_overflows_first(
        runs::points_from(p, args, points),
        common::interval_of(runs::shape_of(args), args.b()),
        args.b(),
        lo,
        unit_cap,
        class_cap,
    ) {
        bin == BinOverflow::ParallelGenerationUnit && after == before
    } else {
        bin == BinOverflow::BirthdaySpacingsClass && collision::stops_at_pass(
            runs::spacings_from(p, args, points, cells).to_multiset(),
            birthday::class_of(args.b()),
            lo,
            hi,
            class_cap,
            before,
            after,
        )
    }
}

/// The bin that the first repetition which does not fit overflows, and the tallies of what was done
/// before.
pub open spec fn birthday_overflows<P: Orbit>(
    args: Args,
    points: usize,
    cells: nat,
    unit_cap: usize,
    class_cap: usize,
    bin: BinOverflow,
    before: Log,
    after: Log,
) -> bool {
    exists|i: nat|
        #![trigger runs::rep_start::<P>(args, points, i)]
        {
            let start = runs::rep_start::<P>(args, points, i);
            &&& i < args.reps
            &&& !birthday_fits(start, args, points, cells, unit_cap, class_cap)
            &&& forall|j: nat|
                j < i ==> #[trigger] birthday_fits(
                    runs::rep_start::<P>(args, points, j),
                    args,
                    points,
                    cells,
                    unit_cap,
                    class_cap,
                )
            &&& birthday_overflows_first(
                start,
                args,
                points,
                cells,
                unit_cap as nat,
                class_cap as nat,
                bin,
                before + total_birthday_progress::<P>(args, points, cells, i),
                after,
            )
        }
}

/// The tallies of the classes that a repetition counts.
pub open spec fn birthday_progress<P: Orbit>(p: P, args: Args, points: usize, cells: nat) -> Seq<
    Tally,
> {
    let (lo, hi) = collision::pass_range(args.b() as usize, args.pass);
    collision::pass_tallies(
        runs::spacings_from(p, args, points, cells).to_multiset(),
        birthday::class_of(args.b()),
        lo,
        hi,
    )
}

/// One distance sweep for class `j`: the threads generate the points of one value interval after the
/// other into `unit`, and the spacings of the class are collected in `class_buf`.
///
/// Returns how many spacings the class has, and how many points there are.
fn parallel_sweep<T: Cell, P: Prng>(
    snapshots: &[P],
    params: &GridParams,
    lens: &[usize],
    unit: &mut [T],
    class_buf: &mut [T],
    args: &Args,
    points: usize,
    j: u64,
    Ghost(p): Ghost<P>,
) -> (r: Result<(usize, usize), BinOverflow>)
    requires
        runs::runnable::<T>(*args, points, params.cells@),
        params.u == args.u,
        params.t == args.t,
        params.s == args.s,
        params.d == args.d(),
        snapshots@.len() == lens@.len(),
        lens@.len() > 0,
        ({
            let n = runs::samples_of(*args, points) as int;
            let count = lens@.len() as int;
            &&& snapshots@ == parallel::range_starts(
                p,
                runs::shape_of(*args),
                n / count,
                n % count,
                lens@.len(),
            )
            &&& lens@ == parallel::range_lens(n / count, n % count, lens@.len())
        }),
        j < pow2(args.b()),
    ensures
        final(unit)@.len() == old(unit)@.len(),
        final(class_buf)@.len() == old(class_buf)@.len(),
        ({
            let all = runs::points_from(p, *args, points);
            let key = common::interval_of(runs::shape_of(*args), args.b());
            let fit = collision::passes_fit(
                all.to_multiset(),
                key,
                0,
                pow2(args.b()),
                old(unit)@.len(),
            );
            let part = birthday::class_part(
                runs::spacings_from(p, *args, points, params.cells@),
                args.b(),
                j as nat,
            );
            let interval_first = birthday::interval_overflows_first(
                all,
                key,
                args.b(),
                j as nat,
                old(unit)@.len(),
                old(class_buf)@.len(),
            );
            match r {
                Ok((len, kept)) => {
                    &&& len == part.len() <= old(class_buf)@.len()
                    &&& cell::vals(final(class_buf)@.take(len as int)) == part
                    &&& kept == all.len()
                    &&& fit
                },
                Err(BinOverflow::ParallelGenerationUnit) => interval_first,
                Err(e) => {
                    &&& e == BinOverflow::BirthdaySpacingsClass
                    &&& part.len() > old(class_buf)@.len()
                    &&& !interval_first
                },
            }
        }),
{
    let ghost g = runs::shape_of(*args);
    let ghost n = runs::samples_of(*args, points);
    let ghost count = lens@.len();
    let ghost base = n as int / count as int;
    let ghost rem = n as int % count as int;
    let ghost all = runs::points_from(p, *args, points);
    let ghost s = counting::in_ascending_order(all);
    let ghost m = all.to_multiset();
    let ghost key = common::interval_of(g, args.b());
    let ghost cells = params.cells@;
    let ghost jn = j as nat;
    let ghost ucap = unit@.len();
    let ghost cap = class_buf@.len();
    let b: usize = args.tradeoff_bits();
    let ghost bn = b as nat;
    let full = args.u == 64 && args.s == 0;
    let decimating = params.d > 0;
    proof {
        assert(params.shape(decimating) == g);
        lemma2_to64();
        lemma_fundamental_div_mod(n as int, count as int);
        lemma_div_pos_is_pos(n as int, count as int);
        lemma_mod_bound(n as int, count as int);
        assert(orbit::even_split(base, rem, count as int, n as int));
        parallel::law_split_is_faithful(p, g, base, rem, count, n, Selection::All);
        counting::lemma_in_ascending_order(all);
        sampling::lemma_kept_bound(p, g, n);
        birthday::lemma_points_within(p, g, n, s, cells);
        T::lemma_bits();
        if g.index_bits() < T::bits() {
            lemma_pow2_strictly_increases(g.index_bits(), T::bits());
        }
        if bn < T::bits() {
            lemma_pow2_strictly_increases(bn, T::bits());
        }
        birthday::lemma_none_below(all, key);
    }
    let num_passes: u64 = passes_of(b);
    let target: T = T::from_u64(j);
    let mut sweep: Sweep<T> = Sweep::new(&*class_buf, Ghost(s), Ghost(bn), Ghost(jn));
    let mut k: u64 = 0;
    while k < num_passes
        invariant
            k <= num_passes,
            num_passes == pow2(bn),
            bn == b,
            b == args.b(),
            b == 0 ==> pow2(bn) == 1,
            jn == j,
            runs::runnable::<T>(*args, points, cells),
            params.valid(),
            params.specialized(0, full),
            params.shape(decimating) == g,
            g == runs::shape_of(*args),
            n == runs::samples_of(*args, points),
            n <= usize::MAX,
            bn <= T::bits(),
            target.val() == jn,
            count == lens@.len() > 0,
            snapshots@.len() == lens@.len(),
            base == n as int / count as int,
            rem == n as int % count as int,
            snapshots@ == parallel::range_starts(p, g, base, rem, count),
            lens@ == parallel::range_lens(base, rem, count),
            orbit::even_split(base, rem, count as int, n as int),
            orbit::sum_of(lens@, count) == n,
            all == runs::points_from(p, *args, points),
            s == counting::in_ascending_order(all),
            s.len() == all.len(),
            all.len() <= n,
            counting::ascending(s),
            key == common::interval_of(g, args.b()),
            m == all.to_multiset(),
            cells == params.cells@,
            cap == class_buf@.len(),
            cap == old(class_buf)@.len(),
            ucap == unit@.len(),
            ucap == old(unit)@.len(),
            sweep.points == birthday::below(all, key, k as nat),
            sweep.holds(s, class_buf@, bn, jn),
            collision::passes_fit(m, key, 0, k as nat, ucap),
        decreases num_passes - k,
    {
        let ghost kn = k as nat;
        let ghost sel = common::selection(b > 0, b, k);
        proof {
            parallel::law_split_is_faithful(p, g, base, rem, count, n, sel);
            parallel::lemma_pass_is_class(p, g, n, b, k);
            birthday::lemma_interval_range(all, g, bn, kn);
            counting::lemma_filter_is_class(all, key, kn);
            birthday::lemma_same_order(
                common::selected(p, g, n, sel),
                all.filter(counting::has_key(key, kn)),
            );
        }
        let len: usize = match gen_unit_contiguous::<T, P>(
            unit,
            snapshots,
            params,
            lens,
            k,
            b,
            decimating,
            full,
        ) {
            Err(e) => {
                assert(counting::class(m, key, kn).len() > ucap);
                return Err(e);
            },
            Ok(len) => len,
        };
        proof {
            assert forall|i: nat| 0 <= i < kn + 1 implies (#[trigger] counting::class(
                m,
                key,
                i,
            )).len() <= ucap by {}
        }
        if !sweep.add_interval(unit, len, true, class_buf, b, target, Ghost(s), Ghost(cells)) {
            proof {
                birthday::lemma_class_overflows_first(all, g, bn, jn, kn, ucap, cap);
            }
            return Err(BinOverflow::BirthdaySpacingsClass);
        }
        k += 1;
    }
    proof {
        birthday::lemma_all_below(all, p, g, n, bn);
    }
    match sweep.finish(class_buf, params.cells, b, target, Ghost(s)) {
        None => Err(BinOverflow::BirthdaySpacingsClass),
        Some(class_len) => Ok((class_len, sweep.points)),
    }
}

/// One repetition: the spacing classes, one after the other. The tally of each class is appended to
/// `progress`.
fn birthday_rep<T: Cell, P: Prng>(
    snapshots: &[P],
    params: &GridParams,
    lens: &[usize],
    unit: &mut [T],
    class_buf: &mut [T],
    args: &Args,
    points: usize,
    progress: &mut impl Reporter,
    Ghost(p): Ghost<P>,
) -> (r: Result<(usize, usize), BinOverflow>)
    requires
        runs::runnable::<T>(*args, points, params.cells@),
        args.birthday_spacings,
        params.u == args.u,
        params.t == args.t,
        params.s == args.s,
        params.d == args.d(),
        snapshots@.len() == lens@.len(),
        lens@.len() > 0,
        ({
            let n = runs::samples_of(*args, points) as int;
            let count = lens@.len() as int;
            &&& snapshots@ == parallel::range_starts(
                p,
                runs::shape_of(*args),
                n / count,
                n % count,
                lens@.len(),
            )
            &&& lens@ == parallel::range_lens(n / count, n % count, lens@.len())
        }),
        old(unit)@.len() <= usize::MAX,
        old(class_buf)@.len() <= usize::MAX,
    ensures
        final(unit)@.len() == old(unit)@.len(),
        final(class_buf)@.len() == old(class_buf)@.len(),
        r is Ok <==> birthday_fits(
            p,
            *args,
            points,
            params.cells@,
            old(unit)@.len() as usize,
            old(class_buf)@.len() as usize,
        ),
        r matches Ok((collisions, kept)) ==> {
            &&& collisions == runs::rep_collisions(p, *args, points, params.cells@)
            &&& kept == runs::rep_points(p, *args, points)
            &&& final(progress).told() == old(progress).told() + progress::parts(
                birthday_progress(
                    p,
                    *args,
                    points,
                    params.cells@,
                ),
            )
        },
        r matches Err(e) ==> birthday_overflows_first(
            p,
            *args,
            points,
            params.cells@,
            old(unit)@.len(),
            old(class_buf)@.len(),
            e,
            old(progress).told(),
            final(progress).told(),
        ),
{
    let ghost all = runs::points_from(p, *args, points);
    let ghost spaced = runs::spacings_from(p, *args, points, params.cells@);
    let ghost stored = spaced.to_multiset();
    let ghost low = birthday::class_of(args.b());
    let ghost key = common::interval_of(runs::shape_of(*args), args.b());
    let ghost ucap = unit@.len();
    let ghost cap = class_buf@.len();
    let ghost log0 = progress.told();
    let b: usize = args.tradeoff_bits();
    let num_passes: u64 = {
        proof {
            lemma2_to64();
        }
        passes_of(b)
    };
    let (pass_lo, pass_hi): (u64, u64) = match args.pass {
        Some(k) => (k, k + 1),
        None => (0, num_passes),
    };
    let ghost lo = pass_lo as nat;
    let ghost hi = pass_hi as nat;
    let mut total_coll: usize = 0;
    let mut total_points: usize = 0;
    let mut j: u64 = pass_lo;
    assert(collision::pass_tallies(stored, low, lo, lo) =~= Seq::<Tally>::empty());
    while j < pass_hi
        invariant
            pass_lo <= j <= pass_hi,
            pass_lo < pass_hi,
            pass_hi <= pow2(args.b()),
            lo == pass_lo,
            hi == pass_hi,
            (lo, hi) == collision::pass_range(args.b() as usize, args.pass),
            runs::runnable::<T>(*args, points, params.cells@),
            args.birthday_spacings,
            params.u == args.u,
            params.t == args.t,
            params.s == args.s,
            params.d == args.d(),
            b == args.b(),
            snapshots@.len() == lens@.len(),
            lens@.len() > 0,
            ({
                let n = runs::samples_of(*args, points) as int;
                let count = lens@.len() as int;
                &&& snapshots@ == parallel::range_starts(
                    p,
                    runs::shape_of(*args),
                    n / count,
                    n % count,
                    lens@.len(),
                )
                &&& lens@ == parallel::range_lens(n / count, n % count, lens@.len())
            }),
            all == runs::points_from(p, *args, points),
            spaced == runs::spacings_from(p, *args, points, params.cells@),
            stored == spaced.to_multiset(),
            low == birthday::class_of(args.b()),
            key == common::interval_of(runs::shape_of(*args), args.b()),
            ucap == unit@.len(),
            ucap == old(unit)@.len(),
            ucap <= usize::MAX,
            cap == class_buf@.len(),
            cap == old(class_buf)@.len(),
            cap <= usize::MAX,
            log0 == old(progress).told(),
            collision::passes_fit(stored, low, lo, j as nat, cap),
            total_coll == counting::class_collisions(stored, low, lo, j as nat),
            progress.told() == log0 + progress::parts(
                collision::pass_tallies(stored, low, lo, j as nat),
            ),
            j > pass_lo ==> {
                &&& collision::passes_fit(all.to_multiset(), key, 0, pow2(args.b()), ucap)
                &&& total_points == all.len()
            },
        decreases pass_hi - j,
    {
        let ghost jn = j as nat;
        let ghost this = counting::class(stored, low, jn);
        proof {
            counting::lemma_filter_is_class(spaced, low, jn);
            counting::lemma_in_ascending_order(all);
            sampling::lemma_kept_bound(p, runs::shape_of(*args), runs::samples_of(*args, points));
            birthday::lemma_stored_bound(
                counting::in_ascending_order(all),
                params.cells@,
                args.b(),
                lo,
                jn + 1,
            );
        }
        match parallel_sweep::<T, P>(
            snapshots,
            params,
            lens,
            unit,
            class_buf,
            args,
            points,
            j,
            Ghost(p),
        ) {
            Err(e) => {
                return Err(e);
            },
            Ok((class_len, kept)) => {
                let c: usize = sort_and_count_front(class_buf, class_len, true);
                assert(c == counting::collisions(this));
                total_coll += c;
                progress.part_done(Tally { points: class_len, collisions: c });
                total_points = kept;
                proof {
                    assert(collision::pass_tallies(stored, low, lo, jn + 1)
                        =~= collision::pass_tallies(stored, low, lo, jn).push(
                        collision::tally_of(this),
                    ));
                    assert(progress.told() =~= log0 + progress::parts(
                        collision::pass_tallies(stored, low, lo, jn + 1),
                    ));
                    assert forall|i: nat| lo <= i < jn + 1 implies (#[trigger] counting::class(
                        stored,
                        low,
                        i,
                    )).len() <= cap by {}
                }
            },
        }
        j += 1;
    }
    proof {
        if args.b() == 0 {
            lemma2_to64();
            sampling::lemma_kept_bound(p, runs::shape_of(*args), runs::samples_of(*args, points));
            birthday::law_birthday_tradeoff_exact(all, params.cells@, 0);
        }
    }
    Ok((total_coll, total_points))
}

/// What the first `k` repetitions report: each its parts, then itself.
pub open spec fn total_birthday_progress<P: Orbit>(
    args: Args,
    points: usize,
    cells: nat,
    k: nat,
) -> Log
    decreases k,
{
    if k == 0 {
        Seq::empty()
    } else {
        let start = runs::rep_start::<P>(args, points, (k - 1) as nat);
        (total_birthday_progress::<P>(args, points, cells, (k - 1) as nat) + progress::parts(
            birthday_progress(start, args, points, cells),
        )).push(Event::Repetition(runs::rep_tally(start, args, points, cells)))
    }
}

/// Parallel version of the birthday-spacings test.
///
/// The samples of a repetition are split into contiguous ranges, one per thread, as in the parallel
/// collision test. The threads generate the points of one value interval after the other into a
/// buffer of `unit_cap` places, and the spacings of one class at a time are collected in a buffer
/// of `class_cap` places. The tallies are those of the sequential test for every number of threads.
pub fn run_birthday_parallel<T: Cell, P: Prng>(
    args: &Args,
    points: usize,
    cells: &CellCount,
    num_cpus: usize,
    unit_cap: usize,
    class_cap: usize,
    progress: &mut impl Reporter,
) -> (r: Result<TestRun, BinOverflow>)
    requires
        runs::runnable::<T>(*args, points, cells@),
        args.birthday_spacings,
        parallel::orbit_fits::<P>(
            *args,
            points,
            parallel::cpus_of(num_cpus, runs::samples_of(*args, points)),
        ),
    ensures
        r is Ok <==> all_fit::<P>(*args, points, cells@, unit_cap, class_cap),
        r matches Ok(run) ==> {
            &&& run.reps@.len() == args.reps
            &&& runs::reps_counted::<P>(run.reps@, *args, points, cells@)
            &&& run.total == runs::total_collisions::<P>(*args, points, cells@, args.reps as nat)
            &&& final(progress).told() == old(progress).told() + total_birthday_progress::<P>(
                *args,
                points,
                cells@,
                args.reps as nat,
            )
        },
        r matches Err(bin) ==> birthday_overflows::<P>(
            *args,
            points,
            cells@,
            unit_cap,
            class_cap,
            bin,
            old(progress).told(),
            final(progress).told(),
        ),
{
    let d: usize = args.decimation_bits();
    let ghost n = runs::samples_of(*args, points);
    let scan_total: usize = match scan_samples(points, args.t, d) {
        Some(len) => len,
        None => 0,
    };
    let mut partition: OrbitPartition<P> = OrbitPartition::new(
        args.seed,
        num_cpus,
        scan_total,
        args.t,
    );
    let ghost part0 = partition;
    let params = GridParams { u: args.u, t: args.t, s: args.s, d, cells };
    let cpus: usize = partition.num_cpus;
    let ghost count = cpus as nat;
    let (_, lens) = parallel::even_parts(scan_total, cpus);
    let mut unit: Vec<T> = vec![T::zero(); unit_cap];
    let mut class_buf: Vec<T> = vec![T::zero(); class_cap];
    let mut total: u128 = 0;
    let mut reps: Vec<Tally> = Vec::new();
    let ghost log0 = progress.told();
    let mut rep: usize = 0;
    proof {
        assert(0 * n == 0);
        parallel::lemma_partition_bases(partition);
    }
    while rep < args.reps
        invariant
            rep <= args.reps,
            runs::runnable::<T>(*args, points, cells@),
            args.birthday_spacings,
            parallel::orbit_fits::<P>(*args, points, count),
            params == (GridParams { u: args.u, t: args.t, s: args.s, d, cells }),
            d == args.d(),
            n == runs::samples_of(*args, points),
            n == scan_total,
            count == cpus > 0,
            unit@.len() == unit_cap,
            class_buf@.len() == class_cap,
            part0.valid(),
            part0.num_cpus == cpus,
            part0.base_chunk == n as int / count as int,
            part0.rem == n as int % count as int,
            part0.scan_total == scan_total,
            part0.t == args.t,
            part0.seed == args.seed,
            partition.valid(),
            partition.same_partition(part0),
            partition.walked_to((rep * n) as nat),
            lens@ == parallel::range_lens(n as int / count as int, n as int % count as int, count),
            reps@.len() == rep,
            runs::reps_counted::<P>(reps@, *args, points, cells@),
            total == runs::total_collisions::<P>(*args, points, cells@, rep as nat),
            total <= rep * usize::MAX,
            log0 == old(progress).told(),
            progress.told() == log0 + total_birthday_progress::<P>(*args, points, cells@, rep as nat),
            forall|i: nat|
                i < rep ==> #[trigger] birthday_fits(
                    runs::rep_start::<P>(*args, points, i),
                    *args,
                    points,
                    cells@,
                    unit_cap,
                    class_cap,
                ),
        decreases args.reps - rep,
    {
        let ghost before = reps@;
        let ghost p = runs::rep_start::<P>(*args, points, rep as nat);
        proof {
            assert(rep * usize::MAX + usize::MAX == (rep + 1) * usize::MAX) by (nonlinear_arith);
            assert((rep + 1) * usize::MAX <= u128::MAX) by (nonlinear_arith)
                requires
                    0 <= rep + 1 <= u64::MAX + 1,
                    0 <= usize::MAX <= u64::MAX,
                    rep < usize::MAX,
            ;
            parallel::lemma_rep_offsets(*args, points, partition, rep as nat);
        }
        let snapshots: Vec<P> = partition.rep_snapshots(rep + 1);
        proof {
            parallel::lemma_rep_snapshots(*args, points, part0, rep as nat, snapshots@);
            assert(snapshots@ =~= parallel::range_starts(
                p,
                runs::shape_of(*args),
                n as int / count as int,
                n as int % count as int,
                count,
            ));
        }
        match birthday_rep::<T, P>(
            snapshots.as_slice(),
            &params,
            lens.as_slice(),
            unit.as_mut_slice(),
            class_buf.as_mut_slice(),
            args,
            points,
            progress,
            Ghost(p),
        ) {
            Err(e) => {
                return Err(e);
            },
            Ok((c, used)) => {
                total += c as u128;
                reps.push(Tally { points: used, collisions: c });
                progress.repetition_done(Tally { points: used, collisions: c });
                proof {
                    assert forall|i: int| 0 <= i < reps@.len() implies {
                        let start = runs::rep_start::<P>(*args, points, i as nat);
                        &&& (#[trigger] reps@[i]).collisions == runs::rep_collisions(
                            start,
                            *args,
                            points,
                            cells@,
                        )
                        &&& reps@[i].points == runs::rep_points(start, *args, points)
                    } by {
                        if i < before.len() {
                            assert(reps@[i] == before[i]);
                        }
                    }
                }
            },
        }
        rep += 1;
    }
    Ok(TestRun { total, reps })
}

/// With a tradeoff, the parallel test reports on the way what the sequential one does.
pub proof fn law_parallel_birthday_reports_alike<P: Orbit>(
    args: Args,
    points: usize,
    cells: nat,
    k: nat,
)
    requires
        args.birthday_spacings,
        args.b() > 0,
    ensures
        total_birthday_progress::<P>(args, points, cells, k) == runs::total_progress::<P>(
            args,
            points,
            cells,
            k,
        ),
    decreases k,
{
    if k > 0 {
        law_parallel_birthday_reports_alike::<P>(args, points, cells, (k - 1) as nat);
    }
}

/// A repetition of the parallel birthday-spacings test fits if and only if no value interval has
/// more points than its buffer has places, and no class that is counted has more spacings than its
/// own.
pub proof fn law_parallel_birthday_repetition_fits<P: Orbit>(
    p: P,
    args: Args,
    points: usize,
    cells: nat,
    unit_cap: usize,
    class_cap: usize,
    d: nat,
    b: nat,
    g: Shape,
    all: Seq<nat>,
    stored: Seq<nat>,
    width: nat,
)
    requires
        args.decimate matches Some(n) ==> d == n,
        args.decimate is None ==> d == 0,
        args.tradeoff matches Some(n) ==> b == n && b >= 1,
        args.tradeoff is None ==> b == 0,
        g == (Shape { u: args.u as nat, t: args.t as nat, s: args.s as nat, d }),
        g.d <= g.u,
        b <= g.t * (g.u - g.d),
        all == sampling::kept(p, g, points as nat * pow2(args.t as nat * d)),
        stored == birthday::stored_spacings(counting::in_ascending_order(all), cells),
        width == pow2((g.t * (g.u - g.d) - b) as nat),
    ensures
        birthday_fits(p, args, points, cells, unit_cap, class_cap) <==> {
            &&& forall|k: nat|
                k < pow2(b) ==> (#[trigger] common::between(all, width, k)).len() <= unit_cap
            &&& forall|j: nat|
                (match args.pass {
                    Some(only) => j == only,
                    None => j < pow2(b),
                }) ==> (#[trigger] birthday::class_part(stored, b, j)).len() <= class_cap
        },
{
    let m = all.to_multiset();
    let key = common::interval_of(g, b);
    let low = birthday::class_of(b);
    let (lo, hi) = collision::pass_range(b as usize, args.pass);
    assert(runs::shape_of(args) == g);
    assert(all == runs::points_from(p, args, points));
    assert forall|k: nat|
        (#[trigger] counting::class(m, key, k)).len() == common::between(all, width, k).len() by {
        collision::lemma_between_is_class(all, g, b, k);
    }
    assert forall|j: nat|
        (#[trigger] counting::class(stored.to_multiset(), low, j)).len() == birthday::class_part(
            stored,
            b,
            j,
        ).len() by {
        counting::lemma_filter_is_class(stored, low, j);
    }
    if collision::passes_fit(m, key, 0, pow2(b), unit_cap as nat) {
        assert forall|k: nat| k < pow2(b) implies (#[trigger] common::between(
            all,
            width,
            k,
        )).len() <= unit_cap by {
            assert(counting::class(m, key, k).len() <= unit_cap);
        }
    } else {
        let k = choose|k: nat|
            0 <= k < pow2(b) && (#[trigger] counting::class(m, key, k)).len() > unit_cap;
        assert(k < pow2(b) && common::between(all, width, k).len() > unit_cap);
    }
    if collision::passes_fit(stored.to_multiset(), low, lo, hi, class_cap as nat) {
        assert forall|j: nat| lo <= j < hi implies (#[trigger] birthday::class_part(
            stored,
            b,
            j,
        )).len() <= class_cap by {
            assert(counting::class(stored.to_multiset(), low, j).len() <= class_cap);
        }
    } else {
        let j = choose|j: nat|
            lo <= j < hi && (#[trigger] counting::class(stored.to_multiset(), low, j)).len()
                > class_cap;
        assert(lo <= j < hi && birthday::class_part(stored, b, j).len() > class_cap);
    }
}

/// The parts of the parallel birthday-spacings test are its classes, each with the spacings in it
/// and those of them that occurred already.
pub proof fn law_parallel_birthday_parts<P: Orbit>(
    p: P,
    args: Args,
    points: usize,
    cells: nat,
    d: nat,
    b: nat,
    g: Shape,
    k: nat,
    all: Seq<nat>,
    mine: Seq<nat>,
)
    requires
        args.decimate matches Some(n) ==> d == n,
        args.decimate is None ==> d == 0,
        args.tradeoff matches Some(n) ==> b == n && b >= 1,
        args.tradeoff is None ==> b == 0,
        g == (Shape { u: args.u as nat, t: args.t as nat, s: args.s as nat, d }),
        g.t >= 1,
        g.d < g.u,
        g.u + g.s <= 64,
        points * pow2(args.t as nat * d) <= usize::MAX,
        match args.pass {
            Some(only) => k == only,
            None => k < pow2(b),
        },
        all == sampling::kept(p, g, points as nat * pow2(args.t as nat * d)),
        mine == birthday::class_part(
            birthday::stored_spacings(counting::in_ascending_order(all), cells),
            b,
            k,
        ),
    ensures
        ({
            let parts = birthday_progress(p, args, points, cells);
            let place = if args.pass is Some {
                0
            } else {
                k as int
            };
            &&& parts.len() == (if args.pass is Some {
                1
            } else {
                pow2(b)
            })
            &&& parts[place].points == mine.len()
            &&& parts[place].collisions + mine.to_set().len() == mine.len()
        }),
{
    let n = runs::samples_of(args, points);
    let stored = birthday::stored_spacings(counting::in_ascending_order(all), cells);
    assert(runs::shape_of(args) == g);
    assert(all == runs::points_from(p, args, points));
    sampling::lemma_kept_bound(p, g, n);
    counting::lemma_in_ascending_order(all);
    birthday::law_class_part_has_the_remainder(stored, b, k);
    stored.lemma_filter_len(counting::has_key(birthday::class_of(b), k));
    assert(mine.len() == mine.to_multiset().len());
    collision::law_tally_counts(mine);
}

/// One more repetition of the parallel birthday-spacings test reports its parts, and then itself.
pub proof fn law_parallel_birthday_reports_its_parts_first<P: Orbit>(
    args: Args,
    points: usize,
    cells: nat,
    k: nat,
)
    ensures
        total_birthday_progress::<P>(args, points, cells, 0) == Seq::<Event>::empty(),
        ({
            let start = runs::rep_start::<P>(args, points, k);
            let tally = Tally {
                points: runs::rep_points(start, args, points) as usize,
                collisions: runs::rep_collisions(start, args, points, cells) as usize,
            };
            total_birthday_progress::<P>(args, points, cells, k + 1) == total_birthday_progress::<
                P,
            >(args, points, cells, k) + progress::parts(
                birthday_progress(start, args, points, cells),
            ) + seq![Event::Repetition(tally)]
        }),
{
    let start = runs::rep_start::<P>(args, points, k);
    let tally = runs::rep_tally(start, args, points, cells);
    let before = total_birthday_progress::<P>(args, points, cells, k) + progress::parts(
        birthday_progress(start, args, points, cells),
    );
    assert(before.push(Event::Repetition(tally)) =~= before + seq![Event::Repetition(tally)]);
}

/// The parallel birthday-spacings test gives, repetition by repetition, what a sequential
/// repetition that starts there has, on any number of threads; their collisions are its total, and
/// it has told of every repetition.
pub proof fn law_run_birthday_parallel<T: Cell, P: Prng, R: Reporter>(
    args: &Args,
    points: usize,
    cells: &CellCount,
    num_cpus: usize,
    unit_cap: usize,
    class_cap: usize,
    progress: &mut R,
    r: Result<TestRun, BinOverflow>,
    i: nat,
    d: nat,
    start: P,
)
    requires
        i < args.reps,
        args.decimate matches Some(n) ==> d == n,
        args.decimate is None ==> d == 0,
        start == prng::advance(
            P::seeded(args.seed),
            i * (points as nat * pow2(args.t as nat * d)) * args.t as nat,
        ),
        call_ensures(
            run_birthday_parallel::<T, P>,
            (args, points, cells, num_cpus, unit_cap, class_cap, progress),
            r,
        ),
    ensures
        r matches Ok(run) ==> {
            &&& run.reps@.len() == args.reps
            &&& run.reps@[i as int].points == runs::rep_points(start, *args, points)
            &&& run.reps@[i as int].collisions == runs::rep_collisions(
                start,
                *args,
                points,
                cells@,
            )
            &&& run.total == run.reps@.fold_left(
                0nat,
                |sum: nat, tally: Tally| sum + tally.collisions as nat,
            )
            &&& birthday_fits(start, *args, points, cells@, unit_cap, class_cap)
            &&& final(progress).told() == old(progress).told() + total_birthday_progress::<P>(
                *args,
                points,
                cells@,
                args.reps as nat,
            )
        },
        r is Err ==> exists|j: nat|
            j < args.reps && !#[trigger] birthday_fits(
                runs::rep_start::<P>(*args, points, j),
                *args,
                points,
                cells@,
                unit_cap,
                class_cap,
            ),
{
    assert(start == runs::rep_start::<P>(*args, points, i));
    assert(r is Ok <==> all_fit::<P>(*args, points, cells@, unit_cap, class_cap));
    if let Ok(run) = r {
        runs::law_tally_of_repetition::<P>(run.reps@, *args, points, cells@, i, d, start);
        runs::law_total_is_the_sum::<P>(run.reps@, *args, points, cells@);
    }
}

/// The parallel birthday-spacings test that overflows reports the bin of the first repetition that
/// does not fit, after it has told of all those before it.
#[verifier::spinoff_prover]
#[verifier::rlimit(40)]
pub proof fn law_first_birthday_overflow_is_reported<P: Orbit>(
    args: Args,
    points: usize,
    cells: nat,
    unit_cap: usize,
    class_cap: usize,
    bin: BinOverflow,
    before: Log,
    after: Log,
    i: nat,
)
    requires
        birthday_overflows::<P>(
            args,
            points,
            cells,
            unit_cap,
            class_cap,
            bin,
            before,
            after,
        ),
        i < args.reps,
        !birthday_fits(
            runs::rep_start::<P>(args, points, i),
            args,
            points,
            cells,
            unit_cap,
            class_cap,
        ),
        forall|j: nat|
            j < i ==> #[trigger] birthday_fits(
                runs::rep_start::<P>(args, points, j),
                args,
                points,
                cells,
                unit_cap,
                class_cap,
            ),
    ensures
        birthday_overflows_first(
            runs::rep_start::<P>(args, points, i),
            args,
            points,
            cells,
            unit_cap as nat,
            class_cap as nat,
            bin,
            before + total_birthday_progress::<P>(args, points, cells, i),
            after,
        ),
        bin == BinOverflow::ParallelGenerationUnit || bin == BinOverflow::BirthdaySpacingsClass,
{
    let first = choose|first: nat|
        #![trigger runs::rep_start::<P>(args, points, first)]
        {
            let start = runs::rep_start::<P>(args, points, first);
            &&& first < args.reps
            &&& !birthday_fits(start, args, points, cells, unit_cap, class_cap)
            &&& forall|j: nat|
                j < first ==> #[trigger] birthday_fits(
                    runs::rep_start::<P>(args, points, j),
                    args,
                    points,
                    cells,
                    unit_cap,
                    class_cap,
                )
            &&& birthday_overflows_first(
                start,
                args,
                points,
                cells,
                unit_cap as nat,
                class_cap as nat,
                bin,
                before + total_birthday_progress::<P>(args, points, cells, first),
                after,
            )
        };
    if first < i {
        assert(birthday_fits(
            runs::rep_start::<P>(args, points, first),
            args,
            points,
            cells,
            unit_cap,
            class_cap,
        ));
    } else if i < first {
        assert(birthday_fits(
            runs::rep_start::<P>(args, points, i),
            args,
            points,
            cells,
            unit_cap,
            class_cap,
        ));
    }
}

/// What an overflowing repetition has told: nothing, where an interval of the first class
/// overflows; else the classes before the first that does not fit.
pub proof fn law_overflowing_parallel_birthday<P: Orbit>(
    p: P,
    args: Args,
    points: usize,
    cells: nat,
    unit_cap: nat,
    class_cap: nat,
    bin: BinOverflow,
    before: Log,
    after: Log,
    d: nat,
    b: nat,
    g: Shape,
    all: Seq<nat>,
)
    requires
        args.decimate matches Some(n) ==> d == n,
        args.decimate is None ==> d == 0,
        args.tradeoff matches Some(n) ==> b == n && b >= 1,
        args.tradeoff is None ==> b == 0,
        g == (Shape { u: args.u as nat, t: args.t as nat, s: args.s as nat, d }),
        all == sampling::kept(p, g, points as nat * pow2(args.t as nat * d)),
        birthday_overflows_first(
            p,
            args,
            points,
            cells,
            unit_cap,
            class_cap,
            bin,
            before,
            after,
        ),
    ensures
        ({
            let (lo, hi) = collision::pass_range(b as usize, args.pass);
            let interval_first = birthday::interval_overflows_first(
                all,
                common::interval_of(g, b),
                b,
                lo,
                unit_cap,
                class_cap,
            );
            &&& interval_first ==> bin == BinOverflow::ParallelGenerationUnit && after == before
            &&& !interval_first ==> {
                &&& bin == BinOverflow::BirthdaySpacingsClass
                &&& collision::stops_at_pass(
                    birthday::stored_spacings(
                        counting::in_ascending_order(all),
                        cells,
                    ).to_multiset(),
                    birthday::class_of(b),
                    lo,
                    hi,
                    class_cap,
                    before,
                    after,
                )
            }
        }),
{
    assert(runs::shape_of(args) == g);
}

} // verus!
