//! Whole tests: the repetitions of one of the runners.

use crate::birthday;
use crate::birthday::{run_birthday, run_birthday_tradeoff};
use crate::cell::{Cell, Value};
use crate::cli::Args;
use crate::collision;
use crate::collision::{
    run_collision, run_collision_decimate, run_collision_tradeoff, Tally,
};
use crate::common;
use crate::common::{BinOverflow, CellCount, GridParams};
use crate::counting;
use crate::prng;
use crate::prng::{Orbit, Prng};
use crate::progress;
use crate::progress::{Event, Log, Reporter};
use crate::sampling;
use crate::sampling::Shape;
use vstd::arithmetic::power2::*;
use vstd::prelude::*;

verus! {

broadcast use {vstd::multiset::group_multiset_axioms, vstd::seq_lib::group_to_multiset_ensures};

/// The sizes of the buffers of a sequential test.
#[derive(Clone, Copy)]
pub struct Capacities {
    /// For the points of a pass, or the spacings of a class.
    pub buffer: usize,
    /// For the points of a value interval of the birthday-spacings test.
    pub interval: usize,
    /// For the points of a stage between two checkpoints.
    pub stage: usize,
}

/// What a test gives.
pub struct TestRun {
    /// The collisions of all repetitions.
    pub total: u128,
    /// The tally of each repetition.
    pub reps: Vec<Tally>,
}

/// How the samples of a test are made.
pub open spec fn shape_of(args: Args) -> Shape {
    Shape { u: args.u as nat, t: args.t as nat, s: args.s as nat, d: args.d() }
}

/// The parameters, the number of points and the number of cells belong together.
pub open spec fn runnable<T: Value>(args: Args, points: usize, cells: nat) -> bool {
    &&& args.valid()
    &&& shape_of(args).index_bits() <= T::bits()
    &&& cells == pow2(shape_of(args).index_bits())
    &&& collision::scan_fits(points, args.t, args.d() as usize)
    &&& points >= 1
}

/// The samples of one repetition.
pub open spec fn samples_of(args: Args, points: usize) -> nat {
    collision::scan_of(points, args.t, args.d() as usize)
}

/// The points of a repetition that starts at `p`.
pub open spec fn points_from<P: Orbit>(p: P, args: Args, points: usize) -> Seq<nat> {
    sampling::kept(p, shape_of(args), samples_of(args, points))
}

/// The spacings that the birthday-spacings test stores of a repetition that starts at `p`.
pub open spec fn spacings_from<P: Orbit>(p: P, args: Args, points: usize, cells: nat) -> Seq<nat> {
    birthday::stored_spacings(
        counting::in_ascending_order(points_from(p, args, points)),
        cells,
    )
}

/// The collisions that a repetition counts.
pub open spec fn rep_collisions<P: Orbit>(p: P, args: Args, points: usize, cells: nat) -> nat {
    let all = points_from(p, args, points);
    let (lo, hi) = collision::pass_range(args.b() as usize, args.pass);
    if args.birthday_spacings && args.b() > 0 {
        counting::class_collisions(
            spacings_from(p, args, points, cells).to_multiset(),
            birthday::class_of(args.b()),
            lo,
            hi,
        )
    } else if args.birthday_spacings {
        birthday::birthday_collisions(all, cells)
    } else if args.b() > 0 {
        counting::class_collisions(
            all.to_multiset(),
            common::interval_of(shape_of(args), args.b()),
            lo,
            hi,
        )
    } else {
        counting::collisions(all.to_multiset())
    }
}

/// The points that a repetition examines.
pub open spec fn rep_points<P: Orbit>(p: P, args: Args, points: usize) -> nat {
    let all = points_from(p, args, points);
    let (lo, hi) = collision::pass_range(args.b() as usize, args.pass);
    if !args.birthday_spacings && args.b() > 0 {
        counting::class_points(
            all.to_multiset(),
            common::interval_of(shape_of(args), args.b()),
            lo,
            hi,
        )
    } else {
        all.len()
    }
}

/// A decimated collision test without a tradeoff reports checkpoints.
pub open spec fn with_checkpoints(args: Args) -> bool {
    args.checkpoints && args.d() > 0 && args.b() == 0 && !args.birthday_spacings
}

/// What a repetition reports on the way.
pub open spec fn rep_progress<P: Orbit>(p: P, args: Args, points: usize, cells: nat) -> Seq<Tally> {
    let all = points_from(p, args, points);
    let (lo, hi) = collision::pass_range(args.b() as usize, args.pass);
    if args.birthday_spacings && args.b() > 0 {
        collision::pass_tallies(
            spacings_from(p, args, points, cells).to_multiset(),
            birthday::class_of(args.b()),
            lo,
            hi,
        )
    } else if !args.birthday_spacings && args.b() > 0 {
        collision::pass_tallies(
            all.to_multiset(),
            common::interval_of(shape_of(args), args.b()),
            lo,
            hi,
        )
    } else if with_checkpoints(args) {
        let n = samples_of(args, points);
        let stages = collision::stages_of(args.d(), n);
        collision::checkpoint_tallies(p, shape_of(args), n, stages, stages)
    } else {
        Seq::empty()
    }
}

/// A repetition that starts at `p` overflows none of the buffers.
pub open spec fn rep_fits<P: Orbit>(
    p: P,
    args: Args,
    points: usize,
    cells: nat,
    caps: Capacities,
) -> bool {
    let all = points_from(p, args, points);
    let (lo, hi) = collision::pass_range(args.b() as usize, args.pass);
    let cap = caps.buffer as nat;
    let n = samples_of(args, points);
    if args.birthday_spacings && args.b() > 0 {
        &&& collision::passes_fit(
            all.to_multiset(),
            common::interval_of(shape_of(args), args.b()),
            0,
            pow2(args.b()),
            caps.interval as nat,
        )
        &&& collision::passes_fit(
            spacings_from(p, args, points, cells).to_multiset(),
            birthday::class_of(args.b()),
            lo,
            hi,
            cap,
        )
    } else if args.b() > 0 {
        collision::passes_fit(
            all.to_multiset(),
            common::interval_of(shape_of(args), args.b()),
            lo,
            hi,
            cap,
        )
    } else if with_checkpoints(args) {
        let stages = collision::stages_of(args.d(), n);
        forall|k: nat|
            1 <= k <= stages ==> #[trigger] collision::stage_fits(
                p,
                shape_of(args),
                n,
                k,
                stages,
                cap,
                caps.stage as nat,
            )
    } else {
        args.d() > 0 ==> all.len() <= cap
    }
}

/// The bin that a repetition which does not fit overflows first, and the tallies of what was done
/// before, which come after those of `before`.
pub open spec fn overflows_first<P: Orbit>(
    p: P,
    args: Args,
    points: usize,
    cells: nat,
    caps: Capacities,
    bin: BinOverflow,
    before: Log,
    after: Log,
) -> bool {
    let all = points_from(p, args, points);
    let (lo, hi) = collision::pass_range(args.b() as usize, args.pass);
    let cap = caps.buffer as nat;
    let n = samples_of(args, points);
    if args.birthday_spacings && args.b() > 0 {
        if birthday::interval_overflows_first(
            all,
            common::interval_of(shape_of(args), args.b()),
            args.b(),
            lo,
            caps.interval as nat,
            cap,
        ) {
            bin == BinOverflow::BirthdayValueInterval && after == before
        } else {
            bin == BinOverflow::BirthdaySpacingsClass && collision::stops_at_pass(
                spacings_from(p, args, points, cells).to_multiset(),
                birthday::class_of(args.b()),
                lo,
                hi,
                cap,
                before,
                after,
            )
        }
    } else if args.birthday_spacings {
        bin == BinOverflow::DecimatedBirthdayRun && after == before
    } else if args.b() > 0 {
        bin == BinOverflow::CollisionTradeoffPass && collision::stops_at_pass(
            all.to_multiset(),
            common::interval_of(shape_of(args), args.b()),
            lo,
            hi,
            cap,
            before,
            after,
        )
    } else if with_checkpoints(args) {
        collision::stops_at_stage(
            p,
            shape_of(args),
            n,
            collision::stages_of(args.d(), n),
            cap,
            caps.stage as nat,
            bin,
            before,
            after,
        )
    } else {
        bin == BinOverflow::DecimatedCollisionRun && after == before
    }
}

/// A repetition that overflows a bin does not fit.
proof fn lemma_overflowing_does_not_fit<P: Orbit>(
    p: P,
    args: Args,
    points: usize,
    cells: nat,
    caps: Capacities,
    bin: BinOverflow,
    before: Log,
    after: Log,
)
    requires
        overflows_first(p, args, points, cells, caps, bin, before, after),
        args.b() == 0 && !with_checkpoints(args) ==> args.d() > 0 && points_from(
            p,
            args,
            points,
        ).len() > caps.buffer,
    ensures
        !rep_fits(p, args, points, cells, caps),
{
    let all = points_from(p, args, points);
    let m = all.to_multiset();
    let key = common::interval_of(shape_of(args), args.b());
    let (lo, hi) = collision::pass_range(args.b() as usize, args.pass);
    let cap = caps.buffer as nat;
    let n = samples_of(args, points);
    if args.birthday_spacings && args.b() > 0 {
        let stored = spacings_from(p, args, points, cells).to_multiset();
        let low = birthday::class_of(args.b());
        if birthday::interval_overflows_first(
            all,
            key,
            args.b(),
            lo,
            caps.interval as nat,
            cap,
        ) {
            let k = choose|k: nat|
                k < pow2(args.b()) && (#[trigger] counting::class(m, key, k)).len()
                    > caps.interval;
            assert(counting::class(m, key, k).len() > caps.interval);
        } else {
            let k = choose|k: nat|
                lo <= k < hi && (#[trigger] counting::class(stored, low, k)).len() > cap;
            assert(counting::class(stored, low, k).len() > cap);
        }
    } else if args.b() > 0 {
        let k = choose|k: nat| lo <= k < hi && (#[trigger] counting::class(m, key, k)).len() > cap;
        assert(counting::class(m, key, k).len() > cap);
    } else if with_checkpoints(args) {
        let stages = collision::stages_of(args.d(), n);
        let k = choose|k: nat|
            1 <= k <= stages && !#[trigger] collision::stage_fits(
                p,
                shape_of(args),
                n,
                k,
                stages,
                cap,
                caps.stage as nat,
            );
        assert(!collision::stage_fits(
            p,
            shape_of(args),
            n,
            k,
            stages,
            cap,
            caps.stage as nat,
        ));
    }
}

/// One repetition, for a dimension that is known at compile time, or 0.
#[verifier::spinoff_prover]
#[verifier::rlimit(40)]
fn run_rep<T: Cell, P: Prng, const DIM: usize>(
    prng: &mut P,
    params: &GridParams,
    buf: &mut [T],
    args: &Args,
    points: usize,
    caps: Capacities,
    progress: &mut impl Reporter,
) -> (r: Result<(usize, usize), BinOverflow>)
    requires
        runnable::<T>(*args, points, params.cells@),
        params.u == args.u,
        params.t == args.t,
        params.s == args.s,
        params.d == args.d(),
        DIM == 0 || DIM == args.t,
        old(buf)@.len() == (if args.d() == 0 && args.b() == 0 {
            points
        } else {
            caps.buffer
        }),
    ensures
        final(buf)@.len() == old(buf)@.len(),
        r is Ok <==> rep_fits(*old(prng), *args, points, params.cells@, caps),
        r matches Ok((collisions, kept)) ==> {
            &&& collisions == rep_collisions(*old(prng), *args, points, params.cells@)
            &&& kept == rep_points(*old(prng), *args, points)
            &&& final(progress).told() == old(progress).told() + progress::parts(
                rep_progress(
                    *old(prng),
                    *args,
                    points,
                    params.cells@,
                ),
            )
            &&& *final(prng) == sampling::sample_start(
                *old(prng),
                shape_of(*args),
                samples_of(*args, points),
            )
        },
        r matches Err(bin) ==> overflows_first(
            *old(prng),
            *args,
            points,
            params.cells@,
            caps,
            bin,
            old(progress).told(),
            final(progress).told(),
        ),
{
    let ghost g = shape_of(*args);
    let d: usize = params.d;
    let b: usize = args.tradeoff_bits();
    let full = args.u == 64 && args.s == 0;
    let decimating = d > 0;
    proof {
        assert(params.shape(decimating) == g);
        assert(params.shape(true) == g);
        if g.index_bits() < T::bits() {
            lemma_pow2_strictly_increases(g.index_bits(), T::bits());
        }
        lemma2_to64();
        if d == 0 {
            assert(args.t * d == 0) by (nonlinear_arith)
                requires
                    d == 0,
            ;
            assert(points as nat * pow2(0) == points) by (nonlinear_arith)
                requires
                    pow2(0) == 1,
            ;
        }
        assert(old(progress).told() + progress::parts(Seq::empty()) =~= old(progress).told());
    }
    let r = if args.birthday_spacings {
        if b > 0 {
            match (decimating, full) {
                (false, false) => run_birthday_tradeoff::<T, P, DIM, false, false>(
                    prng,
                    params,
                    buf,
                    caps.interval,
                    points,
                    b,
                    args.pass,
                    progress,
                ),
                (false, true) => run_birthday_tradeoff::<T, P, DIM, false, true>(
                    prng,
                    params,
                    buf,
                    caps.interval,
                    points,
                    b,
                    args.pass,
                    progress,
                ),
                (true, false) => run_birthday_tradeoff::<T, P, DIM, true, false>(
                    prng,
                    params,
                    buf,
                    caps.interval,
                    points,
                    b,
                    args.pass,
                    progress,
                ),
                (true, true) => run_birthday_tradeoff::<T, P, DIM, true, true>(
                    prng,
                    params,
                    buf,
                    caps.interval,
                    points,
                    b,
                    args.pass,
                    progress,
                ),
            }
        } else {
            match (decimating, full) {
                (false, false) => run_birthday::<T, P, DIM, false, false>(
                    prng,
                    params,
                    buf,
                    points,
                ),
                (false, true) => run_birthday::<T, P, DIM, false, true>(
                    prng,
                    params,
                    buf,
                    points,
                ),
                (true, false) => run_birthday::<T, P, DIM, true, false>(
                    prng,
                    params,
                    buf,
                    points,
                ),
                (true, true) => run_birthday::<T, P, DIM, true, true>(
                    prng,
                    params,
                    buf,
                    points,
                ),
            }
        }
    } else if b > 0 {
        if decimating {
            run_collision_tradeoff::<T, P, DIM, true>(
                prng,
                params,
                buf,
                points,
                b,
                args.pass,
                progress,
            )
        } else {
            run_collision_tradeoff::<T, P, DIM, false>(
                prng,
                params,
                buf,
                points,
                b,
                args.pass,
                progress,
            )
        }
    } else if decimating {
        if full {
            run_collision_decimate::<T, P, DIM, true>(
                prng,
                params,
                buf,
                points,
                args.checkpoints,
                caps.stage,
                progress,
            )
        } else {
            run_collision_decimate::<T, P, DIM, false>(
                prng,
                params,
                buf,
                points,
                args.checkpoints,
                caps.stage,
                progress,
            )
        }
    } else if full {
        Ok(run_collision::<T, P, DIM, true>(prng, params, buf))
    } else {
        Ok(run_collision::<T, P, DIM, false>(prng, params, buf))
    };
    proof {
        if let Err(bin) = r {
            lemma_overflowing_does_not_fit(
                *old(prng),
                *args,
                points,
                params.cells@,
                caps,
                bin,
                old(progress).told(),
                progress.told(),
            );
        }
    }
    r
}

/// Where repetition `i`, counted from 0, starts.
pub open spec fn rep_start<P: Orbit>(args: Args, points: usize, i: nat) -> P {
    sampling::sample_start(P::seeded(args.seed), shape_of(args), i * samples_of(args, points))
}

/// The collisions of the first `k` repetitions.
pub open spec fn total_collisions<P: Orbit>(args: Args, points: usize, cells: nat, k: nat) -> nat
    decreases k,
{
    if k == 0 {
        0
    } else {
        total_collisions::<P>(args, points, cells, (k - 1) as nat) + rep_collisions(
            rep_start::<P>(args, points, (k - 1) as nat),
            args,
            points,
            cells,
        )
    }
}

/// The tally of a repetition that starts at `p`.
pub open spec fn rep_tally<P: Orbit>(p: P, args: Args, points: usize, cells: nat) -> Tally {
    Tally {
        points: rep_points(p, args, points) as usize,
        collisions: rep_collisions(p, args, points, cells) as usize,
    }
}

/// What the first `k` repetitions report: each its parts, then itself.
pub open spec fn total_progress<P: Orbit>(
    args: Args,
    points: usize,
    cells: nat,
    k: nat,
) -> Log
    decreases k,
{
    if k == 0 {
        Seq::empty()
    } else {
        let start = rep_start::<P>(args, points, (k - 1) as nat);
        (total_progress::<P>(args, points, cells, (k - 1) as nat) + progress::parts(
            rep_progress(start, args, points, cells),
        )).push(Event::Repetition(rep_tally(start, args, points, cells)))
    }
}

/// The tallies of the repetitions are those of the points at their places of the orbit.
pub open spec fn reps_counted<P: Orbit>(
    reps: Seq<Tally>,
    args: Args,
    points: usize,
    cells: nat,
) -> bool {
    forall|i: int|
        0 <= i < reps.len() ==> {
            let start = rep_start::<P>(args, points, i as nat);
            &&& (#[trigger] reps[i]).collisions == rep_collisions(start, args, points, cells)
            &&& reps[i].points == rep_points(start, args, points)
        }
}

/// None of the repetitions overflows a buffer.
pub open spec fn all_fit<P: Orbit>(
    args: Args,
    points: usize,
    cells: nat,
    caps: Capacities,
) -> bool {
    forall|i: nat|
        i < args.reps ==> #[trigger] rep_fits(
            rep_start::<P>(args, points, i),
            args,
            points,
            cells,
            caps,
        )
}

/// The bin that the first repetition which does not fit overflows, and the tallies of what was done
/// before.
pub open spec fn test_overflows<P: Orbit>(
    args: Args,
    points: usize,
    cells: nat,
    caps: Capacities,
    bin: BinOverflow,
    before: Log,
    after: Log,
) -> bool {
    exists|i: nat|
        #![trigger rep_start::<P>(args, points, i)]
        {
            &&& i < args.reps
            &&& !rep_fits(rep_start::<P>(args, points, i), args, points, cells, caps)
            &&& forall|j: nat|
                j < i ==> #[trigger] rep_fits(
                    rep_start::<P>(args, points, j),
                    args,
                    points,
                    cells,
                    caps,
                )
            &&& overflows_first(
                rep_start::<P>(args, points, i),
                args,
                points,
                cells,
                caps,
                bin,
                before + total_progress::<P>(args, points, cells, i),
                after,
            )
        }
}

/// Repetitions continue the orbit: the first one starts from the seed, and where one ends, the next
/// one starts.
pub proof fn law_repetitions_continue<P: Orbit>(args: Args, points: usize, i: nat)
    ensures
        rep_start::<P>(args, points, 0) == P::seeded(args.seed),
        sampling::sample_start(
            rep_start::<P>(args, points, i),
            shape_of(args),
            samples_of(args, points),
        ) == rep_start::<P>(args, points, i + 1),
{
    let n = samples_of(args, points);
    let t = shape_of(args).t;
    prng::law_advance_adds(P::seeded(args.seed), (i * n) * t, n * t);
    assert((i * n) * t + n * t == ((i + 1) * n) * t) by (nonlinear_arith);
    assert((0 * n) * t == 0) by (nonlinear_arith);
}

/// Runs the test sequentially, specializing the scans once per test to the dimension (up to 8) and
/// to how the bits are read.
///
/// Every repetition goes on along the orbit from where the previous one ended. Returns the tallies,
/// or the first bin that overflows its buffer.
#[verifier::spinoff_prover]
#[verifier::rlimit(40)]
pub fn run_test<T: Cell, P: Prng>(
    args: &Args,
    points: usize,
    cells: &CellCount,
    caps: Capacities,
    progress: &mut impl Reporter,
) -> (r: Result<TestRun, BinOverflow>)
    requires
        runnable::<T>(*args, points, cells@),
    ensures
        r is Ok <==> all_fit::<P>(*args, points, cells@, caps),
        r matches Ok(run) ==> {
            &&& run.reps@.len() == args.reps
            &&& reps_counted::<P>(run.reps@, *args, points, cells@)
            &&& run.total == total_collisions::<P>(*args, points, cells@, args.reps as nat)
            &&& final(progress).told() == old(progress).told() + total_progress::<P>(
                *args,
                points,
                cells@,
                args.reps as nat,
            )
        },
        r matches Err(bin) ==> test_overflows::<P>(
            *args,
            points,
            cells@,
            caps,
            bin,
            old(progress).told(),
            final(progress).told(),
        ),
{
    let mut prng: P = P::new(args.seed);
    let d: usize = args.decimation_bits();
    let b: usize = args.tradeoff_bits();
    let buf_len: usize = if d == 0 && b == 0 {
        points
    } else {
        caps.buffer
    };
    let mut buf: Vec<T> = vec![T::zero(); buf_len];
    let params = GridParams { u: args.u, t: args.t, s: args.s, d, cells };
    let mut total: u128 = 0;
    let mut reps: Vec<Tally> = Vec::new();
    let ghost log0 = progress.told();
    let mut rep: usize = 0;
    proof {
        law_repetitions_continue::<P>(*args, points, 0);
    }
    while rep < args.reps
        invariant
            rep <= args.reps,
            runnable::<T>(*args, points, cells@),
            params == (GridParams { u: args.u, t: args.t, s: args.s, d, cells }),
            d == args.d(),
            buf@.len() == (if args.d() == 0 && args.b() == 0 {
                points
            } else {
                caps.buffer
            }),
            prng == rep_start::<P>(*args, points, rep as nat),
            reps@.len() == rep,
            reps_counted::<P>(reps@, *args, points, cells@),
            total == total_collisions::<P>(*args, points, cells@, rep as nat),
            total <= rep * usize::MAX,
            log0 == old(progress).told(),
            progress.told() == log0 + total_progress::<P>(*args, points, cells@, rep as nat),
            forall|i: nat|
                i < rep ==> #[trigger] rep_fits(
                    rep_start::<P>(*args, points, i),
                    *args,
                    points,
                    cells@,
                    caps,
                ),
        decreases args.reps - rep,
    {
        let ghost before = reps@;
        proof {
            law_repetitions_continue::<P>(*args, points, rep as nat);
            assert(rep * usize::MAX + usize::MAX == (rep + 1) * usize::MAX) by (nonlinear_arith);
            assert((rep + 1) * usize::MAX <= u128::MAX) by (nonlinear_arith)
                requires
                    0 <= rep + 1 <= u64::MAX + 1,
                    0 <= usize::MAX <= u64::MAX,
                    rep < usize::MAX,
            ;
        }
        let r = match args.t {
            1 => run_rep::<T, P, 1>(
                &mut prng,
                &params,
                buf.as_mut_slice(),
                args,
                points,
                caps,
                progress,
            ),
            2 => run_rep::<T, P, 2>(
                &mut prng,
                &params,
                buf.as_mut_slice(),
                args,
                points,
                caps,
                progress,
            ),
            3 => run_rep::<T, P, 3>(
                &mut prng,
                &params,
                buf.as_mut_slice(),
                args,
                points,
                caps,
                progress,
            ),
            4 => run_rep::<T, P, 4>(
                &mut prng,
                &params,
                buf.as_mut_slice(),
                args,
                points,
                caps,
                progress,
            ),
            5 => run_rep::<T, P, 5>(
                &mut prng,
                &params,
                buf.as_mut_slice(),
                args,
                points,
                caps,
                progress,
            ),
            6 => run_rep::<T, P, 6>(
                &mut prng,
                &params,
                buf.as_mut_slice(),
                args,
                points,
                caps,
                progress,
            ),
            7 => run_rep::<T, P, 7>(
                &mut prng,
                &params,
                buf.as_mut_slice(),
                args,
                points,
                caps,
                progress,
            ),
            8 => run_rep::<T, P, 8>(
                &mut prng,
                &params,
                buf.as_mut_slice(),
                args,
                points,
                caps,
                progress,
            ),
            _ => run_rep::<T, P, 0>(
                &mut prng,
                &params,
                buf.as_mut_slice(),
                args,
                points,
                caps,
                progress,
            ),
        };
        match r {
            Err(e) => {
                return Err(e);
            },
            Ok((c, used)) => {
                total += c as u128;
                reps.push(Tally { points: used, collisions: c });
                progress.repetition_done(Tally { points: used, collisions: c });
                proof {
                    assert forall|i: int| 0 <= i < reps@.len() implies {
                        let start = rep_start::<P>(*args, points, i as nat);
                        &&& (#[trigger] reps@[i]).collisions == rep_collisions(
                            start,
                            *args,
                            points,
                            cells@,
                        )
                        &&& reps@[i].points == rep_points(start, *args, points)
                    } by {
                        if i < before.len() {
                            assert(reps@[i] == before[i]);
                        }
                    }
                }
            },
        }
        rep += 1;
    }
    Ok(TestRun { total, reps })
}

/// Tests of the same parameters on the same generator give the same tallies, repetition by
/// repetition, whether they run sequentially or in parallel and on however many CPUs.
pub proof fn law_parallel_is_sequential<P: Orbit>(
    a: Seq<Tally>,
    b: Seq<Tally>,
    args: Args,
    points: usize,
    cells: nat,
)
    requires
        a.len() == b.len(),
        reps_counted::<P>(a, args, points, cells),
        reps_counted::<P>(b, args, points, cells),
    ensures
        a == b,
{
    assert forall|i: int| 0 <= i < a.len() implies a[i] == b[i] by {
        assert(a[i].collisions == b[i].collisions);
        assert(a[i].points == b[i].points);
    }
    assert(a =~= b);
}

/// `args` with only pass `k`, or with all of them.
pub open spec fn with_pass(args: Args, pass: Option<u64>) -> Args {
    Args { pass, ..args }
}

/// `args` without a tradeoff.
pub open spec fn without_tradeoff(args: Args) -> Args {
    Args { tradeoff: None, pass: None, ..args }
}

/// The collisions that the first `k` units of a tradeoff count, each run by itself.
pub open spec fn unit_collisions<P: Orbit>(
    p: P,
    args: Args,
    points: usize,
    cells: nat,
    k: nat,
) -> nat
    decreases k,
{
    if k == 0 {
        0
    } else {
        unit_collisions(p, args, points, cells, (k - 1) as nat) + rep_collisions(
            p,
            with_pass(args, Some((k - 1) as u64)),
            points,
            cells,
        )
    }
}

proof fn lemma_units_are_classes<P: Orbit>(p: P, args: Args, points: usize, cells: nat, k: nat)
    requires
        args.valid(),
        args.tradeoff is Some,
        k <= pow2(args.b()),
    ensures
        unit_collisions(p, args, points, cells, k) == if args.birthday_spacings {
            counting::class_collisions(
                spacings_from(p, args, points, cells).to_multiset(),
                birthday::class_of(args.b()),
                0,
                k,
            )
        } else {
            counting::class_collisions(
                points_from(p, args, points).to_multiset(),
                common::interval_of(shape_of(args), args.b()),
                0,
                k,
            )
        },
    decreases k,
{
    vstd::bits::lemma_u64_pow2_no_overflow(args.b());
    if k > 0 {
        let j = (k - 1) as nat;
        lemma_units_are_classes(p, args, points, cells, j);
        let (m, key) = if args.birthday_spacings {
            (spacings_from(p, args, points, cells).to_multiset(), birthday::class_of(args.b()))
        } else {
            (
                points_from(p, args, points).to_multiset(),
                common::interval_of(shape_of(args), args.b()),
            )
        };
        let one = with_pass(args, Some(j as u64));
        assert(shape_of(one) == shape_of(args));
        counting::lemma_classes_cut(m, key, 0, j, k);
    }
}

/// The 2^*b* units of a tradeoff can be run one by one, in any place, and recombined: their counts
/// add up to that of the whole test.
pub proof fn law_units_recombine<P: Orbit>(p: P, args: Args, points: usize, cells: nat)
    requires
        args.valid(),
        args.tradeoff is Some,
    ensures
        unit_collisions(p, args, points, cells, pow2(args.b())) == rep_collisions(
            p,
            with_pass(args, None),
            points,
            cells,
        ),
{
    lemma_units_are_classes(p, args, points, cells, pow2(args.b()));
    assert(shape_of(with_pass(args, None)) == shape_of(args));
}

/// A tradeoff does not change what is counted: a test with a tradeoff has the tally of the test
/// without one on the same samples, for collisions and for birthday spacings, with and without
/// decimation.
pub proof fn law_tradeoff_changes_nothing<P: Orbit>(p: P, args: Args, points: usize, cells: nat)
    requires
        args.valid(),
        args.pass is None,
        cells == pow2(shape_of(args).index_bits()),
    ensures
        rep_collisions(p, args, points, cells) == rep_collisions(
            p,
            without_tradeoff(args),
            points,
            cells,
        ),
        rep_points(p, args, points) == rep_points(p, without_tradeoff(args), points),
{
    let plain = without_tradeoff(args);
    assert(shape_of(plain) == shape_of(args));
    assert(points_from(p, plain, points) == points_from(p, args, points));
    let all = points_from(p, args, points);
    let n = samples_of(args, points);
    if args.b() > 0 {
        collision::law_tradeoff_exact(p, shape_of(args), n, args.b());
        sampling::lemma_kept_bound(p, shape_of(args), n);
        birthday::law_birthday_tradeoff_exact(all, cells, args.b());
    }
}

/// Without decimation every sample is kept: a test examines exactly as many points as it was asked
/// for, with a tradeoff and without.
pub proof fn law_all_points_without_decimation<P: Orbit>(p: P, args: Args, points: usize)
    requires
        args.valid(),
        args.pass is None,
        args.decimate is None,
    ensures
        samples_of(args, points) == points,
        rep_points(p, args, points) == points,
{
    let n = samples_of(args, points);
    lemma2_to64();
    assert(args.t * args.d() == 0) by (nonlinear_arith)
        requires
            args.d() == 0,
    ;
    assert(points as nat * pow2(0) == points) by (nonlinear_arith)
        requires
            pow2(0) == 1,
    ;
    sampling::lemma_all_kept(p, shape_of(args), n);
    law_tradeoff_changes_nothing(p, args, points, pow2(shape_of(args).index_bits()));
}

/// A repetition scans `points` · 2^(*t* · *d*) samples, and repetition `i` starts after the draws
/// of the `i` before it.
pub proof fn law_samples_of_repetitions<P: Orbit>(args: Args, points: usize, i: nat, d: nat)
    requires
        args.decimate matches Some(n) ==> d == n,
        args.decimate is None ==> d == 0,
    ensures
        samples_of(args, points) == points * pow2(args.t as nat * d),
        rep_start::<P>(args, points, i) == prng::advance(
            P::seeded(args.seed),
            i * (points as nat * pow2(args.t as nat * d)) * args.t as nat,
        ),
{
}

/// The points of a repetition are those of its samples, which read `u` bits of each of `t` outputs.
pub proof fn law_points_of_repetition<P: Orbit>(p: P, args: Args, points: usize, d: nat, g: Shape)
    requires
        args.decimate matches Some(n) ==> d == n,
        args.decimate is None ==> d == 0,
        g == (Shape { u: args.u as nat, t: args.t as nat, s: args.s as nat, d }),
    ensures
        points_from(p, args, points) == sampling::kept(
            p,
            g,
            points as nat * pow2(args.t as nat * d),
        ),
        shape_of(args) == g,
{
}

/// A repetition of the collision test counts the points that fall on a taken cell: among all
/// points, or among those in the interval of the pass that is asked for.
pub proof fn law_collision_repetition<P: Orbit>(
    p: P,
    args: Args,
    points: usize,
    cells: nat,
    d: nat,
    b: nat,
    g: Shape,
    mine: Seq<nat>,
)
    requires
        !args.birthday_spacings,
        args.decimate matches Some(n) ==> d == n,
        args.decimate is None ==> d == 0,
        args.tradeoff matches Some(n) ==> b == n && b >= 1,
        args.tradeoff is None ==> b == 0,
        g == (Shape { u: args.u as nat, t: args.t as nat, s: args.s as nat, d }),
        g.t >= 1,
        g.d < g.u,
        g.u + g.s <= 64,
        b <= g.t * (g.u - g.d),
        args.pass matches Some(k) ==> b >= 1 && k < pow2(b),
        ({
            let all = sampling::kept(p, g, points as nat * pow2(args.t as nat * d));
            let width = pow2((g.t * (g.u - g.d) - b) as nat);
            mine == match args.pass {
                Some(k) => common::between(all, width, k as nat),
                None => all,
            }
        }),
    ensures
        rep_points(p, args, points) == mine.len(),
        rep_collisions(p, args, points, cells) + mine.to_set().len() == mine.len(),
{
    let n = samples_of(args, points);
    let all = points_from(p, args, points);
    assert(shape_of(args) == g);
    collision::law_passes_count_their_intervals(p, g, n, b as usize, args.pass);
    counting::law_collisions_and_taken_cells(all);
}

/// A repetition of the birthday-spacings test examines all points and counts the spacings that
/// occurred already: among all spacings, or among those whose remainder modulo 2^`b` is the class
/// that is asked for.
pub proof fn law_birthday_repetition<P: Orbit>(
    p: P,
    args: Args,
    points: usize,
    cells: nat,
    d: nat,
    b: nat,
    g: Shape,
    all: Seq<nat>,
    mine: Seq<nat>,
)
    requires
        args.birthday_spacings,
        args.decimate matches Some(n) ==> d == n,
        args.decimate is None ==> d == 0,
        args.tradeoff matches Some(n) ==> b == n && b >= 1,
        args.tradeoff is None ==> b == 0,
        g == (Shape { u: args.u as nat, t: args.t as nat, s: args.s as nat, d }),
        g.t >= 1,
        g.d < g.u,
        g.u + g.s <= 64,
        b <= g.t * (g.u - g.d),
        args.pass matches Some(k) ==> b >= 1 && k < pow2(b),
        cells >= pow2((g.t * (g.u - g.d)) as nat),
        all == sampling::kept(p, g, points as nat * pow2(args.t as nat * d)),
        ({
            let s = counting::in_ascending_order(all);
            mine == match args.pass {
                Some(k) => birthday::class_part(birthday::stored_spacings(s, cells), b, k as nat),
                None => birthday::spacings(s, cells),
            }
        }),
    ensures
        rep_points(p, args, points) == all.len(),
        rep_collisions(p, args, points, cells) + mine.to_set().len() == mine.len(),
{
    let n = samples_of(args, points);
    let s = counting::in_ascending_order(all);
    assert(shape_of(args) == g);
    assert(all == points_from(p, args, points));
    counting::lemma_in_ascending_order(all);
    birthday::lemma_points_within(p, g, n, all, cells);
    birthday::law_birthday_tradeoff_exact(all, cells, b);
    counting::law_collisions_and_taken_cells(mine);
    if let Some(k) = args.pass {
        let m = birthday::stored_spacings(s, cells).to_multiset();
        let key = birthday::class_of(b);
        birthday::law_class_part_has_the_remainder(
            birthday::stored_spacings(s, cells),
            b,
            k as nat,
        );
        counting::law_classes_between(m, key, k as nat, k as nat + 1);
        let between = m.filter(|x: nat| k as nat <= key(x) && key(x) < k as nat + 1);
        assert(between =~= counting::class(m, key, k as nat));
    }
}

/// The collisions of a test are those of its repetitions, added up.
pub proof fn law_total_is_the_sum<P: Orbit>(
    reps: Seq<Tally>,
    args: Args,
    points: usize,
    cells: nat,
)
    requires
        reps_counted::<P>(reps, args, points, cells),
    ensures
        total_collisions::<P>(args, points, cells, reps.len()) == reps.fold_left(
            0nat,
            |sum: nat, tally: Tally| sum + tally.collisions as nat,
        ),
    decreases reps.len(),
{
    let plus = |sum: nat, tally: Tally| sum + tally.collisions as nat;
    if reps.len() > 0 {
        let init = reps.drop_last();
        assert forall|i: int| 0 <= i < init.len() implies {
            let start = rep_start::<P>(args, points, i as nat);
            &&& (#[trigger] init[i]).collisions == rep_collisions(start, args, points, cells)
            &&& init[i].points == rep_points(start, args, points)
        } by {
            assert(init[i] == reps[i]);
        }
        law_total_is_the_sum::<P>(init, args, points, cells);
        assert(reps[reps.len() - 1].collisions == rep_collisions(
            rep_start::<P>(args, points, (reps.len() - 1) as nat),
            args,
            points,
            cells,
        ));
        assert(reps.fold_left(0nat, plus) == plus(init.fold_left(0nat, plus), reps.last()));
    }
}

/// The tally of repetition `i`, counted from 0, is that of a repetition that starts where it does.
pub proof fn law_tally_of_repetition<P: Orbit>(
    reps: Seq<Tally>,
    args: Args,
    points: usize,
    cells: nat,
    i: nat,
    d: nat,
    start: P,
)
    requires
        reps_counted::<P>(reps, args, points, cells),
        i < reps.len(),
        args.decimate matches Some(n) ==> d == n,
        args.decimate is None ==> d == 0,
        start == prng::advance(
            P::seeded(args.seed),
            i * (points as nat * pow2(args.t as nat * d)) * args.t as nat,
        ),
    ensures
        reps[i as int].points == rep_points(start, args, points),
        reps[i as int].collisions == rep_collisions(start, args, points, cells),
{
    assert(start == rep_start::<P>(args, points, i));
    let tally = reps[i as int];
}

/// One more repetition reports its parts, and then itself.
pub proof fn law_repetition_reports_its_parts_first<P: Orbit>(
    args: Args,
    points: usize,
    cells: nat,
    k: nat,
)
    ensures
        total_progress::<P>(args, points, cells, 0) == Seq::<Event>::empty(),
        ({
            let start = rep_start::<P>(args, points, k);
            let tally = Tally {
                points: rep_points(start, args, points) as usize,
                collisions: rep_collisions(start, args, points, cells) as usize,
            };
            total_progress::<P>(args, points, cells, k + 1) == total_progress::<P>(
                args,
                points,
                cells,
                k,
            ) + progress::parts(rep_progress(start, args, points, cells)) + seq![
                Event::Repetition(tally),
            ]
        }),
{
    let start = rep_start::<P>(args, points, k);
    let tally = rep_tally(start, args, points, cells);
    let before = total_progress::<P>(args, points, cells, k) + progress::parts(
        rep_progress(start, args, points, cells),
    );
    assert(before.push(Event::Repetition(tally)) =~= before + seq![Event::Repetition(tally)]);
}

/// The parts of a collision test with a tradeoff are its passes, each with the points in its
/// interval and those of them that fall on a taken cell.
pub proof fn law_parts_are_passes<P: Orbit>(
    p: P,
    args: Args,
    points: usize,
    cells: nat,
    d: nat,
    b: nat,
    g: Shape,
    k: nat,
    mine: Seq<nat>,
)
    requires
        !args.birthday_spacings,
        b >= 1,
        args.decimate matches Some(n) ==> d == n,
        args.decimate is None ==> d == 0,
        args.tradeoff matches Some(n) ==> b == n && b >= 1,
        args.tradeoff is None ==> b == 0,
        g == (Shape { u: args.u as nat, t: args.t as nat, s: args.s as nat, d }),
        g.t >= 1,
        g.d < g.u,
        g.u + g.s <= 64,
        b <= g.t * (g.u - g.d),
        args.pass matches Some(k) ==> b >= 1 && k < pow2(b),
        points * pow2(args.t as nat * d) <= usize::MAX,
        match args.pass {
            Some(only) => k == only,
            None => k < pow2(b),
        },
        mine == common::between(
            sampling::kept(p, g, points as nat * pow2(args.t as nat * d)),
            pow2((g.t * (g.u - g.d) - b) as nat),
            k,
        ),
    ensures
        ({
            let parts = rep_progress(p, args, points, cells);
            let place = if args.pass is Some {
                0
            } else {
                k as int
            };
            &&& parts.len() == (if args.pass is Some {
                1
            } else {
                pow2(b)
            })
            &&& parts[place].points == mine.len()
            &&& parts[place].collisions + mine.to_set().len() == mine.len()
        }),
{
    let n = samples_of(args, points);
    let all = points_from(p, args, points);
    let (lo, hi) = collision::pass_range(b as usize, args.pass);
    assert(shape_of(args) == g);
    sampling::lemma_kept_bound(p, g, n);
    collision::lemma_between_is_class(all, g, b, k);
    all.lemma_filter_len(
        |x: nat| k * pow2((g.t * (g.u - g.d) - b) as nat) <= x && x < (k + 1) * pow2(
            (g.t * (g.u - g.d) - b) as nat,
        ),
    );
    assert(mine.len() <= all.len()) by {
        counting::lemma_filter_is_class(all, common::interval_of(g, b), k);
        all.lemma_filter_len(counting::has_key(common::interval_of(g, b), k));
    }
    collision::law_tally_counts(mine);
}

/// The parts of a birthday-spacings test with a tradeoff are its classes, each with the spacings in
/// it and those of them that occurred already.
pub proof fn law_parts_are_classes<P: Orbit>(
    p: P,
    args: Args,
    points: usize,
    cells: nat,
    d: nat,
    b: nat,
    g: Shape,
    k: nat,
    all: Seq<nat>,
    mine: Seq<nat>,
)
    requires
        args.birthday_spacings,
        b >= 1,
        args.decimate matches Some(n) ==> d == n,
        args.decimate is None ==> d == 0,
        args.tradeoff matches Some(n) ==> b == n && b >= 1,
        args.tradeoff is None ==> b == 0,
        g == (Shape { u: args.u as nat, t: args.t as nat, s: args.s as nat, d }),
        g.t >= 1,
        g.d < g.u,
        g.u + g.s <= 64,
        b <= g.t * (g.u - g.d),
        args.pass matches Some(k) ==> b >= 1 && k < pow2(b),
        points * pow2(args.t as nat * d) <= usize::MAX,
        match args.pass {
            Some(only) => k == only,
            None => k < pow2(b),
        },
        all == sampling::kept(p, g, points as nat * pow2(args.t as nat * d)),
        mine == birthday::class_part(
            birthday::stored_spacings(counting::in_ascending_order(all), cells),
            b,
            k,
        ),
    ensures
        ({
            let parts = rep_progress(p, args, points, cells);
            let place = if args.pass is Some {
                0
            } else {
                k as int
            };
            &&& parts.len() == (if args.pass is Some {
                1
            } else {
                pow2(b)
            })
            &&& parts[place].points == mine.len()
            &&& parts[place].collisions + mine.to_set().len() == mine.len()
        }),
{
    let n = samples_of(args, points);
    let stored = birthday::stored_spacings(counting::in_ascending_order(all), cells);
    let (lo, hi) = collision::pass_range(b as usize, args.pass);
    assert(shape_of(args) == g);
    assert(all == points_from(p, args, points));
    sampling::lemma_kept_bound(p, g, n);
    counting::lemma_in_ascending_order(all);
    birthday::law_class_part_has_the_remainder(stored, b, k);
    stored.lemma_filter_len(counting::has_key(birthday::class_of(b), k));
    assert(mine.len() == mine.to_multiset().len());
    collision::law_tally_counts(mine);
}

/// Without a tradeoff only a decimated collision test with checkpoints has parts: its stages,
/// evenly spaced along the scan, each with the tally of all the points up to its end.
pub proof fn law_parts_are_stages<P: Orbit>(
    p: P,
    args: Args,
    points: usize,
    cells: nat,
    d: nat,
    g: Shape,
    n: nat,
)
    requires
        args.tradeoff is None,
        args.decimate matches Some(n) ==> d == n,
        args.decimate is None ==> d == 0,
        g == (Shape { u: args.u as nat, t: args.t as nat, s: args.s as nat, d }),
        n == points * pow2(args.t as nat * d),
    ensures
        !args.birthday_spacings && args.checkpoints && d > 0 ==> rep_progress(
            p,
            args,
            points,
            cells,
        ) == collision::checkpoint_tallies(
            p,
            g,
            n,
            collision::stages_of(d, n),
            collision::stages_of(d, n),
        ),
        args.birthday_spacings || !args.checkpoints || d == 0 ==> rep_progress(
            p,
            args,
            points,
            cells,
        ).len() == 0,
{
    assert(shape_of(args) == g);
}

/// A repetition of the sequential collision test with a tradeoff fits if and only if no pass that
/// is run has more points than the buffer has places.
pub proof fn law_collision_repetition_fits<P: Orbit>(
    p: P,
    args: Args,
    points: usize,
    cells: nat,
    caps: Capacities,
    d: nat,
    b: nat,
    g: Shape,
    all: Seq<nat>,
    width: nat,
)
    requires
        !args.birthday_spacings,
        args.decimate matches Some(n) ==> d == n,
        args.decimate is None ==> d == 0,
        args.tradeoff matches Some(n) ==> b == n && b >= 1,
        args.tradeoff is None ==> b == 0,
        g == (Shape { u: args.u as nat, t: args.t as nat, s: args.s as nat, d }),
        g.t >= 1,
        g.d < g.u,
        g.u + g.s <= 64,
        b <= g.t * (g.u - g.d),
        args.pass matches Some(k) ==> b >= 1 && k < pow2(b),
        all == sampling::kept(p, g, points as nat * pow2(args.t as nat * d)),
        width == pow2((g.t * (g.u - g.d) - b) as nat),
    ensures
        b >= 1 ==> (rep_fits(p, args, points, cells, caps) <==> forall|k: nat|
            (match args.pass {
                Some(only) => k == only,
                None => k < pow2(b),
            }) ==> (#[trigger] common::between(all, width, k)).len() <= caps.buffer),
        b == 0 && d > 0 && !args.checkpoints ==> (rep_fits(p, args, points, cells, caps)
            <==> all.len() <= caps.buffer),
        b == 0 && d == 0 ==> rep_fits(p, args, points, cells, caps),
{
    let m = all.to_multiset();
    let key = common::interval_of(g, b);
    let cap = caps.buffer as nat;
    let (lo, hi) = collision::pass_range(b as usize, args.pass);
    assert(shape_of(args) == g);
    assert(all == points_from(p, args, points));
    assert forall|k: nat|
        (#[trigger] counting::class(m, key, k)).len() == common::between(all, width, k).len() by {
        collision::lemma_between_is_class(all, g, b, k);
    }
    if collision::passes_fit(m, key, lo, hi, cap) {
        assert forall|k: nat| lo <= k < hi implies (#[trigger] common::between(
            all,
            width,
            k,
        )).len() <= cap by {
            assert(counting::class(m, key, k).len() <= cap);
        }
    } else {
        let k = choose|k: nat| lo <= k < hi && (#[trigger] counting::class(m, key, k)).len() > cap;
        assert(lo <= k < hi && common::between(all, width, k).len() > cap);
    }
}

/// A repetition of the sequential birthday-spacings test with a tradeoff fits if and only if no
/// value interval has more points than its buffer has places, and no class that is counted has more
/// spacings than its own.
pub proof fn law_birthday_repetition_fits<P: Orbit>(
    p: P,
    args: Args,
    points: usize,
    cells: nat,
    caps: Capacities,
    d: nat,
    b: nat,
    g: Shape,
    all: Seq<nat>,
    stored: Seq<nat>,
    width: nat,
)
    requires
        args.birthday_spacings,
        args.decimate matches Some(n) ==> d == n,
        args.decimate is None ==> d == 0,
        args.tradeoff matches Some(n) ==> b == n && b >= 1,
        args.tradeoff is None ==> b == 0,
        g == (Shape { u: args.u as nat, t: args.t as nat, s: args.s as nat, d }),
        g.t >= 1,
        g.d < g.u,
        g.u + g.s <= 64,
        b <= g.t * (g.u - g.d),
        args.pass matches Some(k) ==> b >= 1 && k < pow2(b),
        all == sampling::kept(p, g, points as nat * pow2(args.t as nat * d)),
        stored == birthday::stored_spacings(counting::in_ascending_order(all), cells),
        width == pow2((g.t * (g.u - g.d) - b) as nat),
    ensures
        b >= 1 ==> (rep_fits(p, args, points, cells, caps) <==> {
            &&& forall|k: nat|
                k < pow2(b) ==> (#[trigger] common::between(all, width, k)).len() <= caps.interval
            &&& forall|j: nat|
                (match args.pass {
                    Some(only) => j == only,
                    None => j < pow2(b),
                }) ==> (#[trigger] birthday::class_part(stored, b, j)).len() <= caps.buffer
        }),
        b == 0 && d > 0 ==> (rep_fits(p, args, points, cells, caps) <==> all.len() <= caps.buffer),
        b == 0 && d == 0 ==> rep_fits(p, args, points, cells, caps),
{
    let m = all.to_multiset();
    let key = common::interval_of(g, b);
    let low = birthday::class_of(b);
    let (lo, hi) = collision::pass_range(b as usize, args.pass);
    assert(shape_of(args) == g);
    assert(all == points_from(p, args, points));
    assert forall|k: nat|
        (#[trigger] counting::class(m, key, k)).len() == common::between(all, width, k).len() by {
        collision::lemma_between_is_class(all, g, b, k);
    }
    assert forall|j: nat|
        (#[trigger] counting::class(stored.to_multiset(), low, j)).len() == birthday::class_part(
            stored,
            b,
            j,
        ).len() by {
        counting::lemma_filter_is_class(stored, low, j);
    }
    if collision::passes_fit(m, key, 0, pow2(b), caps.interval as nat) {
        assert forall|k: nat| k < pow2(b) implies (#[trigger] common::between(
            all,
            width,
            k,
        )).len() <= caps.interval by {
            assert(counting::class(m, key, k).len() <= caps.interval);
        }
    } else {
        let k = choose|k: nat|
            0 <= k < pow2(b) && (#[trigger] counting::class(m, key, k)).len() > caps.interval;
        assert(k < pow2(b) && common::between(all, width, k).len() > caps.interval);
    }
    if collision::passes_fit(stored.to_multiset(), low, lo, hi, caps.buffer as nat) {
        assert forall|j: nat| lo <= j < hi implies (#[trigger] birthday::class_part(
            stored,
            b,
            j,
        )).len() <= caps.buffer by {
            assert(counting::class(stored.to_multiset(), low, j).len() <= caps.buffer);
        }
    } else {
        let j = choose|j: nat|
            lo <= j < hi && (#[trigger] counting::class(stored.to_multiset(), low, j)).len()
                > caps.buffer;
        assert(lo <= j < hi && birthday::class_part(stored, b, j).len() > caps.buffer);
    }
}

/// A repetition with checkpoints fits if and only if no stage has more points than the buffer of a
/// stage has places, and all points together have no more than the buffer of all points has.
pub proof fn law_staged_repetition_fits<P: Orbit>(
    p: P,
    args: Args,
    points: usize,
    cells: nat,
    caps: Capacities,
    d: nat,
    g: Shape,
    n: nat,
    stages: nat,
)
    requires
        !args.birthday_spacings,
        args.checkpoints,
        args.tradeoff is None,
        args.decimate == Some(d as usize),
        0 < d < g.u,
        g.t >= 1,
        g.u + g.s <= 64,
        g == (Shape { u: args.u as nat, t: args.t as nat, s: args.s as nat, d }),
        n == points * pow2(args.t as nat * d),
        stages == collision::stages_of(d, n),
        stages >= 1,
    ensures
        rep_fits(p, args, points, cells, caps) <==> {
            &&& forall|k: nat|
                1 <= k <= stages ==> (#[trigger] collision::stage_points(p, g, n, k, stages)).len()
                    <= caps.stage
            &&& sampling::kept(p, g, n).len() <= caps.buffer
        },
{
    assert(shape_of(args) == g);
    assert(n == samples_of(args, points));
    let cap = caps.buffer as nat;
    let stage_cap = caps.stage as nat;
    let whole = sampling::kept(p, g, n).len();
    assert forall|k: nat| 1 <= k <= stages implies (#[trigger] collision::stage_fits(
        p,
        g,
        n,
        k,
        stages,
        cap,
        stage_cap,
    ) <==> collision::stage_points(p, g, n, k, stages).len() <= stage_cap && sampling::kept(
        p,
        g,
        collision::stage_end(n, k, stages),
    ).len() <= cap) && sampling::kept(p, g, collision::stage_end(n, k, stages)).len() <= whole by {
        collision::lemma_stage_ends(n, k, stages);
        let e = collision::stage_end(n, k, stages);
        sampling::law_kept_concat(p, g, e, (n - e) as nat);
    }
    collision::lemma_stage_ends(n, stages, stages);
    if rep_fits(p, args, points, cells, caps) {
        assert(collision::stage_fits(p, g, n, stages, stages, cap, stage_cap));
        assert forall|k: nat| 1 <= k <= stages implies (#[trigger] collision::stage_points(
            p,
            g,
            n,
            k,
            stages,
        )).len() <= caps.stage by {
            assert(collision::stage_fits(p, g, n, k, stages, cap, stage_cap));
        }
    }
    if whole <= cap && (forall|k: nat|
        1 <= k <= stages ==> (#[trigger] collision::stage_points(p, g, n, k, stages)).len()
            <= caps.stage) {
        assert forall|k: nat| 1 <= k <= stages implies #[trigger] collision::stage_fits(
            p,
            g,
            n,
            k,
            stages,
            cap,
            stage_cap,
        ) by {
            assert(collision::stage_points(p, g, n, k, stages).len() <= caps.stage);
        }
    }
}

/// A sequential test succeeds if and only if every repetition fits. It then has a tally per
/// repetition, each that of a repetition that starts where the one before it ended, their
/// collisions as its total, and has told of every repetition.
pub proof fn law_run_test<T: Cell, P: Prng, R: Reporter>(
    args: &Args,
    points: usize,
    cells: &CellCount,
    caps: Capacities,
    progress: &mut R,
    r: Result<TestRun, BinOverflow>,
    i: nat,
    d: nat,
    start: P,
)
    requires
        i < args.reps,
        args.decimate matches Some(n) ==> d == n,
        args.decimate is None ==> d == 0,
        start == prng::advance(
            P::seeded(args.seed),
            i * (points as nat * pow2(args.t as nat * d)) * args.t as nat,
        ),
        call_ensures(run_test::<T, P>, (args, points, cells, caps, progress), r),
    ensures
        r matches Ok(run) ==> {
            &&& run.reps@.len() == args.reps
            &&& run.reps@[i as int].points == rep_points(start, *args, points)
            &&& run.reps@[i as int].collisions == rep_collisions(start, *args, points, cells@)
            &&& run.total == run.reps@.fold_left(
                0nat,
                |sum: nat, tally: Tally| sum + tally.collisions as nat,
            )
            &&& rep_fits(start, *args, points, cells@, caps)
            &&& final(progress).told() == old(progress).told() + total_progress::<P>(
                *args,
                points,
                cells@,
                args.reps as nat,
            )
        },
        !rep_fits(start, *args, points, cells@, caps) ==> r is Err,
        r is Err ==> exists|j: nat|
            j < args.reps && !#[trigger] rep_fits(
                rep_start::<P>(*args, points, j),
                *args,
                points,
                cells@,
                caps,
            ),
{
    assert(start == rep_start::<P>(*args, points, i));
    assert(r is Ok <==> all_fit::<P>(*args, points, cells@, caps));
    if let Ok(run) = r {
        law_tally_of_repetition::<P>(run.reps@, *args, points, cells@, i, d, start);
        law_total_is_the_sum::<P>(run.reps@, *args, points, cells@);
    }
}

/// The bin that is reported belongs to the kind of test: a pass of collisions, an interval or a
/// class of spacings, a stage, or the run.
pub proof fn law_which_bin_is_reported<P: Orbit>(
    p: P,
    args: Args,
    points: usize,
    cells: nat,
    caps: Capacities,
    bin: BinOverflow,
    before: Log,
    after: Log,
)
    requires
        overflows_first(p, args, points, cells, caps, bin, before, after),
        args.tradeoff matches Some(b) ==> b >= 1,
        args.decimate matches Some(d) ==> d >= 1,
    ensures
        args.birthday_spacings && args.tradeoff is Some ==> bin
            == BinOverflow::BirthdayValueInterval || bin == BinOverflow::BirthdaySpacingsClass,
        args.birthday_spacings && args.tradeoff is None ==> bin
            == BinOverflow::DecimatedBirthdayRun,
        !args.birthday_spacings && args.tradeoff is Some ==> bin
            == BinOverflow::CollisionTradeoffPass,
        !args.birthday_spacings && args.tradeoff is None && args.decimate is Some
            && args.checkpoints ==> bin == BinOverflow::DecimationCheckpointStage || bin
            == BinOverflow::DecimationCheckpointAccumulator,
        !args.birthday_spacings && args.tradeoff is None && !args.checkpoints ==> bin
            == BinOverflow::DecimatedCollisionRun,
        bin == BinOverflow::BirthdayValueInterval || bin == BinOverflow::DecimatedBirthdayRun || bin
            == BinOverflow::DecimatedCollisionRun ==> after == before,
{
}

/// A test that overflows reports the bin of the first repetition that does not fit, after it has
/// told of all those before it.
pub proof fn law_first_overflow_is_reported<P: Orbit>(
    args: Args,
    points: usize,
    cells: nat,
    caps: Capacities,
    bin: BinOverflow,
    before: Log,
    after: Log,
    i: nat,
)
    requires
        test_overflows::<P>(args, points, cells, caps, bin, before, after),
        i < args.reps,
        !rep_fits(rep_start::<P>(args, points, i), args, points, cells, caps),
        forall|j: nat|
            j < i ==> #[trigger] rep_fits(
                rep_start::<P>(args, points, j),
                args,
                points,
                cells,
                caps,
            ),
    ensures
        overflows_first(
            rep_start::<P>(args, points, i),
            args,
            points,
            cells,
            caps,
            bin,
            before + total_progress::<P>(args, points, cells, i),
            after,
        ),
{
    let first = choose|first: nat|
        #![trigger rep_start::<P>(args, points, first)]
        {
            &&& first < args.reps
            &&& !rep_fits(rep_start::<P>(args, points, first), args, points, cells, caps)
            &&& forall|j: nat|
                j < first ==> #[trigger] rep_fits(
                    rep_start::<P>(args, points, j),
                    args,
                    points,
                    cells,
                    caps,
                )
            &&& overflows_first(
                rep_start::<P>(args, points, first),
                args,
                points,
                cells,
                caps,
                bin,
                before + total_progress::<P>(args, points, cells, first),
                after,
            )
        };
    if first < i {
        assert(rep_fits(rep_start::<P>(args, points, first), args, points, cells, caps));
    } else if i < first {
        assert(rep_fits(rep_start::<P>(args, points, i), args, points, cells, caps));
    }
}

/// A test can be run on some cells, stored in some type, where its parameters are valid, the cells
/// are 2^(*t* · (*u* − *d*)) and fit the type, and its samples can be counted.
pub proof fn law_runnable<T: Value>(args: Args, points: usize, cells: nat, d: nat)
    requires
        args.decimate matches Some(n) ==> d == n,
        args.decimate is None ==> d == 0,
        d < args.u,
    ensures
        runnable::<T>(args, points, cells) <==> {
            &&& args.valid()
            &&& args.t * (args.u - d) <= T::bits()
            &&& cells == pow2((args.t * (args.u - d)) as nat)
            &&& points * pow2((args.t * d) as nat) <= usize::MAX
            &&& args.t * d < usize::BITS
            &&& points >= 1
        },
{
}

/// A pass, or no tradeoff, is put in the place of what was there, and nothing else changes.
pub proof fn law_variants_of_args(args: Args, pass: Option<u64>)
    ensures
        ({
            let one = with_pass(args, pass);
            let none = without_tradeoff(args);
            &&& one.pass == pass && one.tradeoff == args.tradeoff
            &&& none.pass is None && none.tradeoff is None
            &&& one.u == args.u && none.u == args.u
            &&& one.t == args.t && none.t == args.t
            &&& one.s == args.s && none.s == args.s
            &&& one.decimate == args.decimate && none.decimate == args.decimate
            &&& one.birthday_spacings == args.birthday_spacings
            &&& none.birthday_spacings == args.birthday_spacings
        }),
{
}

/// What an overflowing repetition with a tradeoff has told: nothing, where an interval of the first
/// class overflows; else the passes or classes before the first that does not fit.
pub proof fn law_overflowing_tradeoff<P: Orbit>(
    p: P,
    args: Args,
    points: usize,
    cells: nat,
    caps: Capacities,
    bin: BinOverflow,
    before: Log,
    after: Log,
    d: nat,
    b: nat,
    g: Shape,
    all: Seq<nat>,
)
    requires
        args.decimate matches Some(n) ==> d == n,
        args.decimate is None ==> d == 0,
        args.tradeoff matches Some(n) ==> b == n && b >= 1,
        args.tradeoff is None ==> b == 0,
        g == (Shape { u: args.u as nat, t: args.t as nat, s: args.s as nat, d }),
        b >= 1,
        all == sampling::kept(p, g, points as nat * pow2(args.t as nat * d)),
        overflows_first(p, args, points, cells, caps, bin, before, after),
    ensures
        ({
            let (lo, hi) = collision::pass_range(b as usize, args.pass);
            let key = common::interval_of(g, b);
            let interval_first = birthday::interval_overflows_first(
                all,
                key,
                b,
                lo,
                caps.interval as nat,
                caps.buffer as nat,
            );
            &&& args.birthday_spacings && interval_first ==> {
                bin == BinOverflow::BirthdayValueInterval && after == before
            }
            &&& args.birthday_spacings && !interval_first ==> {
                &&& bin == BinOverflow::BirthdaySpacingsClass
                &&& collision::stops_at_pass(
                    birthday::stored_spacings(
                        counting::in_ascending_order(all),
                        cells,
                    ).to_multiset(),
                    birthday::class_of(b),
                    lo,
                    hi,
                    caps.buffer as nat,
                    before,
                    after,
                )
            }
            &&& !args.birthday_spacings ==> collision::stops_at_pass(
                all.to_multiset(),
                key,
                lo,
                hi,
                caps.buffer as nat,
                before,
                after,
            )
        }),
{
    assert(shape_of(args) == g);
}

/// What an overflowing repetition with checkpoints has told: the stages before the first that does
/// not fit.
pub proof fn law_overflowing_stages<P: Orbit>(
    p: P,
    args: Args,
    points: usize,
    cells: nat,
    caps: Capacities,
    bin: BinOverflow,
    before: Log,
    after: Log,
    d: nat,
    g: Shape,
    n: nat,
)
    requires
        !args.birthday_spacings,
        args.checkpoints,
        args.tradeoff is None,
        args.decimate == Some(d as usize),
        0 < d <= usize::MAX,
        g == (Shape { u: args.u as nat, t: args.t as nat, s: args.s as nat, d }),
        n == points * pow2(args.t as nat * d),
        overflows_first(p, args, points, cells, caps, bin, before, after),
    ensures
        collision::stops_at_stage(
            p,
            g,
            n,
            collision::stages_of(d, n),
            caps.buffer as nat,
            caps.stage as nat,
            bin,
            before,
            after,
        ),
{
    assert(shape_of(args) == g);
}

} // verus!
