//! How many points a test uses, and in which type its cells are stored.

use crate::cli::{passes_of, Args};
use crate::collision;
use crate::collision::num_checkpoints;
use crate::common::CellCount;
use crate::text;
use vstd::arithmetic::div_mod::*;
use vstd::arithmetic::mul::*;
use vstd::arithmetic::power2::*;
use vstd::prelude::*;
use vstd::string::*;

verus! {

/// A test needs at least so many points.
pub const MIN_POINTS: usize = 10000;

/// Why a test has no sensible number of points.
#[derive(Clone, Copy, PartialEq, Eq, Structural, Debug)]
pub enum PointsError {
    /// The memory locations times the passes overflow.
    Overflow,
    /// More points than the birthday-spacings test allows for the cells and repetitions.
    OutOfRange,
    /// More points than cells.
    MoreThanCells { points: usize },
    /// Fewer points than a test needs.
    TooFew { points: usize },
}

impl PointsError {
    /// What is said of a test on so many cells, with decimation or without.
    pub open spec fn text(self, cells: nat, decimated: bool) -> Seq<char> {
        match self {
            PointsError::Overflow => "m · 2ᵇ overflows usize"@,
            PointsError::OutOfRange =>
                "the given combination of memory, repetitions and cells is out of range (omit -m to use the maximum)"@,
            PointsError::MoreThanCells { points } => "more points ("@ + text::decimal_of(
                points as nat,
            ) + (if decimated {
                ") than effective cells ("@
            } else {
                ") than cells ("@
            }) + text::decimal_of(cells) + ")"@,
            PointsError::TooFew { points } => "the number of points ("@ + text::decimal_of(
                points as nat,
            ) + ") is smaller than "@ + text::decimal_of(MIN_POINTS as nat),
        }
    }

    /// The message on a test on so many cells, with decimation or without.
    pub fn message(self, cells: &CellCount, decimated: bool) -> (s: String)
        ensures
            s@ == self.text(cells@, decimated),
    {
        match self {
            PointsError::Overflow => String::from_str("m · 2ᵇ overflows usize"),
            PointsError::OutOfRange => String::from_str(
                "the given combination of memory, repetitions and cells is out of range (omit -m to use the maximum)",
            ),
            PointsError::MoreThanCells { points } => {
                let mut s = String::from_str("more points (");
                let number = text::decimal(points as u128);
                s.append(number.as_str());
                s.append(
                    if decimated {
                        ") than effective cells ("
                    } else {
                        ") than cells ("
                    },
                );
                let count = cells.decimal();
                s.append(count.as_str());
                s.append(")");
                s
            },
            PointsError::TooFew { points } => {
                let mut s = String::from_str("the number of points (");
                let number = text::decimal(points as u128);
                s.append(number.as_str());
                s.append(") is smaller than ");
                let least = text::decimal(MIN_POINTS as u128);
                s.append(least.as_str());
                s
            },
        }
    }
}

/// The number of memory locations: as asked for, else `max_points` for birthday spacings and the
/// number of cells (as far as it fits) for collisions, shared among the passes.
pub open spec fn memory_of(args: Args, cells: nat, max_points: usize) -> nat {
    match args.m {
        Some(m) => m as nat,
        None => if args.birthday_spacings {
            max_points as nat / pow2(args.b())
        } else if cells / pow2(args.b()) > usize::MAX {
            usize::MAX as nat
        } else {
            cells / pow2(args.b())
        },
    }
}

/// The number of points: the memory locations times the passes.
pub open spec fn points_of(args: Args, cells: nat, max_points: usize) -> nat {
    memory_of(args, cells, max_points) * pow2(args.b())
}

/// The number of points of a test, or why there is none; `max_points` bounds it for the
/// birthday-spacings test.
pub fn compute_points(args: &Args, cells: &CellCount, max_points: usize) -> (r: Result<
    usize,
    PointsError,
>)
    requires
        args.valid(),
    ensures
        ({
            let points = points_of(*args, cells@, max_points);
            let limit = if args.birthday_spacings {
                max_points as nat
            } else {
                cells@
            };
            match r {
                Ok(n) => n == points && MIN_POINTS <= points <= limit,
                Err(PointsError::Overflow) => points > usize::MAX || pow2(args.b()) > usize::MAX,
                Err(PointsError::OutOfRange) => {
                    args.birthday_spacings && limit < points <= usize::MAX
                },
                Err(PointsError::MoreThanCells { points: n }) => {
                    !args.birthday_spacings && n == points && points > limit
                },
                Err(PointsError::TooFew { points: n }) => n == points && points <= limit && points
                    < MIN_POINTS,
            }
        }),
        r is Err && r->Err_0 !is Overflow ==> pow2(args.b()) <= usize::MAX,
        r is Ok <==> {
            let points = points_of(*args, cells@, max_points);
            &&& pow2(args.b()) <= usize::MAX
            &&& MIN_POINTS <= points <= usize::MAX
            &&& args.birthday_spacings ==> points <= max_points
            &&& !args.birthday_spacings ==> points <= cells@
        },
{
    let b: usize = args.tradeoff_bits();
    proof {
        lemma2_to64();
        lemma_pow2_pos(args.b());
    }
    let passes: u64 = passes_of(b);
    if passes > usize::MAX as u64 {
        return Err(PointsError::Overflow);
    }
    let pass_factor: usize = passes as usize;
    let m: usize = match args.m {
        Some(m) => m,
        None => {
            if args.birthday_spacings {
                max_points / pass_factor
            } else {
                cells_per_pass(cells, pass_factor)
            }
        },
    };
    assert(m == memory_of(*args, cells@, max_points));
    match m.checked_mul(pass_factor) {
        None => Err(PointsError::Overflow),
        Some(points) => {
            if args.birthday_spacings {
                if points > max_points {
                    return Err(PointsError::OutOfRange);
                }
            } else if points > 0 && (points - 1) as u128 > cells.last {
                return Err(PointsError::MoreThanCells { points });
            }
            if points < MIN_POINTS {
                Err(PointsError::TooFew { points })
            } else {
                Ok(points)
            }
        },
    }
}

/// The number of cells divided by `passes`, as far as it fits.
fn cells_per_pass(cells: &CellCount, passes: usize) -> (r: usize)
    requires
        passes >= 1,
    ensures
        r == (if cells@ / passes as nat > usize::MAX {
            usize::MAX as nat
        } else {
            cells@ / passes as nat
        }),
{
    let p: u128 = passes as u128;
    let q: u128 = cells.last / p;
    let rem: u128 = cells.last % p;
    proof {
        let n = cells@ as int;
        lemma_fundamental_div_mod(cells.last as int, p as int);
        if rem == p - 1 {
            assert(n == (q + 1) * p) by (nonlinear_arith)
                requires
                    cells.last == p * q + rem,
                    rem == p - 1,
                    n == cells.last + 1,
            ;
            lemma_div_multiples_vanish(q + 1, p as int);
            lemma_mul_is_commutative(q + 1, p as int);
        } else {
            lemma_fundamental_div_mod_converse_div(n, p as int, q as int, rem + 1);
        }
    }
    if q >= usize::MAX as u128 {
        usize::MAX
    } else if rem == p - 1 {
        (q + 1) as usize
    } else {
        q as usize
    }
}

/// Picks the smallest cell type that can hold every stored value, and runs what belongs to it.
///
/// Cell indices are below the number of cells, and so are spacings but for one that is never
/// stored: 32 bits are used up to 2^32 cells, 64 bits up to 2^64, and 128 bits above.
pub fn dispatch<A: FnOnce() -> R, B: FnOnce() -> R, C: FnOnce() -> R, R>(
    cells: &CellCount,
    narrow: A,
    medium: B,
    wide: C,
) -> (r: R)
    requires
        cells@ <= pow2(32) ==> call_requires(narrow, ()),
        pow2(32) < cells@ <= pow2(64) ==> call_requires(medium, ()),
        pow2(64) < cells@ ==> call_requires(wide, ()),
    ensures
        cells@ <= pow2(32) ==> call_ensures(narrow, (), r),
        pow2(32) < cells@ <= pow2(64) ==> call_ensures(medium, (), r),
        pow2(64) < cells@ ==> call_ensures(wide, (), r),
{
    proof {
        lemma2_to64();
        lemma2_to64_rest();
    }
    if cells.last <= 0xffff_ffff {
        narrow()
    } else if cells.last <= 0xffff_ffff_ffff_ffff {
        medium()
    } else {
        wide()
    }
}

/// The cell type that is picked for 2^`bits` cells has at least that many bits, and no narrower one
/// has.
pub proof fn law_picked_type_fits(bits: nat)
    requires
        bits <= 128,
    ensures
        pow2(bits) <= pow2(32) <==> bits <= 32,
        pow2(32) < pow2(bits) <= pow2(64) <==> 32 < bits <= 64,
        pow2(64) < pow2(bits) <==> 64 < bits <= 128,
{
    if bits < 32 {
        lemma_pow2_strictly_increases(bits, 32);
    } else if bits > 32 {
        lemma_pow2_strictly_increases(32, bits);
    }
    if bits < 64 {
        lemma_pow2_strictly_increases(bits, 64);
    } else if bits > 64 {
        lemma_pow2_strictly_increases(64, bits);
    }
}

/// What goes into one buffer: of `samples` samples, those that are selected by `bits` bits, one in
/// 2^`bits` of them on average.
#[derive(Clone, Copy, PartialEq, Eq, Structural, Debug)]
pub struct Load {
    pub samples: usize,
    pub bits: usize,
}

/// The bits that select a sample can be counted.
pub open spec fn bits_fit(args: Args) -> bool {
    args.t * args.d() + args.b() <= usize::MAX
}

/// The bits by which a pass selects samples: those of decimation and those of the tradeoff.
pub fn partition_bits(args: &Args) -> (bits: usize)
    requires
        bits_fit(*args),
    ensures
        bits == args.t * args.d() + args.b(),
{
    assert(0 <= args.t * args.d()) by (nonlinear_arith);
    args.t * args.decimation_bits() + args.tradeoff_bits()
}

/// `n` divided by `k`, rounded up.
pub open spec fn rounded_up(n: nat, k: nat) -> nat {
    ((n + k - 1) / k as int) as nat
}

fn div_up(n: usize, k: usize) -> (r: usize)
    requires
        k >= 1,
    ensures
        r == rounded_up(n as nat, k as nat),
        r <= n,
{
    let q: usize = n / k;
    let rem: usize = n % k;
    proof {
        lemma_fundamental_div_mod(n as int, k as int);
        lemma_mul_is_commutative(q as int, k as int);
        if rem == 0 {
            lemma_fundamental_div_mod_converse_div(n + k - 1, k as int, q as int, k - 1);
        } else {
            lemma_mul_is_distributive_add_other_way(k as int, q as int, 1);
            lemma_mul_is_commutative(q + 1, k as int);
            lemma_fundamental_div_mod_converse_div(n + k - 1, k as int, q + 1, rem - 1);
        }
        assert(q <= q * k) by (nonlinear_arith)
            requires
                k >= 1,
                q >= 0,
        ;
    }
    if rem == 0 {
        q
    } else {
        q + 1
    }
}

/// The samples between two checkpoints, at most; 0 without checkpoints.
pub open spec fn stage_samples_of(args: Args, scan: nat) -> nat {
    if args.checkpoints {
        rounded_up(scan, collision::stages_of(args.d(), scan))
    } else {
        0
    }
}

/// The samples between two checkpoints, at most, where a repetition scans `scan` of them; 0 without
/// checkpoints.
pub fn stage_samples(args: &Args, scan: usize) -> (samples: usize)
    requires
        args.valid(),
        scan >= 1,
    ensures
        samples == stage_samples_of(*args, scan as nat),
        samples <= scan,
{
    if args.checkpoints {
        div_up(scan, num_checkpoints(args.decimation_bits(), scan))
    } else {
        0
    }
}

/// What a pass keeps of a scan.
pub fn scan_load(args: &Args, scan: usize) -> (load: Load)
    requires
        bits_fit(*args),
    ensures
        load.samples == scan,
        load.bits == args.t * args.d() + args.b(),
{
    Load { samples: scan, bits: partition_bits(args) }
}

/// What a class of spacings holds: of all points those with the same low bits, or with no tradeoff
/// whatever the scan keeps.
pub fn class_load(args: &Args, points: usize, scan: usize) -> (load: Load)
    requires
        bits_fit(*args),
    ensures
        args.b() > 0 ==> load.samples == points && load.bits == args.b(),
        args.b() == 0 ==> load.samples == scan && load.bits == args.t * args.d(),
{
    let b: usize = args.tradeoff_bits();
    if b > 0 {
        Load { samples: points, bits: b }
    } else {
        scan_load(args, scan)
    }
}

/// What the buffer of a sequential test holds: a class of spacings where the birthday-spacings test
/// has a tradeoff, else a pass.
pub fn buffer_load(args: &Args, points: usize, scan: usize) -> (load: Load)
    requires
        bits_fit(*args),
    ensures
        args.birthday_spacings && args.b() > 0 ==> load.samples == points && load.bits == args.b(),
        !(args.birthday_spacings && args.b() > 0) ==> load.samples == scan && load.bits == args.t
            * args.d() + args.b(),
{
    if args.birthday_spacings {
        class_load(args, points, scan)
    } else {
        scan_load(args, scan)
    }
}

/// What a stage between two checkpoints keeps.
pub fn stage_load(args: &Args, scan: usize) -> (load: Load)
    requires
        args.valid(),
        bits_fit(*args),
        scan >= 1,
    ensures
        load.samples == stage_samples_of(*args, scan as nat),
        load.bits == args.t * args.d() + args.b(),
{
    Load { samples: stage_samples(args, scan), bits: partition_bits(args) }
}

/// What one of `count` threads keeps of a stage between two checkpoints: its share is rounded up,
/// and one more.
pub fn stage_share_load(args: &Args, scan: usize, count: usize) -> (load: Load)
    requires
        args.valid(),
        bits_fit(*args),
        scan >= 1,
        args.checkpoints ==> scan < usize::MAX,
        count >= 1,
    ensures
        load.samples == rounded_up(stage_samples_of(*args, scan as nat), count as nat) + 1,
        load.bits == args.t * args.d() + args.b(),
{
    let share: usize = div_up(stage_samples(args, scan), count);
    Load { samples: share + 1, bits: partition_bits(args) }
}

/// Where the number of memory locations `m` is given, a test has `m` · 2^`b` points, whichever test
/// it is. There are none only where that overflows, is above the limit of the test, or is less than
/// a test needs.
pub proof fn law_points_of_given_memory(
    args: Args,
    cells: CellCount,
    max_points: usize,
    r: Result<usize, PointsError>,
    m: usize,
    b: nat,
    n: nat,
)
    requires
        args.m == Some(m),
        args.tradeoff matches Some(bits) ==> b == bits,
        args.tradeoff is None ==> b == 0,
        n == m * pow2(b),
        call_ensures(compute_points, (&args, &cells, max_points), r),
    ensures
        match r {
            Ok(points) => {
                &&& points == n
                &&& 10000 <= n
                &&& args.birthday_spacings ==> n <= max_points
                &&& !args.birthday_spacings ==> n <= cells@
            },
            Err(PointsError::Overflow) => n > usize::MAX || pow2(b) > usize::MAX,
            Err(PointsError::OutOfRange) => args.birthday_spacings && n > max_points,
            Err(PointsError::MoreThanCells { points }) => {
                !args.birthday_spacings && n > cells@ && points == n
            },
            Err(PointsError::TooFew { points }) => n < 10000 && points == n,
        },
{
}

/// Where no number of memory locations is given, the birthday-spacings test has as many points as
/// its maximum allows, but a multiple of the 2^`b` passes. There are none only where the passes
/// cannot be counted, or the maximum is less than a test needs.
pub proof fn law_points_of_birthday_maximum(
    args: Args,
    cells: CellCount,
    max_points: usize,
    r: Result<usize, PointsError>,
    b: nat,
)
    requires
        args.m is None,
        args.birthday_spacings,
        args.tradeoff matches Some(bits) ==> b == bits,
        args.tradeoff is None ==> b == 0,
        call_ensures(compute_points, (&args, &cells, max_points), r),
    ensures
        match r {
            Ok(points) => {
                &&& points as nat % pow2(b) == 0
                &&& points <= max_points < points + pow2(b)
                &&& points >= 10000
            },
            Err(PointsError::TooFew { points }) => {
                &&& points as nat % pow2(b) == 0
                &&& points <= max_points < points + pow2(b)
                &&& points < 10000
            },
            Err(e) => e == PointsError::Overflow && pow2(b) > usize::MAX,
        },
{
    let k = pow2(b) as int;
    let q = max_points as int / k;
    lemma_pow2_pos(b);
    lemma_fundamental_div_mod(max_points as int, k);
    lemma_mod_bound(max_points as int, k);
    lemma_mul_is_commutative(k, q);
    lemma_mod_multiples_basic(q, k);
}

/// Where no number of memory locations is given, the collision test has as many points as there are
/// cells, but a multiple of the 2^`b` passes, as far as that can be counted. There are none only
/// where it cannot, or there are fewer cells than a test needs points.
pub proof fn law_points_of_all_cells(
    args: Args,
    cells: CellCount,
    max_points: usize,
    r: Result<usize, PointsError>,
    b: nat,
)
    requires
        args.m is None,
        !args.birthday_spacings,
        args.tradeoff matches Some(bits) ==> b == bits,
        args.tradeoff is None ==> b == 0,
        call_ensures(compute_points, (&args, &cells, max_points), r),
    ensures
        match r {
            Ok(points) => {
                &&& points as nat % pow2(b) == 0
                &&& points <= cells@
                &&& cells@ < points + pow2(b) || points == usize::MAX
                &&& points >= 10000
            },
            Err(PointsError::TooFew { points }) => {
                &&& points as nat % pow2(b) == 0
                &&& points <= cells@ < points + pow2(b)
                &&& points < 10000
            },
            Err(e) => e == PointsError::Overflow && (cells@ > usize::MAX || pow2(b) > usize::MAX),
        },
{
    let k = pow2(b) as int;
    let n = cells@ as int;
    let q = n / k;
    lemma_pow2_pos(b);
    lemma_fundamental_div_mod(n, k);
    lemma_mod_bound(n, k);
    lemma_mul_is_commutative(k, q);
    lemma_mod_multiples_basic(q, k);
    lemma_mod_multiples_basic(usize::MAX as int, k);
    if q > usize::MAX {
        assert(usize::MAX * k >= usize::MAX) by (nonlinear_arith)
            requires
                k >= 1,
        ;
        assert(q * k >= q) by (nonlinear_arith)
            requires
                k >= 1,
                q >= 0,
        ;
        assert(q * k > usize::MAX * k) by (nonlinear_arith)
            requires
                k >= 1,
                q > usize::MAX,
        ;
    }
}

/// Rounding up gives the least number of parts of size `k` that hold `n`.
pub proof fn law_rounded_up(n: nat, k: nat)
    requires
        k >= 1,
    ensures
        (rounded_up(n, k) - 1) * k < n <= rounded_up(n, k) * k,
{
    let r = (n + k - 1) / k as int;
    lemma_fundamental_div_mod(n + k - 1, k as int);
    lemma_mod_bound(n + k - 1, k as int);
    lemma_mul_is_commutative(k as int, r);
    lemma_mul_is_distributive_sub_other_way(k as int, r, 1);
}

/// No stage between two checkpoints has more samples than its buffer is sized for, and that is no
/// more than needed for one of equal stages; without checkpoints there are no stages.
pub proof fn law_stages_fit_their_samples(args: Args, scan: nat, k: nat, stages: nat, d: nat)
    requires
        args.decimate matches Some(n) ==> d == n,
        args.decimate is None ==> d == 0,
        stages == collision::stages_of(d, scan),
        1 <= k <= stages,
    ensures
        !args.checkpoints ==> stage_samples_of(args, scan) == 0,
        args.checkpoints ==> {
            &&& collision::stage_end(scan, k, stages) - collision::stage_end(
                scan,
                (k - 1) as nat,
                stages,
            ) <= stage_samples_of(args, scan)
            &&& (stage_samples_of(args, scan) - 1) * stages < scan <= stage_samples_of(args, scan)
                * stages
        },
{
    law_rounded_up(scan, stages);
    collision::law_stages_are_even(scan, k, stages);
    collision::law_stages_are_even(scan, (k - 1) as nat, stages);
    let e = collision::stage_end(scan, k, stages) as int;
    let f = collision::stage_end(scan, (k - 1) as nat, stages) as int;
    let r = rounded_up(scan, stages) as int;
    assert(scan * k == scan * (k - 1) + scan) by (nonlinear_arith);
    assert(e * stages < (f + 1 + r) * stages) by (nonlinear_arith)
        requires
            e * stages <= scan * k,
            scan * (k - 1) < (f + 1) * stages,
            scan <= r * stages,
            scan * k == scan * (k - 1) + scan,
    ;
    assert(e < f + 1 + r) by (nonlinear_arith)
        requires
            e * stages < (f + 1 + r) * stages,
            stages >= 1,
    ;
}

/// A pass keeps one sample in 2^(*t* · *d* + `b`) of its scan, a class of spacings one in 2^`b` of
/// the points; the buffer of a sequential test is for the one or the other.
pub proof fn law_loads(
    args: Args,
    points: usize,
    scan: usize,
    d: nat,
    b: nat,
    bits: usize,
    pass: Load,
    class: Load,
    buffer: Load,
)
    requires
        args.decimate matches Some(n) ==> d == n,
        args.decimate is None ==> d == 0,
        args.tradeoff matches Some(n) ==> b == n,
        args.tradeoff is None ==> b == 0,
        call_ensures(partition_bits, (&args,), bits),
        call_ensures(scan_load, (&args, scan), pass),
        call_ensures(class_load, (&args, points, scan), class),
        call_ensures(buffer_load, (&args, points, scan), buffer),
    ensures
        bits == args.t * d + b,
        pass == (Load { samples: scan, bits }),
        class == (if b > 0 {
            Load { samples: points, bits: b as usize }
        } else {
            pass
        }),
        buffer == (if args.birthday_spacings {
            class
        } else {
            pass
        }),
{
}

/// A stage between two checkpoints keeps one sample in 2^(*t* · *d* + `b`) of its samples, and a
/// thread has its share of them, rounded up, and one more.
pub proof fn law_stage_loads(
    args: Args,
    scan: usize,
    count: usize,
    d: nat,
    b: nat,
    samples: usize,
    stage: Load,
    share: Load,
)
    requires
        args.decimate matches Some(n) ==> d == n,
        args.decimate is None ==> d == 0,
        args.tradeoff matches Some(n) ==> b == n,
        args.tradeoff is None ==> b == 0,
        count >= 1,
        call_ensures(stage_samples, (&args, scan), samples),
        call_ensures(stage_load, (&args, scan), stage),
        call_ensures(stage_share_load, (&args, scan, count), share),
    ensures
        samples == stage_samples_of(args, scan as nat),
        stage.samples == samples,
        stage.bits == args.t * d + b,
        share.bits == stage.bits,
        (share.samples - 2) * count < samples <= (share.samples - 1) * count,
{
    law_rounded_up(samples as nat, count as nat);
}

/// The bits by which samples are selected can be counted if their number fits.
pub proof fn law_bits_fit(args: Args, d: nat, b: nat)
    requires
        args.decimate matches Some(n) ==> d == n,
        args.decimate is None ==> d == 0,
        args.tradeoff matches Some(n) ==> b == n,
        args.tradeoff is None ==> b == 0,
    ensures
        bits_fit(args) <==> args.t * d + b <= usize::MAX,
{
}

/// What is run is what belongs to the narrowest cell type that holds every cell index.
pub proof fn law_dispatch<A: FnOnce() -> R, B: FnOnce() -> R, C: FnOnce() -> R, R>(
    cells: CellCount,
    narrow: A,
    medium: B,
    wide: C,
    r: R,
)
    requires
        call_ensures(dispatch::<A, B, C, R>, (&cells, narrow, medium, wide), r),
    ensures
        cells.last <= u32::MAX ==> call_ensures(narrow, (), r),
        u32::MAX < cells.last <= u64::MAX ==> call_ensures(medium, (), r),
        u64::MAX < cells.last ==> call_ensures(wide, (), r),
{
    lemma2_to64();
    lemma2_to64_rest();
}

} // verus!
