//! Samples: tuples of generator outputs, as cell indices.

use crate::cell::Cell;
use crate::prng;
use crate::prng::{Orbit, Prng};
use vstd::arithmetic::div_mod::*;
use vstd::arithmetic::mul::*;
use vstd::arithmetic::power2::*;
use vstd::bits::*;
use vstd::prelude::*;

verus! {

/// How samples are made of outputs: `t` outputs per sample, of which the upper `u` bits below the
/// topmost `s` are read, and of those the lower `d` must be zero and are dropped.
pub struct Shape {
    pub u: nat,
    pub t: nat,
    pub s: nat,
    pub d: nat,
}

impl Shape {
    /// The bits that are read exist, and some are left.
    pub open spec fn valid(self) -> bool {
        &&& self.t >= 1
        &&& self.d < self.u
        &&& self.u + self.s <= 64
    }

    /// The bits that each output contributes to a cell index.
    pub open spec fn width(self) -> nat {
        (self.u - self.d) as nat
    }

    /// The bits of a cell index.
    pub open spec fn index_bits(self) -> nat {
        self.t * self.width()
    }
}

/// The bits that are read of an output.
pub open spec fn element(x: u64, u: nat, s: nat) -> nat {
    ((x as nat * pow2(s)) % pow2(64)) / pow2((64 - u) as nat)
}

/// The first `k` elements of the sample that starts at `p`, put together: the first one is the
/// most significant.
pub open spec fn index<P: Orbit>(p: P, g: Shape, k: nat) -> nat
    decreases k,
{
    if k == 0 {
        0
    } else {
        index(p, g, (k - 1) as nat) * pow2(g.width()) + element(
            prng::advance(p, (k - 1) as nat).output(),
            g.u,
            g.s,
        ) / pow2(g.d)
    }
}

/// The lower `d` bits of the first `k` elements of the sample that starts at `p` are zero.
pub open spec fn accepted<P: Orbit>(p: P, g: Shape, k: nat) -> bool
    decreases k,
{
    if k == 0 {
        true
    } else {
        accepted(p, g, (k - 1) as nat) && element(
            prng::advance(p, (k - 1) as nat).output(),
            g.u,
            g.s,
        ) % pow2(g.d) == 0
    }
}

/// Where sample `i` starts.
pub open spec fn sample_start<P: Orbit>(p: P, g: Shape, i: nat) -> P {
    prng::advance(p, i * g.t)
}

/// The cell indices of the accepted ones of the first `n` samples from `p`.
pub open spec fn kept<P: Orbit>(p: P, g: Shape, n: nat) -> Seq<nat>
    decreases n,
{
    if n == 0 {
        Seq::empty()
    } else {
        let before = kept(p, g, (n - 1) as nat);
        let start = sample_start(p, g, (n - 1) as nat);
        if accepted(start, g, g.t) {
            before.push(index(start, g, g.t))
        } else {
            before
        }
    }
}

/// An element fits the bits that are read.
pub proof fn lemma_element_bound(x: u64, u: nat, s: nat)
    requires
        u <= 64,
    ensures
        element(x, u, s) < pow2(u),
{
    lemma_pow2_pos(64);
    lemma_pow2_pos((64 - u) as nat);
    lemma_pow2_adds((64 - u) as nat, u);
    let y = (x as nat * pow2(s)) % pow2(64);
    lemma_mod_bound((x as nat * pow2(s)) as int, pow2(64) as int);
    lemma_multiply_divide_lt(y as int, pow2((64 - u) as nat) as int, pow2(u) as int);
}

/// An element without its lower `d` bits fits the rest.
proof fn lemma_compact_bound(x: u64, g: Shape)
    requires
        g.valid(),
    ensures
        element(x, g.u, g.s) / pow2(g.d) < pow2(g.width()),
{
    lemma_element_bound(x, g.u, g.s);
    lemma_pow2_pos(g.d);
    lemma_pow2_adds(g.d, g.width());
    lemma_multiply_divide_lt(
        element(x, g.u, g.s) as int,
        pow2(g.d) as int,
        pow2(g.width()) as int,
    );
}

/// The first `k` elements fit `k` times the bits of one.
pub proof fn lemma_index_bound<P: Orbit>(p: P, g: Shape, k: nat)
    requires
        g.valid(),
    ensures
        index(p, g, k) < pow2(k * g.width()),
    decreases k,
{
    if k == 0 {
        lemma2_to64();
        assert(0 * g.width() == 0);
    } else {
        let j = (k - 1) as nat;
        lemma_index_bound(p, g, j);
        let x = prng::advance(p, j).output();
        lemma_compact_bound(x, g);
        let e = element(x, g.u, g.s) / pow2(g.d);
        let w = g.width();
        lemma_pow2_adds(j * w, w);
        assert(j * w + w == k * w) by (nonlinear_arith)
            requires
                k == j + 1,
        ;
        assert(index(p, g, j) * pow2(w) + e < pow2(j * w) * pow2(w)) by (nonlinear_arith)
            requires
                index(p, g, j) + 1 <= pow2(j * w),
                e < pow2(w),
        ;
    }
}

/// Every point that is kept is a cell index.
pub proof fn lemma_kept_bound<P: Orbit>(p: P, g: Shape, n: nat)
    requires
        g.valid(),
    ensures
        forall|i: int| 0 <= i < kept(p, g, n).len() ==> #[trigger] kept(p, g, n)[i] < pow2(
            g.index_bits(),
        ),
        kept(p, g, n).len() <= n,
    decreases n,
{
    if n > 0 {
        lemma_kept_bound(p, g, (n - 1) as nat);
        lemma_index_bound(sample_start(p, g, (n - 1) as nat), g, g.t);
    }
}

/// Without decimation every sample is accepted.
pub proof fn lemma_all_accepted<P: Orbit>(p: P, g: Shape, k: nat)
    requires
        g.d == 0,
    ensures
        accepted(p, g, k),
    decreases k,
{
    if k > 0 {
        lemma_all_accepted(p, g, (k - 1) as nat);
        lemma2_to64();
    }
}

/// Without decimation as many points are kept as there are samples.
pub proof fn lemma_all_kept<P: Orbit>(p: P, g: Shape, n: nat)
    requires
        g.d == 0,
    ensures
        kept(p, g, n).len() == n,
    decreases n,
{
    if n > 0 {
        lemma_all_kept(p, g, (n - 1) as nat);
        lemma_all_accepted(sample_start(p, g, (n - 1) as nat), g, g.t);
    }
}

/// The points of `m` samples, then of `n` more from where those ended, are the points of `m + n`
/// samples: a scan can be cut at any sample.
pub proof fn law_kept_concat<P: Orbit>(p: P, g: Shape, m: nat, n: nat)
    ensures
        kept(p, g, m + n) == kept(p, g, m) + kept(sample_start(p, g, m), g, n),
    decreases n,
{
    let q = sample_start(p, g, m);
    if n == 0 {
        assert(kept(p, g, m) + kept(q, g, 0) =~= kept(p, g, m));
    } else {
        let j = (n - 1) as nat;
        law_kept_concat(p, g, m, j);
        prng::law_advance_adds(p, m * g.t, j * g.t);
        assert(m * g.t + j * g.t == (m + j) * g.t) by (nonlinear_arith);
        assert(sample_start(q, g, j) == sample_start(p, g, m + j));
        assert((m + n - 1) as nat == m + j);
        assert(kept(p, g, m + n) =~= kept(p, g, m) + kept(q, g, n));
    }
}

/// Cutting off low bits, then high ones, is cutting off the high ones first: bits `low..` of the
/// lower `low + width` bits of `x` are the lower `width` of the bits `low..` of `x`.
proof fn lemma_bits_between(x: nat, low: nat, width: nat)
    ensures
        (x % pow2(low + width)) / pow2(low) == (x / pow2(low)) % pow2(width),
        (x % pow2(low + width)) % pow2(low) == x % pow2(low),
{
    let y = pow2(low) as int;
    let z = pow2(width) as int;
    lemma_pow2_pos(low);
    lemma_pow2_pos(width);
    lemma_pow2_adds(low, width);
    lemma_breakdown(x as int, y, z);
    let q = (x as int / y) % z;
    let r = x as int % y;
    lemma_mod_bound(x as int, y);
    lemma_mul_is_commutative(q, y);
    lemma_fundamental_div_mod_converse(x as int % (y * z), y, q, r);
}

/// The bits that are read of an output are its `u` bits from bit 64 − `s` − `u` up: bit `j` of an
/// element is bit 64 − `s` − `u` + `j` of the output.
pub proof fn law_element_reads_bits(x: u64, u: nat, s: nat, j: nat)
    requires
        u + s <= 64,
        j < u,
    ensures
        element(x, u, s) == (x as nat / pow2((64 - s - u) as nat)) % pow2(u),
        (element(x, u, s) / pow2(j)) % 2 == (x as nat / pow2((64 - s - u + j) as nat)) % 2,
{
    let r = (64 - s) as nat;
    let low = (64 - s - u) as nat;
    lemma_pow2_pos(s);
    lemma_pow2_pos(r);
    lemma_pow2_pos(low);
    lemma_pow2_pos(j);
    lemma_pow2_adds(s, r);
    lemma_pow2_adds(s, low);
    lemma_pow2_adds(low, j);
    let y = x as nat % pow2(r);
    lemma_truncate_middle(x as int, pow2(s) as int, pow2(r) as int);
    lemma_mul_is_commutative(x as int, pow2(s) as int);
    assert((x as nat * pow2(s)) % pow2(64) == pow2(s) * y);
    lemma_mul_nonnegative(pow2(s) as int, y as int);
    lemma_div_denominator((pow2(s) * y) as int, pow2(s) as int, pow2(low) as int);
    lemma_mul_is_commutative(pow2(s) as int, y as int);
    lemma_div_by_multiple(y as int, pow2(s) as int);
    assert(element(x, u, s) == y / pow2(low));
    lemma_bits_between(x as nat, low, u);
    let high = x as nat / pow2(low);
    lemma_div_denominator(x as int, pow2(low) as int, pow2(j) as int);
    let k = (u - j - 1) as nat;
    lemma_bits_between(high, j, (k + 1) as nat);
    lemma_bits_between(high / pow2(j), 1, k);
    lemma2_to64();
}

/// A sample is accepted if and only if every one of its elements has its lower `d` bits equal to
/// zero.
pub proof fn law_accepted_iff_low_bits_zero<P: Orbit>(p: P, g: Shape, k: nat)
    requires
        g.d < g.u,
        g.u + g.s <= 64,
    ensures
        accepted(p, g, k) <==> forall|i: nat|
            i < k ==> ((#[trigger] prng::advance(p, i)).output() as nat / pow2(
                (64 - g.s - g.u) as nat,
            )) % pow2(g.d) == 0,
    decreases k,
{
    if k > 0 {
        let j = (k - 1) as nat;
        law_accepted_iff_low_bits_zero(p, g, j);
        let x = prng::advance(p, j).output();
        law_element_reads_bits(x, g.u, g.s, 0);
        lemma_bits_between(x as nat / pow2((64 - g.s - g.u) as nat), g.d, (g.u - g.d) as nat);
    }
}

/// The elements of a sample stand one after the other in its cell index, the first one on top, each
/// without its lower `d` bits; nothing else is in the index.
pub proof fn law_index_holds_elements<P: Orbit>(p: P, g: Shape, k: nat, i: nat)
    requires
        g.d < g.u,
        g.u + g.s <= 64,
        i < k,
    ensures
        ({
            let w = (g.u - g.d) as nat;
            &&& (index(p, g, k) / pow2(((k - 1 - i) * w) as nat)) % pow2(w) == (prng::advance(
                p,
                i,
            ).output() as nat / pow2((64 - g.s - g.u + g.d) as nat)) % pow2(w)
            &&& index(p, g, k) < pow2(k * w)
        }),
    decreases k,
{
    let w = (g.u - g.d) as nat;
    let j = (k - 1) as nat;
    let low = (64 - g.s - g.u) as nat;
    lemma_pow2_pos(w);
    lemma_pow2_pos(g.d);
    lemma_pow2_pos(low);
    let x = prng::advance(p, j).output();
    law_element_reads_bits(x, g.u, g.s, 0);
    lemma_bits_between(x as nat / pow2(low), g.d, w);
    lemma_div_denominator(x as int, pow2(low) as int, pow2(g.d) as int);
    lemma_pow2_adds(low, g.d);
    let e = element(x, g.u, g.s) / pow2(g.d);
    assert(e == (x as nat / pow2((64 - g.s - g.u + g.d) as nat)) % pow2(w));
    lemma_mod_bound((x as nat / pow2(low + g.d)) as int, pow2(w) as int);
    let whole = index(p, g, k);
    let rest = index(p, g, j);
    assert(whole == rest * pow2(w) + e);
    lemma_fundamental_div_mod_converse(whole as int, pow2(w) as int, rest as int, e as int);
    assert(rest < pow2(j * w)) by {
        if j == 0 {
            lemma2_to64();
            assert(0 * w == 0);
        } else {
            law_index_holds_elements(p, g, j, 0);
        }
    }
    assert(j * w + w == k * w) by (nonlinear_arith)
        requires
            k == j + 1,
    ;
    lemma_pow2_adds(j * w, w);
    assert(rest * pow2(w) + e < pow2(j * w) * pow2(w)) by (nonlinear_arith)
        requires
            rest + 1 <= pow2(j * w),
            e < pow2(w),
    ;
    if i == j {
        lemma2_to64();
        assert((k - 1 - i) * w == 0) by (nonlinear_arith)
            requires
                k - 1 - i == 0,
        ;
        lemma_div_basics_2(whole as int);
    } else {
        law_index_holds_elements(p, g, j, i);
        let above = ((j - 1 - i) * w) as nat;
        assert((j - 1 - i) * w >= 0) by (nonlinear_arith)
            requires
                j - 1 - i >= 0,
                w >= 0,
        ;
        assert((k - 1 - i) * w == w + above) by (nonlinear_arith)
            requires
                above == (j - 1 - i) * w,
                k == j + 1,
        ;
        lemma_pow2_pos(above);
        lemma_pow2_adds(w, above);
        lemma_div_denominator(whole as int, pow2(w) as int, pow2(above) as int);
    }
}

/// The points of a scan are the cell indices of its accepted samples, in the order of the scan;
/// sample `i` starts `i` · *t* draws after the scan does.
pub proof fn law_kept_are_the_accepted<P: Orbit>(p: P, g: Shape, n: nat)
    ensures
        kept(p, g, n) == Seq::new(n, |i: int| i as nat).filter(
            |i: nat| accepted(prng::advance(p, i * g.t), g, g.t),
        ).map_values(|i: nat| index(prng::advance(p, i * g.t), g, g.t)),
    decreases n,
{
    let keep = |i: nat| accepted(prng::advance(p, i * g.t), g, g.t);
    let cell = |i: nat| index(prng::advance(p, i * g.t), g, g.t);
    let all = Seq::new(n, |i: int| i as nat);
    if n == 0 {
        reveal(Seq::filter);
        assert(all.filter(keep).map_values(cell) =~= Seq::<nat>::empty());
    } else {
        let m = (n - 1) as nat;
        let init = Seq::new(m, |i: int| i as nat);
        law_kept_are_the_accepted(p, g, m);
        assert(all =~= init.push(m));
        init.lemma_filter_push(m, keep);
        assert(all.filter(keep).map_values(cell) =~= kept(p, g, n));
    }
}

/// A left shift multiplies, modulo 2^64.
proof fn lemma_shl_wraps(x: u64, s: u64)
    requires
        s < 64,
    ensures
        (x << s) as nat == (x as nat * pow2(s as nat)) % pow2(64),
{
    lemma2_to64_rest();
    lemma2_to64();
    lemma_pow2_pos(s as nat);
    if s == 0 {
        assert(x << s == x) by (bit_vector)
            requires
                s == 0,
        ;
        lemma_small_mod(x as nat, pow2(64));
        assert(x as nat * pow2(s as nat) == x) by (nonlinear_arith)
            requires
                pow2(s as nat) == 1,
        ;
    } else {
        let r = (64 - s) as u64;
        lemma_pow2_pos(r as nat);
        lemma_pow2_adds(s as nat, r as nat);
        lemma_u64_pow2_no_overflow(r as nat);
        lemma_u64_shl_is_mul(1, r);
        lemma_u64_low_bits_mask_is_mod(x, r as nat);
        let mask = ((1u64 << r) - 1) as u64;
        let y = x & mask;
        assert(x << s == y << s) by (bit_vector)
            requires
                0 < s < 64,
                r == 64 - s,
                mask == (1u64 << r) - 1,
                y == x & mask,
        ;
        assert(y == x as nat % pow2(r as nat));
        lemma_mod_bound(x as int, pow2(r as nat) as int);
        lemma_truncate_middle(x as int, pow2(s as nat) as int, pow2(r as nat) as int);
        lemma_mul_is_commutative(x as int, pow2(s as nat) as int);
        lemma_mul_is_commutative(y as int, pow2(s as nat) as int);
        lemma_mod_bound((x as nat * pow2(s as nat)) as int, pow2(64) as int);
        lemma_u64_shl_is_mul(y, s);
    }
}

/// The bits that are read of an output; `FULL` where they are all.
fn element_of<const FULL: bool>(x: u64, u: usize, s: usize) -> (e: u64)
    requires
        1 <= u,
        u + s <= 64,
        FULL ==> u == 64 && s == 0,
    ensures
        e == element(x, u as nat, s as nat),
        e < pow2(u as nat),
{
    proof {
        lemma_element_bound(x, u as nat, s as nat);
    }
    if FULL {
        proof {
            lemma2_to64();
            lemma2_to64_rest();
            assert(x as nat * pow2(0) == x) by (nonlinear_arith)
                requires
                    pow2(0) == 1,
            ;
            lemma_small_mod(x as nat, pow2(64));
            lemma_div_basics_2(x as int);
        }
        x
    } else {
        let up: u64 = s as u64;
        let down: u64 = (64 - u) as u64;
        proof {
            lemma_shl_wraps(x, up);
            lemma_u64_shr_is_div(x << up, down);
        }
        (x << up) >> down
    }
}

/// The cell index of the next sample: `t` outputs. `DIM` is `t`, or 0 where `t` is not known at
/// compile time; `FULL` where whole outputs are read.
pub fn cell_index<T: Cell, P: Prng, const DIM: usize, const FULL: bool>(
    prng: &mut P,
    t: usize,
    u: usize,
    s: usize,
) -> (x: T)
    requires
        1 <= t,
        1 <= u,
        u + s <= 64,
        t * u <= T::bits(),
        DIM == 0 || DIM == t,
        FULL ==> u == 64 && s == 0,
    ensures
        ({
            let g = Shape { u: u as nat, t: t as nat, s: s as nat, d: 0 };
            x.val() == index(*old(prng), g, t as nat)
        }),
        *final(prng) == prng::advance(*old(prng), t as nat),
{
    let (x, _) = gather::<T, P, DIM, FULL>(prng, t, u, s, 0);
    x
}

/// The next sample, decimated: the index of its elements without their lower `d` bits, and whether
/// those bits are all zero.
pub fn decimate_candidate<T: Cell, P: Prng, const DIM: usize, const FULL: bool>(
    prng: &mut P,
    t: usize,
    u: usize,
    s: usize,
    d: usize,
) -> (r: (T, bool))
    requires
        1 <= t,
        d < u,
        u + s <= 64,
        t * (u - d) <= T::bits(),
        DIM == 0 || DIM == t,
        FULL ==> u == 64 && s == 0,
    ensures
        ({
            let g = Shape { u: u as nat, t: t as nat, s: s as nat, d: d as nat };
            &&& r.0.val() == index(*old(prng), g, t as nat)
            &&& r.1 == accepted(*old(prng), g, t as nat)
        }),
        *final(prng) == prng::advance(*old(prng), t as nat),
{
    gather::<T, P, DIM, FULL>(prng, t, u, s, d)
}

/// The index of the next sample, decimated, or `None` where the sample is rejected.
pub fn decimate_once<T: Cell, P: Prng, const DIM: usize, const FULL: bool>(
    prng: &mut P,
    t: usize,
    u: usize,
    s: usize,
    d: usize,
) -> (r: Option<T>)
    requires
        1 <= t,
        d < u,
        u + s <= 64,
        t * (u - d) <= T::bits(),
        DIM == 0 || DIM == t,
        FULL ==> u == 64 && s == 0,
    ensures
        ({
            let g = Shape { u: u as nat, t: t as nat, s: s as nat, d: d as nat };
            &&& r is Some <==> accepted(*old(prng), g, t as nat)
            &&& r is Some ==> r->0.val() == index(*old(prng), g, t as nat)
        }),
        *final(prng) == prng::advance(*old(prng), t as nat),
{
    let (x, keep) = gather::<T, P, DIM, FULL>(prng, t, u, s, d);
    if keep {
        Some(x)
    } else {
        None
    }
}

/// Draws the `t` outputs of one sample and puts their elements together.
fn gather<T: Cell, P: Prng, const DIM: usize, const FULL: bool>(
    prng: &mut P,
    t: usize,
    u: usize,
    s: usize,
    d: usize,
) -> (r: (T, bool))
    requires
        1 <= t,
        d < u,
        u + s <= 64,
        t * (u - d) <= T::bits(),
        DIM == 0 || DIM == t,
        FULL ==> u == 64 && s == 0,
    ensures
        ({
            let g = Shape { u: u as nat, t: t as nat, s: s as nat, d: d as nat };
            &&& r.0.val() == index(*old(prng), g, t as nat)
            &&& r.1 == accepted(*old(prng), g, t as nat)
        }),
        *final(prng) == prng::advance(*old(prng), t as nat),
{
    let ghost p = *prng;
    let ghost g = Shape { u: u as nat, t: t as nat, s: s as nat, d: d as nat };
    let n: usize = if DIM == 0 {
        t
    } else {
        DIM
    };
    let width: usize = u - d;
    let low: u64 = d as u64;
    let mut x: T = T::zero();
    let mut keep = true;
    let mut k: usize = 0;
    while k < n
        invariant
            k <= n,
            n == t,
            g == (Shape { u: u as nat, t: t as nat, s: s as nat, d: d as nat }),
            g.valid(),
            width == u - d,
            low == d,
            t * (u - d) <= T::bits(),
            FULL ==> u == 64 && s == 0,
            x.val() == index(p, g, k as nat),
            keep == accepted(p, g, k as nat),
            *prng == prng::advance(p, k as nat),
        decreases n - k,
    {
        let out: u64 = prng.next_u64();
        let e: u64 = element_of::<FULL>(out, u, s);
        proof {
            lemma_u64_shr_is_div(e, low);
            lemma_compact_bound(out, g);
            lemma_index_bound(p, g, (k + 1) as nat);
            let a = (k + 1) * g.width();
            let b = t * g.width();
            assert(a <= b) by (nonlinear_arith)
                requires
                    a == (k + 1) * g.width(),
                    b == t * g.width(),
                    k + 1 <= t,
            ;
            if a < T::bits() {
                lemma_pow2_strictly_increases(a as nat, T::bits());
            }
            lemma_pow2_pos(d as nat);
            lemma_fundamental_div_mod(e as int, pow2(d as nat) as int);
            lemma_u64_shl_back(e, low);
        }
        let high: u64 = e >> low;
        keep = keep && (high << low) == e;
        x = x.append_bits(high, width);
        k += 1;
    }
    (x, keep)
}

/// Shifting down and up again is the identity where the bits shifted out are zero, and only there.
proof fn lemma_u64_shl_back(e: u64, low: u64)
    requires
        low < 64,
    ensures
        ((e >> low) << low) == e <==> e as nat % pow2(low as nat) == 0,
{
    lemma_u64_shr_is_div(e, low);
    lemma_pow2_pos(low as nat);
    let q = e >> low;
    lemma_fundamental_div_mod(e as int, pow2(low as nat) as int);
    lemma_mod_bound(e as int, pow2(low as nat) as int);
    lemma_mul_is_commutative(q as int, pow2(low as nat) as int);
    assert(q * pow2(low as nat) <= e);
    lemma_u64_shl_is_mul(q, low);
}

/// The cell index that is drawn holds the `u` bits from bit 64 − `s` − `u` up of each of the next
/// `t` outputs, those of the first output on top, and the generator has made `t` draws.
pub proof fn law_cell_index<T: Cell, P: Prng, const DIM: usize, const FULL: bool>(
    prng: &mut P,
    t: usize,
    u: usize,
    s: usize,
    x: T,
    i: nat,
)
    requires
        1 <= u,
        u + s <= 64,
        i < t,
        call_ensures(cell_index::<T, P, DIM, FULL>, (prng, t, u, s), x),
    ensures
        (x.val() / pow2(((t - 1 - i) * u) as nat)) % pow2(u as nat) == (prng::advance(
            *old(prng),
            i,
        ).output() as nat / pow2((64 - s - u) as nat)) % pow2(u as nat),
        x.val() < pow2((t * u) as nat),
        *final(prng) == prng::advance(*old(prng), t as nat),
{
    let g = Shape { u: u as nat, t: t as nat, s: s as nat, d: 0 };
    law_index_holds_elements(*prng, g, t as nat, i);
}

/// A sample that is drawn with decimation is kept if and only if the lower `d` of the `u` bits of
/// each of the next `t` outputs are zero; what is kept holds the other bits, those of the first
/// output on top. Kept or not, the generator has made `t` draws.
pub proof fn law_decimate_once<T: Cell, P: Prng, const DIM: usize, const FULL: bool>(
    prng: &mut P,
    t: usize,
    u: usize,
    s: usize,
    d: usize,
    r: Option<T>,
    i: nat,
)
    requires
        d < u,
        u + s <= 64,
        i < t,
        call_ensures(decimate_once::<T, P, DIM, FULL>, (prng, t, u, s, d), r),
    ensures
        r is Some <==> forall|k: nat|
            k < t ==> ((#[trigger] prng::advance(*old(prng), k)).output() as nat / pow2(
                (64 - s - u) as nat,
            )) % pow2(d as nat) == 0,
        r matches Some(x) ==> {
            let w = (u - d) as nat;
            &&& (x.val() / pow2(((t - 1 - i) * w) as nat)) % pow2(w) == (prng::advance(
                *old(prng),
                i,
            ).output() as nat / pow2((64 - s - u + d) as nat)) % pow2(w)
            &&& x.val() < pow2(t as nat * w)
        },
        *final(prng) == prng::advance(*old(prng), t as nat),
{
    let g = Shape { u: u as nat, t: t as nat, s: s as nat, d: d as nat };
    law_index_holds_elements(*prng, g, t as nat, i);
    law_accepted_iff_low_bits_zero(*prng, g, t as nat);
}

/// [`decimate_candidate`] draws the sample that [`decimate_once`] draws, and says whether that
/// keeps it.
pub proof fn law_decimate_candidate<T: Cell, P: Prng, const DIM: usize, const FULL: bool>(
    prng: &mut P,
    t: usize,
    u: usize,
    s: usize,
    d: usize,
    r: (T, bool),
    i: nat,
)
    requires
        d < u,
        u + s <= 64,
        i < t,
        call_ensures(decimate_candidate::<T, P, DIM, FULL>, (prng, t, u, s, d), r),
    ensures
        r.1 <==> forall|k: nat|
            k < t ==> ((#[trigger] prng::advance(*old(prng), k)).output() as nat / pow2(
                (64 - s - u) as nat,
            )) % pow2(d as nat) == 0,
        ({
            let w = (u - d) as nat;
            &&& (r.0.val() / pow2(((t - 1 - i) * w) as nat)) % pow2(w) == (prng::advance(
                *old(prng),
                i,
            ).output() as nat / pow2((64 - s - u + d) as nat)) % pow2(w)
            &&& r.0.val() < pow2(t as nat * w)
        }),
        *final(prng) == prng::advance(*old(prng), t as nat),
{
    let g = Shape { u: u as nat, t: t as nat, s: s as nat, d: d as nat };
    law_index_holds_elements(*prng, g, t as nat, i);
    law_accepted_iff_low_bits_zero(*prng, g, t as nat);
}

} // verus!
