//! The generators under test.
//!
//! To add a generator, implement [`Prng`] for it. If it can jump along its orbit, `try_skip`
//! does so.

use vstd::arithmetic::div_mod::*;
use vstd::arithmetic::mul::*;
use vstd::prelude::*;

verus! {

/// The mathematical model of a generator: its states, and what each draw does to them.
pub trait Orbit: Sized {
    /// The state that a seed gives.
    spec fn seeded(seed: u64) -> Self;

    /// The state after one draw.
    spec fn step(self) -> Self;

    /// What the next draw returns.
    spec fn output(self) -> u64;

    /// Whether the generator can jump along its orbit.
    spec fn can_skip() -> bool;
}

/// The state after `n` draws.
pub open spec fn advance<P: Orbit>(p: P, n: nat) -> P
    decreases n,
{
    if n == 0 {
        p
    } else {
        advance(p, (n - 1) as nat).step()
    }
}

/// A pseudorandom number generator with 64-bit output.
pub trait Prng: Orbit + Copy + Send + Sync {
    /// A generator that starts from `seed`.
    fn new(seed: u64) -> (prng: Self)
        ensures
            prng == Self::seeded(seed),
    ;

    /// The next output.
    fn next_u64(&mut self) -> (x: u64)
        ensures
            x == old(self).output(),
            *final(self) == old(self).step(),
    ;

    /// Jumps over the next `n` outputs, or leaves the generator as it is and returns `Err` where
    /// it has no way to jump.
    fn try_skip(&mut self, n: u64) -> (r: Result<(), ()>)
        ensures
            r is Ok <==> Self::can_skip(),
            r is Ok ==> *final(self) == advance(*old(self), n as nat),
            r is Err ==> *final(self) == *old(self),
    ;
}

/// Drawing `m` times, then `n` times, is drawing `m + n` times.
pub proof fn law_advance_adds<P: Orbit>(p: P, m: nat, n: nat)
    ensures
        advance(advance(p, m), n) == advance(p, m + n),
    decreases n,
{
    if n > 0 {
        law_advance_adds(p, m, (n - 1) as nat);
    }
}

/// No draw leaves the generator as it is, and each further draw is one step more.
pub proof fn law_draws_are_steps<P: Orbit>(p: P, n: nat)
    ensures
        advance(p, 0) == p,
        advance(p, n + 1) == advance(p, n).step(),
        advance(p, n + 1) == advance(p.step(), n),
{
    law_advance_adds(p, 1, n);
    assert(advance(p, 1) == p.step()) by {
        assert(advance(p, 0) == p);
    }
}

/// 2^64.
pub open spec fn two_64() -> int {
    0x1_0000_0000_0000_0000
}

/// The state of a counter after `n` increments.
pub open spec fn counted(x: u64, gamma: u64, n: nat) -> u64 {
    ((x + n * gamma) % two_64()) as u64
}

/// One more increment.
proof fn lemma_counted(x: u64, gamma: u64, n: nat)
    ensures
        counted(x, gamma, n + 1) == counted(x, gamma, n).wrapping_add(gamma),
        counted(x, gamma, 0) == x,
{
    let a = x + n * gamma;
    lemma_mul_is_distributive_add_other_way(gamma as int, n as int, 1);
    assert(x + (n + 1) * gamma == a + gamma);
    lemma_add_mod_noop(a, gamma as int, two_64());
    lemma_small_mod(gamma as nat, two_64() as nat);
    let c = a % two_64();
    lemma_mod_bound(a, two_64());
    assert((c + gamma) % two_64() == (a + gamma) % two_64());
    if c + gamma < two_64() {
        lemma_small_mod((c + gamma) as nat, two_64() as nat);
    } else {
        lemma_small_mod((c + gamma - two_64()) as nat, two_64() as nat);
        lemma_mod_add_multiples_vanish(c + gamma - two_64(), two_64());
    }
    lemma_small_mod(x as nat, two_64() as nat);
    lemma_mul_by_zero_is_zero(gamma as int);
}

/// A jump of a counter by `n`.
fn skip_counter(x: u64, gamma: u64, n: u64) -> (r: u64)
    ensures
        r == counted(x, gamma, n as nat),
{
    proof {
        let p = n * gamma;
        lemma_mul_nonnegative(n as int, gamma as int);
        lemma_mul_is_commutative(n as int, gamma as int);
        let c = p % two_64();
        lemma_mod_bound(p, two_64());
        lemma_add_mod_noop(x as int, p, two_64());
        lemma_small_mod(x as nat, two_64() as nat);
        if x + c < two_64() {
            lemma_small_mod((x + c) as nat, two_64() as nat);
        } else {
            lemma_small_mod((x + c - two_64()) as nat, two_64() as nat);
            lemma_mod_add_multiples_vanish(x + c - two_64(), two_64());
        }
    }
    x.wrapping_add(n.wrapping_mul(gamma))
}

/// A counter: adds one and returns the sum. A generator that fails every test.
#[derive(Clone, Copy)]
pub struct Incr {
    pub x: u64,
}

proof fn lemma_incr_advance(p: Incr, n: nat)
    ensures
        advance(p, n) == (Incr { x: counted(p.x, 1, n) }),
    decreases n,
{
    if n > 0 {
        lemma_incr_advance(p, (n - 1) as nat);
        lemma_counted(p.x, 1, (n - 1) as nat);
    } else {
        lemma_counted(p.x, 1, 0);
    }
}

impl Orbit for Incr {
    open spec fn seeded(seed: u64) -> Self {
        Incr { x: seed }
    }

    open spec fn step(self) -> Self {
        Incr { x: self.x.wrapping_add(1) }
    }

    open spec fn output(self) -> u64 {
        self.x.wrapping_add(1)
    }

    open spec fn can_skip() -> bool {
        true
    }
}

impl Prng for Incr {
    fn new(seed: u64) -> (prng: Self) {
        Incr { x: seed }
    }

    fn next_u64(&mut self) -> (x: u64) {
        self.x = self.x.wrapping_add(1);
        self.x
    }

    fn try_skip(&mut self, n: u64) -> (r: Result<(), ()>) {
        proof {
            lemma_incr_advance(*self, n as nat);
        }
        self.x = skip_counter(self.x, 1, n);
        Ok(())
    }
}

/// The increment of [`SplitMix`].
pub const SPLITMIX_GAMMA: u64 = 0x9e37_79b9_7f4a_7c15;

/// The finalizer of [`SplitMix`].
pub open spec fn splitmix_mix(x: u64) -> u64 {
    let a = (x ^ (x >> 30)).wrapping_mul(0xbf58_476d_1ce4_e5b9);
    let b = (a ^ (a >> 27)).wrapping_mul(0x94d0_49bb_1331_11eb);
    b ^ (b >> 31)
}

/// SplitMix: a counter with a large increment and a mixing function.
#[derive(Clone, Copy)]
pub struct SplitMix {
    pub x: u64,
}

proof fn lemma_splitmix_advance(p: SplitMix, n: nat)
    ensures
        advance(p, n) == (SplitMix { x: counted(p.x, SPLITMIX_GAMMA, n) }),
    decreases n,
{
    if n > 0 {
        lemma_splitmix_advance(p, (n - 1) as nat);
        lemma_counted(p.x, SPLITMIX_GAMMA, (n - 1) as nat);
    } else {
        lemma_counted(p.x, SPLITMIX_GAMMA, 0);
    }
}

impl Orbit for SplitMix {
    open spec fn seeded(seed: u64) -> Self {
        SplitMix { x: seed }
    }

    open spec fn step(self) -> Self {
        SplitMix { x: self.x.wrapping_add(SPLITMIX_GAMMA) }
    }

    open spec fn output(self) -> u64 {
        splitmix_mix(self.x.wrapping_add(SPLITMIX_GAMMA))
    }

    open spec fn can_skip() -> bool {
        true
    }
}

impl Prng for SplitMix {
    fn new(seed: u64) -> (prng: Self) {
        SplitMix { x: seed }
    }

    fn next_u64(&mut self) -> (x: u64) {
        let x: u64 = self.x.wrapping_add(SPLITMIX_GAMMA);
        self.x = x;
        let a: u64 = (x ^ (x >> 30)).wrapping_mul(0xbf58_476d_1ce4_e5b9);
        let b: u64 = (a ^ (a >> 27)).wrapping_mul(0x94d0_49bb_1331_11eb);
        b ^ (b >> 31)
    }

    fn try_skip(&mut self, n: u64) -> (r: Result<(), ()>) {
        proof {
            lemma_splitmix_advance(*self, n as nat);
        }
        self.x = skip_counter(self.x, SPLITMIX_GAMMA, n);
        Ok(())
    }
}

/// The increment of [`WyRand`].
pub const WYRAND_GAMMA: u64 = 0x2d35_8dcc_aa6c_78a5;

/// The mask of [`WyRand`].
pub const WYRAND_MASK: u64 = 0x8bb8_4b93_962e_acc9;

/// The finalizer of [`WyRand`]: the two halves of a product, xored.
pub open spec fn wyrand_mix(x: u64) -> u64 {
    let product = ((x as u128) * ((x ^ WYRAND_MASK) as u128)) as u128;
    ((product >> 64) as u64) ^ (product as u64)
}

/// WyRand: a counter with a hash.
#[derive(Clone, Copy)]
pub struct WyRand {
    pub x: u64,
}

proof fn lemma_wyrand_advance(p: WyRand, n: nat)
    ensures
        advance(p, n) == (WyRand { x: counted(p.x, WYRAND_GAMMA, n) }),
    decreases n,
{
    if n > 0 {
        lemma_wyrand_advance(p, (n - 1) as nat);
        lemma_counted(p.x, WYRAND_GAMMA, (n - 1) as nat);
    } else {
        lemma_counted(p.x, WYRAND_GAMMA, 0);
    }
}

impl Orbit for WyRand {
    open spec fn seeded(seed: u64) -> Self {
        WyRand { x: seed }
    }

    open spec fn step(self) -> Self {
        WyRand { x: self.x.wrapping_add(WYRAND_GAMMA) }
    }

    open spec fn output(self) -> u64 {
        wyrand_mix(self.x.wrapping_add(WYRAND_GAMMA))
    }

    open spec fn can_skip() -> bool {
        true
    }
}

impl Prng for WyRand {
    fn new(seed: u64) -> (prng: Self) {
        WyRand { x: seed }
    }

    fn next_u64(&mut self) -> (x: u64) {
        let x: u64 = self.x.wrapping_add(WYRAND_GAMMA);
        self.x = x;
        let y: u64 = x ^ WYRAND_MASK;
        assert((x as u128) * (y as u128) <= u128::MAX) by (nonlinear_arith)
            requires
                x <= u64::MAX,
                y <= u64::MAX,
        ;
        let product: u128 = (x as u128) * (y as u128);
        ((product >> 64) as u64) ^ (product as u64)
    }

    fn try_skip(&mut self, n: u64) -> (r: Result<(), ()>) {
        proof {
            lemma_wyrand_advance(*self, n as nat);
        }
        self.x = skip_counter(self.x, WYRAND_GAMMA, n);
        Ok(())
    }
}

/// Output `n` of the counter is the seed plus `n` + 1.
pub proof fn law_incr_counts(seed: u64, n: nat)
    ensures
        advance(Incr::seeded(seed), n).output() as int == (seed + n + 1)
            % 0x1_0000_0000_0000_0000,
{
    lemma_incr_advance(Incr::seeded(seed), n);
    lemma_counted(seed, 1, n);
    lemma_mod_bound(seed + (n + 1) * 1, two_64());
}

/// Output `n` of SplitMix is its finalizer applied to the seed plus `n` + 1 times the increment:
/// two rounds of a shift, an exclusive or and a multiplication modulo 2^64, and a last shift.
pub proof fn law_splitmix_outputs(seed: u64, n: nat, x: u64, a: u64, b: u64)
    requires
        x as int == (seed + (n + 1) * 0x9e37_79b9_7f4a_7c15) % 0x1_0000_0000_0000_0000,
        a as int == ((x ^ (x >> 30)) * 0xbf58_476d_1ce4_e5b9) % 0x1_0000_0000_0000_0000,
        b as int == ((a ^ (a >> 27)) * 0x94d0_49bb_1331_11eb) % 0x1_0000_0000_0000_0000,
    ensures
        advance(SplitMix::seeded(seed), n).output() == b ^ (b >> 31),
{
    lemma_splitmix_advance(SplitMix::seeded(seed), n);
    lemma_counted(seed, SPLITMIX_GAMMA, n);
}

/// Output `n` of WyRand is the two halves of the product of two numbers, xored: of the seed plus
/// `n` + 1 times the increment, and of that with a mask.
pub proof fn law_wyrand_outputs(seed: u64, n: nat, x: u64, high: u64, low: u64)
    requires
        x as int == (seed + (n + 1) * 0x2d35_8dcc_aa6c_78a5) % 0x1_0000_0000_0000_0000,
        x * (x ^ 0x8bb8_4b93_962e_acc9) == high * 0x1_0000_0000_0000_0000 + low,
    ensures
        advance(WyRand::seeded(seed), n).output() == high ^ low,
{
    lemma_wyrand_advance(WyRand::seeded(seed), n);
    lemma_counted(seed, WYRAND_GAMMA, n);
    let y = x ^ WYRAND_MASK;
    assert(0 <= x * y <= u128::MAX) by (nonlinear_arith)
        requires
            0 <= x <= u64::MAX,
            0 <= y <= u64::MAX,
    ;
    let product = (x * y) as u128;
    let h = high as u128;
    let l = low as u128;
    assert(product == h * 0x1_0000_0000_0000_0000 + l);
    assert((product >> 64) as u64 == high && product as u64 == low) by (bit_vector)
        requires
            product == h * 0x1_0000_0000_0000_0000 + l,
            h == high as u128,
            l == low as u128,
    ;
}

/// The generators can jump along their orbits.
pub proof fn law_generators_jump()
    ensures
        Incr::can_skip(),
        SplitMix::can_skip(),
        WyRand::can_skip(),
{
}

} // verus!
