//! Storage types of cell indices.

use crate::counting;
use crate::outside;
use crate::sorting;
use vstd::arithmetic::div_mod::*;
use vstd::arithmetic::power2::*;
use vstd::bits::*;
use vstd::laws_cmp::obeys_cmp;
use vstd::prelude::*;

verus! {

broadcast use {vstd::multiset::group_multiset_axioms, vstd::seq_lib::group_to_multiset_ensures};

/// The mathematical model of a storage type: the number that each of its values stands for.
pub trait Value: Sized {
    /// The number.
    spec fn val(self) -> nat;

    /// The width of the type.
    spec fn bits() -> nat;

    /// The widths that occur.
    proof fn lemma_bits()
        ensures
            32 <= Self::bits() <= 128,
    ;

    /// The numbers are those that fit the width.
    proof fn lemma_val(self)
        ensures
            self.val() < pow2(Self::bits()),
    ;
}

/// The numbers that the elements of `s` stand for.
pub open spec fn vals<T: Value>(s: Seq<T>) -> Seq<nat> {
    s.map_values(|x: T| x.val())
}

/// Each element stands for its own number.
pub proof fn law_vals_one_by_one<T: Value>(s: Seq<T>, i: int)
    requires
        0 <= i < s.len(),
    ensures
        vals(s).len() == s.len(),
        vals(s)[i] == s[i].val(),
{
}

/// A type in which cell indices and spacings are stored.
pub trait Cell: Value + Copy + Send + Sync {
    /// Zero.
    fn zero() -> (r: Self)
        ensures
            r.val() == 0,
    ;

    /// The value of a number that fits.
    fn from_u64(x: u64) -> (r: Self)
        requires
            x < pow2(Self::bits()),
        ensures
            r.val() == x,
    ;

    /// The value of a number that fits.
    fn from_u128(x: u128) -> (r: Self)
        requires
            x < pow2(Self::bits()),
        ensures
            r.val() == x,
    ;

    /// The number.
    fn to_u128(self) -> (r: u128)
        ensures
            r == self.val(),
    ;

    /// All bits but the low `n`, shifted down.
    fn high_bits(self, n: usize) -> (r: Self)
        requires
            n < Self::bits(),
        ensures
            r.val() == self.val() / pow2(n as nat),
    ;

    /// The low `n` bits.
    fn low_bits(self, n: usize) -> (r: Self)
        requires
            n <= Self::bits(),
        ensures
            r.val() == self.val() % pow2(n as nat),
    ;

    /// Shifts the bits up by `width` and puts `elem` below them.
    fn append_bits(self, elem: u64, width: usize) -> (r: Self)
        requires
            width <= 64,
            elem < pow2(width as nat),
            self.val() * pow2(width as nat) + elem < pow2(Self::bits()),
        ensures
            r.val() == self.val() * pow2(width as nat) + elem,
    ;

    /// The sum, which must fit.
    fn plus(self, other: Self) -> (r: Self)
        requires
            self.val() + other.val() < pow2(Self::bits()),
        ensures
            r.val() == self.val() + other.val(),
    ;

    /// The difference from a smaller value.
    fn minus(self, other: Self) -> (r: Self)
        requires
            other.val() <= self.val(),
        ensures
            r.val() == self.val() - other.val(),
    ;

    /// Whether the numbers are equal.
    fn equals(self, other: Self) -> (r: bool)
        ensures
            r == (self.val() == other.val()),
    ;

    /// Whether this number is at most the other one.
    fn at_most(self, other: Self) -> (r: bool)
        ensures
            r == (self.val() <= other.val()),
    ;

    /// Sorts with all the threads of the pool.
    fn sort_mt(v: &mut [Self])
        ensures
            final(v)@.len() == old(v)@.len(),
            vals(final(v)@).to_multiset() == vals(old(v)@).to_multiset(),
            counting::ascending(vals(final(v)@)),
    ;

    /// Sorts in place, on this thread.
    fn sort_st(v: &mut [Self])
        ensures
            final(v)@.len() == old(v)@.len(),
            vals(final(v)@).to_multiset() == vals(old(v)@).to_multiset(),
            counting::ascending(vals(final(v)@)),
    ;
}

/// Permuted values stand for permuted numbers.
pub proof fn lemma_vals_perm<T: Value>(a: Seq<T>, b: Seq<T>)
    requires
        a.to_multiset() == b.to_multiset(),
    ensures
        vals(a).to_multiset() == vals(b).to_multiset(),
        a.len() == b.len(),
    decreases a.len(),
{
    assert(a.len() == a.to_multiset().len());
    assert(b.len() == b.to_multiset().len());
    if a.len() > 0 {
        let x = a.last();
        let a1 = a.drop_last();
        assert(a =~= a1.push(x));
        assert(b.to_multiset().count(x) > 0);
        let k = choose|k: int| 0 <= k < b.len() && b[k] == x;
        let b1 = b.remove(k);
        vstd::seq_lib::to_multiset_remove(b, k);
        assert(a1.to_multiset() =~= a.to_multiset().remove(x));
        assert(b1.to_multiset() =~= a1.to_multiset());
        lemma_vals_perm(a1, b1);
        assert(vals(a) =~= vals(a1).push(x.val()));
        assert(vals(b1) =~= vals(b).remove(k));
        vstd::seq_lib::to_multiset_remove(vals(b), k);
        assert(vals(b)[k] == x.val());
        assert(vals(b).contains(vals(b)[k]));
        assert(vals(b).to_multiset() =~= vals(b1).to_multiset().insert(x.val()));
    } else {
        assert(vals(a) =~= vals(b));
    }
}

impl Value for u32 {
    open spec fn val(self) -> nat {
        self as nat
    }

    open spec fn bits() -> nat {
        32
    }

    proof fn lemma_bits() {
    }

    proof fn lemma_val(self) {
        lemma2_to64();
    }
}

impl Cell for u32 {
    fn zero() -> (r: Self) {
        0
    }

    fn from_u64(x: u64) -> (r: Self) {
        proof {
            lemma2_to64();
        }
        x as u32
    }

    fn from_u128(x: u128) -> (r: Self) {
        proof {
            lemma2_to64();
        }
        x as u32
    }

    fn to_u128(self) -> (r: u128) {
        self as u128
    }

    fn high_bits(self, n: usize) -> (r: Self) {
        let k: u32 = n as u32;
        proof {
            lemma_u32_shr_is_div(self, k);
        }
        self >> k
    }

    fn low_bits(self, n: usize) -> (r: Self) {
        proof {
            lemma2_to64();
        }
        if n >= 32 {
            proof {
                lemma_small_mod(self as nat, pow2(32));
            }
            self
        } else {
            let k: u32 = n as u32;
            proof {
                lemma_pow2_pos(n as nat);
                lemma_pow2_strictly_increases(n as nat, 32);
                lemma_u32_shl_is_mul(1, k);
                lemma_u32_low_bits_mask_is_mod(self, n as nat);
            }
            let mask: u32 = (1u32 << k) - 1;
            self & mask
        }
    }

    fn append_bits(self, elem: u64, width: usize) -> (r: Self) {
        proof {
            lemma2_to64();
            lemma_pow2_pos(width as nat);
            if self > 0 && width >= 32 {
                if width > 32 {
                    lemma_pow2_strictly_increases(32, width as nat);
                }
                assert(self as nat * pow2(width as nat) >= pow2(width as nat)) by (nonlinear_arith)
                    requires
                        self > 0,
                ;
            }
        }
        if width >= 32 {
            assert(self == 0);
            elem as u32
        } else {
            let k: u32 = width as u32;
            proof {
                lemma_pow2_strictly_increases(width as nat, 32);
                lemma_u32_shl_is_mul(self, k);
            }
            (self << k) + elem as u32
        }
    }

    fn plus(self, other: Self) -> (r: Self) {
        proof {
            lemma2_to64();
        }
        self + other
    }

    fn minus(self, other: Self) -> (r: Self) {
        self - other
    }

    fn equals(self, other: Self) -> (r: bool) {
        self == other
    }

    fn at_most(self, other: Self) -> (r: bool) {
        self <= other
    }

    fn sort_mt(v: &mut [Self]) {
        proof {
            broadcast use vstd::laws_cmp::group_laws_cmp;
            assert(obeys_cmp::<u32>());
        }
        outside::par_sort_unstable(v);
        proof {
            lemma_vals_perm(v@, old(v)@);
        }
    }

    fn sort_st(v: &mut [Self]) {
        proof {
            broadcast use vstd::laws_cmp::group_laws_cmp;
            assert(obeys_cmp::<u32>());
        }
        outside::sort_unstable(v);
        proof {
            lemma_vals_perm(v@, old(v)@);
        }
    }
}

impl Value for u64 {
    open spec fn val(self) -> nat {
        self as nat
    }

    open spec fn bits() -> nat {
        64
    }

    proof fn lemma_bits() {
    }

    proof fn lemma_val(self) {
        lemma2_to64_rest();
    }
}

impl Cell for u64 {
    fn zero() -> (r: Self) {
        0
    }

    fn from_u64(x: u64) -> (r: Self) {
        proof {
            lemma2_to64_rest();
        }
        x as u64
    }

    fn from_u128(x: u128) -> (r: Self) {
        proof {
            lemma2_to64_rest();
        }
        x as u64
    }

    fn to_u128(self) -> (r: u128) {
        self as u128
    }

    fn high_bits(self, n: usize) -> (r: Self) {
        let k: u64 = n as u64;
        proof {
            lemma_u64_shr_is_div(self, k);
        }
        self >> k
    }

    fn low_bits(self, n: usize) -> (r: Self) {
        proof {
            lemma2_to64_rest();
        }
        if n >= 64 {
            proof {
                lemma_small_mod(self as nat, pow2(64));
            }
            self
        } else {
            let k: u64 = n as u64;
            proof {
                lemma_pow2_pos(n as nat);
                lemma_pow2_strictly_increases(n as nat, 64);
                lemma_u64_shl_is_mul(1, k);
                lemma_u64_low_bits_mask_is_mod(self, n as nat);
            }
            let mask: u64 = (1u64 << k) - 1;
            self & mask
        }
    }

    fn append_bits(self, elem: u64, width: usize) -> (r: Self) {
        proof {
            lemma2_to64_rest();
            lemma_pow2_pos(width as nat);
            if self > 0 && width >= 64 {
                if width > 64 {
                    lemma_pow2_strictly_increases(64, width as nat);
                }
                assert(self as nat * pow2(width as nat) >= pow2(width as nat)) by (nonlinear_arith)
                    requires
                        self > 0,
                ;
            }
        }
        if width >= 64 {
            assert(self == 0);
            elem as u64
        } else {
            let k: u64 = width as u64;
            proof {
                lemma_pow2_strictly_increases(width as nat, 64);
                lemma_u64_shl_is_mul(self, k);
            }
            (self << k) + elem as u64
        }
    }

    fn plus(self, other: Self) -> (r: Self) {
        proof {
            lemma2_to64_rest();
        }
        self + other
    }

    fn minus(self, other: Self) -> (r: Self) {
        self - other
    }

    fn equals(self, other: Self) -> (r: bool) {
        self == other
    }

    fn at_most(self, other: Self) -> (r: bool) {
        self <= other
    }

    fn sort_mt(v: &mut [Self]) {
        let len: usize = v.len();
        if len as u64 > sorting::MAX_SORT_LEN {
            sort_any_number(v);
        } else {
            let mut scratch: Vec<u64> = vec![0u64; len];
            sorting::sort_uniform_u64s(v, 64, scratch.as_mut_slice());
            proof {
                sorting::lemma_all_agree_above_64(old(v)@);
            }
        }
        proof {
            lemma_vals_perm(v@, old(v)@);
        }
    }

    fn sort_st(v: &mut [Self]) {
        proof {
            broadcast use vstd::laws_cmp::group_laws_cmp;
            assert(obeys_cmp::<u64>());
        }
        outside::sort_unstable(v);
        proof {
            lemma_vals_perm(v@, old(v)@);
        }
    }
}

impl Value for u128 {
    open spec fn val(self) -> nat {
        self as nat
    }

    open spec fn bits() -> nat {
        128
    }

    proof fn lemma_bits() {
    }

    proof fn lemma_val(self) {
        lemma_pow2_128();
    }
}

impl Cell for u128 {
    fn zero() -> (r: Self) {
        0
    }

    fn from_u64(x: u64) -> (r: Self) {
        proof {
            lemma_pow2_128();
        }
        x as u128
    }

    fn from_u128(x: u128) -> (r: Self) {
        proof {
            lemma_pow2_128();
        }
        x as u128
    }

    fn to_u128(self) -> (r: u128) {
        self as u128
    }

    fn high_bits(self, n: usize) -> (r: Self) {
        let k: u128 = n as u128;
        proof {
            lemma_u128_shr_is_div(self, k);
        }
        self >> k
    }

    fn low_bits(self, n: usize) -> (r: Self) {
        proof {
            lemma_pow2_128();
        }
        if n >= 128 {
            proof {
                lemma_small_mod(self as nat, pow2(128));
            }
            self
        } else {
            let k: u128 = n as u128;
            proof {
                lemma_pow2_pos(n as nat);
                lemma_pow2_strictly_increases(n as nat, 128);
                lemma_u128_shl_is_mul(1, k);
            }
            self % (1u128 << k)
        }
    }

    fn append_bits(self, elem: u64, width: usize) -> (r: Self) {
        proof {
            lemma_pow2_128();
            lemma_pow2_pos(width as nat);
            if self > 0 && width >= 128 {
                if width > 128 {
                    lemma_pow2_strictly_increases(128, width as nat);
                }
                assert(self as nat * pow2(width as nat) >= pow2(width as nat)) by (nonlinear_arith)
                    requires
                        self > 0,
                ;
            }
        }
        if width >= 128 {
            assert(self == 0);
            elem as u128
        } else {
            let k: u128 = width as u128;
            proof {
                lemma_pow2_strictly_increases(width as nat, 128);
                lemma_u128_shl_is_mul(self, k);
            }
            (self << k) + elem as u128
        }
    }

    fn plus(self, other: Self) -> (r: Self) {
        proof {
            lemma_pow2_128();
        }
        self + other
    }

    fn minus(self, other: Self) -> (r: Self) {
        self - other
    }

    fn equals(self, other: Self) -> (r: bool) {
        self == other
    }

    fn at_most(self, other: Self) -> (r: bool) {
        self <= other
    }

    fn sort_mt(v: &mut [Self]) {
        proof {
            broadcast use vstd::laws_cmp::group_laws_cmp;
            assert(obeys_cmp::<u128>());
        }
        outside::par_sort_unstable(v);
        proof {
            lemma_vals_perm(v@, old(v)@);
        }
    }

    fn sort_st(v: &mut [Self]) {
        proof {
            broadcast use vstd::laws_cmp::group_laws_cmp;
            assert(obeys_cmp::<u128>());
        }
        outside::sort_unstable(v);
        proof {
            lemma_vals_perm(v@, old(v)@);
        }
    }
}

/// Sorts however many words there are.
fn sort_any_number(v: &mut [u64])
    ensures
        final(v)@.to_multiset() == old(v)@.to_multiset(),
        sorting::sorted(final(v)@),
{
    proof {
        broadcast use vstd::laws_cmp::group_laws_cmp;
        assert(obeys_cmp::<u64>());
    }
    outside::par_sort_unstable(v);
}

/// Shifting up multiplies, where nothing is shifted out.
pub proof fn lemma_u128_shl_is_mul(x: u128, k: u128)
    requires
        k < 128,
        x * pow2(k as nat) <= u128::MAX,
    ensures
        (x << k) == x * pow2(k as nat),
    decreases k,
{
    lemma2_to64();
    if k == 0 {
        assert(x << k == x) by (bit_vector)
            requires
                k == 0,
        ;
        assert(x * pow2(k as nat) == x) by (nonlinear_arith)
            requires
                pow2(k as nat) == 1,
        ;
    } else {
        let j = (k - 1) as u128;
        lemma_pow2_adds(j as nat, 1);
        assert(x * pow2(k as nat) == 2 * (x * pow2(j as nat))) by (nonlinear_arith)
            requires
                pow2(k as nat) == pow2(j as nat) * 2,
        ;
        lemma_u128_shl_is_mul(x, j);
        let y = x << j;
        assert(y <= 0x7fff_ffff_ffff_ffff_ffff_ffff_ffff_ffff);
        assert(x << k == 2 * y) by (bit_vector)
            requires
                0 < k < 128,
                j == k - 1,
                y == x << j,
                y <= 0x7fff_ffff_ffff_ffff_ffff_ffff_ffff_ffff,
        ;
    }
}

/// 2^128.
pub proof fn lemma_pow2_128()
    ensures
        pow2(128) == 0x1_0000_0000_0000_0000_0000_0000_0000_0000,
{
    lemma2_to64_rest();
    lemma_pow2_adds(64, 64);
    assert(0x1_0000_0000_0000_0000 * 0x1_0000_0000_0000_0000
        == 0x1_0000_0000_0000_0000_0000_0000_0000_0000) by (nonlinear_arith);
}

/// The three storage types hold the numbers of 32, 64 and 128 bits, each as itself.
pub proof fn law_storage_types(x: u32, y: u64, z: u128)
    ensures
        x.val() == x,
        u32::bits() == 32,
        y.val() == y,
        u64::bits() == 64,
        z.val() == z,
        u128::bits() == 128,
{
}

} // verus!
