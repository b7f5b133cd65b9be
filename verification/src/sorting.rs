//! Radix sorting of 64-bit keys.

use crate::chunks;
use crate::outside;
use crate::seqs;
use arrayvec::ArrayVec;
use vstd::arithmetic::div_mod::*;
use vstd::arithmetic::mul::*;
use vstd::arithmetic::power2::*;
use vstd::bits::*;
use vstd::laws_cmp::obeys_cmp;
use vstd::prelude::*;
use vstd::string::*;

verus! {

broadcast use {vstd::multiset::group_multiset_axioms, vstd::seq_lib::group_to_multiset_ensures};

/// The `lg` bits of `w` that start at bit `sh`.
pub open spec fn digit(w: u64, sh: nat, lg: nat) -> nat {
    (w as nat / pow2(sh)) % pow2(lg)
}

/// The words of `s` with digit `d`, in their order.
pub open spec fn group(s: Seq<u64>, sh: nat, lg: nat, d: nat) -> Seq<u64> {
    s.filter(|w: u64| digit(w, sh, lg) == d)
}

/// The words of `s` with a digit below `k`: the groups of the digits, one after the other.
pub open spec fn dealt(s: Seq<u64>, sh: nat, lg: nat, k: nat) -> Seq<u64>
    decreases k,
{
    if k == 0 {
        Seq::empty()
    } else {
        dealt(s, sh, lg, (k - 1) as nat) + group(s, sh, lg, (k - 1) as nat)
    }
}

/// `s` is in ascending order.
pub open spec fn sorted(s: Seq<u64>) -> bool {
    forall|i: int, j: int| 0 <= i < j < s.len() ==> #[trigger] s[i] <= #[trigger] s[j]
}

/// All the words of `s` have the same bits from bit `nb` up.
pub open spec fn agree_above(s: Seq<u64>, nb: nat) -> bool {
    forall|i: int, j: int|
        0 <= i < s.len() && 0 <= j < s.len() ==> #[trigger] s[i] as nat / pow2(nb)
            == #[trigger] s[j] as nat / pow2(nb)
}

proof fn lemma_dealt_multiset(s: Seq<u64>, sh: nat, lg: nat, k: nat)
    ensures
        dealt(s, sh, lg, k).to_multiset() == s.to_multiset().filter(
            |w: u64| digit(w, sh, lg) < k,
        ),
    decreases k,
{
    if k == 0 {
        assert(dealt(s, sh, lg, k).to_multiset() =~= s.to_multiset().filter(
            |w: u64| digit(w, sh, lg) < k,
        ));
    } else {
        let j = (k - 1) as nat;
        lemma_dealt_multiset(s, sh, lg, j);
        seqs::lemma_filter_multiset(s, |w: u64| digit(w, sh, lg) == j);
        vstd::seq_lib::lemma_multiset_commutative(dealt(s, sh, lg, j), group(s, sh, lg, j));
        assert(dealt(s, sh, lg, k).to_multiset() =~= s.to_multiset().filter(
            |w: u64| digit(w, sh, lg) < k,
        ));
    }
}

/// Dealing all the digits permutes the words.
proof fn lemma_dealt_perm(s: Seq<u64>, sh: nat, lg: nat)
    ensures
        dealt(s, sh, lg, pow2(lg)).to_multiset() == s.to_multiset(),
        dealt(s, sh, lg, pow2(lg)).len() == s.len(),
{
    lemma_dealt_multiset(s, sh, lg, pow2(lg));
    let p = |w: u64| digit(w, sh, lg) < pow2(lg);
    assert forall|w: u64| #[trigger] p(w) by {
        lemma_pow2_pos(lg);
        lemma_mod_bound((w as nat / pow2(sh)) as int, pow2(lg) as int);
    }
    assert(s.to_multiset().filter(p) =~= s.to_multiset());
    assert(dealt(s, sh, lg, pow2(lg)).len() == dealt(s, sh, lg, pow2(lg)).to_multiset().len());
    assert(s.len() == s.to_multiset().len());
}

proof fn lemma_dealt_member(s: Seq<u64>, sh: nat, lg: nat, k: nat, w: u64)
    requires
        dealt(s, sh, lg, k).contains(w),
    ensures
        s.contains(w),
        digit(w, sh, lg) < k,
{
    lemma_dealt_multiset(s, sh, lg, k);
    assert(dealt(s, sh, lg, k).to_multiset().count(w) > 0);
    assert(s.to_multiset().count(w) > 0);
}

proof fn lemma_group_member(s: Seq<u64>, sh: nat, lg: nat, d: nat, w: u64)
    requires
        group(s, sh, lg, d).contains(w),
    ensures
        s.contains(w),
        digit(w, sh, lg) == d,
{
    seqs::lemma_filter_from(s, |w: u64| digit(w, sh, lg) == d, w);
}

proof fn lemma_dealt_len_monotone(s: Seq<u64>, sh: nat, lg: nat, j: nat, k: nat)
    requires
        j <= k,
    ensures
        dealt(s, sh, lg, j).len() <= dealt(s, sh, lg, k).len(),
        j < k ==> dealt(s, sh, lg, j).len() + group(s, sh, lg, j).len() <= dealt(s, sh, lg, k).len(),
    decreases k - j,
{
    if j < k {
        lemma_dealt_len_monotone(s, sh, lg, j + 1, k);
    }
}

/// The low `m + lg` bits from `base` up are the digit at `base + m` followed by the low `m`.
proof fn lemma_digit_split(w: u64, base: nat, m: nat, lg: nat)
    ensures
        digit(w, base, m + lg) == digit(w, base + m, lg) * pow2(m) + digit(w, base, m),
        digit(w, base, m) < pow2(m),
        digit(w, base, lg) < pow2(lg),
{
    let q = w as nat / pow2(base);
    lemma_pow2_pos(base);
    lemma_pow2_pos(m);
    lemma_pow2_pos(lg);
    lemma_pow2_adds(base, m);
    lemma_pow2_adds(m, lg);
    lemma_div_denominator(w as int, pow2(base) as int, pow2(m) as int);
    lemma_mod_breakdown(q as int, pow2(m) as int, pow2(lg) as int);
    lemma_mod_bound(q as int, pow2(m) as int);
    lemma_mod_bound(q as int, pow2(lg) as int);
    lemma_mul_is_commutative(pow2(m) as int, digit(w, base + m, lg) as int);
}

/// One stable pass extends the order by one more digit.
proof fn lemma_dealt_ascending(s: Seq<u64>, base: nat, m: nat, lg: nat, k: nat)
    requires
        seqs::ascending_by(s, |w: u64| digit(w, base, m)),
    ensures
        seqs::ascending_by(dealt(s, base + m, lg, k), |w: u64| digit(w, base, m + lg)),
    decreases k,
{
    if k > 0 {
        let j = (k - 1) as nat;
        let sh = base + m;
        let a = dealt(s, sh, lg, j);
        let b = group(s, sh, lg, j);
        let low = |w: u64| digit(w, base, m);
        lemma_dealt_ascending(s, base, m, lg, j);
        seqs::lemma_filter_ascending(s, |w: u64| digit(w, sh, lg) == j, low);
        let t = a + b;
        assert forall|x: int, y: int| 0 <= x < y < t.len() implies digit(
            #[trigger] t[x],
            base,
            m + lg,
        ) <= digit(#[trigger] t[y], base, m + lg) by {
            lemma_digit_split(t[x], base, m, lg);
            lemma_digit_split(t[y], base, m, lg);
            if y < a.len() {
                let key = |w: u64| digit(w, base, m + lg);
                assert(key(a[x]) <= key(a[y]));
            } else if x < a.len() {
                assert(a.contains(t[x]));
                lemma_dealt_member(s, sh, lg, j, t[x]);
                assert(b[y - a.len()] == t[y]);
                assert(b.contains(t[y]));
                lemma_group_member(s, sh, lg, j, t[y]);
                let dx = digit(t[x], sh, lg);
                assert((dx + 1) * pow2(m) <= j * pow2(m)) by (nonlinear_arith)
                    requires
                        dx + 1 <= j,
                ;
                lemma_mul_is_distributive_add_other_way(pow2(m) as int, dx as int, 1);
            } else {
                let p = x - a.len();
                let q = y - a.len();
                assert(b[p] == t[x] && b[q] == t[y]);
                assert(b.contains(t[x]) && b.contains(t[y]));
                lemma_group_member(s, sh, lg, j, t[x]);
                lemma_group_member(s, sh, lg, j, t[y]);
                assert(low(b[p]) <= low(b[q]));
            }
        }
    }
}

/// The digit of `w` at bit `sh`, `lg` bits wide.
fn digit_of(w: u64, sh: u32, lg: u32) -> (d: usize)
    requires
        sh < 64,
        lg <= 16,
    ensures
        d == digit(w, sh as nat, lg as nat),
        d < pow2(lg as nat),
{
    let shift: u64 = sh as u64;
    let bits: u64 = lg as u64;
    proof {
        lemma_u64_shr_is_div(w, shift);
        lemma_u64_pow2_no_overflow(lg as nat);
        lemma_u64_shl_is_mul(1, bits);
        lemma_u64_low_bits_mask_is_mod(w >> shift, lg as nat);
        lemma_pow2_pos(lg as nat);
        lemma_mod_bound((w >> shift) as int, pow2(lg as nat) as int);
        lemma2_to64();
        if lg < 16 {
            lemma_pow2_strictly_increases(lg as nat, 16);
        }
    }
    let mask: u64 = (1u64 << bits) - 1;
    ((w >> shift) & mask) as usize
}

/// The number of digits that are `lg` bits wide.
fn radix(lg: u32) -> (r: usize)
    requires
        lg <= 16,
    ensures
        r == pow2(lg as nat),
        0 < r <= 65536,
{
    let bits: usize = lg as usize;
    proof {
        lemma2_to64();
        lemma_pow2_pos(lg as nat);
        lemma_usize_pow2_no_overflow(lg as nat);
        lemma_usize_shl_is_mul(1, bits);
        if lg < 16 {
            lemma_pow2_strictly_increases(lg as nat, 16);
        }
    }
    1usize << bits
}

/// `counts` holds the number of words of `s` with each digit.
spec fn counts_digits(counts: Seq<usize>, s: Seq<u64>, sh: nat, lg: nat) -> bool {
    &&& counts.len() == pow2(lg)
    &&& forall|d: int|
        0 <= d < counts.len() ==> #[trigger] counts[d] == group(s, sh, lg, d as nat).len()
}

/// How many words have each digit.
fn histogram(words: &[u64], sh: u32, lg: u32) -> (h: Vec<usize>)
    requires
        sh < 64,
        lg <= 16,
    ensures
        counts_digits(h@, words@, sh as nat, lg as nat),
{
    let r: usize = radix(lg);
    let mut h: Vec<usize> = vec![0usize; r];
    let mut i: usize = 0;
    proof {
        reveal(Seq::filter);
    }
    while i < words.len()
        invariant
            i <= words@.len(),
            sh < 64,
            lg <= 16,
            r == pow2(lg as nat),
            h@.len() == r,
            forall|d: int|
                0 <= d < r ==> #[trigger] h@[d] == group(
                    words@.take(i as int),
                    sh as nat,
                    lg as nat,
                    d as nat,
                ).len(),
        decreases words@.len() - i,
    {
        let d: usize = digit_of(words[i], sh, lg);
        let ghost before = words@.take(i as int);
        let ghost w = words@[i as int];
        proof {
            assert(words@.take(i + 1) =~= before.push(w));
            assert forall|e: int| 0 <= e < r implies #[trigger] group(
                words@.take(i + 1),
                sh as nat,
                lg as nat,
                e as nat,
            ).len() == h@[e] + (if e == d { 1int } else { 0int }) by {
                before.lemma_filter_push(w, |w: u64| digit(w, sh as nat, lg as nat) == e as nat);
            }
            seqs::lemma_filter_take_len(
                words@,
                |w: u64| digit(w, sh as nat, lg as nat) == d as nat,
                i as int,
            );
            words@.lemma_filter_len(|w: u64| digit(w, sh as nat, lg as nat) == d as nat);
        }
        h[d] = h[d] + 1;
        i += 1;
    }
    assert(words@.take(words@.len() as int) =~= words@);
    h
}

/// The position at which the group of each digit starts, from the digits' counts.
fn group_starts(
    counts: &Vec<usize>,
    Ghost(s): Ghost<Seq<u64>>,
    Ghost(sh): Ghost<nat>,
    Ghost(lg): Ghost<nat>,
) -> (starts: Vec<usize>)
    requires
        counts_digits(counts@, s, sh, lg),
        s.len() <= usize::MAX,
    ensures
        starts@.len() == counts@.len(),
        forall|d: int|
            0 <= d < starts@.len() ==> #[trigger] starts@[d] == dealt(s, sh, lg, d as nat).len(),
{
    let mut starts: Vec<usize> = Vec::with_capacity(counts.len());
    let mut pos: usize = 0;
    let mut d: usize = 0;
    while d < counts.len()
        invariant
            d <= counts@.len(),
            counts@.len() == pow2(lg),
            s.len() <= usize::MAX,
            starts@.len() == d,
            pos == dealt(s, sh, lg, d as nat).len(),
            forall|e: int|
                0 <= e < counts@.len() ==> #[trigger] counts@[e] == group(s, sh, lg, e as nat).len(),
            forall|e: int| 0 <= e < d ==> #[trigger] starts@[e] == dealt(s, sh, lg, e as nat).len(),
        decreases counts@.len() - d,
    {
        starts.push(pos);
        proof {
            lemma_dealt_perm(s, sh, lg);
            lemma_dealt_len_monotone(s, sh, lg, d as nat, pow2(lg));
        }
        pos = pos + counts[d];
        d += 1;
    }
    starts
}

/// One stable counting pass: deals the words of `from` into `to`, digit by digit.
fn deal(from: &[u64], to: &mut [u64], counts: &Vec<usize>, sh: u32, lg: u32)
    requires
        sh < 64,
        lg <= 16,
        old(to)@.len() == from@.len(),
        counts_digits(counts@, from@, sh as nat, lg as nat),
    ensures
        final(to)@ == dealt(from@, sh as nat, lg as nat, pow2(lg as nat)),
{
    let ghost sn = sh as nat;
    let ghost ln = lg as nat;
    let ghost r = pow2(ln) as int;
    let ghost s = from@;
    assert(s.len() == from.len());
    let mut heads: Vec<usize> = group_starts(counts, Ghost(s), Ghost(sn), Ghost(ln));
    let mut i: usize = 0;
    proof {
        reveal(Seq::filter);
        lemma_dealt_perm(s, sn, ln);
    }
    while i < from.len()
        invariant
            i <= from@.len(),
            sh < 64,
            lg <= 16,
            sn == sh as nat,
            ln == lg as nat,
            s == from@,
            r == pow2(ln),
            to@.len() == s.len(),
            dealt(s, sn, ln, pow2(ln)).len() == s.len(),
            heads@.len() == r,
            forall|d: int|
                0 <= d < r ==> #[trigger] heads@[d] == dealt(s, sn, ln, d as nat).len() + group(
                    s.take(i as int),
                    sn,
                    ln,
                    d as nat,
                ).len(),
            forall|d: int, j: int|
                0 <= d < r && 0 <= j < group(s.take(i as int), sn, ln, d as nat).len()
                    ==> to@[dealt(s, sn, ln, d as nat).len() + j] == #[trigger] group(
                    s.take(i as int),
                    sn,
                    ln,
                    d as nat,
                )[j],
        decreases from@.len() - i,
    {
        let word: u64 = from[i];
        let d: usize = digit_of(word, sh, lg);
        let ghost before = s.take(i as int);
        let ghost dn = d as nat;
        proof {
            seqs::lemma_filter_take_len(s, |w: u64| digit(w, sn, ln) == dn, i as int);
            lemma_dealt_len_monotone(s, sn, ln, dn, pow2(ln));
        }
        let pos: usize = heads[d];
        let ghost to0 = to@;
        to[pos] = word;
        heads[d] = pos + 1;
        proof {
            let after = s.take(i + 1);
            assert(after =~= before.push(word));
            assert forall|e: int| 0 <= e < r implies #[trigger] heads@[e] == dealt(
                s,
                sn,
                ln,
                e as nat,
            ).len() + group(after, sn, ln, e as nat).len() by {
                before.lemma_filter_push(word, |w: u64| digit(w, sn, ln) == e as nat);
            }
            assert forall|e: int, j: int|
                0 <= e < r && 0 <= j < group(after, sn, ln, e as nat).len() implies to@[dealt(
                s,
                sn,
                ln,
                e as nat,
            ).len() + j] == #[trigger] group(after, sn, ln, e as nat)[j] by {
                let en = e as nat;
                before.lemma_filter_push(word, |w: u64| digit(w, sn, ln) == en);
                seqs::lemma_filter_take_len(s, |w: u64| digit(w, sn, ln) == en, i as int);
                lemma_dealt_len_monotone(s, sn, ln, en, pow2(ln));
                let at = dealt(s, sn, ln, en).len() + j;
                seqs::lemma_filter_take_len(s, |w: u64| digit(w, sn, ln) == en, i + 1);
                assert(group(after, sn, ln, en).len() <= group(s, sn, ln, en).len());
                assert(0 <= at < s.len());
                if e != d {
                    if en < dn {
                        lemma_dealt_len_monotone(s, sn, ln, en, dn);
                    } else {
                        lemma_dealt_len_monotone(s, sn, ln, dn, en);
                    }
                    assert(at != pos);
                    assert(group(after, sn, ln, en) == group(before, sn, ln, en));
                    assert(to0[dealt(s, sn, ln, en).len() + j] == group(before, sn, ln, en)[j]);
                } else if j < group(before, sn, ln, en).len() {
                    assert(to0[dealt(s, sn, ln, en).len() + j] == group(before, sn, ln, en)[j]);
                }
            }
        }
        i += 1;
    }
    proof {
        assert(s.take(s.len() as int) =~= s);
        lemma_dealt_assembles(to@, s, sn, ln, pow2(ln));
        assert(to@.take(s.len() as int) =~= to@);
    }
}

/// A sequence that holds every group at its place is the dealt sequence.
proof fn lemma_dealt_assembles(t: Seq<u64>, s: Seq<u64>, sh: nat, lg: nat, k: nat)
    requires
        k <= pow2(lg),
        t.len() == s.len(),
        forall|d: int, j: int|
            0 <= d < pow2(lg) && 0 <= j < group(s, sh, lg, d as nat).len() ==> t[dealt(
                s,
                sh,
                lg,
                d as nat,
            ).len() + j] == #[trigger] group(s, sh, lg, d as nat)[j],
    ensures
        dealt(s, sh, lg, k).len() <= t.len(),
        t.take(dealt(s, sh, lg, k).len() as int) == dealt(s, sh, lg, k),
    decreases k,
{
    lemma_dealt_perm(s, sh, lg);
    lemma_dealt_len_monotone(s, sh, lg, k, pow2(lg));
    if k > 0 {
        let j = (k - 1) as nat;
        lemma_dealt_assembles(t, s, sh, lg, j);
        let a = dealt(s, sh, lg, j);
        let b = group(s, sh, lg, j);
        assert forall|x: int| 0 <= x < (a + b).len() implies t.take((a + b).len() as int)[x] == (a
            + b)[x] by {
            if x < a.len() {
                assert(t.take(a.len() as int)[x] == a[x]);
            } else {
                assert(t[dealt(s, sh, lg, j).len() + (x - a.len())] == b[x - a.len()]);
            }
        }
        assert(t.take((a + b).len() as int) =~= a + b);
    }
}

/// Inserts `word` into the sorted run `to[start..pos]`, which grows by one place.
fn insert_sorted(to: &mut [u64], start: usize, pos: usize, word: u64)
    requires
        start <= pos < old(to)@.len(),
        sorted(old(to)@.subrange(start as int, pos as int)),
    ensures
        final(to)@.len() == old(to)@.len(),
        forall|k: int|
            0 <= k < old(to)@.len() && !(start <= k <= pos) ==> final(to)@[k] == old(to)@[k],
        sorted(final(to)@.subrange(start as int, pos + 1)),
        final(to)@.subrange(start as int, pos + 1).to_multiset() == old(to)@.subrange(
            start as int,
            pos as int,
        ).to_multiset().insert(word),
{
    let ghost t0 = to@;
    let mut j: usize = pos;
    while j > start && to[j - 1] > word
        invariant
            start <= j <= pos < t0.len(),
            to@.len() == t0.len(),
            sorted(t0.subrange(start as int, pos as int)),
            forall|k: int| 0 <= k < j || pos < k < t0.len() ==> to@[k] == t0[k],
            forall|k: int| j < k <= pos ==> #[trigger] to@[k] == t0[k - 1],
            forall|k: int| j < k <= pos ==> #[trigger] to@[k] > word,
        decreases j,
    {
        to[j] = to[j - 1];
        j -= 1;
    }
    to[j] = word;
    proof {
        let a = t0.subrange(start as int, pos as int);
        let b = to@.subrange(start as int, pos + 1);
        assert(b =~= a.insert(j - start, word));
        vstd::seq_lib::to_multiset_insert(a, j - start, word);
        assert forall|x: int, y: int| 0 <= x < y < b.len() implies #[trigger] b[x]
            <= #[trigger] b[y] by {
            if y < j - start {
                assert(a[x] <= a[y]);
            } else if y == j - start {
                assert(t0[j - 1] <= word);
                if x < j - start - 1 {
                    assert(a[x] <= a[j - start - 1]);
                }
            } else if x < j - start {
                if x < y - 1 {
                    assert(a[x] <= a[y - 1]);
                }
            } else if x == j - start {
                assert(to@[start + y] > word);
            } else {
                assert(a[x - 1] <= a[y - 1]);
            }
        }
    }
}

/// The part of `t` at which the group of digit `d` of `s` lies.
spec fn region(t: Seq<u64>, s: Seq<u64>, len: nat, sh: nat, lg: nat, d: nat) -> Seq<u64> {
    t.subrange(dealt(s, sh, lg, d).len() as int, (dealt(s, sh, lg, d).len() + len) as int)
}

/// `t` holds the words of `part` with digit `d`, sorted, where the group of `d` of `s` starts.
spec fn holds_group(
    t: Seq<u64>,
    s: Seq<u64>,
    part: Seq<u64>,
    sh: nat,
    lg: nat,
    d: nat,
) -> bool {
    let g = group(part, sh, lg, d);
    let p = region(t, s, g.len(), sh, lg, d);
    sorted(p) && p.to_multiset() == g.to_multiset()
}

/// `t` is ordered by digit, and by value among equal digits.
spec fn lex_ordered(t: Seq<u64>, sh: nat, lg: nat) -> bool {
    forall|i: int, j: int|
        0 <= i < j < t.len() ==> {
            ||| digit(#[trigger] t[i], sh, lg) < digit(#[trigger] t[j], sh, lg)
            ||| digit(t[i], sh, lg) == digit(t[j], sh, lg) && t[i] <= t[j]
        }
}

/// A counting pass that keeps the group of each digit sorted: the words of `from` end up in
/// `to`, ordered by digit and by value among equal digits.
fn deal_sorting(from: &[u64], to: &mut [u64], counts: &Vec<usize>, sh: u32, lg: u32)
    requires
        sh < 64,
        lg <= 16,
        old(to)@.len() == from@.len(),
        counts_digits(counts@, from@, sh as nat, lg as nat),
    ensures
        final(to)@.len() == from@.len(),
        final(to)@.to_multiset() == from@.to_multiset(),
        lex_ordered(final(to)@, sh as nat, lg as nat),
{
    let ghost sn = sh as nat;
    let ghost ln = lg as nat;
    let ghost r = pow2(ln) as int;
    let ghost s = from@;
    assert(s.len() == from.len());
    let starts: Vec<usize> = group_starts(counts, Ghost(s), Ghost(sn), Ghost(ln));
    let mut heads: Vec<usize> = group_starts(counts, Ghost(s), Ghost(sn), Ghost(ln));
    let mut i: usize = 0;
    proof {
        reveal(Seq::filter);
        lemma_dealt_perm(s, sn, ln);
        assert forall|d: int| 0 <= d < r implies #[trigger] holds_group(
            to@,
            s,
            s.take(0),
            sn,
            ln,
            d as nat,
        ) by {
            lemma_dealt_len_monotone(s, sn, ln, d as nat, pow2(ln));
            let g = group(s.take(0), sn, ln, d as nat);
            assert(region(to@, s, g.len(), sn, ln, d as nat) =~= g);
        }
    }
    while i < from.len()
        invariant
            i <= from@.len(),
            sh < 64,
            lg <= 16,
            sn == sh as nat,
            ln == lg as nat,
            s == from@,
            r == pow2(ln),
            to@.len() == s.len(),
            dealt(s, sn, ln, pow2(ln)).len() == s.len(),
            heads@.len() == r,
            starts@.len() == r,
            forall|d: int|
                0 <= d < r ==> #[trigger] starts@[d] == dealt(s, sn, ln, d as nat).len(),
            forall|d: int|
                0 <= d < r ==> #[trigger] heads@[d] == dealt(s, sn, ln, d as nat).len() + group(
                    s.take(i as int),
                    sn,
                    ln,
                    d as nat,
                ).len(),
            forall|d: int|
                0 <= d < r ==> #[trigger] holds_group(
                    to@,
                    s,
                    s.take(i as int),
                    sn,
                    ln,
                    d as nat,
                ),
        decreases from@.len() - i,
    {
        let word: u64 = from[i];
        let d: usize = digit_of(word, sh, lg);
        let ghost before = s.take(i as int);
        let ghost dn = d as nat;
        proof {
            seqs::lemma_filter_take_len(s, |w: u64| digit(w, sn, ln) == dn, i as int);
            lemma_dealt_len_monotone(s, sn, ln, dn, pow2(ln));
            let di = d as int;
            assert(0 <= di < r);
            assert(holds_group(to@, s, s.take(i as int), sn, ln, di as nat));
            assert(holds_group(to@, s, before, sn, ln, dn));
        }
        let pos: usize = heads[d];
        let start: usize = starts[d];
        let ghost to0 = to@;
        insert_sorted(to, start, pos, word);
        heads[d] = pos + 1;
        proof {
            let after = s.take(i + 1);
            assert(after =~= before.push(word));
            assert forall|e: int| 0 <= e < r implies #[trigger] heads@[e] == dealt(
                s,
                sn,
                ln,
                e as nat,
            ).len() + group(after, sn, ln, e as nat).len() by {
                before.lemma_filter_push(word, |w: u64| digit(w, sn, ln) == e as nat);
            }
            assert forall|e: int| 0 <= e < r implies #[trigger] holds_group(
                to@,
                s,
                after,
                sn,
                ln,
                e as nat,
            ) by {
                let en = e as nat;
                before.lemma_filter_push(word, |w: u64| digit(w, sn, ln) == en);
                seqs::lemma_filter_take_len(s, |w: u64| digit(w, sn, ln) == en, i as int);
                seqs::lemma_filter_take_len(s, |w: u64| digit(w, sn, ln) == en, i + 1);
                lemma_dealt_len_monotone(s, sn, ln, en, pow2(ln));
                let g0 = group(before, sn, ln, en);
                let g = group(after, sn, ln, en);
                assert(g.len() <= group(s, sn, ln, en).len());
                let t0 = region(to0, s, g0.len(), sn, ln, en);
                let t = region(to@, s, g.len(), sn, ln, en);
                assert(holds_group(to0, s, before, sn, ln, e as nat));
                if e != d {
                    if en < dn {
                        lemma_dealt_len_monotone(s, sn, ln, en, dn);
                    } else {
                        lemma_dealt_len_monotone(s, sn, ln, dn, en);
                    }
                    assert(g == g0);
                    assert(t =~= t0);
                } else {
                    assert(g == g0.push(word));
                    assert(g.to_multiset() == g0.to_multiset().insert(word));
                }
            }
        }
        i += 1;
    }
    proof {
        assert(s.take(s.len() as int) =~= s);
        lemma_regions_assemble(to@, s, sn, ln, pow2(ln));
        assert(to@.take(s.len() as int) =~= to@);
    }
}

/// Sorted groups at their places make a permutation that is ordered by digit, then by value.
proof fn lemma_regions_assemble(t: Seq<u64>, s: Seq<u64>, sh: nat, lg: nat, k: nat)
    requires
        k <= pow2(lg),
        t.len() == s.len(),
        forall|d: int|
            0 <= d < pow2(lg) ==> #[trigger] holds_group(t, s, s, sh, lg, d as nat),
    ensures
        dealt(s, sh, lg, k).len() <= t.len(),
        t.take(dealt(s, sh, lg, k).len() as int).to_multiset() == dealt(
            s,
            sh,
            lg,
            k,
        ).to_multiset(),
        lex_ordered(t.take(dealt(s, sh, lg, k).len() as int), sh, lg),
        k == pow2(lg) ==> dealt(s, sh, lg, k).to_multiset() == s.to_multiset(),
        k == pow2(lg) ==> dealt(s, sh, lg, k).len() == s.len(),
    decreases k,
{
    lemma_dealt_perm(s, sh, lg);
    lemma_dealt_len_monotone(s, sh, lg, k, pow2(lg));
    if k > 0 {
        let j = (k - 1) as nat;
        lemma_regions_assemble(t, s, sh, lg, j);
        let da = dealt(s, sh, lg, j);
        let g = group(s, sh, lg, j);
        let a = t.take(da.len() as int);
        let b = region(t, s, g.len(), sh, lg, j);
        assert(holds_group(t, s, s, sh, lg, j as int as nat));
        let c = t.take((da + g).len() as int);
        assert(c =~= a + b);
        vstd::seq_lib::lemma_multiset_commutative(a, b);
        vstd::seq_lib::lemma_multiset_commutative(da, g);
        assert forall|x: int, y: int| 0 <= x < y < c.len() implies {
            ||| digit(#[trigger] c[x], sh, lg) < digit(#[trigger] c[y], sh, lg)
            ||| digit(c[x], sh, lg) == digit(c[y], sh, lg) && c[x] <= c[y]
        } by {
            if y < a.len() {
                assert(a[x] == c[x] && a[y] == c[y]);
            } else {
                assert(b[y - a.len()] == c[y]);
                assert(b.to_multiset().count(c[y]) > 0);
                assert(g.contains(c[y]));
                lemma_group_member(s, sh, lg, j, c[y]);
                if x < a.len() {
                    assert(a[x] == c[x]);
                    assert(a.to_multiset().count(c[x]) > 0);
                    assert(da.contains(c[x]));
                    lemma_dealt_member(s, sh, lg, j, c[x]);
                } else {
                    assert(b[x - a.len()] == c[x]);
                    assert(b.to_multiset().count(c[x]) > 0);
                    assert(g.contains(c[x]));
                    lemma_group_member(s, sh, lg, j, c[x]);
                }
            }
        }
    }
}

/// Copies `from` to `to`, sorting on the way.
fn insertion_sort_into(from: &[u64], to: &mut [u64])
    requires
        old(to)@.len() == from@.len(),
    ensures
        final(to)@.len() == from@.len(),
        final(to)@.to_multiset() == from@.to_multiset(),
        sorted(final(to)@),
{
    let mut i: usize = 0;
    assert(to@.subrange(0, 0).to_multiset() =~= from@.take(0).to_multiset());
    while i < from.len()
        invariant
            i <= from@.len(),
            to@.len() == from@.len(),
            sorted(to@.subrange(0, i as int)),
            to@.subrange(0, i as int).to_multiset() == from@.take(i as int).to_multiset(),
        decreases from@.len() - i,
    {
        assert(from@.take(i + 1) =~= from@.take(i as int).push(from@[i as int]));
        insert_sorted(to, 0, i, from[i]);
        i += 1;
    }
    assert(to@.subrange(0, from@.len() as int) =~= to@);
    assert(from@.take(from@.len() as int) =~= from@);
}

/// The digit counts do not depend on the order of the words.
proof fn lemma_counts_perm(counts: Seq<usize>, a: Seq<u64>, b: Seq<u64>, sh: nat, lg: nat)
    requires
        counts_digits(counts, a, sh, lg),
        a.to_multiset() == b.to_multiset(),
    ensures
        counts_digits(counts, b, sh, lg),
{
    assert forall|d: int| 0 <= d < counts.len() implies #[trigger] counts[d] == group(
        b,
        sh,
        lg,
        d as nat,
    ).len() by {
        seqs::lemma_filter_len_perm(a, b, |w: u64| digit(w, sh, lg) == d as nat);
    }
}

/// Agreement from a bit up is agreement from every higher bit up, in any order of the words.
proof fn lemma_agree_above(a: Seq<u64>, b: Seq<u64>, nb: nat, m: nat)
    requires
        nb <= m,
        agree_above(a, nb),
        a.to_multiset() == b.to_multiset(),
    ensures
        agree_above(b, m),
{
    lemma_pow2_pos(nb);
    lemma_pow2_pos((m - nb) as nat);
    lemma_pow2_adds(nb, (m - nb) as nat);
    assert forall|i: int, j: int| 0 <= i < b.len() && 0 <= j < b.len() implies #[trigger] b[i] as nat
        / pow2(m) == #[trigger] b[j] as nat / pow2(m) by {
        assert(a.to_multiset().count(b[i]) > 0 && a.to_multiset().count(b[j]) > 0);
        let x = choose|x: int| 0 <= x < a.len() && a[x] == b[i];
        let y = choose|y: int| 0 <= y < a.len() && a[y] == b[j];
        assert(a[x] as nat / pow2(nb) == a[y] as nat / pow2(nb));
        lemma_div_denominator(b[i] as int, pow2(nb) as int, pow2((m - nb) as nat) as int);
        lemma_div_denominator(b[j] as int, pow2(nb) as int, pow2((m - nb) as nat) as int);
    }
}

/// Words that agree above a digit are ordered as the digit orders them.
proof fn lemma_digit_orders(x: u64, y: u64, sh: nat, lg: nat)
    requires
        x as nat / pow2(sh + lg) == y as nat / pow2(sh + lg),
        digit(x, sh, lg) < digit(y, sh, lg),
    ensures
        x < y,
{
    lemma_pow2_pos(sh);
    lemma_pow2_pos(lg);
    lemma_pow2_adds(sh, lg);
    lemma_div_denominator(x as int, pow2(sh) as int, pow2(lg) as int);
    lemma_div_denominator(y as int, pow2(sh) as int, pow2(lg) as int);
    let qx = x as int / pow2(sh) as int;
    let qy = y as int / pow2(sh) as int;
    lemma_fundamental_div_mod(qx, pow2(lg) as int);
    lemma_fundamental_div_mod(qy, pow2(lg) as int);
    if y <= x {
        lemma_div_is_ordered(y as int, x as int, pow2(sh) as int);
    }
}

/// Words that agree above their low `m` bits are sorted where those bits are ascending.
proof fn lemma_sorted_by_low_bits(t: Seq<u64>, m: nat)
    requires
        agree_above(t, m),
        seqs::ascending_by(t, |w: u64| digit(w, 0, m)),
    ensures
        sorted(t),
{
    lemma_pow2_pos(m);
    lemma2_to64();
    let key = |w: u64| digit(w, 0, m);
    assert forall|i: int, j: int| 0 <= i < j < t.len() implies #[trigger] t[i]
        <= #[trigger] t[j] by {
        assert(key(t[i]) <= key(t[j]));
        assert(t[i] as nat / pow2(m) == t[j] as nat / pow2(m));
        lemma_fundamental_div_mod(t[i] as int, pow2(m) as int);
        lemma_fundamental_div_mod(t[j] as int, pow2(m) as int);
        assert(t[i] as nat / pow2(0) == t[i] && t[j] as nat / pow2(0) == t[j]);
    }
}

/// Words that agree above a digit are sorted where they are ordered by that digit, then by value.
proof fn lemma_sorted_by_digit(t: Seq<u64>, sh: nat, lg: nat)
    requires
        agree_above(t, sh + lg),
        lex_ordered(t, sh, lg),
    ensures
        sorted(t),
{
    assert forall|i: int, j: int| 0 <= i < j < t.len() implies #[trigger] t[i]
        <= #[trigger] t[j] by {
        assert(t[i] as nat / pow2(sh + lg) == t[j] as nat / pow2(sh + lg));
        if digit(t[i], sh, lg) < digit(t[j], sh, lg) {
            lemma_digit_orders(t[i], t[j], sh, lg);
        }
    }
}

/// The integer binary logarithm of `n`.
fn floor_log2(n: usize) -> (r: u32)
    requires
        n > 0,
    ensures
        pow2(r as nat) <= n < pow2(r as nat + 1),
        r < 64,
{
    let mut r: u32 = 0;
    let mut rest: usize = n;
    proof {
        lemma2_to64();
    }
    assert(n as nat / pow2(0) == n);
    while rest > 1
        invariant
            n > 0,
            rest == n as nat / pow2(r as nat),
            rest > 0,
            r <= 63,
        decreases rest,
    {
        proof {
            lemma_pow2_pos(r as nat);
            lemma2_to64();
            lemma_pow2_adds(r as nat, 1);
            lemma_div_denominator(n as int, pow2(r as nat) as int, 2);
            lemma_fundamental_div_mod(n as int, pow2(r as nat) as int);
            assert(2 * pow2(r as nat) <= n) by (nonlinear_arith)
                requires
                    rest >= 2,
                    n == pow2(r as nat) * rest + n as int % pow2(r as nat) as int,
                    n as int % pow2(r as nat) as int >= 0,
            ;
            lemma2_to64_rest();
            if r == 63 {
                assert(false);
            }
        }
        rest = rest / 2;
        r += 1;
    }
    proof {
        lemma_pow2_pos(r as nat);
        lemma2_to64();
        lemma_pow2_adds(r as nat, 1);
        lemma_fundamental_div_mod(n as int, pow2(r as nat) as int);
    }
    r
}

/// Copies `from` to `to`.
fn copy_words(from: &[u64], to: &mut [u64])
    requires
        old(to)@.len() == from@.len(),
    ensures
        final(to)@ == from@,
{
    let mut i: usize = 0;
    while i < from.len()
        invariant
            i <= from@.len(),
            to@.len() == from@.len(),
            forall|k: int| 0 <= k < i ==> #[trigger] to@[k] == from@[k],
        decreases from@.len() - i,
    {
        to[i] = from[i];
        i += 1;
    }
}

/// Sorts a few words in place.
fn sort_words(words: &mut [u64])
    ensures
        final(words)@.to_multiset() == old(words)@.to_multiset(),
        final(words)@.len() == old(words)@.len(),
        sorted(final(words)@),
{
    proof {
        broadcast use vstd::laws_cmp::group_laws_cmp;
        assert(obeys_cmp::<u64>());
    }
    outside::sort_unstable(words);
    proof {
        assert(words@.len() == words@.to_multiset().len());
        assert(old(words)@.len() == old(words)@.to_multiset().len());
    }
}

/// Up to this length a comparison sort is used, which goes by all bits.
pub const SMALL_SORT_LEN: usize = 256;

/// Sorts the words of `src`, whose significant bits are the low `num_bits`, with digits of `lg`
/// bits; `scratch` is working space. The result is left in `scratch` where
/// `want_result_in_scratch`, else in `src`.
///
/// It always permutes the words, and sorts them if they agree from bit `num_bits` up, or if they are
/// few.
///
/// Only as many passes are made, on the highest digits, as bring the groups of words with equal
/// digits down to about one word each; the words are then nearly sorted and an insertion sort
/// finishes the job, fused with the last pass or with the final copy.
fn sort_sequential(
    src: &mut [u64],
    scratch: &mut [u64],
    want_result_in_scratch: bool,
    num_bits: u32,
    lg: u32,
)
    requires
        old(src)@.len() == old(scratch)@.len(),
        num_bits <= 64,
        1 <= lg <= 16,
    ensures
        final(src)@.len() == old(src)@.len(),
        final(scratch)@.len() == old(src)@.len(),
        ({
            let r = if want_result_in_scratch {
                final(scratch)@
            } else {
                final(src)@
            };
            &&& r.to_multiset() == old(src)@.to_multiset()
            &&& agree_above(old(src)@, num_bits as nat) ==> sorted(r)
            &&& old(src)@.len() <= SMALL_SORT_LEN ==> sorted(r)
        }),
{
    let ghost s0 = src@;
    let len: usize = src.len();
    if len <= SMALL_SORT_LEN {
        sort_words(src);
        if want_result_in_scratch {
            copy_words(src, scratch);
        }
        return;
    }
    if num_bits == 0 {
        proof {
            if agree_above(s0, 0) {
                lemma2_to64();
                assert(seqs::ascending_by(s0, |w: u64| digit(w, 0, 0)));
                lemma_sorted_by_low_bits(s0, 0);
            }
        }
        if want_result_in_scratch {
            copy_words(src, scratch);
        }
        return;
    }
    let lg_len: u32 = floor_log2(len);
    proof {
        lemma2_to64();
        if lg_len == 0 {
            assert(false);
        }
    }
    let useful: u32 = if lg_len < num_bits {
        lg_len
    } else {
        num_bits
    };
    let passes: u32 = (useful + (lg - 1)) / lg;
    let ghost ln = lg as int;
    proof {
        lemma_fundamental_div_mod(useful + (ln - 1), ln);
        lemma_mod_bound(useful + (ln - 1), ln);
        assert(passes >= 1) by (nonlinear_arith)
            requires
                useful + (ln - 1) == ln * passes + (useful + (ln - 1)) % ln,
                (useful + (ln - 1)) % ln < ln,
                useful >= 1,
                ln >= 1,
        ;
        assert(useful <= passes * ln < useful + ln) by (nonlinear_arith)
            requires
                useful + (ln - 1) == ln * passes + (useful + (ln - 1)) % ln,
                0 <= (useful + (ln - 1)) % ln < ln,
        ;
    }
    let covered: u32 = passes * lg;
    let shift: u32 = if num_bits > covered {
        num_bits - covered
    } else {
        0
    };
    let is_in_scratch = passes % 2 == 1;
    let should_copy = is_in_scratch != want_result_in_scratch;
    let need_final_sort = shift != 0;
    let last_pass_should_sort = need_final_sort && !should_copy;
    let normal_passes: u32 = if last_pass_should_sort {
        passes - 1
    } else {
        passes
    };
    let ghost base = shift as nat;
    assert((passes - 1) * ln == passes * ln - ln) by (nonlinear_arith);

    // Count the digits of all the passes before the words move.
    let mut hists: Vec<Vec<usize>> = Vec::new();
    let mut p: u32 = 0;
    while p < passes
        invariant
            p <= passes,
            src@ == s0,
            1 <= lg <= 16,
            ln == lg,
            base == shift,
            shift + (passes - 1) * ln < 64,
            hists@.len() == p,
            forall|q: int|
                0 <= q < p ==> counts_digits(
                    (#[trigger] hists@[q])@,
                    s0,
                    (base + q * ln) as nat,
                    lg as nat,
                ),
        decreases passes - p,
    {
        proof {
            assert(p * ln <= (passes - 1) * ln) by (nonlinear_arith)
                requires
                    p <= passes - 1,
                    ln >= 1,
            ;
        }
        hists.push(histogram(src, shift + p * lg, lg));
        p += 1;
    }

    let mut in_scratch = false;
    let mut pass: u32 = 0;
    proof {
        lemma2_to64();
        assert(seqs::ascending_by(s0, |w: u64| digit(w, base, 0)));
    }
    while pass < normal_passes
        invariant
            pass <= normal_passes <= passes,
            1 <= lg <= 16,
            ln == lg,
            base == shift,
            shift + (passes - 1) * ln < 64,
            src@.len() == s0.len(),
            scratch@.len() == s0.len(),
            in_scratch == (pass % 2 == 1),
            hists@.len() == passes,
            forall|q: int|
                0 <= q < passes ==> counts_digits(
                    (#[trigger] hists@[q])@,
                    s0,
                    (base + q * ln) as nat,
                    lg as nat,
                ),
            ({
                let cur = if in_scratch {
                    scratch@
                } else {
                    src@
                };
                &&& cur.to_multiset() == s0.to_multiset()
                &&& seqs::ascending_by(cur, |w: u64| digit(w, base, (pass * ln) as nat))
            }),
        decreases normal_passes - pass,
    {
        let ghost cur = if in_scratch {
            scratch@
        } else {
            src@
        };
        let ghost m = (pass * ln) as nat;
        let ghost sh = base + m;
        proof {
            assert(pass * ln <= (passes - 1) * ln) by (nonlinear_arith)
                requires
                    pass <= passes - 1,
                    ln >= 1,
            ;
            assert(pass * ln >= 0) by (nonlinear_arith)
                requires
                    ln >= 1,
            ;
            assert((pass + 1) * ln == m + ln) by (nonlinear_arith)
                requires
                    m == pass * ln,
            ;
            assert(counts_digits(hists@[pass as int]@, s0, (base + pass * ln) as nat, lg as nat));
            lemma_counts_perm(hists@[pass as int]@, s0, cur, sh, lg as nat);
            lemma_dealt_perm(cur, sh, lg as nat);
            lemma_dealt_ascending(cur, base, m, lg as nat, pow2(lg as nat));
        }
        if in_scratch {
            deal(scratch, src, &hists[pass as usize], shift + pass * lg, lg);
        } else {
            deal(src, scratch, &hists[pass as usize], shift + pass * lg, lg);
        }
        in_scratch = !in_scratch;
        pass += 1;
    }

    if last_pass_should_sort {
        let ghost cur = if in_scratch {
            scratch@
        } else {
            src@
        };
        let ghost sh = (base + pass * ln) as nat;
        proof {
            assert(pass == passes - 1);
            assert(0 <= pass * ln);
            assert(counts_digits(hists@[pass as int]@, s0, (base + pass * ln) as nat, lg as nat));
            lemma_counts_perm(hists@[pass as int]@, s0, cur, sh, lg as nat);
        }
        if in_scratch {
            deal_sorting(scratch, src, &hists[pass as usize], shift + pass * lg, lg);
        } else {
            deal_sorting(src, scratch, &hists[pass as usize], shift + pass * lg, lg);
        }
        in_scratch = !in_scratch;
        proof {
            let r = if want_result_in_scratch {
                scratch@
            } else {
                src@
            };
            if agree_above(s0, num_bits as nat) {
                lemma_agree_above(s0, r, num_bits as nat, sh + lg as nat);
                lemma_sorted_by_digit(r, sh, lg as nat);
            }
        }
    } else {
        let ghost cur = if in_scratch {
            scratch@
        } else {
            src@
        };
        proof {
            if !need_final_sort && agree_above(s0, num_bits as nat) {
                lemma_agree_above(s0, cur, num_bits as nat, (passes * ln) as nat);
                lemma_sorted_by_low_bits(cur, (passes * ln) as nat);
            }
        }
        if should_copy {
            if need_final_sort {
                if in_scratch {
                    insertion_sort_into(scratch, src);
                } else {
                    insertion_sort_into(src, scratch);
                }
            } else if in_scratch {
                copy_words(scratch, src);
            } else {
                copy_words(src, scratch);
            }
        }
    }
}

/// The bounds of the chunks into which `len` words are cut for parallel work: at most
/// `max_chunks`, none smaller than `min_size` but the last.
fn par_chunks(len: usize, min_size: usize, max_chunks: usize) -> (chunks: ArrayVec<
    (usize, usize),
    1024,
>)
    requires
        min_size > 0,
        0 < max_chunks <= 1024,
    ensures
        chunks::covers(outside::chunk_items(chunks), len as int),
{
    let mut even: usize = len / max_chunks;
    if len % max_chunks != 0 {
        proof {
            lemma_fundamental_div_mod(len as int, max_chunks as int);
            assert(even < len) by (nonlinear_arith)
                requires
                    len == max_chunks * even + (len as int % max_chunks as int),
                    len as int % max_chunks as int > 0,
                    max_chunks > 0,
            ;
        }
        even += 1;
    }
    let size: usize = if min_size > even {
        min_size
    } else {
        even
    };
    proof {
        lemma_fundamental_div_mod(len as int, max_chunks as int);
        assert(len <= max_chunks * size) by (nonlinear_arith)
            requires
                len == max_chunks * (len as int / max_chunks as int) + (len as int
                    % max_chunks as int),
                len as int % max_chunks as int == 0 ==> size >= len as int / max_chunks as int,
                len as int % max_chunks as int != 0 ==> size >= len as int / max_chunks as int + 1,
                0 <= (len as int % max_chunks as int) < max_chunks,
        ;
    }
    let mut chunks = outside::chunks_new();
    let mut start: usize = 0;
    while start < len
        invariant
            start <= len,
            size > 0,
            0 < max_chunks <= 1024,
            len <= max_chunks * size,
            chunks::covers(outside::chunk_items(chunks), start as int),
            start < len ==> start == outside::chunk_items(chunks).len() * size,
        decreases len - start,
    {
        let end: usize = if len - start < size {
            len
        } else {
            start + size
        };
        let ghost before = outside::chunk_items(chunks);
        let ghost n = before.len();
        proof {
            assert(n < max_chunks) by (nonlinear_arith)
                requires
                    n * size < len,
                    len <= max_chunks * size,
            ;
            assert((n + 1) * size == n * size + size) by (nonlinear_arith);
        }
        outside::chunks_push(&mut chunks, (start, end));
        proof {
            chunks::lemma_covers_push(before, start, end);
        }
        start = end;
    }
    chunks
}

/// Adds the digit counts of more words to those of some.
fn add_counts(
    counts: &mut Vec<usize>,
    more: &Vec<usize>,
    Ghost(a): Ghost<Seq<u64>>,
    Ghost(b): Ghost<Seq<u64>>,
    Ghost(sh): Ghost<nat>,
    Ghost(lg): Ghost<nat>,
)
    requires
        counts_digits(old(counts)@, a, sh, lg),
        counts_digits(more@, b, sh, lg),
        a.len() + b.len() <= usize::MAX,
    ensures
        counts_digits(final(counts)@, a + b, sh, lg),
{
    let ghost c0 = counts@;
    let mut d: usize = 0;
    while d < more.len()
        invariant
            d <= more@.len(),
            counts@.len() == more@.len() == c0.len(),
            counts_digits(c0, a, sh, lg),
            counts_digits(more@, b, sh, lg),
            a.len() + b.len() <= usize::MAX,
            forall|e: int| 0 <= e < d ==> #[trigger] counts@[e] == c0[e] + more@[e],
            forall|e: int| d <= e < c0.len() ==> #[trigger] counts@[e] == c0[e],
        decreases more@.len() - d,
    {
        proof {
            let e = d as int;
            a.lemma_filter_len(|w: u64| digit(w, sh, lg) == e as nat);
            b.lemma_filter_len(|w: u64| digit(w, sh, lg) == e as nat);
            assert(c0[e] <= a.len() && more@[e] <= b.len());
        }
        counts[d] = counts[d] + more[d];
        d += 1;
    }
    proof {
        assert forall|e: int| 0 <= e < counts@.len() implies #[trigger] counts@[e] == group(
            a + b,
            sh,
            lg,
            e as nat,
        ).len() by {
            assert(c0[e] == group(a, sh, lg, e as nat).len());
            assert(more@[e] == group(b, sh, lg, e as nat).len());
            Seq::filter_distributes_over_add(a, b, |w: u64| digit(w, sh, lg) == e as nat);
        }
    }
}

/// How many words have each digit, counted chunk by chunk in parallel.
fn par_histogram(words: &[u64], sh: u32, lg: u32, min_size: usize, max_chunks: usize) -> (h: Vec<
    usize,
>)
    requires
        sh < 64,
        lg <= 16,
        min_size > 0,
        0 < max_chunks <= 1024,
    ensures
        counts_digits(h@, words@, sh as nat, lg as nat),
{
    let chunks = par_chunks(words.len(), min_size, max_chunks);
    let bounds = outside::chunks_as_slice(&chunks);
    proof {
        assert forall|i: int| 0 <= i < bounds@.len() implies (#[trigger] bounds@[i]).0
            <= bounds@[i].1 <= words@.len() by {
            chunks::lemma_covers_end(bounds@, words@.len() as int, i);
        }
    }
    let count = |c: &(usize, usize)| -> (h: Vec<usize>)
        requires
            c.0 <= c.1 <= words@.len(),
        ensures
            counts_digits(h@, words@.subrange(c.0 as int, c.1 as int), sh as nat, lg as nat),
        { histogram(vstd::slice::slice_subrange(words, c.0, c.1), sh, lg) };
    let hists: Vec<Vec<usize>> = outside::par_map(bounds, count);
    let r: usize = radix(lg);
    let mut total: Vec<usize> = vec![0usize; r];
    let mut i: usize = 0;
    proof {
        reveal(Seq::filter);
        assert(words@.take(0) =~= Seq::<u64>::empty());
    }
    while i < hists.len()
        invariant
            i <= hists@.len() == bounds@.len(),
            chunks::covers(bounds@, words@.len() as int),
            0 <= chunks::chunk_start(bounds@, i as int) <= words@.len() <= usize::MAX,
            forall|j: int|
                0 <= j < hists@.len() ==> counts_digits(
                    (#[trigger] hists@[j])@,
                    words@.subrange(bounds@[j].0 as int, bounds@[j].1 as int),
                    sh as nat,
                    lg as nat,
                ),
            counts_digits(
                total@,
                words@.take(chunks::chunk_start(bounds@, i as int)),
                sh as nat,
                lg as nat,
            ),
        decreases hists@.len() - i,
    {
        let ghost a = words@.take(chunks::chunk_start(bounds@, i as int));
        let ghost b = words@.subrange(bounds@[i as int].0 as int, bounds@[i as int].1 as int);
        proof {
            chunks::lemma_covers_end(bounds@, words@.len() as int, i as int);
            assert(a + b =~= words@.take(chunks::chunk_start(bounds@, i + 1)));
        }
        add_counts(
            &mut total,
            &hists[i],
            Ghost(a),
            Ghost(b),
            Ghost(sh as nat),
            Ghost(lg as nat),
        );
        i += 1;
    }
    assert(words@.take(words@.len() as int) =~= words@);
    total
}

/// `t` holds the words of `s` with digit `d`, in some order, where the group of `d` lies.
spec fn same_group(t: Seq<u64>, s: Seq<u64>, sh: nat, lg: nat, d: nat) -> bool {
    let g = group(s, sh, lg, d);
    region(t, s, g.len(), sh, lg, d).to_multiset() == g.to_multiset()
}

/// A sequence with the words of every group at the place of the group is a permutation.
proof fn lemma_regions_perm(t: Seq<u64>, s: Seq<u64>, sh: nat, lg: nat, k: nat)
    requires
        k <= pow2(lg),
        t.len() == s.len(),
        forall|d: int| 0 <= d < pow2(lg) ==> #[trigger] same_group(t, s, sh, lg, d as nat),
    ensures
        dealt(s, sh, lg, k).len() <= t.len(),
        t.take(dealt(s, sh, lg, k).len() as int).to_multiset() == dealt(
            s,
            sh,
            lg,
            k,
        ).to_multiset(),
    decreases k,
{
    lemma_dealt_perm(s, sh, lg);
    lemma_dealt_len_monotone(s, sh, lg, k, pow2(lg));
    if k > 0 {
        let j = (k - 1) as nat;
        lemma_regions_perm(t, s, sh, lg, j);
        let da = dealt(s, sh, lg, j);
        let g = group(s, sh, lg, j);
        let a = t.take(da.len() as int);
        let b = region(t, s, g.len(), sh, lg, j);
        assert(same_group(t, s, sh, lg, j as int as nat));
        assert(t.take((da + g).len() as int) =~= a + b);
        vstd::seq_lib::lemma_multiset_commutative(a, b);
        vstd::seq_lib::lemma_multiset_commutative(da, g);
    } else {
        assert(t.take(0) =~= Seq::<u64>::empty());
    }
}

/// The words of one group agree from the digit up where all the words agree above it.
proof fn lemma_group_agrees(s: Seq<u64>, sh: nat, lg: nat, d: nat)
    requires
        agree_above(s, sh + lg),
    ensures
        agree_above(group(s, sh, lg, d), sh),
{
    let g = group(s, sh, lg, d);
    lemma_pow2_pos(sh);
    lemma_pow2_pos(lg);
    lemma_pow2_adds(sh, lg);
    assert forall|i: int, j: int| 0 <= i < g.len() && 0 <= j < g.len() implies #[trigger] g[i] as nat
        / pow2(sh) == #[trigger] g[j] as nat / pow2(sh) by {
        assert(g.contains(g[i]) && g.contains(g[j]));
        lemma_group_member(s, sh, lg, d, g[i]);
        lemma_group_member(s, sh, lg, d, g[j]);
        let x = choose|x: int| 0 <= x < s.len() && s[x] == g[i];
        let y = choose|y: int| 0 <= y < s.len() && s[y] == g[j];
        assert(s[x] as nat / pow2(sh + lg) == s[y] as nat / pow2(sh + lg));
        lemma_div_denominator(g[i] as int, pow2(sh) as int, pow2(lg) as int);
        lemma_div_denominator(g[j] as int, pow2(sh) as int, pow2(lg) as int);
        lemma_fundamental_div_mod(g[i] as int / pow2(sh) as int, pow2(lg) as int);
        lemma_fundamental_div_mod(g[j] as int / pow2(sh) as int, pow2(lg) as int);
    }
}

/// Dealt words hold the group of each digit where it lies.
proof fn lemma_dealt_region(s: Seq<u64>, sh: nat, lg: nat, d: nat)
    requires
        d < pow2(lg),
    ensures
        dealt(s, sh, lg, d).len() + group(s, sh, lg, d).len() <= s.len(),
        region(dealt(s, sh, lg, pow2(lg)), s, group(s, sh, lg, d).len(), sh, lg, d) == group(
            s,
            sh,
            lg,
            d,
        ),
{
    lemma_dealt_perm(s, sh, lg);
    lemma_dealt_len_monotone(s, sh, lg, d, pow2(lg));
    lemma_dealt_prefix(s, sh, lg, d + 1, pow2(lg));
    let all = dealt(s, sh, lg, pow2(lg));
    let g = group(s, sh, lg, d);
    let n = dealt(s, sh, lg, d).len();
    assert(all.take((n + g.len()) as int) == dealt(s, sh, lg, d) + g);
    assert forall|i: int| 0 <= i < g.len() implies #[trigger] region(all, s, g.len(), sh, lg, d)[i]
        == g[i] by {
        assert(all.take((n + g.len()) as int)[n + i] == g[i]);
    }
    assert(region(all, s, g.len(), sh, lg, d) =~= g);
}

/// What is dealt for the digits below `j` is a prefix of what is dealt for those below `k`.
proof fn lemma_dealt_prefix(s: Seq<u64>, sh: nat, lg: nat, j: nat, k: nat)
    requires
        j <= k,
    ensures
        dealt(s, sh, lg, j).len() <= dealt(s, sh, lg, k).len(),
        dealt(s, sh, lg, k).take(dealt(s, sh, lg, j).len() as int) == dealt(s, sh, lg, j),
    decreases k - j,
{
    let a = dealt(s, sh, lg, j);
    if j < k {
        lemma_dealt_prefix(s, sh, lg, j, (k - 1) as nat);
        let b = dealt(s, sh, lg, (k - 1) as nat);
        assert(dealt(s, sh, lg, k).take(a.len() as int) =~= b.take(a.len() as int));
    } else {
        assert(a.take(a.len() as int) =~= a);
    }
}

/// The words of one bucket, sorted by their low `num_bits`.
fn sort_bucket(words: &[u64], num_bits: u32, lg: u32) -> (r: Vec<u64>)
    requires
        num_bits <= 64,
        1 <= lg <= 16,
    ensures
        r@.len() == words@.len(),
        r@.to_multiset() == words@.to_multiset(),
        agree_above(words@, num_bits as nat) ==> sorted(r@),
{
    let mut a: Vec<u64> = vstd::slice::slice_to_vec(words);
    let mut b: Vec<u64> = vec![0u64; words.len()];
    sort_sequential(a.as_mut_slice(), b.as_mut_slice(), false, num_bits, lg);
    a
}

/// Writes `from` to the places of `to` that start at `at`.
fn copy_at(from: &Vec<u64>, to: &mut [u64], at: usize)
    requires
        at + from@.len() <= old(to)@.len(),
    ensures
        final(to)@.len() == old(to)@.len(),
        final(to)@.subrange(at as int, at + from@.len()) == from@,
        forall|k: int|
            0 <= k < old(to)@.len() && !(at <= k < at + from@.len()) ==> #[trigger] final(to)@[k]
                == old(to)@[k],
{
    let ghost t0 = to@;
    assert(t0.len() == to.len());
    let mut i: usize = 0;
    while i < from.len()
        invariant
            i <= from@.len(),
            at + from@.len() <= t0.len() <= usize::MAX,
            to@.len() == t0.len(),
            forall|k: int| 0 <= k < i ==> to@[at + k] == #[trigger] from@[k],
            forall|k: int|
                0 <= k < t0.len() && !(at <= k < at + from@.len()) ==> #[trigger] to@[k] == t0[k],
        decreases from@.len() - i,
    {
        to[at + i] = from[i];
        i += 1;
    }
    assert(to@.subrange(at as int, at + from@.len()) =~= from@);
}

/// All words agree above their 64 bits.
pub proof fn lemma_all_agree_above_64(s: Seq<u64>)
    ensures
        agree_above(s, 64),
{
    lemma2_to64_rest();
    assert forall|i: int, j: int| 0 <= i < s.len() && 0 <= j < s.len() implies #[trigger] s[i] as nat
        / pow2(64) == #[trigger] s[j] as nat / pow2(64) by {
        lemma_basic_div(s[i] as int, pow2(64) as int);
        lemma_basic_div(s[j] as int, pow2(64) as int);
    }
}

/// Words below 2^`nb` agree above their low `nb` bits: sorting by those bits sorts them.
pub proof fn law_fitting_words_agree(s: Seq<u64>, nb: nat)
    requires
        forall|i: int| 0 <= i < s.len() ==> #[trigger] s[i] < pow2(nb),
    ensures
        agree_above(s, nb),
{
    assert forall|i: int, j: int| 0 <= i < s.len() && 0 <= j < s.len() implies #[trigger] s[i] as nat
        / pow2(nb) == #[trigger] s[j] as nat / pow2(nb) by {
        lemma_basic_div(s[i] as int, pow2(nb) as int);
        lemma_basic_div(s[j] as int, pow2(nb) as int);
    }
}

/// At most this many words can be sorted.
pub const MAX_SORT_LEN: u64 = 0x100_0000_0000;

/// Chunks of the parallel phases are no smaller than this, and so much data is needed for them.
const MIN_PAR_CHUNK_SIZE: usize = 1024 * 1024;

/// What the parallel sort is tuned by.
#[derive(Clone, Copy)]
pub struct SortTuning {
    /// Digit width of the first pass, which determines how many buckets are sorted in parallel.
    pub msd_lg_radix: u32,
    /// Upper bound on the chunks in which the first pass counts digits.
    pub max_par_chunks: usize,
    /// Digit width of the passes that sort each bucket.
    pub lsd_lg_radix: u32,
}

impl SortTuning {
    /// The widths and the bound are within what the sort supports.
    pub open spec fn valid(self) -> bool {
        &&& 1 <= self.msd_lg_radix <= 16
        &&& 1 <= self.max_par_chunks <= 1024
        &&& 1 <= self.lsd_lg_radix <= 16
    }
}

impl Default for SortTuning {
    fn default() -> (tuning: Self)
        ensures
            tuning.valid(),
            tuning.msd_lg_radix == 11,
            tuning.max_par_chunks == 1024,
            tuning.lsd_lg_radix == 8,
    {
        SortTuning { msd_lg_radix: 11, max_par_chunks: 1024, lsd_lg_radix: 8 }
    }
}

/// Sorts `data`, whose words have their significant bits in the low `num_bits`, using `scratch`
/// (at least as long as `data`) as working space.
///
/// It always permutes the words, and sorts them if they agree from bit `num_bits` up, in
/// particular if they are all below 2^`num_bits`, or if they are few. What `scratch` has beyond the
/// length of `data` is left alone.
pub fn sort_uniform_u64s(data: &mut [u64], num_bits: u32, scratch: &mut [u64])
    requires
        old(data)@.len() <= MAX_SORT_LEN,
        old(scratch)@.len() >= old(data)@.len(),
    ensures
        final(data)@.len() == old(data)@.len(),
        final(scratch)@.len() == old(scratch)@.len(),
        final(data)@.to_multiset() == old(data)@.to_multiset(),
        agree_above(old(data)@, num_bits as nat) ==> sorted(final(data)@),
        old(data)@.len() <= SMALL_SORT_LEN ==> sorted(final(data)@),
        final(scratch)@.skip(old(data)@.len() as int) == old(scratch)@.skip(
            old(data)@.len() as int,
        ),
{
    let tuning = SortTuning::default();
    sort_uniform_u64s_tuned(data, num_bits, scratch, tuning);
}

/// [`sort_uniform_u64s`] with other digit widths and chunk counts than the default ones.
pub fn sort_uniform_u64s_tuned(
    data: &mut [u64],
    num_bits: u32,
    scratch: &mut [u64],
    tuning: SortTuning,
)
    requires
        old(data)@.len() <= MAX_SORT_LEN,
        old(scratch)@.len() >= old(data)@.len(),
        tuning.valid(),
    ensures
        final(data)@.len() == old(data)@.len(),
        final(scratch)@.len() == old(scratch)@.len(),
        final(data)@.to_multiset() == old(data)@.to_multiset(),
        agree_above(old(data)@, num_bits as nat) ==> sorted(final(data)@),
        old(data)@.len() <= SMALL_SORT_LEN ==> sorted(final(data)@),
        final(scratch)@.skip(old(data)@.len() as int) == old(scratch)@.skip(
            old(data)@.len() as int,
        ),
{
    let bits: u32 = if num_bits > 64 {
        64
    } else {
        num_bits
    };
    proof {
        lemma_all_agree_above_64(data@);
    }
    let len: usize = data.len();
    let (work, _rest) = scratch.split_at_mut(len);
    if len < MIN_PAR_CHUNK_SIZE {
        sort_sequential(data, work, false, bits, tuning.lsd_lg_radix);
    } else {
        let shift: u32 = if bits > tuning.msd_lg_radix {
            bits - tuning.msd_lg_radix
        } else {
            0
        };
        sort_by_buckets(data, work, bits, shift, tuning);
    }
    assert(scratch@.skip(len as int) =~= old(scratch)@.skip(len as int));
}

/// Deals the words of `data` by their digit at bit `shift` into buckets, in `scratch`, and sorts
/// each bucket by its low `shift` bits back into `data`, the buckets in parallel.
fn sort_by_buckets(
    data: &mut [u64],
    scratch: &mut [u64],
    num_bits: u32,
    shift: u32,
    tuning: SortTuning,
)
    requires
        old(scratch)@.len() == old(data)@.len(),
        tuning.valid(),
        shift < 64,
        num_bits <= shift + tuning.msd_lg_radix,
    ensures
        final(data)@.len() == old(data)@.len(),
        final(scratch)@.len() == old(data)@.len(),
        final(data)@.to_multiset() == old(data)@.to_multiset(),
        agree_above(old(data)@, num_bits as nat) ==> sorted(final(data)@),
{
    let ghost s = data@;
    let lg: u32 = tuning.msd_lg_radix;
    let lsd: u32 = tuning.lsd_lg_radix;
    let ghost sn = shift as nat;
    let ghost ln = lg as nat;
    let ghost r = pow2(ln) as int;
    assert(s.len() == data.len());
    let counts: Vec<usize> = par_histogram(
        data,
        shift,
        lg,
        MIN_PAR_CHUNK_SIZE,
        tuning.max_par_chunks,
    );
    deal(data, scratch, &counts, shift, lg);
    let starts: Vec<usize> = group_starts(&counts, Ghost(s), Ghost(sn), Ghost(ln));
    let words: &[u64] = scratch;
    let mut bounds: Vec<(usize, usize)> = Vec::new();
    let mut d: usize = 0;
    proof {
        lemma_dealt_perm(s, sn, ln);
    }
    while d < counts.len()
        invariant
            d <= counts@.len(),
            counts@.len() == starts@.len() == r,
            r == pow2(ln),
            words@ == dealt(s, sn, ln, pow2(ln)),
            words@.len() == s.len(),
            s.len() <= usize::MAX,
            counts_digits(counts@, s, sn, ln),
            forall|e: int| 0 <= e < r ==> #[trigger] starts@[e] == dealt(s, sn, ln, e as nat).len(),
            bounds@.len() == d,
            forall|e: int|
                0 <= e < d ==> {
                    &&& (#[trigger] bounds@[e]).0 <= bounds@[e].1 <= words@.len()
                    &&& bounds@[e].0 == dealt(s, sn, ln, e as nat).len()
                    &&& bounds@[e].1 == dealt(s, sn, ln, e as nat).len() + group(
                        s,
                        sn,
                        ln,
                        e as nat,
                    ).len()
                },
        decreases counts@.len() - d,
    {
        proof {
            lemma_dealt_region(s, sn, ln, d as nat);
            let di = d as int;
            assert(counts@[di] == group(s, sn, ln, di as nat).len());
            assert(starts@[di] == dealt(s, sn, ln, di as nat).len());
        }
        bounds.push((starts[d], starts[d] + counts[d]));
        d += 1;
    }
    let sort_one = |c: &(usize, usize)| -> (r: Vec<u64>)
        requires
            c.0 <= c.1 <= words@.len(),
        ensures
            r@.len() == c.1 - c.0,
            r@.to_multiset() == words@.subrange(c.0 as int, c.1 as int).to_multiset(),
            agree_above(words@.subrange(c.0 as int, c.1 as int), sn) ==> sorted(r@),
        { sort_bucket(vstd::slice::slice_subrange(words, c.0, c.1), shift, lsd) };
    let buckets: Vec<Vec<u64>> = outside::par_map(bounds.as_slice(), sort_one);

    let mut b: usize = 0;
    proof {
        assert forall|e: int| 0 <= e < r implies {
            &&& (#[trigger] buckets@[e])@.len() == group(s, sn, ln, e as nat).len()
            &&& buckets@[e]@.to_multiset() == group(s, sn, ln, e as nat).to_multiset()
            &&& agree_above(group(s, sn, ln, e as nat), sn) ==> sorted(buckets@[e]@)
        } by {
            lemma_dealt_region(s, sn, ln, e as nat);
            assert(bounds@[e].1 - bounds@[e].0 == group(s, sn, ln, e as nat).len());
            assert(words@.subrange(bounds@[e].0 as int, bounds@[e].1 as int) == region(
                words@,
                s,
                group(s, sn, ln, e as nat).len(),
                sn,
                ln,
                e as nat,
            ));
        }
    }
    while b < buckets.len()
        invariant
            b <= buckets@.len(),
            buckets@.len() == bounds@.len() == r,
            r == pow2(ln),
            data@.len() == s.len(),
            dealt(s, sn, ln, pow2(ln)).len() == s.len(),
            forall|e: int|
                0 <= e < r ==> {
                    &&& (#[trigger] bounds@[e]).0 == dealt(s, sn, ln, e as nat).len()
                    &&& bounds@[e].1 == dealt(s, sn, ln, e as nat).len() + group(
                        s,
                        sn,
                        ln,
                        e as nat,
                    ).len()
                },
            forall|e: int|
                0 <= e < r ==> (#[trigger] buckets@[e])@.len() == group(s, sn, ln, e as nat).len(),
            forall|e: int|
                0 <= e < b ==> region(
                    data@,
                    s,
                    group(s, sn, ln, e as nat).len(),
                    sn,
                    ln,
                    e as nat,
                ) == (#[trigger] buckets@[e])@,
        decreases buckets@.len() - b,
    {
        let ghost data0 = data@;
        let ghost bi = b as int;
        proof {
            assert(0 <= bi < r);
            assert(bounds@[bi].0 == dealt(s, sn, ln, bi as nat).len());
            lemma_dealt_region(s, sn, ln, bi as nat);
            assert(buckets@[bi]@.len() == group(s, sn, ln, bi as nat).len());
        }
        copy_at(&buckets[b], data, bounds[b].0);
        proof {
            assert forall|e: int| 0 <= e < b + 1 implies region(
                data@,
                s,
                group(s, sn, ln, e as nat).len(),
                sn,
                ln,
                e as nat,
            ) == (#[trigger] buckets@[e])@ by {
                if e < b {
                    lemma_dealt_len_monotone(s, sn, ln, e as nat, bi as nat);
                    let n = group(s, sn, ln, e as nat).len();
                    assert(region(data0, s, n, sn, ln, e as nat) == buckets@[e]@);
                    assert(region(data@, s, n, sn, ln, e as nat) =~= region(
                        data0,
                        s,
                        n,
                        sn,
                        ln,
                        e as nat,
                    ));
                }
            }
        }
        b += 1;
    }
    proof {
        assert forall|e: int| 0 <= e < r implies #[trigger] same_group(
            data@,
            s,
            sn,
            ln,
            e as nat,
        ) by {
            assert(region(data@, s, group(s, sn, ln, e as nat).len(), sn, ln, e as nat)
                == buckets@[e]@);
        }
        lemma_regions_perm(data@, s, sn, ln, pow2(ln));
        assert(data@.take(s.len() as int) =~= data@);
        if agree_above(s, num_bits as nat) {
            lemma_agree_above(s, s, num_bits as nat, sn + ln);
            assert forall|e: int| 0 <= e < r implies #[trigger] holds_group(
                data@,
                s,
                s,
                sn,
                ln,
                e as nat,
            ) by {
                lemma_group_agrees(s, sn, ln, e as nat);
                assert(region(data@, s, group(s, sn, ln, e as nat).len(), sn, ln, e as nat)
                    == buckets@[e]@);
            }
            lemma_regions_assemble(data@, s, sn, ln, pow2(ln));
            lemma_agree_above(s, data@, num_bits as nat, sn + ln);
            lemma_sorted_by_digit(data@, sn, ln);
        }
    }
}

/// The number that decimal digits make.
pub open spec fn decimal_value(s: Seq<char>) -> nat
    decreases s.len(),
{
    if s.len() == 0 {
        0
    } else {
        (decimal_value(s.drop_last()) * 10 + (s.last() as nat - 48)) as nat
    }
}

/// All the characters are decimal digits.
pub open spec fn all_digits(s: Seq<char>) -> bool {
    forall|i: int| 0 <= i < s.len() ==> 48 <= (#[trigger] s[i]) as nat <= 57
}

/// More digits make no smaller number.
proof fn lemma_decimal_grows(s: Seq<char>, k: int)
    requires
        0 <= k <= s.len(),
        all_digits(s),
    ensures
        decimal_value(s.take(k)) <= decimal_value(s),
    decreases s.len() - k,
{
    if k < s.len() {
        lemma_decimal_grows(s, k + 1);
        assert(s.take(k + 1).drop_last() =~= s.take(k));
        assert(s.take(k + 1).last() == s[k]);
    } else {
        assert(s.take(k) =~= s);
    }
}

/// A decimal override of a tuning parameter, or its default where there is none.
pub fn tunable(s: Option<&str>, default: usize) -> (r: usize)
    requires
        s matches Some(digits) ==> all_digits(digits@) && decimal_value(digits@) <= usize::MAX,
    ensures
        r == (match s {
            None => default as nat,
            Some(digits) => decimal_value(digits@),
        }),
{
    match s {
        None => default,
        Some(digits) => {
            let n: usize = digits.unicode_len();
            let mut v: usize = 0;
            let mut i: usize = 0;
            assert(digits@.take(0) =~= Seq::<char>::empty());
            while i < n
                invariant
                    i <= n == digits@.len(),
                    all_digits(digits@),
                    decimal_value(digits@) <= usize::MAX,
                    v == decimal_value(digits@.take(i as int)),
                decreases n - i,
            {
                proof {
                    lemma_decimal_grows(digits@, i + 1);
                    assert(digits@.take(i + 1).drop_last() =~= digits@.take(i as int));
                    assert(48 <= digits@[i as int] as nat <= 57);
                }
                let c = digits.get_char(i);
                v = v * 10 + (c as u32 - 48) as usize;
                i += 1;
            }
            assert(digits@.take(n as int) =~= digits@);
            v
        },
    }
}

/// There is only one order in which words are sorted.
pub proof fn law_sorted_order_is_unique(a: Seq<u64>, b: Seq<u64>)
    requires
        sorted(a),
        sorted(b),
        a.to_multiset() == b.to_multiset(),
    ensures
        a == b,
{
    let leq = |x: u64, y: u64| x <= y;
    vstd::seq_lib::lemma_sorted_unique(a, b, leq);
}

/// A sorted sequence never decreases from one word to the next.
pub proof fn law_sorted_words(s: Seq<u64>, i: int)
    requires
        sorted(s),
        0 <= i < s.len() - 1,
    ensures
        s[i] <= s[i + 1],
{
}

/// Sorting leaves the words in ascending order, whatever the tuning is, if there are few of them or
/// they are all below 2^`num_bits`.
pub proof fn law_sort_uniform(
    data: &mut [u64],
    num_bits: u32,
    scratch: &mut [u64],
    tuning: SortTuning,
)
    requires
        ({
            ||| call_ensures(sort_uniform_u64s_tuned, (data, num_bits, scratch, tuning), ())
            ||| call_ensures(sort_uniform_u64s, (data, num_bits, scratch), ())
        }),
        old(data)@.len() <= 256 || forall|i: int|
            0 <= i < old(data)@.len() ==> (#[trigger] old(data)@[i]) as nat <= pow2(num_bits as nat)
                - 1,
    ensures
        final(data)@.to_multiset() == old(data)@.to_multiset(),
        forall|i: int, j: int|
            0 <= i < j < final(data)@.len() ==> #[trigger] final(data)@[i]
                <= #[trigger] final(data)@[j],
{
    if old(data)@.len() > 256 {
        assert forall|i: int| 0 <= i < old(data)@.len() implies (#[trigger] old(data)@[i]) < pow2(
            num_bits as nat,
        ) by {}
        law_fitting_words_agree(old(data)@, num_bits as nat);
    }
}

/// One decimal digit more multiplies a number by ten and adds the digit.
pub proof fn law_decimal_value(s: Seq<char>, c: char)
    requires
        '0' as nat <= c as nat <= '9' as nat,
    ensures
        decimal_value(Seq::<char>::empty()) == 0,
        decimal_value(s.push(c)) == decimal_value(s) * 10 + (c as nat - '0' as nat),
{
    assert(s.push(c).drop_last() =~= s);
}

} // verus!
