//! Facts about filtered, merged and sorted sequences.

use vstd::prelude::*;

verus! {

broadcast use {vstd::multiset::group_multiset_axioms, vstd::seq_lib::group_to_multiset_ensures};

/// `s` never decreases when its elements are measured by `key`.
pub open spec fn ascending_by<A>(s: Seq<A>, key: spec_fn(A) -> nat) -> bool {
    forall|i: int, j: int| 0 <= i < j < s.len() ==> key(#[trigger] s[i]) <= key(#[trigger] s[j])
}

/// Filtering a sequence filters the multiset of its elements.
pub proof fn lemma_filter_multiset<A>(s: Seq<A>, p: spec_fn(A) -> bool)
    ensures
        s.filter(p).to_multiset() == s.to_multiset().filter(p),
    decreases s.len(),
{
    reveal(Seq::filter);
    if s.len() > 0 {
        let init = s.drop_last();
        lemma_filter_multiset(init, p);
        assert(s == init.push(s.last()));
        assert(s.to_multiset() == init.to_multiset().insert(s.last()));
        if p(s.last()) {
            assert(s.filter(p) == init.filter(p).push(s.last()));
        }
        assert(s.filter(p).to_multiset() =~= s.to_multiset().filter(p));
    } else {
        assert(s.filter(p).to_multiset() =~= s.to_multiset().filter(p));
    }
}

/// Everything that a filter keeps was in the sequence, and passes the filter.
pub proof fn lemma_filter_from<A>(s: Seq<A>, p: spec_fn(A) -> bool, x: A)
    requires
        s.filter(p).contains(x),
    ensures
        s.contains(x),
        p(x),
{
    lemma_filter_multiset(s, p);
    assert(s.filter(p).to_multiset().count(x) > 0);
}

/// A filter keeps the order of an ascending sequence.
pub proof fn lemma_filter_ascending<A>(s: Seq<A>, p: spec_fn(A) -> bool, key: spec_fn(A) -> nat)
    requires
        ascending_by(s, key),
    ensures
        ascending_by(s.filter(p), key),
    decreases s.len(),
{
    reveal(Seq::filter);
    if s.len() > 0 {
        let init = s.drop_last();
        assert(ascending_by(init, key)) by {
            assert forall|i: int, j: int| 0 <= i < j < init.len() implies key(#[trigger] init[i])
                <= key(#[trigger] init[j]) by {
                assert(init[i] == s[i] && init[j] == s[j]);
            }
        }
        lemma_filter_ascending(init, p, key);
        let f = init.filter(p);
        if p(s.last()) {
            assert forall|i: int, j: int| 0 <= i < j < f.push(s.last()).len() implies key(
                #[trigger] f.push(s.last())[i],
            ) <= key(#[trigger] f.push(s.last())[j]) by {
                if j == f.len() {
                    assert(f.contains(f[i]));
                    lemma_filter_from(init, p, f[i]);
                    let k = choose|k: int| 0 <= k < init.len() && init[k] == f[i];
                    assert(s[k] == f[i]);
                    assert(key(s[k]) <= key(s[s.len() - 1]));
                } else {
                    assert(f[i] == f.push(s.last())[i] && f[j] == f.push(s.last())[j]);
                }
            }
        }
    }
}

/// A filter of a prefix keeps at most what the filter of the whole keeps.
pub proof fn lemma_filter_take_len<A>(s: Seq<A>, p: spec_fn(A) -> bool, i: int)
    requires
        0 <= i <= s.len(),
    ensures
        s.take(i).filter(p).len() <= s.filter(p).len(),
        i < s.len() && p(s[i]) ==> s.take(i).filter(p).len() < s.filter(p).len(),
{
    assert(s == s.take(i) + s.skip(i));
    Seq::filter_distributes_over_add(s.take(i), s.skip(i), p);
    if i < s.len() && p(s[i]) {
        s.skip(i).lemma_filter_contains(p, 0);
        assert(s.skip(i)[0] == s[i]);
        assert(s.skip(i).filter(p).contains(s[i]));
    }
}

/// Two sequences with the same elements keep equally many under any filter.
pub proof fn lemma_filter_len_perm<A>(a: Seq<A>, b: Seq<A>, p: spec_fn(A) -> bool)
    requires
        a.to_multiset() == b.to_multiset(),
    ensures
        a.filter(p).len() == b.filter(p).len(),
{
    lemma_filter_multiset(a, p);
    lemma_filter_multiset(b, p);
    assert(a.filter(p).len() == a.filter(p).to_multiset().len());
    assert(b.filter(p).len() == b.filter(p).to_multiset().len());
}

/// Where a filter keeps exactly one range, it yields that range.
pub proof fn lemma_filter_range<A>(s: Seq<A>, p: spec_fn(A) -> bool, a: int, b: int)
    requires
        0 <= a <= b <= s.len(),
        forall|i: int| 0 <= i < s.len() ==> (p(#[trigger] s[i]) <==> a <= i < b),
    ensures
        s.filter(p) == s.subrange(a, b),
    decreases s.len(),
{
    reveal(Seq::filter);
    if s.len() > 0 {
        let init = s.drop_last();
        let n = init.len() as int;
        assert forall|i: int| 0 <= i < init.len() implies (p(#[trigger] init[i]) <==> (if a < n {
            a
        } else {
            n
        }) <= i < (if b < n {
            b
        } else {
            n
        })) by {
            assert(init[i] == s[i]);
        }
        lemma_filter_range(
            init,
            p,
            if a < n {
                a
            } else {
                n
            },
            if b < n {
                b
            } else {
                n
            },
        );
        assert(p(s[n]) <==> a <= n < b);
        if b == s.len() && a < b {
            assert(s.subrange(a, b) =~= init.subrange(a, n).push(s[n]));
        } else if a == s.len() {
            assert(s.subrange(a, b) =~= init.subrange(n, n));
        } else {
            assert(s.subrange(a, b) =~= init.subrange(a, b));
        }
    } else {
        assert(s.filter(p) =~= s.subrange(a, b));
    }
}

/// Filters that agree on the elements of a sequence leave the same of it.
pub proof fn lemma_filter_agree<A>(s: Seq<A>, p: spec_fn(A) -> bool, q: spec_fn(A) -> bool)
    requires
        forall|i: int| 0 <= i < s.len() ==> p(#[trigger] s[i]) == q(s[i]),
    ensures
        s.filter(p) == s.filter(q),
    decreases s.len(),
{
    reveal(Seq::filter);
    if s.len() > 0 {
        let init = s.drop_last();
        assert forall|i: int| 0 <= i < init.len() implies p(#[trigger] init[i]) == q(init[i]) by {
            assert(init[i] == s[i]);
        }
        lemma_filter_agree(init, p, q);
        assert(p(s[s.len() - 1]) == q(s[s.len() - 1]));
    }
}

} // verus!
