//! What the tests count: points that collide, in a multiset of cell indices.

use crate::seqs;
use vstd::multiset::Multiset;
use vstd::prelude::*;

verus! {

broadcast use {vstd::multiset::group_multiset_axioms, vstd::seq_lib::group_to_multiset_ensures};

/// The number of collisions when the points of `m` are thrown one after the other: every point
/// but the first of each value falls on a cell that is taken.
pub open spec fn collisions(m: Multiset<nat>) -> nat {
    (m.len() - m.dom().len()) as nat
}

/// `s` never decreases.
pub open spec fn ascending(s: Seq<nat>) -> bool {
    forall|i: int, j: int| 0 <= i < j < s.len() ==> #[trigger] s[i] <= #[trigger] s[j]
}

/// The number of places at which an element of `s` equals the next one.
pub open spec fn equal_neighbours(s: Seq<nat>) -> nat
    decreases s.len(),
{
    if s.len() < 2 {
        0
    } else {
        equal_neighbours(s.drop_last()) + (if s[s.len() - 2] == s.last() {
            1nat
        } else {
            0nat
        })
    }
}

/// There are no more distinct values than points.
pub proof fn lemma_distinct_bound(m: Multiset<nat>)
    ensures
        m.dom().finite(),
        m.dom().len() <= m.len(),
    decreases m.len(),
{
    if m.len() > 0 {
        let x = m.choose();
        assert(m.count(x) > 0);
        let rest = m.remove(x);
        assert(rest.len() == m.len() - 1);
        lemma_distinct_bound(rest);
        if rest.count(x) > 0 {
            assert(m.dom() =~= rest.dom());
        } else {
            assert(m.dom() =~= rest.dom().insert(x));
        }
    } else {
        assert(m.dom() =~= Set::<nat>::empty()) by {
            assert forall|x: nat| !m.dom().contains(x) by {
                assert(m.count(x) <= m.len());
            }
        }
    }
}

/// A point that is thrown collides if and only if one with its value was thrown before.
pub proof fn lemma_collisions_insert(m: Multiset<nat>, x: nat)
    ensures
        collisions(m.insert(x)) == collisions(m) + (if m.count(x) > 0 {
            1nat
        } else {
            0nat
        }),
{
    lemma_distinct_bound(m);
    lemma_distinct_bound(m.insert(x));
    if m.count(x) > 0 {
        assert(m.insert(x).dom() =~= m.dom());
    } else {
        assert(m.insert(x).dom() =~= m.dom().insert(x));
    }
}

/// Points of two multisets without a common value collide only among themselves.
pub proof fn lemma_collisions_disjoint(a: Multiset<nat>, b: Multiset<nat>)
    requires
        forall|x: nat| a.count(x) == 0 || b.count(x) == 0,
    ensures
        collisions(a.add(b)) == collisions(a) + collisions(b),
{
    lemma_distinct_bound(a);
    lemma_distinct_bound(b);
    assert(a.add(b).dom() =~= a.dom().union(b.dom()));
    assert(a.dom().disjoint(b.dom()));
    vstd::set_lib::lemma_set_disjoint_lens(a.dom(), b.dom());
}

/// In ascending order, equal points are neighbours: counting equal neighbours counts collisions.
pub proof fn lemma_equal_neighbours_collide(s: Seq<nat>)
    requires
        ascending(s),
    ensures
        equal_neighbours(s) == collisions(s.to_multiset()),
    decreases s.len(),
{
    if s.len() == 0 {
        lemma_distinct_bound(s.to_multiset());
    } else {
        let init = s.drop_last();
        assert(ascending(init)) by {
            assert forall|i: int, j: int| 0 <= i < j < init.len() implies #[trigger] init[i]
                <= #[trigger] init[j] by {
                assert(init[i] == s[i] && init[j] == s[j]);
            }
        }
        lemma_equal_neighbours_collide(init);
        assert(s =~= init.push(s.last()));
        lemma_collisions_insert(init.to_multiset(), s.last());
        if init.to_multiset().count(s.last()) > 0 {
            let k = choose|k: int| 0 <= k < init.len() && init[k] == s.last();
            assert(s[k] <= s[s.len() - 2] || k == s.len() - 2);
            assert(s[s.len() - 2] <= s[s.len() - 1]);
        } else if s.len() >= 2 {
            assert(init[s.len() - 2] == s[s.len() - 2]);
            assert(init.contains(init[s.len() - 2]));
        }
    }
}

/// 1 where the parts `a` and `b` meet in equal elements, else 0.
pub open spec fn border(a: Seq<nat>, b: Seq<nat>) -> nat {
    if a.len() > 0 && b.len() > 0 && a.last() == b.first() {
        1
    } else {
        0
    }
}

/// Equal neighbours lie within one of two parts, or where the parts meet.
pub proof fn lemma_equal_neighbours_concat(a: Seq<nat>, b: Seq<nat>)
    ensures
        equal_neighbours(a + b) == equal_neighbours(a) + border(a, b) + equal_neighbours(b),
    decreases b.len(),
{
    if b.len() == 0 {
        assert(a + b =~= a);
    } else {
        let init = b.drop_last();
        lemma_equal_neighbours_concat(a, init);
        assert((a + b).drop_last() =~= a + init);
        if b.len() == 1 {
            assert(a + init =~= a);
        } else {
            assert((a + b)[(a + b).len() - 2] == b[b.len() - 2]);
            assert(init.first() == b.first());
        }
    }
}

/// Whether the `key` of a point is `k`.
pub open spec fn has_key(key: spec_fn(nat) -> nat, k: nat) -> spec_fn(nat) -> bool {
    |x: nat| key(x) == k
}

/// The points of `m` whose `key` is `k`.
pub open spec fn class(m: Multiset<nat>, key: spec_fn(nat) -> nat, k: nat) -> Multiset<nat> {
    m.filter(has_key(key, k))
}

/// The collisions within each of the classes `lo..hi`, added up.
pub open spec fn class_collisions(
    m: Multiset<nat>,
    key: spec_fn(nat) -> nat,
    lo: nat,
    hi: nat,
) -> nat
    decreases hi,
{
    if hi <= lo {
        0
    } else {
        class_collisions(m, key, lo, (hi - 1) as nat) + collisions(class(m, key, (hi - 1) as nat))
    }
}

/// The points in each of the classes `lo..hi`, added up.
pub open spec fn class_points(
    m: Multiset<nat>,
    key: spec_fn(nat) -> nat,
    lo: nat,
    hi: nat,
) -> nat
    decreases hi,
{
    if hi <= lo {
        0
    } else {
        class_points(m, key, lo, (hi - 1) as nat) + class(m, key, (hi - 1) as nat).len()
    }
}

proof fn lemma_classes_below(m: Multiset<nat>, key: spec_fn(nat) -> nat, n: nat)
    ensures
        class_collisions(m, key, 0, n) == collisions(m.filter(|x: nat| key(x) < n)),
        class_points(m, key, 0, n) == m.filter(|x: nat| key(x) < n).len(),
    decreases n,
{
    if n == 0 {
        let none = m.filter(|x: nat| key(x) < n);
        assert(none =~= Multiset::<nat>::empty());
        lemma_distinct_bound(none);
    } else {
        let k = (n - 1) as nat;
        lemma_classes_below(m, key, k);
        let a = m.filter(|x: nat| key(x) < k);
        let b = class(m, key, k);
        assert(m.filter(|x: nat| key(x) < n) =~= a.add(b));
        lemma_collisions_disjoint(a, b);
    }
}

/// Points that are split into classes by any key collide within the classes as often as they do
/// altogether: the classes can be counted one at a time.
pub proof fn law_classes_add_up(m: Multiset<nat>, key: spec_fn(nat) -> nat, n: nat)
    requires
        forall|x: nat| #[trigger] m.count(x) > 0 ==> key(x) < n,
    ensures
        class_collisions(m, key, 0, n) == collisions(m),
        class_points(m, key, 0, n) == m.len(),
{
    lemma_classes_below(m, key, n);
    assert(m.filter(|x: nat| key(x) < n) =~= m);
}

/// The sums over classes can be cut at any class.
pub proof fn lemma_classes_cut(
    m: Multiset<nat>,
    key: spec_fn(nat) -> nat,
    lo: nat,
    mid: nat,
    hi: nat,
)
    requires
        lo <= mid <= hi,
    ensures
        class_collisions(m, key, lo, hi) == class_collisions(m, key, lo, mid) + class_collisions(
            m,
            key,
            mid,
            hi,
        ),
        class_points(m, key, lo, hi) == class_points(m, key, lo, mid) + class_points(
            m,
            key,
            mid,
            hi,
        ),
    decreases hi,
{
    if mid < hi {
        lemma_classes_cut(m, key, lo, mid, (hi - 1) as nat);
    }
}

/// The order of natural numbers.
pub open spec fn leq() -> spec_fn(nat, nat) -> bool {
    |a: nat, b: nat| a <= b
}

/// The elements of `s` in ascending order.
pub open spec fn in_ascending_order(s: Seq<nat>) -> Seq<nat> {
    s.sort_by(leq())
}

/// An ascending sequence with the elements of `s` is `s` in ascending order.
pub proof fn lemma_ascending_unique(t: Seq<nat>, s: Seq<nat>)
    requires
        ascending(t),
        t.to_multiset() == s.to_multiset(),
    ensures
        t == in_ascending_order(s),
{
    s.lemma_sort_by_ensures(leq());
    vstd::seq_lib::lemma_sorted_unique(t, in_ascending_order(s), leq());
}

/// Sorting permutes, and yields an ascending sequence.
pub proof fn lemma_in_ascending_order(s: Seq<nat>)
    ensures
        ascending(in_ascending_order(s)),
        in_ascending_order(s).to_multiset() == s.to_multiset(),
        in_ascending_order(s).len() == s.len(),
{
    s.lemma_sort_by_ensures(leq());
    let t = in_ascending_order(s);
    assert forall|i: int, j: int| 0 <= i < j < t.len() implies #[trigger] t[i]
        <= #[trigger] t[j] by {
        assert(leq()(t[i], t[j]));
    }
    assert(t.len() == t.to_multiset().len());
    assert(s.len() == s.to_multiset().len());
}

/// A filtered sequence is the class of its elements.
pub proof fn lemma_filter_is_class(s: Seq<nat>, key: spec_fn(nat) -> nat, k: nat)
    ensures
        s.filter(has_key(key, k)).to_multiset() == class(s.to_multiset(), key, k),
        s.filter(has_key(key, k)).len() == class(s.to_multiset(), key, k).len(),
{
    seqs::lemma_filter_multiset(s, has_key(key, k));
    let f = s.filter(has_key(key, k));
    assert(f.len() == f.to_multiset().len());
}

/// Every point either is the first one in its cell or collides: the collisions and the cells that
/// are taken add up to the points.
pub proof fn law_collisions_and_taken_cells(s: Seq<nat>)
    ensures
        collisions(s.to_multiset()) + s.to_set().len() == s.len(),
{
    let m = s.to_multiset();
    lemma_distinct_bound(m);
    assert(m.dom() =~= s.to_set());
    assert(s.len() == m.len());
}

/// Points are thrown one after the other, and each one collides if and only if its cell is taken
/// already.
pub proof fn law_point_collides_if_cell_is_taken(s: Seq<nat>, x: nat)
    ensures
        collisions(Seq::<nat>::empty().to_multiset()) == 0,
        collisions(s.push(x).to_multiset()) == collisions(s.to_multiset()) + (if s.contains(x) {
            1nat
        } else {
            0nat
        }),
{
    law_collisions_and_taken_cells(Seq::<nat>::empty());
    lemma_collisions_insert(s.to_multiset(), x);
    assert(s.contains(x) <==> s.to_multiset().count(x) > 0);
}

/// A class has the points with its key, as often as they occur, and no others.
pub proof fn law_class_has_its_key(m: Multiset<nat>, key: spec_fn(nat) -> nat, k: nat, x: nat)
    ensures
        class(m, key, k).count(x) == (if key(x) == k {
            m.count(x)
        } else {
            0nat
        }),
{
}

/// The sums over some classes are the collisions among the points with their keys, and the number
/// of those points.
pub proof fn law_classes_between(m: Multiset<nat>, key: spec_fn(nat) -> nat, lo: nat, hi: nat)
    ensures
        ({
            let part = m.filter(|x: nat| lo <= key(x) && key(x) < hi);
            &&& class_collisions(m, key, lo, hi) == collisions(part)
            &&& class_points(m, key, lo, hi) == part.len()
        }),
    decreases hi,
{
    let part = m.filter(|x: nat| lo <= key(x) && key(x) < hi);
    if hi <= lo {
        assert(part =~= Multiset::<nat>::empty());
        lemma_distinct_bound(part);
    } else {
        let k = (hi - 1) as nat;
        law_classes_between(m, key, lo, k);
        let a = m.filter(|x: nat| lo <= key(x) && key(x) < k);
        let b = class(m, key, k);
        assert(part =~= a.add(b));
        lemma_collisions_disjoint(a, b);
    }
}

/// A sequence is ascending if and only if no element is greater than the next one.
pub proof fn law_ascending_by_neighbours(s: Seq<nat>)
    ensures
        ascending(s) <==> forall|i: int, j: int|
            0 <= i < j < s.len() && j == i + 1 ==> #[trigger] s[i] <= #[trigger] s[j],
    decreases s.len(),
{
    if s.len() > 1 && (forall|i: int, j: int|
        0 <= i < j < s.len() && j == i + 1 ==> #[trigger] s[i] <= #[trigger] s[j]) {
        let init = s.drop_last();
        assert forall|i: int, j: int|
            0 <= i < j < init.len() && j == i + 1 implies #[trigger] init[i]
            <= #[trigger] init[j] by {
            assert(init[i] == s[i] && init[j] == s[j]);
        }
        law_ascending_by_neighbours(init);
        let last = s.len() - 1;
        assert(s[last - 1] <= s[last]);
        assert forall|i: int, j: int| 0 <= i < j < s.len() implies #[trigger] s[i]
            <= #[trigger] s[j] by {
            if j < last {
                assert(init[i] <= init[j]);
            } else if i < last - 1 {
                assert(init[i] <= init[last - 1]);
            }
        }
    }
}

/// The equal neighbours of a sequence are the places at which the next element is the same.
pub proof fn law_equal_neighbours_are_places(s: Seq<nat>)
    requires
        s.len() > 0,
    ensures
        equal_neighbours(s) == Seq::new((s.len() - 1) as nat, |i: int| i).filter(
            |i: int| s[i] == s[i + 1],
        ).len(),
    decreases s.len(),
{
    let here = |i: int| s[i] == s[i + 1];
    let places = Seq::new((s.len() - 1) as nat, |i: int| i);
    if s.len() == 1 {
        reveal(Seq::filter);
        assert(places.filter(here).len() == 0);
    } else {
        let init = s.drop_last();
        law_equal_neighbours_are_places(init);
        let fewer = Seq::new((init.len() - 1) as nat, |i: int| i);
        let there = |i: int| init[i] == init[i + 1];
        assert(places =~= fewer.push(s.len() - 2));
        fewer.lemma_filter_push(s.len() - 2, here);
        seqs::lemma_filter_agree(fewer, here, there);
    }
}

} // verus!
