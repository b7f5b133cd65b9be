//! Counting collisions in sorted data, and merging sorted data.

use crate::cell;
use crate::cell::{Cell, Value};
use crate::chunks;
use crate::counting;
use crate::outside;
use crate::seqs;
use dary_heap::DaryHeap;
use std::cmp::Reverse;
use vstd::multiset::Multiset;
use vstd::prelude::*;

verus! {

broadcast use {vstd::multiset::group_multiset_axioms, vstd::seq_lib::group_to_multiset_ensures};

/// Equal neighbours are fewer than elements.
proof fn lemma_equal_neighbours_bound(s: Seq<nat>)
    ensures
        counting::equal_neighbours(s) <= s.len(),
    decreases s.len(),
{
    if s.len() >= 2 {
        lemma_equal_neighbours_bound(s.drop_last());
    }
}

/// Counts the equal neighbours of a slice on this thread.
fn count_within<T: Cell>(v: &[T]) -> (count: usize)
    ensures
        count == counting::equal_neighbours(cell::vals(v@)),
{
    let mut count: usize = 0;
    let mut i: usize = 1;
    if v.len() < 2 {
        return 0;
    }
    while i < v.len()
        invariant
            1 <= i <= v@.len(),
            count < i,
            count == counting::equal_neighbours(cell::vals(v@.take(i as int))),
        decreases v@.len() - i,
    {
        proof {
            let a = cell::vals(v@.take(i as int));
            let b = cell::vals(v@.take(i + 1));
            assert(b.drop_last() =~= a);
        }
        if v[i - 1].equals(v[i]) {
            count += 1;
        }
        i += 1;
    }
    assert(v@.take(v@.len() as int) =~= v@);
    count
}

/// Going on from `x` to `y` adds the equal neighbours between, and the pair at `x` if it is one.
proof fn lemma_count_step(s: Seq<nat>, x: int, y: int)
    requires
        0 <= x < y <= s.len(),
    ensures
        counting::equal_neighbours(s.take(y)) == counting::equal_neighbours(s.take(x)) + (if x > 0
            && s[x - 1] == s[x] {
            1nat
        } else {
            0nat
        }) + counting::equal_neighbours(s.subrange(x, y)),
        counting::equal_neighbours(s.take(y)) <= s.len(),
{
    assert(s.take(y) =~= s.take(x) + s.subrange(x, y));
    counting::lemma_equal_neighbours_concat(s.take(x), s.subrange(x, y));
    lemma_equal_neighbours_bound(s.take(y));
}

/// Counts adjacent equal pairs in a slice; in a sorted one they are the collisions.
///
/// Parallelized by contiguous chunks: each chunk counts the equal pairs inside it, and the one pair
/// straddling each chunk boundary is added back.
pub fn count_adjacent_equals<T: Cell>(v: &[T]) -> (count: usize)
    ensures
        count == counting::equal_neighbours(cell::vals(v@)),
        counting::ascending(cell::vals(v@)) ==> count == counting::collisions(
            cell::vals(v@).to_multiset(),
        ),
{
    proof {
        if counting::ascending(cell::vals(v@)) {
            counting::lemma_equal_neighbours_collide(cell::vals(v@));
        }
    }
    if v.len() < 2 {
        return 0;
    }
    let threads: usize = outside::pool_threads();
    let even: usize = if threads == 0 {
        v.len() / 10
    } else {
        v.len() / threads / 10
    };
    let size: usize = if even < 1024 {
        1024
    } else {
        even
    };
    let bounds: Vec<(usize, usize)> = chunks::chunk_bounds(v.len(), size);
    let ghost whole = cell::vals(v@);
    proof {
        assert forall|i: int| 0 <= i < bounds@.len() implies (#[trigger] bounds@[i]).0
            <= bounds@[i].1 <= v@.len() by {
            chunks::lemma_covers_end(bounds@, v@.len() as int, i);
        }
    }
    let count_chunk = |c: &(usize, usize)| -> (count: usize)
        requires
            c.0 <= c.1 <= v@.len(),
        ensures
            count == counting::equal_neighbours(
                cell::vals(v@.subrange(c.0 as int, c.1 as int)),
            ),
        { count_within(vstd::slice::slice_subrange(v, c.0, c.1)) };
    let within: Vec<usize> = outside::par_map(bounds.as_slice(), count_chunk);
    let mut total: usize = 0;
    let mut i: usize = 0;
    assert(whole.take(0) =~= Seq::<nat>::empty());
    proof {
        assert forall|j: int| 0 <= j < within@.len() implies #[trigger] within@[j]
            == counting::equal_neighbours(
            whole.subrange(bounds@[j].0 as int, bounds@[j].1 as int),
        ) by {
            assert(cell::vals(v@.subrange(bounds@[j].0 as int, bounds@[j].1 as int))
                =~= whole.subrange(bounds@[j].0 as int, bounds@[j].1 as int));
        }
    }
    while i < within.len()
        invariant
            i <= within@.len() == bounds@.len(),
            whole == cell::vals(v@),
            chunks::covers(bounds@, v@.len() as int),
            0 <= chunks::chunk_start(bounds@, i as int) <= v@.len(),
            forall|j: int|
                0 <= j < bounds@.len() ==> 0 < (#[trigger] bounds@[j]).1 - bounds@[j].0,
            forall|j: int|
                0 <= j < within@.len() ==> #[trigger] within@[j] == counting::equal_neighbours(
                    whole.subrange(bounds@[j].0 as int, bounds@[j].1 as int),
                ),
            total == counting::equal_neighbours(
                whole.take(chunks::chunk_start(bounds@, i as int)),
            ),
        decreases within@.len() - i,
    {
        let start: usize = bounds[i].0;
        proof {
            let k = i as int;
            chunks::lemma_covers_end(bounds@, v@.len() as int, k);
            assert(bounds@[k].0 == chunks::chunk_start(bounds@, k));
            assert(0 < bounds@[k].1 - bounds@[k].0);
            if k > 0 {
                assert(0 < bounds@[k - 1].1 - bounds@[k - 1].0);
            }
            lemma_count_step(whole, start as int, bounds@[k].1 as int);
            assert(within@[k] == counting::equal_neighbours(
                whole.subrange(bounds@[k].0 as int, bounds@[k].1 as int),
            ));
        }
        if i > 0 && v[start - 1].equals(v[start]) {
            total += 1;
        }
        total += within[i];
        i += 1;
    }
    assert(whole.take(v@.len() as int) =~= whole);
    total
}

/// Three-pointer right-to-left merge of `buf[..prefix_len]` with `src` into
/// `buf[..prefix_len + src.len()]`; where both are sorted, so is the result.
///
/// The write position is always above every element of the prefix that is still to be read, so
/// no other space is needed.
pub fn merge_into<T: Cell>(buf: &mut [T], prefix_len: usize, src: &[T])
    requires
        prefix_len + src@.len() <= old(buf)@.len(),
    ensures
        final(buf)@.len() == old(buf)@.len(),
        ({
            let total = prefix_len + src@.len();
            let prefix = cell::vals(old(buf)@.take(prefix_len as int));
            let merged = cell::vals(final(buf)@.take(total));
            &&& merged.to_multiset() == prefix.to_multiset().add(cell::vals(src@).to_multiset())
            &&& counting::ascending(prefix) && counting::ascending(cell::vals(src@))
                ==> counting::ascending(merged)
            &&& final(buf)@.skip(total) == old(buf)@.skip(total)
        }),
{
    let ghost b0 = buf@;
    let ghost total = prefix_len + src@.len();
    let ghost pre = cell::vals(b0.take(prefix_len as int));
    let ghost new = cell::vals(src@);
    let ghost sorted = counting::ascending(pre) && counting::ascending(new);
    assert(b0.len() == buf.len());
    let mut i: usize = prefix_len;
    let mut j: usize = src.len();
    let mut w: usize = i + j;
    assert(cell::vals(b0.subrange(w as int, total)) =~= Seq::<nat>::empty());
    assert(pre.skip(i as int) =~= Seq::<nat>::empty());
    assert(new.skip(j as int) =~= Seq::<nat>::empty());
    assert(cell::vals(buf@.subrange(w as int, total)).to_multiset() =~= pre.skip(
        i as int,
    ).to_multiset().add(new.skip(j as int).to_multiset()));
    while j > 0
        invariant
            i <= prefix_len,
            j <= src@.len(),
            w == i + j,
            total == prefix_len + src@.len() <= b0.len(),
            buf@.len() == b0.len(),
            pre == cell::vals(b0.take(prefix_len as int)),
            new == cell::vals(src@),
            sorted == (counting::ascending(pre) && counting::ascending(new)),
            forall|k: int| 0 <= k < i ==> #[trigger] buf@[k] == b0[k],
            buf@.skip(total) == b0.skip(total),
            cell::vals(buf@.subrange(w as int, total)).to_multiset() == pre.skip(
                i as int,
            ).to_multiset().add(new.skip(j as int).to_multiset()),
            sorted ==> counting::ascending(cell::vals(buf@.subrange(w as int, total))),
            sorted && w < total ==> (i > 0 ==> pre[i - 1] <= buf@[w as int].val()) && (j > 0
                ==> new[j - 1] <= buf@[w as int].val()),
        decreases i + j,
    {
        let ghost before = buf@;
        let ghost tail = cell::vals(before.subrange(w as int, total));
        w -= 1;
        if i > 0 && src[j - 1].at_most(buf[i - 1]) {
            i -= 1;
            buf[w] = buf[i];
            proof {
                let x = pre[i as int];
                assert(before[i as int] == b0[i as int]);
                assert(pre.skip(i as int) =~= seq![x] + pre.skip(i + 1));
                lemma_prepended(pre.skip(i + 1), x);
                lemma_merge_step(before, buf@, w as int, total, tail, x, sorted);
            }
        } else {
            j -= 1;
            buf[w] = src[j];
            proof {
                let x = new[j as int];
                assert(new.skip(j as int) =~= seq![x] + new.skip(j + 1));
                lemma_prepended(new.skip(j + 1), x);
                if i > 0 {
                    assert(before[i - 1] == b0[i - 1]);
                    assert(pre[i - 1] == b0[i - 1].val());
                }
                lemma_merge_step(before, buf@, w as int, total, tail, x, sorted);
            }
        }
        assert(buf@.skip(total) =~= before.skip(total));
    }
    proof {
        let merged = cell::vals(buf@.take(total));
        let low = pre.take(i as int);
        let high = cell::vals(buf@.subrange(w as int, total));
        assert(merged =~= low + high);
        assert(pre =~= low + pre.skip(i as int));
        vstd::seq_lib::lemma_multiset_commutative(low, high);
        vstd::seq_lib::lemma_multiset_commutative(low, pre.skip(i as int));
        assert(new.skip(0) =~= new);
        assert(merged.to_multiset() =~= pre.to_multiset().add(new.to_multiset()));
        if sorted {
            assert forall|x: int, y: int| 0 <= x < y < merged.len() implies #[trigger] merged[x]
                <= #[trigger] merged[y] by {
                if y < i {
                    assert(pre[x] <= pre[y]);
                } else if x < i {
                    assert(high[y - i] == merged[y]);
                    if y > i {
                        assert(high[0] <= high[y - i]);
                    }
                    assert(high[0] == buf@[w as int].val());
                    if x < i - 1 {
                        assert(pre[x] <= pre[i - 1]);
                    }
                } else {
                    assert(high[x - i] == merged[x] && high[y - i] == merged[y]);
                }
            }
        }
    }
}

/// Putting an element in front adds it.
proof fn lemma_prepended(s: Seq<nat>, x: nat)
    ensures
        (seq![x] + s).to_multiset() == s.to_multiset().insert(x),
{
    vstd::seq_lib::lemma_multiset_commutative(seq![x], s);
    assert(seq![x] =~= Seq::<nat>::empty().push(x));
    assert((seq![x] + s).to_multiset() =~= s.to_multiset().insert(x));
}

/// One step of the right-to-left merge puts `x` in front of what is merged.
proof fn lemma_merge_step<T: Value>(
    before: Seq<T>,
    after: Seq<T>,
    w: int,
    total: int,
    tail: Seq<nat>,
    x: nat,
    sorted: bool,
)
    requires
        0 <= w < total <= before.len(),
        after.len() == before.len(),
        forall|k: int| w < k < total ==> #[trigger] after[k] == before[k],
        after[w].val() == x,
        tail == cell::vals(before.subrange(w + 1, total)),
        sorted ==> counting::ascending(tail) && (tail.len() > 0 ==> x <= tail[0]),
    ensures
        cell::vals(after.subrange(w, total)).to_multiset() == tail.to_multiset().insert(x),
        sorted ==> counting::ascending(cell::vals(after.subrange(w, total))),
{
    let r = cell::vals(after.subrange(w, total));
    assert(r =~= seq![x] + tail);
    lemma_prepended(tail, x);
    if sorted {
        assert forall|i: int, j: int| 0 <= i < j < r.len() implies #[trigger] r[i]
            <= #[trigger] r[j] by {
            if i == 0 {
                if j > 1 {
                    assert(tail[0] <= tail[j - 1]);
                }
            } else {
                assert(tail[i - 1] <= tail[j - 1]);
            }
        }
    }
}

/// The numbers of some slices, together.
pub open spec fn union_of<T: Value>(slices: Seq<&[T]>) -> Multiset<nat>
    decreases slices.len(),
{
    if slices.len() == 0 {
        Multiset::empty()
    } else {
        union_of(slices.drop_last()).add(cell::vals(slices.last()@).to_multiset())
    }
}

/// Every slice is sorted.
pub open spec fn all_ascending<T: Value>(slices: Seq<&[T]>) -> bool {
    forall|i: int| 0 <= i < slices.len() ==> counting::ascending(cell::vals((#[trigger] slices[i])@))
}

/// The numbers of the first `k` slices from some place of each on, together.
spec fn rest_of<T: Value>(slices: Seq<&[T]>, fronts: Seq<int>, k: nat) -> Multiset<nat>
    decreases k,
{
    if k == 0 {
        Multiset::empty()
    } else {
        rest_of(slices, fronts, (k - 1) as nat).add(
            cell::vals(slices[k - 1]@).skip(fronts[k - 1]).to_multiset(),
        )
    }
}

/// From the start of each slice on, there is everything.
proof fn lemma_rest_whole<T: Value>(slices: Seq<&[T]>, fronts: Seq<int>, k: nat)
    requires
        k <= slices.len(),
        fronts.len() == slices.len(),
        forall|i: int| 0 <= i < k ==> #[trigger] fronts[i] == 0,
    ensures
        rest_of(slices, fronts, k) == union_of(slices.take(k as int)),
    decreases k,
{
    if k > 0 {
        lemma_rest_whole(slices, fronts, (k - 1) as nat);
        assert(slices.take(k as int).drop_last() =~= slices.take(k - 1));
        let s = cell::vals(slices[k - 1]@);
        assert(fronts[k - 1] == 0);
        assert(s.skip(0) =~= s);
    }
}

/// From the end of each slice on, there is nothing.
proof fn lemma_rest_none<T: Value>(slices: Seq<&[T]>, fronts: Seq<int>, k: nat)
    requires
        k <= slices.len(),
        fronts.len() == slices.len(),
        forall|i: int| 0 <= i < k ==> #[trigger] fronts[i] == slices[i]@.len(),
    ensures
        rest_of(slices, fronts, k).len() == 0,
    decreases k,
{
    if k > 0 {
        lemma_rest_none(slices, fronts, (k - 1) as nat);
        let s = cell::vals(slices[k - 1]@);
        assert(fronts[k - 1] == slices[k - 1]@.len());
        assert(s.skip(fronts[k - 1]) =~= Seq::<nat>::empty());
    }
}

/// Moving one place on in a slice takes one number away.
proof fn lemma_rest_step<T: Value>(slices: Seq<&[T]>, fronts: Seq<int>, i: int, k: nat)
    requires
        k <= slices.len(),
        fronts.len() == slices.len(),
        0 <= i < slices.len(),
        0 <= fronts[i] < slices[i]@.len(),
    ensures
        rest_of(slices, fronts, k) == if i < k {
            rest_of(slices, fronts.update(i, fronts[i] + 1), k).insert(
                slices[i]@[fronts[i]].val(),
            )
        } else {
            rest_of(slices, fronts.update(i, fronts[i] + 1), k)
        },
    decreases k,
{
    if k > 0 {
        let j = (k - 1) as nat;
        let next = fronts.update(i, fronts[i] + 1);
        lemma_rest_step(slices, fronts, i, j);
        let s = cell::vals(slices[j as int]@);
        if i == j {
            let x = s[fronts[i]];
            assert(s.skip(fronts[i]) =~= seq![x] + s.skip(next[i]));
            lemma_prepended(s.skip(next[i]), x);
            assert(rest_of(slices, fronts, k) =~= rest_of(slices, next, k).insert(x));
        } else if i < j {
            assert(next[j as int] == fronts[j as int]);
            assert(rest_of(slices, fronts, k) =~= rest_of(slices, next, k).insert(
                slices[i]@[fronts[i]].val(),
            ));
        }
    }
}

/// Every number that is left is at or behind the front of its slice.
proof fn lemma_rest_member<T: Value>(
    slices: Seq<&[T]>,
    fronts: Seq<int>,
    k: nat,
    x: nat,
) -> (w: (int, int))
    requires
        k <= slices.len(),
        fronts.len() == slices.len(),
        forall|i: int| 0 <= i < k ==> 0 <= #[trigger] fronts[i] <= slices[i]@.len(),
        rest_of(slices, fronts, k).count(x) > 0,
    ensures
        0 <= w.0 < k,
        fronts[w.0] <= w.1 < slices[w.0]@.len(),
        slices[w.0]@[w.1].val() == x,
    decreases k,
{
    let s = cell::vals(slices[k - 1]@).skip(fronts[k - 1]);
    if s.to_multiset().count(x) > 0 {
        let m = choose|m: int| 0 <= m < s.len() && s[m] == x;
        assert(0 <= fronts[k - 1]);
        (k - 1, fronts[k - 1] + m)
    } else {
        lemma_rest_member(slices, fronts, (k - 1) as nat, x)
    }
}

/// A merge of sorted slices, from the least number up, with a heap that holds the front of each
/// slice that is not exhausted.
struct KWayMerge<'a, T: Cell> {
    slices: &'a [&'a [T]],
    heap: DaryHeap<Reverse<(u128, usize)>, 4>,
    pos: Vec<usize>,
    fronts: Ghost<Seq<int>>,
}

impl<'a, T: Cell> KWayMerge<'a, T> {
    /// Slice `i` has its front in the heap, and `x` is it.
    spec fn in_heap(self, x: u128, i: usize) -> bool {
        &&& i < self.slices@.len()
        &&& self.fronts@[i as int] < self.slices@[i as int]@.len()
        &&& x == self.slices@[i as int]@[self.fronts@[i as int]].val()
    }

    /// The heap holds the fronts of the slices.
    spec fn valid(self) -> bool {
        &&& all_ascending(self.slices@)
        &&& self.pos@.len() == self.slices@.len()
        &&& self.fronts@.len() == self.slices@.len()
        &&& forall|i: int|
            0 <= i < self.slices@.len() ==> 0 <= #[trigger] self.fronts@[i]
                <= self.slices@[i]@.len() && self.pos@[i] == (if self.fronts@[i]
                < self.slices@[i]@.len() {
                self.fronts@[i] + 1
            } else {
                self.fronts@[i]
            })
        &&& forall|x: u128, i: usize| #[trigger]
            outside::heap_items(self.heap).count((x, i)) == (if self.in_heap(x, i) {
                1nat
            } else {
                0nat
            })
    }

    /// The numbers that are still to come.
    spec fn remaining(self) -> Multiset<nat> {
        rest_of(self.slices@, self.fronts@, self.slices@.len())
    }

    /// A merge of all the slices.
    fn new(slices: &'a [&'a [T]]) -> (m: Self)
        requires
            all_ascending(slices@),
        ensures
            m.valid(),
            m.slices@ == slices@,
            m.remaining() == union_of(slices@),
    {
        let n: usize = slices.len();
        let mut heap = outside::heap_new();
        let mut pos: Vec<usize> = vec![0usize; n];
        let ghost fronts = Seq::new(n as nat, |i: int| 0int);
        let mut i: usize = 0;
        while i < n
            invariant
                i <= n == slices@.len(),
                pos@.len() == n,
                forall|j: int|
                    0 <= j < n ==> #[trigger] pos@[j] == (if j < i && slices@[j]@.len() > 0 {
                        1int
                    } else {
                        0int
                    }),
                forall|x: u128, j: usize| #[trigger]
                    outside::heap_items(heap).count((x, j)) == (if j < i && slices@[j as int]@.len()
                        > 0 && x == slices@[j as int]@[0].val() {
                        1nat
                    } else {
                        0nat
                    }),
            decreases n - i,
        {
            if slices[i].len() > 0 {
                let x: u128 = slices[i][0].to_u128();
                outside::heap_push(&mut heap, x, i);
                pos[i] = 1;
            }
            i += 1;
        }
        let m = KWayMerge { slices, heap, pos, fronts: Ghost(fronts) };
        proof {
            lemma_rest_whole(slices@, fronts, n as nat);
            assert(slices@.take(n as int) =~= slices@);
            assert forall|x: u128, j: usize| #[trigger]
                outside::heap_items(m.heap).count((x, j)) == (if m.in_heap(x, j) {
                1nat
            } else {
                0nat
            }) by {}
        }
        m
    }

    /// The least number that is still to come.
    fn next(&mut self) -> (r: Option<T>)
        requires
            old(self).valid(),
        ensures
            final(self).valid(),
            final(self).slices == old(self).slices,
            r is None <==> old(self).remaining().len() == 0,
            r is None ==> final(self).remaining() == old(self).remaining(),
            r matches Some(least) ==> {
                &&& old(self).remaining() == final(self).remaining().insert(least.val())
                &&& forall|x: nat| #[trigger]
                    old(self).remaining().count(x) > 0 ==> least.val() <= x
            },
    {
        let ghost m0 = *self;
        let ghost n = self.slices@.len();
        assert(n == self.slices.len());
        match outside::heap_pop(&mut self.heap) {
            None => {
                proof {
                    assert forall|i: int| 0 <= i < n implies #[trigger] m0.fronts@[i]
                        == m0.slices@[i]@.len() by {
                        if m0.fronts@[i] < m0.slices@[i]@.len() {
                            let v = m0.slices@[i]@[m0.fronts@[i]];
                            lemma_val_u128(v);
                            assert(m0.in_heap(v.val() as u128, i as usize));
                            assert(outside::heap_items(m0.heap).count((v.val() as u128, i as usize))
                                == 1);
                        }
                    }
                    lemma_rest_none(m0.slices@, m0.fronts@, n);
                }
                None
            },
            Some((x, i)) => {
                proof {
                    assert(m0.in_heap(x, i));
                }
                let ghost f = self.fronts@[i as int];
                let least: T = self.slices[i][self.pos[i] - 1];
                let ghost fronts = self.fronts@.update(i as int, f + 1);
                if self.pos[i] < self.slices[i].len() {
                    let p: usize = self.pos[i];
                    let y: u128 = self.slices[i][p].to_u128();
                    outside::heap_push(&mut self.heap, y, i);
                    self.pos[i] = p + 1;
                }
                self.fronts = Ghost(fronts);
                proof {
                    lemma_rest_step(m0.slices@, m0.fronts@, i as int, n);
                    assert(m0.remaining() == self.remaining().insert(least.val()));
                    assert forall|v: nat| #[trigger] m0.remaining().count(v) > 0 implies least.val()
                        <= v by {
                        let w = lemma_rest_member(m0.slices@, m0.fronts@, n, v);
                        let s = cell::vals(m0.slices@[w.0]@);
                        let front = m0.fronts@[w.0];
                        if front < w.1 {
                            assert(s[front] <= s[w.1]);
                        }
                        lemma_val_u128(m0.slices@[w.0]@[front]);
                        let y = m0.slices@[w.0]@[front].val() as u128;
                        assert(m0.in_heap(y, w.0 as usize));
                        assert(outside::heap_items(m0.heap).count((y, w.0 as usize)) > 0);
                    }
                    assert forall|z: u128, j: usize| #[trigger]
                        outside::heap_items(self.heap).count((z, j)) == (if self.in_heap(z, j) {
                        1nat
                    } else {
                        0nat
                    }) by {
                        let c0 = outside::heap_items(m0.heap).count((z, j));
                        assert(c0 == (if m0.in_heap(z, j) {
                            1nat
                        } else {
                            0nat
                        }));
                    }
                    assert(m0.remaining().count(least.val()) > 0);
                    assert(m0.remaining().len() > 0);
                }
                Some(least)
            },
        }
    }
}

/// Numbers of all storage types fit 128 bits.
proof fn lemma_val_u128<T: Value>(x: T)
    ensures
        x.val() <= u128::MAX,
{
    x.lemma_val();
    T::lemma_bits();
    cell::lemma_pow2_128();
    if T::bits() < 128 {
        vstd::arithmetic::power2::lemma_pow2_strictly_increases(T::bits(), 128);
    }
}

/// Serial merge of sorted slices with a quaternary min-heap, counting adjacent equal pairs.
fn merge_count_segment<T: Cell>(sorted: &[&[T]]) -> (count: usize)
    requires
        all_ascending(sorted@),
        union_of(sorted@).len() <= usize::MAX,
    ensures
        count == counting::collisions(union_of(sorted@)),
{
    let mut merge = KWayMerge::new(sorted);
    let mut count: usize = 0;
    let mut prev: Option<T> = None;
    let ghost all = union_of(sorted@);
    let ghost mut out: Seq<nat> = Seq::empty();
    proof {
        assert(all =~= merge.remaining().add(out.to_multiset()));
    }
    let mut going = true;
    while going
        invariant
            merge.valid(),
            all == merge.remaining().add(out.to_multiset()),
            all.len() <= usize::MAX,
            counting::ascending(out),
            prev is None <==> out.len() == 0,
            prev matches Some(x) ==> x.val() == out.last(),
            forall|x: nat| #[trigger]
                merge.remaining().count(x) > 0 && out.len() > 0 ==> out.last() <= x,
            count == counting::equal_neighbours(out),
            !going ==> merge.remaining().len() == 0,
        decreases
                merge.remaining().len() + (if going {
                    1nat
                } else {
                    0nat
                }),
    {
        let ghost left = merge.remaining();
        match merge.next() {
            None => {
                going = false;
            },
            Some(x) => {
                proof {
                    let next = out.push(x.val());
                    assert(next.drop_last() =~= out);
                    assert(left.count(x.val()) > 0);
                    assert(counting::ascending(next)) by {
                        assert forall|i: int, j: int| 0 <= i < j < next.len() implies #[trigger] next[i]
                            <= #[trigger] next[j] by {
                            if j == out.len() && i < out.len() - 1 {
                                assert(out[i] <= out[out.len() - 1]);
                            }
                        }
                    }
                    lemma_equal_neighbours_bound(next);
                    assert(next.to_multiset() =~= out.to_multiset().insert(x.val()));
                    assert(all =~= merge.remaining().add(next.to_multiset()));
                    assert(next.len() == next.to_multiset().len());
                    assert forall|y: nat| #[trigger] merge.remaining().count(y) > 0 implies x.val()
                        <= y by {
                        assert(left.count(y) > 0);
                    }
                    out = next;
                }
                if let Some(y) = prev {
                    if y.equals(x) {
                        count += 1;
                    }
                }
                prev = Some(x);
            },
        }
    }
    proof {
        vstd::multiset::lemma_multiset_empty_len(merge.remaining());
        assert(all =~= out.to_multiset());
        counting::lemma_equal_neighbours_collide(out);
    }
    count
}

/// K-way merge of sorted slices into one sorted `Vec`.
pub fn merge_sorted<T: Cell>(sorted: &[&[T]]) -> (out: Vec<T>)
    requires
        all_ascending(sorted@),
        union_of(sorted@).len() <= usize::MAX,
    ensures
        counting::ascending(cell::vals(out@)),
        cell::vals(out@).to_multiset() == union_of(sorted@),
        out@.len() == union_of(sorted@).len(),
{
    let total: usize = total_len(sorted);
    let mut out: Vec<T> = Vec::with_capacity(total);
    let mut merge = KWayMerge::new(sorted);
    let ghost all = union_of(sorted@);
    let mut going = true;
    proof {
        assert(cell::vals(out@) =~= Seq::<nat>::empty());
        assert(all =~= merge.remaining().add(cell::vals(out@).to_multiset()));
    }
    while going
        invariant
            merge.valid(),
            all == merge.remaining().add(cell::vals(out@).to_multiset()),
            counting::ascending(cell::vals(out@)),
            forall|x: nat| #[trigger]
                merge.remaining().count(x) > 0 && out@.len() > 0 ==> out@.last().val() <= x,
            !going ==> merge.remaining().len() == 0,
        decreases
                merge.remaining().len() + (if going {
                    1nat
                } else {
                    0nat
                }),
    {
        let ghost left = merge.remaining();
        let ghost before = cell::vals(out@);
        match merge.next() {
            None => {
                going = false;
            },
            Some(x) => {
                assert(before.len() > 0 ==> before.last() == out@.last().val());
                out.push(x);
                proof {
                    let after = cell::vals(out@);
                    assert(after =~= before.push(x.val()));
                    assert(left.count(x.val()) > 0);
                    assert(counting::ascending(after)) by {
                        assert forall|i: int, j: int|
                            0 <= i < j < after.len() implies #[trigger] after[i]
                            <= #[trigger] after[j] by {
                            if j == before.len() && i < before.len() - 1 {
                                assert(before[i] <= before[before.len() - 1]);
                            }
                        }
                    }
                    assert(all =~= merge.remaining().add(after.to_multiset()));
                    assert forall|y: nat| #[trigger] merge.remaining().count(y) > 0 implies x.val()
                        <= y by {
                        assert(left.count(y) > 0);
                    }
                }
            },
        }
    }
    proof {
        vstd::multiset::lemma_multiset_empty_len(merge.remaining());
        assert(all =~= cell::vals(out@).to_multiset());
        assert(cell::vals(out@).len() == cell::vals(out@).to_multiset().len());
    }
    out
}

/// The number of elements of all the slices.
pub fn total_len<T: Cell>(slices: &[&[T]]) -> (total: usize)
    requires
        union_of(slices@).len() <= usize::MAX,
    ensures
        total == union_of(slices@).len(),
{
    let mut total: usize = 0;
    let mut i: usize = 0;
    assert(slices@.take(0) =~= Seq::<&[T]>::empty());
    while i < slices.len()
        invariant
            i <= slices@.len(),
            union_of(slices@).len() <= usize::MAX,
            total == union_of(slices@.take(i as int)).len(),
        decreases slices@.len() - i,
    {
        proof {
            let a = slices@.take(i as int);
            let b = slices@.take(i + 1);
            assert(b.drop_last() =~= a);
            let s = cell::vals(slices@[i as int]@);
            assert(s.len() == s.to_multiset().len());
            lemma_union_take(slices@, i + 1);
        }
        total += slices[i].len();
        i += 1;
    }
    assert(slices@.take(slices@.len() as int) =~= slices@);
    total
}

/// Some of the slices hold no more than all.
proof fn lemma_union_take<T: Value>(slices: Seq<&[T]>, k: int)
    requires
        0 <= k <= slices.len(),
    ensures
        union_of(slices.take(k)).len() <= union_of(slices).len(),
    decreases slices.len(),
{
    if k < slices.len() {
        lemma_union_take(slices.drop_last(), k);
        assert(slices.drop_last().take(k) =~= slices.take(k));
    } else {
        assert(slices.take(k) =~= slices);
    }
}

/// How many of the splitters are at or below `x`: the segment in which `x` lies.
spec fn segment_of(splitters: Seq<nat>, x: nat) -> nat
    decreases splitters.len(),
{
    if splitters.len() == 0 {
        0
    } else {
        segment_of(splitters.drop_last(), x) + (if splitters.last() <= x {
            1nat
        } else {
            0nat
        })
    }
}

/// Segment `k` lies between the splitters `k - 1` and `k`.
proof fn lemma_segment_of(splitters: Seq<nat>, x: nat, k: nat)
    requires
        counting::ascending(splitters),
        k <= splitters.len(),
    ensures
        segment_of(splitters, x) <= splitters.len(),
        segment_of(splitters, x) == k <==> (k > 0 ==> splitters[k - 1] <= x) && (k
            < splitters.len() ==> x < splitters[k as int]),
    decreases splitters.len(),
{
    if splitters.len() > 0 {
        let init = splitters.drop_last();
        let n = init.len();
        assert(counting::ascending(init)) by {
            assert forall|i: int, j: int| 0 <= i < j < init.len() implies #[trigger] init[i]
                <= #[trigger] init[j] by {
                assert(init[i] == splitters[i] && init[j] == splitters[j]);
            }
        }
        if splitters.last() <= x {
            lemma_segment_of(init, x, n);
            if n > 0 {
                assert(splitters[n - 1] <= splitters[n as int]);
            }
            if k < splitters.len() {
                if k < n {
                    assert(splitters[k as int] <= splitters[n as int]);
                }
            }
        } else if k <= n {
            lemma_segment_of(init, x, k);
        } else {
            lemma_segment_of(init, x, n);
        }
    }
}

/// The first place of a sorted slice whose number is not below `x`.
fn lower_bound<T: Cell>(s: &[T], x: T) -> (at: usize)
    requires
        counting::ascending(cell::vals(s@)),
    ensures
        at <= s@.len(),
        forall|i: int| 0 <= i < at ==> (#[trigger] s@[i]).val() < x.val(),
        forall|i: int| at <= i < s@.len() ==> (#[trigger] s@[i]).val() >= x.val(),
{
    let mut lo: usize = 0;
    let mut hi: usize = s.len();
    while lo < hi
        invariant
            lo <= hi <= s@.len(),
            counting::ascending(cell::vals(s@)),
            forall|i: int| 0 <= i < lo ==> (#[trigger] s@[i]).val() < x.val(),
            forall|i: int| hi <= i < s@.len() ==> (#[trigger] s@[i]).val() >= x.val(),
        decreases hi - lo,
    {
        let mid: usize = lo + (hi - lo) / 2;
        let ghost v = cell::vals(s@);
        if x.at_most(s[mid]) {
            proof {
                assert forall|i: int| mid <= i < s@.len() implies (#[trigger] s@[i]).val()
                    >= x.val() by {
                    if i > mid {
                        assert(v[mid as int] <= v[i]);
                    }
                }
            }
            hi = mid;
        } else {
            proof {
                assert forall|i: int| 0 <= i < mid + 1 implies (#[trigger] s@[i]).val()
                    < x.val() by {
                    if i < mid {
                        assert(v[i] <= v[mid as int]);
                    }
                }
            }
            lo = mid + 1;
        }
    }
    lo
}

/// The parts of sorted slices that lie in one segment.
fn segment_parts<'a, T: Cell>(
    sorted: &[&'a [T]],
    splitters: &Vec<T>,
    seg: usize,
) -> (parts: Vec<&'a [T]>)
    requires
        all_ascending(sorted@),
        counting::ascending(cell::vals(splitters@)),
        seg <= splitters@.len(),
    ensures
        all_ascending(parts@),
        union_of(parts@) == counting::class(
            union_of(sorted@),
            |x: nat| segment_of(cell::vals(splitters@), x),
            seg as nat,
        ),
{
    let ghost sp = cell::vals(splitters@);
    let ghost key = |x: nat| segment_of(sp, x);
    let mut parts: Vec<&'a [T]> = Vec::with_capacity(sorted.len());
    let mut i: usize = 0;
    proof {
        assert(sorted@.take(0) =~= Seq::<&[T]>::empty());
        assert(union_of(parts@) =~= counting::class(
            union_of(sorted@.take(0)),
            key,
            seg as nat,
        ));
    }
    while i < sorted.len()
        invariant
            i <= sorted@.len(),
            all_ascending(sorted@),
            sp == cell::vals(splitters@),
            key == (|x: nat| segment_of(sp, x)),
            counting::ascending(sp),
            seg <= splitters@.len(),
            parts@.len() == i,
            all_ascending(parts@),
            union_of(parts@) == counting::class(
                union_of(sorted@.take(i as int)),
                key,
                seg as nat,
            ),
        decreases sorted@.len() - i,
    {
        let s: &'a [T] = sorted[i];
        let ghost v = cell::vals(s@);
        proof {
            assert(counting::ascending(cell::vals(sorted@[i as int]@)));
        }
        let start: usize = if seg == 0 {
            0
        } else {
            lower_bound(s, splitters[seg - 1])
        };
        let end: usize = if seg == splitters.len() {
            s.len()
        } else {
            lower_bound(s, splitters[seg])
        };
        proof {
            if start > end {
                assert(sp[seg - 1] <= sp[seg as int]);
                assert(s@[end as int].val() < sp[seg - 1]);
                assert(s@[end as int].val() >= sp[seg as int]);
            }
        }
        let part: &'a [T] = vstd::slice::slice_subrange(s, start, end);
        let ghost before = parts@;
        parts.push(part);
        proof {
            let p = counting::has_key(key, seg as nat);
            assert forall|j: int| 0 <= j < v.len() implies (p(#[trigger] v[j]) <==> start <= j
                < end) by {
                lemma_segment_of(sp, v[j], seg as nat);
                assert(v[j] == s@[j].val());
                if seg > 0 {
                    assert(sp[seg - 1] == splitters@[seg - 1].val());
                }
                if seg < splitters@.len() {
                    assert(sp[seg as int] == splitters@[seg as int].val());
                }
            }
            seqs::lemma_filter_range(v, p, start as int, end as int);
            assert(cell::vals(part@) =~= v.subrange(start as int, end as int));
            counting::lemma_filter_is_class(v, key, seg as nat);
            assert forall|j: int| 0 <= j < parts@.len() implies counting::ascending(
                cell::vals((#[trigger] parts@[j])@),
            ) by {
                if j == i {
                    let w = cell::vals(part@);
                    assert forall|x: int, y: int| 0 <= x < y < w.len() implies #[trigger] w[x]
                        <= #[trigger] w[y] by {
                        assert(v[start + x] <= v[start + y]);
                    }
                } else {
                    assert(parts@[j] == before[j]);
                }
            }
            assert(parts@.drop_last() =~= before);
            assert(sorted@.take(i + 1).drop_last() =~= sorted@.take(i as int));
            assert(union_of(parts@) =~= counting::class(
                union_of(sorted@.take(i + 1)),
                key,
                seg as nat,
            ));
        }
        i += 1;
    }
    assert(sorted@.take(sorted@.len() as int) =~= sorted@);
    parts
}

/// A class has no more points than there are.
proof fn lemma_class_len(m: Multiset<nat>, key: spec_fn(nat) -> nat, k: nat)
    ensures
        counting::class(m, key, k).len() <= m.len(),
{
    let rest = m.filter(|x: nat| key(x) != k);
    assert(m =~= counting::class(m, key, k).add(rest));
}

/// Which of the slices is the longest; the last one of equally long ones.
fn longest<T: Cell>(slices: &[&[T]]) -> (at: usize)
    requires
        slices@.len() > 0,
    ensures
        at < slices@.len(),
        forall|i: int| 0 <= i < slices@.len() ==> (#[trigger] slices@[i])@.len() <= slices@[at as int]@.len(),
{
    let mut at: usize = 0;
    let mut i: usize = 1;
    while i < slices.len()
        invariant
            1 <= i <= slices@.len(),
            at < i,
            forall|j: int| 0 <= j < i ==> (#[trigger] slices@[j])@.len() <= slices@[at as int]@.len(),
        decreases slices@.len() - i,
    {
        if slices[i].len() >= slices[at].len() {
            at = i;
        }
        i += 1;
    }
    at
}

/// Slices that are all empty hold nothing.
proof fn lemma_union_of_empty<T: Value>(slices: Seq<&[T]>)
    requires
        forall|i: int| 0 <= i < slices.len() ==> (#[trigger] slices[i])@.len() == 0,
    ensures
        union_of(slices).len() == 0,
    decreases slices.len(),
{
    if slices.len() > 0 {
        assert forall|i: int| 0 <= i < slices.drop_last().len() implies (
        #[trigger] slices.drop_last()[i])@.len() == 0 by {
            assert(slices.drop_last()[i] == slices[i]);
        }
        lemma_union_of_empty(slices.drop_last());
        assert(slices[slices.len() - 1]@.len() == 0);
        assert(cell::vals(slices.last()@) =~= Seq::<nat>::empty());
    }
}

/// Splitters that cut the numbers into `num_segs` segments: evenly spaced quantiles of a slice.
fn quantiles<T: Cell>(pivot: &[T], num_segs: usize) -> (splitters: Vec<T>)
    requires
        num_segs >= 1,
        pivot@.len() > 0,
        counting::ascending(cell::vals(pivot@)),
    ensures
        splitters@.len() == num_segs - 1,
        counting::ascending(cell::vals(splitters@)),
{
    let n: usize = pivot.len();
    let mut splitters: Vec<T> = Vec::new();
    let mut k: usize = 1;
    let ghost mut last: int = 0;
    while k < num_segs
        invariant
            1 <= k <= num_segs,
            n == pivot@.len() > 0,
            counting::ascending(cell::vals(pivot@)),
            splitters@.len() == k - 1,
            counting::ascending(cell::vals(splitters@)),
            0 <= last < n,
            last <= (n * k) / (num_segs as int),
            splitters@.len() > 0 ==> splitters@.last() == pivot@[last],
        decreases num_segs - k,
    {
        proof {
            assert(n * k <= u128::MAX && (n * k) / (num_segs as int) < n && (n * k) / (
            num_segs as int) <= (n * (k + 1)) / (num_segs as int)) by {
                lemma_quantile(n as int, k as int, num_segs as int);
            }
        }
        let at: usize = (n as u128 * k as u128 / num_segs as u128) as usize;
        let ghost before = cell::vals(splitters@);
        splitters.push(pivot[at]);
        proof {
            let v = cell::vals(pivot@);
            let after = cell::vals(splitters@);
            assert(after =~= before.push(v[at as int]));
            if last < at {
                assert(v[last] <= v[at as int]);
            }
            assert forall|i: int, j: int| 0 <= i < j < after.len() implies #[trigger] after[i]
                <= #[trigger] after[j] by {
                if j == before.len() {
                    assert(before.last() == v[last]);
                    if i < before.len() - 1 {
                        assert(before[i] <= before[before.len() - 1]);
                    }
                } else {
                    assert(before[i] <= before[j]);
                }
            }
            last = at as int;
        }
        k += 1;
    }
    splitters
}

/// A quantile is inside, and they do not decrease.
proof fn lemma_quantile(n: int, k: int, segs: int)
    requires
        0 < n <= usize::MAX,
        0 < k < segs <= usize::MAX,
    ensures
        0 <= n * k <= u128::MAX,
        (n * k) / segs < n,
        (n * k) / segs <= (n * (k + 1)) / segs,
{
    assert(0 <= n * k <= u128::MAX) by (nonlinear_arith)
        requires
            0 < n <= u64::MAX,
            0 < k <= u64::MAX,
    ;
    assert(n * k < segs * n) by (nonlinear_arith)
        requires
            0 < n,
            0 < k < segs,
    ;
    vstd::arithmetic::div_mod::lemma_multiply_divide_lt(n * k, segs, n);
    assert(n * k <= n * (k + 1)) by (nonlinear_arith)
        requires
            0 < n,
    ;
    vstd::arithmetic::div_mod::lemma_div_is_ordered(n * k, n * (k + 1), segs);
}

/// [`merge_count_collisions`] with an explicit number of segments.
pub fn merge_count_collisions_segmented<T: Cell>(sorted: &[&[T]], num_segs: usize) -> (count: usize)
    requires
        all_ascending(sorted@),
        union_of(sorted@).len() <= usize::MAX,
    ensures
        count == counting::collisions(union_of(sorted@)),
{
    let n_total: usize = total_len(sorted);
    let segs: usize = if num_segs < n_total {
        num_segs
    } else {
        n_total
    };
    if segs <= 1 {
        return merge_count_segment(sorted);
    }
    let ghost all = union_of(sorted@);
    let at: usize = {
        proof {
            if sorted@.len() == 0 {
                assert(all.len() == 0);
            }
        }
        longest(sorted)
    };
    proof {
        if sorted@[at as int]@.len() == 0 {
            lemma_union_of_empty(sorted@);
        }
    }
    let splitters: Vec<T> = quantiles(sorted[at], segs);
    let ghost sp = cell::vals(splitters@);
    let ghost key = |x: nat| segment_of(sp, x);
    let numbers: Vec<usize> = chunks::indices(segs);
    let count_one = |seg: &usize| -> (count: usize)
        requires
            *seg <= splitters@.len(),
        ensures
            count == counting::collisions(
                counting::class(
                    union_of(sorted@),
                    |x: nat| segment_of(cell::vals(splitters@), x),
                    *seg as nat,
                ),
            ),
        {
            proof {
                lemma_class_len(
                    union_of(sorted@),
                    |x: nat| segment_of(cell::vals(splitters@), x),
                    *seg as nat,
                );
            }
            let parts = segment_parts(sorted, &splitters, *seg);
            merge_count_segment(parts.as_slice())
        };
    let counts: Vec<usize> = outside::par_map(numbers.as_slice(), count_one);
    let mut total: usize = 0;
    let mut i: usize = 0;
    proof {
        assert forall|x: nat| #[trigger] all.count(x) > 0 implies key(x) < segs by {
            lemma_segment_of(sp, x, 0);
        }
        counting::law_classes_add_up(all, key, segs as nat);
        counting::lemma_distinct_bound(all);
        assert forall|j: int| 0 <= j < counts@.len() implies #[trigger] counts@[j]
            == counting::collisions(counting::class(all, key, j as nat)) by {
            assert(numbers@[j] == j);
        }
    }
    while i < counts.len()
        invariant
            i <= counts@.len() == segs,
            all.len() <= usize::MAX,
            counting::class_collisions(all, key, 0, segs as nat) <= all.len(),
            forall|j: int|
                0 <= j < counts@.len() ==> #[trigger] counts@[j] == counting::collisions(
                    counting::class(all, key, j as nat),
                ),
            total == counting::class_collisions(all, key, 0, i as nat),
        decreases counts@.len() - i,
    {
        proof {
            counting::lemma_classes_cut(all, key, 0, (i + 1) as nat, segs as nat);
            assert(counts@[i as int] == counting::collisions(
                counting::class(all, key, i as int as nat),
            ));
        }
        total += counts[i];
        i += 1;
    }
    total
}

/// Counts the collisions among the elements of sorted slices, as if they were merged into one
/// sorted sequence.
///
/// The work is parallelized by cutting the value domain into segments at *value* boundaries, so
/// every copy of a value lands in the same segment and the per-segment counts sum to the exact
/// total with no boundary correction.
pub fn merge_count_collisions<T: Cell>(sorted: &[&[T]]) -> (count: usize)
    requires
        all_ascending(sorted@),
        union_of(sorted@).len() <= usize::MAX,
    ensures
        count == counting::collisions(union_of(sorted@)),
{
    let n_total: usize = total_len(sorted);
    let at_least_one: usize = if n_total == 0 {
        1
    } else {
        n_total
    };
    // Aim for several segments per thread for load balancing.
    let threads: usize = outside::pool_threads();
    let num_segs: usize = if threads <= at_least_one / 4 {
        threads * 4
    } else {
        at_least_one
    };
    merge_count_collisions_segmented(sorted, num_segs)
}

/// The numbers of some slices together are those of each, as often as they occur.
pub proof fn law_union_adds_slices<T: Value>(slices: Seq<&[T]>, last: &[T])
    ensures
        union_of(Seq::<&[T]>::empty()) == Multiset::<nat>::empty(),
        union_of(slices.push(last)) == union_of(slices).add(cell::vals(last@).to_multiset()),
{
    assert(slices.push(last).drop_last() =~= slices);
}

/// Counting collisions in sorted slices counts the elements whose value occurred already, in the
/// same slice or in another one, for every number of segments.
pub proof fn law_merge_counts_collisions<T: Cell>(
    sorted: &[&[T]],
    num_segs: usize,
    count: usize,
    all: Seq<nat>,
)
    requires
        all.to_multiset() == union_of(sorted@),
        call_ensures(merge_count_collisions::<T>, (sorted,), count) || call_ensures(
            merge_count_collisions_segmented::<T>,
            (sorted, num_segs),
            count,
        ),
    ensures
        count + all.to_set().len() == all.len(),
{
    counting::law_collisions_and_taken_cells(all);
}

/// Merging keeps all elements, and sorts them.
pub proof fn law_merge_sorted<T: Cell>(sorted: &[&[T]], out: Vec<T>)
    requires
        call_ensures(merge_sorted::<T>, (sorted,), out),
    ensures
        counting::ascending(cell::vals(out@)),
        cell::vals(out@).to_multiset() == union_of(sorted@),
{
}

/// Adjacent equal elements are counted at every place; in a sorted slice they are those whose value
/// occurred already.
pub proof fn law_count_adjacent_equals<T: Cell>(v: &[T], count: usize)
    requires
        call_ensures(count_adjacent_equals::<T>, (v,), count),
    ensures
        v@.len() > 0 ==> count == Seq::new((v@.len() - 1) as nat, |i: int| i).filter(
            |i: int| cell::vals(v@)[i] == cell::vals(v@)[i + 1],
        ).len(),
        counting::ascending(cell::vals(v@)) ==> count + cell::vals(v@).to_set().len() == v@.len(),
{
    if v@.len() > 0 {
        counting::law_equal_neighbours_are_places(cell::vals(v@));
    }
    counting::law_collisions_and_taken_cells(cell::vals(v@));
}

/// Merging into a buffer puts the sorted elements of both parts at its front, and changes nothing
/// behind.
pub proof fn law_merge_into<T: Cell>(buf: &mut [T], prefix_len: usize, src: &[T])
    requires
        prefix_len + src@.len() <= old(buf)@.len(),
        counting::ascending(cell::vals(old(buf)@.take(prefix_len as int))),
        counting::ascending(cell::vals(src@)),
        call_ensures(merge_into::<T>, (buf, prefix_len, src), ()),
    ensures
        ({
            let total = prefix_len + src@.len();
            let merged = cell::vals(final(buf)@.take(total));
            &&& counting::ascending(merged)
            &&& merged.to_multiset() == (cell::vals(old(buf)@.take(prefix_len as int)) + cell::vals(
                src@,
            )).to_multiset()
            &&& final(buf)@.skip(total) == old(buf)@.skip(total)
        }),
{
    vstd::seq_lib::lemma_multiset_commutative(
        cell::vals(old(buf)@.take(prefix_len as int)),
        cell::vals(src@),
    );
}

} // verus!
