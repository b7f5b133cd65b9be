//! The functions and types of other crates that the library relies on, with what it believes of
//! them.

use arrayvec::ArrayVec;
use dary_heap::DaryHeap;
use rayon::iter::{IntoParallelRefIterator, ParallelIterator};
use rayon::slice::ParallelSliceMut;
use std::cmp::{Ordering, Reverse};
use vstd::laws_cmp::obeys_cmp;
use vstd::multiset::Multiset;
use vstd::prelude::*;
use vstd::std_specs::cmp::OrdSpec;

verus! {

/// No element of `s` is greater than one that follows it.
pub open spec fn in_order<T: Ord>(s: Seq<T>) -> bool {
    forall|i: int, j: int|
        #![trigger s[i], s[j]]
        0 <= i < j < s.len() ==> s[i].cmp_spec(&s[j]) != Ordering::Greater
}

/// std's `slice::sort_unstable`: for an element type whose `Ord` is a total order, the slice is
/// permuted so that its elements are in order.
#[verifier::external_body]
pub(crate) fn sort_unstable<T: Ord>(v: &mut [T])
    requires
        obeys_cmp::<T>(),
    ensures
        final(v)@.to_multiset() == old(v)@.to_multiset(),
        in_order(final(v)@),
{
    v.sort_unstable()
}

/// rayon's `ParallelSliceMut::par_sort_unstable`: for an element type whose `Ord` is a total
/// order, the slice is permuted so that its elements are in order.
#[verifier::external_body]
pub(crate) fn par_sort_unstable<T: Ord + Send>(v: &mut [T])
    requires
        obeys_cmp::<T>(),
    ensures
        final(v)@.to_multiset() == old(v)@.to_multiset(),
        in_order(final(v)@),
{
    v.par_sort_unstable()
}

/// rayon's `par_iter`, `map` and `collect` on a slice: calls `f` once on every item, on the
/// threads of the global pool, and collects the results in the order of the items.
#[verifier::external_body]
pub(crate) fn par_map<A: Sync, B: Send, F: Fn(&A) -> B + Sync + Send>(
    items: &[A],
    f: F,
) -> (r: Vec<B>)
    requires
        forall|i: int|
            #![trigger items@[i]]
            0 <= i < items@.len() ==> call_requires(f, (&items@[i],)),
    ensures
        r@.len() == items@.len(),
        forall|i: int|
            #![trigger r@[i]]
            0 <= i < items@.len() ==> call_ensures(f, (&items@[i],), r@[i]),
{
    items.par_iter().map(f).collect()
}

/// rayon's `current_num_threads`: how many threads the pool has. Nothing is claimed of the number.
#[verifier::external_body]
pub(crate) fn pool_threads() -> (threads: usize) {
    rayon::current_num_threads()
}

/// A vector of fixed capacity, stored in place.
#[verifier::external_type_specification]
#[verifier::external_body]
#[verifier::reject_recursive_types(T)]
pub struct ExArrayVec<T, const CAP: usize>(ArrayVec<T, CAP>);

/// The bounds that an `ArrayVec` of chunk bounds holds, in their order.
pub uninterp spec fn chunk_items(chunks: ArrayVec<(usize, usize), 1024>) -> Seq<(usize, usize)>;

/// arrayvec's `ArrayVec::new`: an empty vector.
#[verifier::external_body]
pub(crate) fn chunks_new() -> (chunks: ArrayVec<(usize, usize), 1024>)
    ensures
        chunk_items(chunks) == Seq::<(usize, usize)>::empty(),
{
    ArrayVec::new()
}

/// arrayvec's `ArrayVec::push`: appends an item; it panics where the vector is full.
#[verifier::external_body]
pub(crate) fn chunks_push(chunks: &mut ArrayVec<(usize, usize), 1024>, item: (usize, usize))
    requires
        chunk_items(*old(chunks)).len() < 1024,
    ensures
        chunk_items(*final(chunks)) == chunk_items(*old(chunks)).push(item),
{
    chunks.push(item)
}

/// arrayvec's `ArrayVec::as_slice`: all the items, in their order.
#[verifier::external_body]
pub(crate) fn chunks_as_slice(chunks: &ArrayVec<(usize, usize), 1024>) -> (r: &[(usize, usize)])
    ensures
        r@ == chunk_items(*chunks),
{
    chunks.as_slice()
}

/// A heap in which every node has `D` children.
#[verifier::external_type_specification]
#[verifier::external_body]
#[verifier::reject_recursive_types(T)]
pub struct ExDaryHeap<T, const D: usize>(DaryHeap<T, D>);

/// A value whose order is the reverse of that of the value in it.
#[verifier::external_type_specification]
#[verifier::external_body]
#[verifier::reject_recursive_types(T)]
pub struct ExReverse<T>(Reverse<T>);

/// The pairs that a heap of reversed pairs holds.
pub uninterp spec fn heap_items(heap: DaryHeap<Reverse<(u128, usize)>, 4>) -> Multiset<
    (u128, usize),
>;

/// dary_heap's `DaryHeap::new`: an empty heap.
#[verifier::external_body]
pub(crate) fn heap_new() -> (heap: DaryHeap<Reverse<(u128, usize)>, 4>)
    ensures
        heap_items(heap) == Multiset::<(u128, usize)>::empty(),
{
    DaryHeap::new()
}

/// dary_heap's `DaryHeap::push`: adds an item, here the pair of `value` and `source`, reversed.
#[verifier::external_body]
pub(crate) fn heap_push(
    heap: &mut DaryHeap<Reverse<(u128, usize)>, 4>,
    value: u128,
    source: usize,
)
    ensures
        heap_items(*final(heap)) == heap_items(*old(heap)).insert((value, source)),
{
    heap.push(Reverse((value, source)))
}

/// dary_heap's `DaryHeap::pop`: removes the greatest item and returns it, or returns `None` where
/// the heap is empty. The items are reversed pairs, so the pair that leaves is the least in the
/// order of pairs, which is that of their first components, then of their second ones.
#[verifier::external_body]
pub(crate) fn heap_pop(heap: &mut DaryHeap<Reverse<(u128, usize)>, 4>) -> (r: Option<
    (u128, usize),
>)
    ensures
        r is None <==> heap_items(*old(heap)).len() == 0,
        r is None ==> heap_items(*final(heap)) == heap_items(*old(heap)),
        r matches Some(least) ==> {
            &&& heap_items(*old(heap)).count(least) > 0
            &&& heap_items(*final(heap)) == heap_items(*old(heap)).remove(least)
            &&& forall|other: (u128, usize)| #[trigger]
                heap_items(*old(heap)).count(other) > 0 ==> least.0 < other.0 || (least.0
                    == other.0 && least.1 <= other.1)
        },
{
    match heap.pop() {
        Some(Reverse(least)) => Some(least),
        None => None,
    }
}

} // verus!
