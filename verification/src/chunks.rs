//! Cutting a range into contiguous chunks.

use vstd::prelude::*;

verus! {

/// Where chunk `i` starts.
pub open spec fn chunk_start(chunks: Seq<(usize, usize)>, i: int) -> int {
    if i == 0 {
        0
    } else {
        chunks[i - 1].1 as int
    }
}

/// The chunks cover `0..upto` one after the other.
pub open spec fn covers(chunks: Seq<(usize, usize)>, upto: int) -> bool {
    &&& forall|i: int|
        0 <= i < chunks.len() ==> (#[trigger] chunks[i]).0 <= chunks[i].1 && chunks[i].0
            == chunk_start(chunks, i)
    &&& upto == chunk_start(chunks, chunks.len() as int)
}

/// Every chunk ends at or below what the chunks cover.
pub proof fn lemma_covers_end(chunks: Seq<(usize, usize)>, upto: int, i: int)
    requires
        covers(chunks, upto),
        0 <= i < chunks.len(),
    ensures
        chunks[i].1 <= upto,
    decreases chunks.len() - i,
{
    if i + 1 < chunks.len() {
        lemma_covers_end(chunks, upto, i + 1);
        assert(chunks[i + 1].0 == chunk_start(chunks, i + 1));
    }
}

/// One more chunk covers what follows.
pub proof fn lemma_covers_push(chunks: Seq<(usize, usize)>, upto: usize, end: usize)
    requires
        covers(chunks, upto as int),
        upto <= end,
    ensures
        covers(chunks.push((upto, end)), end as int),
{
    let after = chunks.push((upto, end));
    assert forall|i: int| 0 <= i < after.len() implies (#[trigger] after[i]).0 <= after[i].1
        && after[i].0 == chunk_start(after, i) by {
        if i < chunks.len() {
            assert(after[i] == chunks[i]);
        }
        if i > 0 {
            assert(after[i - 1] == chunks[i - 1]);
        }
    }
}

/// The bounds of the chunks of `size`, and of the shorter last one, into which `len` is cut.
pub fn chunk_bounds(len: usize, size: usize) -> (chunks: Vec<(usize, usize)>)
    requires
        size > 0,
    ensures
        covers(chunks@, len as int),
        forall|i: int|
            0 <= i < chunks@.len() ==> 0 < (#[trigger] chunks@[i]).1 - chunks@[i].0 <= size,
        forall|i: int|
            0 <= i < chunks@.len() - 1 ==> (#[trigger] chunks@[i]).1 - chunks@[i].0 == size,
{
    let mut chunks: Vec<(usize, usize)> = Vec::new();
    let mut start: usize = 0;
    while start < len
        invariant
            start <= len,
            size > 0,
            covers(chunks@, start as int),
            forall|i: int|
                0 <= i < chunks@.len() ==> 0 < (#[trigger] chunks@[i]).1 - chunks@[i].0 <= size,
            forall|i: int|
                0 <= i < chunks@.len() && start < len ==> (#[trigger] chunks@[i]).1 - chunks@[i].0
                    == size,
            forall|i: int|
                0 <= i < chunks@.len() - 1 ==> (#[trigger] chunks@[i]).1 - chunks@[i].0 == size,
        decreases len - start,
    {
        let end: usize = if len - start < size {
            len
        } else {
            start + size
        };
        proof {
            lemma_covers_push(chunks@, start, end);
        }
        chunks.push((start, end));
        start = end;
    }
    chunks
}

/// The numbers below `n`.
pub fn indices(n: usize) -> (r: Vec<usize>)
    ensures
        r@.len() == n,
        forall|i: int| 0 <= i < n ==> #[trigger] r@[i] == i,
{
    let mut r: Vec<usize> = Vec::with_capacity(n);
    let mut i: usize = 0;
    while i < n
        invariant
            i <= n,
            r@.len() == i,
            forall|j: int| 0 <= j < i ==> #[trigger] r@[j] == j,
        decreases n - i,
    {
        r.push(i);
        i += 1;
    }
    r
}

} // verus!
