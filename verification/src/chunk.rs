//! The partitioner: divides `[0, len)` into record-aligned chunks, one per
//! worker, by probing near the ideal division points and moving each boundary
//! forward to the byte after the next newline.

use vstd::prelude::*;
use crate::records::{lemma_split_at_boundary, split_lines, NL};

verus! {

/// A well-formed boundary list: starts at 0, ends at the buffer length,
/// strictly increases, and every interior boundary sits right after a
/// newline. Consecutive pairs are the chunks.
pub open spec fn bounds_wf(b: Seq<usize>, data: Seq<u8>) -> bool {
    &&& b.len() >= 1
    &&& b[0] == 0
    &&& b[b.len() - 1] == data.len()
    &&& forall|i: int| 0 <= i < b.len() - 1 ==> (#[trigger] b[i]) < b[i + 1]
    &&& forall|i: int| 0 < i < b.len() - 1 ==> data[(#[trigger] b[i]) - 1] == NL
}

/// Computes the chunk boundaries for `workers` workers.
///
/// At most `workers` chunks come back; they are exactly the consecutive
/// boundary pairs, each non-empty, together covering the whole buffer.
#[verifier::loop_isolation(true)]
pub fn chunk_bounds(data: &[u8], workers: usize) -> (r: Vec<usize>)
    requires
        1 <= workers,
    ensures
        bounds_wf(r@, data@),
        r@.len() - 1 <= workers,
{
    let len = data.len();
    let mut bounds: Vec<usize> = Vec::new();
    bounds.push(0);
    if len == 0 {
        return bounds;
    }
    let target = len / workers;
    let mut k: usize = 1;
    let mut cur: usize = 0;
    while k < workers
        invariant_except_break
            1 <= k <= workers,
            bounds@.len() == k,
        invariant
            len == data@.len(),
            len > 0,
            1 <= bounds@.len() <= workers,
            bounds@[0] == 0,
            cur < len,
            bounds@[bounds@.len() - 1] == cur,
            forall|i: int| 0 <= i < bounds@.len() - 1 ==> (#[trigger] bounds@[i]) < bounds@[i
                + 1],
            forall|i: int|
                0 < i < bounds@.len() ==> data@[(#[trigger] bounds@[i]) - 1] == NL,
        ensures
            true,
        decreases workers - k,
    {
        if len - cur <= target {
            break;
        }
        let mut probe: usize = cur + target;
        while probe < len && data[probe] != NL
            invariant
                cur <= probe <= len,
                len == data@.len(),
            decreases len - probe,
        {
            probe += 1;
        }
        if probe >= len {
            break;
        }
        let boundary = probe + 1;
        if boundary >= len {
            break;
        }
        bounds.push(boundary);
        cur = boundary;
        k += 1;
    }
    bounds.push(len);
    bounds
}

/// Adjacent strict increase gives monotonicity across any two boundaries.
pub proof fn lemma_bounds_mono(b: Seq<usize>, i: int, j: int)
    requires
        forall|q: int| 0 <= q < b.len() - 1 ==> (#[trigger] b[q]) < b[q + 1],
        0 <= i <= j < b.len(),
    ensures
        b[i] <= b[j],
    decreases j - i,
{
    if i < j {
        lemma_bounds_mono(b, i, j - 1);
    }
}

/// The index of the chunk holding offset `x`, searching from chunk `j` on.
proof fn lemma_find_chunk(b: Seq<usize>, x: int, j: int) -> (i: int)
    requires
        forall|q: int| 0 <= q < b.len() - 1 ==> (#[trigger] b[q]) < b[q + 1],
        0 <= j < b.len() - 1,
        b[j] <= x < b[b.len() - 1],
    ensures
        j <= i < b.len() - 1,
        b[i] <= x < b[i + 1],
    decreases b.len() - j,
{
    if x < b[j + 1] {
        j
    } else {
        lemma_find_chunk(b, x, j + 1)
    }
}

/// The records of chunks `i` and later, in order.
pub open spec fn chunk_records(data: Seq<u8>, b: Seq<usize>, i: int) -> Seq<Seq<u8>>
    decreases b.len() - i,
{
    if i < 0 || i >= b.len() - 1 {
        Seq::empty()
    } else {
        split_lines(data.subrange(b[i] as int, b[i + 1] as int)) + chunk_records(data, b, i + 1)
    }
}

/// No split records: the records of the whole buffer are exactly the records
/// of the chunks, in chunk order — every record lies wholly in one chunk.
pub proof fn lemma_chunks_keep_records(data: Seq<u8>, b: Seq<usize>)
    requires
        bounds_wf(b, data),
    ensures
        split_lines(data) == chunk_records(data, b, 0),
{
    lemma_chunks_keep_records_from(data, b, 0);
    assert(data.subrange(b[0] as int, data.len() as int) =~= data);
}

proof fn lemma_chunks_keep_records_from(data: Seq<u8>, b: Seq<usize>, i: int)
    requires
        bounds_wf(b, data),
        0 <= i <= b.len() - 1,
    ensures
        split_lines(data.subrange(b[i] as int, data.len() as int)) == chunk_records(data, b, i),
    decreases b.len() - i,
{
    lemma_bounds_mono(b, i, b.len() - 1);
    if i == b.len() - 1 {
        assert(data.subrange(b[i] as int, data.len() as int) =~= Seq::<u8>::empty());
    } else {
        lemma_bounds_mono(b, i + 1, b.len() - 1);
        let s = data.subrange(b[i] as int, data.len() as int);
        let cut = b[i + 1] - b[i];
        lemma_split_at_boundary(s, cut as int);
        assert(s.take(cut as int) =~= data.subrange(b[i] as int, b[i + 1] as int));
        assert(s.skip(cut as int) =~= data.subrange(b[i + 1] as int, data.len() as int));
        lemma_chunks_keep_records_from(data, b, i + 1);
    }
}

/// Offset `x` lies in chunk `i` of boundary list `b`.
pub open spec fn in_chunk(b: Seq<usize>, x: int, i: int) -> bool {
    0 <= i < b.len() - 1 && b[i] <= x < b[i + 1]
}

/// Offset `x` lies in some chunk of boundary list `b`.
pub open spec fn chunk_covers(b: Seq<usize>, x: int) -> bool {
    exists|i: int| in_chunk(b, x, i)
}

/// Chunk coverage: the chunks of a well-formed boundary list partition
/// `[0, len)` exactly — every offset lies in one chunk and in no other.
pub proof fn lemma_chunks_cover(b: Seq<usize>, data: Seq<u8>)
    requires
        bounds_wf(b, data),
    ensures
        forall|x: int| 0 <= x < data.len() ==> #[trigger] chunk_covers(b, x),
        forall|x: int, i: int, j: int|
            #[trigger] in_chunk(b, x, i) && #[trigger] in_chunk(b, x, j) ==> i == j,
{
    assert forall|x: int| 0 <= x < data.len() implies #[trigger] chunk_covers(b, x) by {
        let w = lemma_find_chunk(b, x, 0);
        assert(in_chunk(b, x, w));
    }
    assert forall|x: int, i: int, j: int|
        #[trigger] in_chunk(b, x, i) && #[trigger] in_chunk(b, x, j) implies i == j by {
        if i < j {
            lemma_bounds_mono(b, i + 1, j);
        }
        if j < i {
            lemma_bounds_mono(b, j + 1, i);
        }
    }
}

} // verus!
