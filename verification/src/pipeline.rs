//! The whole computation on one buffer: partition into record-aligned
//! chunks, aggregate each chunk, merge, and render.
//!
//! The contract pins the result as a function of the buffer alone, so the
//! worker count never changes the output.

use vstd::prelude::*;
use crate::aggmap::AggMap;
use crate::chunk::{bounds_wf, chunk_bounds, lemma_bounds_mono};
use crate::output::{is_rendering, render};
use crate::records::{
    agg_of, aggregate_range, lemma_agg_concat, lemma_counts_bound, lemma_err_propagates,
    lemma_split_at_boundary, split_lines, NL,
};
use crate::stats::StatsModel;
use crate::RecordError;

verus! {

/// Runs the pipeline over `data` with `workers` chunks.
///
/// On success the output renders the aggregation of every record of `data`;
/// on failure the error is the first record error, and no output is made.
/// Both sides depend on `data` alone, never on `workers`.
#[verifier::rlimit(90)]
pub fn run(data: &[u8], workers: usize) -> (r: Result<Vec<u8>, RecordError>)
    requires
        1 <= workers,
    ensures
        match r {
            Ok(out) => agg_of(split_lines(data@)) is Ok && is_rendering(
                agg_of(split_lines(data@))->Ok_0,
                out@,
            ),
            Err(e) => agg_of(split_lines(data@)) == Err::<Map<Seq<u8>, StatsModel>, RecordError>(
                e,
            ),
        },
{
    let bounds = chunk_bounds(data, workers);
    let n = bounds.len() - 1;
    let mut m = AggMap::new();
    let mut w: usize = 0;
    proof {
        assert(data@.subrange(0, bounds@[0] as int) =~= Seq::<u8>::empty());
        assert(split_lines(Seq::<u8>::empty()) =~= Seq::<Seq<u8>>::empty());
    }
    while w < n
        invariant
            0 <= w <= n,
            n == bounds@.len() - 1,
            m.inv(),
            agg_of(split_lines(data@.subrange(0, bounds@[w as int] as int))) == Ok::<
                Map<Seq<u8>, StatsModel>,
                RecordError,
            >(m@),
        decreases n - w,
    {
        let lo = bounds[w];
        let hi = bounds[w + 1];
        proof {
            lemma_bounds_mono(bounds@, w + 1, n as int);
        }
        let ghost prefix = data@.subrange(0, lo as int);
        let ghost upto = data@.subrange(0, hi as int);
        let ghost seg = data@.subrange(lo as int, hi as int);
        proof {
            lemma_split_at_boundary(upto, lo as int);
            assert(upto.take(lo as int) =~= prefix);
            assert(upto.skip(lo as int) =~= seg);
        }
        match aggregate_range(data, lo, hi) {
            Ok(part) => {
                proof {
                    lemma_agg_concat(split_lines(prefix), split_lines(seg));
                    lemma_counts_bound(prefix, m@);
                    lemma_counts_bound(seg, part@);
                    assert forall|k: Seq<u8>|
                        m@.contains_key(k) && part@.contains_key(k) implies m@[k].count
                        + part@[k].count <= u64::MAX by {
                        assert(m@[k].count <= prefix.len());
                        assert(part@[k].count <= seg.len());
                    }
                }
                m.absorb(&part);
                w += 1;
            },
            Err(e) => {
                proof {
                    lemma_agg_concat(split_lines(prefix), split_lines(seg));
                    lemma_err_propagates(data@, 0, hi as int, data@.len() as int, e);
                    assert(data@.subrange(0, data@.len() as int) =~= data@);
                }
                return Err(e);
            },
        }
    }
    proof {
        assert(data@.subrange(0, bounds@[n as int] as int) =~= data@);
    }
    let out = render(&m);
    Ok(out)
}

} // verus!
