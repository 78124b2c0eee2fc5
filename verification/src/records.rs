//! Records and lines: how a byte buffer decomposes into records, what one
//! record means, and how a range of the buffer is aggregated.
//!
//! A record is a maximal run between newlines (a trailing run without a
//! newline counts); it splits at the first `;` into a non-empty key and a
//! fixed-point value. `agg_of` is the reference fold of a record sequence
//! into per-key statistics, against which the worker aggregator is verified.

use vstd::prelude::*;
use crate::aggmap::{map_add, merge_maps, AggMap};
use crate::stats::{lemma_merge_singleton, StatsModel};
use crate::value::{valid_value, value_fits, value_of};
use crate::RecordError;

verus! {

/// Byte value of `\n`.
pub const NL: u8 = 10;
/// Byte value of `;`.
pub const SEMI: u8 = 59;

/// `i` is the first occurrence of `c` in `s`.
pub open spec fn first_at(s: Seq<u8>, c: u8, i: int) -> bool {
    &&& 0 <= i < s.len()
    &&& s[i] == c
    &&& forall|j: int| 0 <= j < i ==> s[j] != c
}

pub open spec fn has_byte(s: Seq<u8>, c: u8) -> bool {
    exists|i: int| first_at(s, c, i)
}

pub open spec fn first_idx(s: Seq<u8>, c: u8) -> int {
    choose|i: int| first_at(s, c, i)
}

/// Any occurrence of `c` shows there is a first occurrence.
pub proof fn lemma_has_byte(s: Seq<u8>, c: u8, j: int)
    requires
        0 <= j < s.len(),
        s[j] == c,
    ensures
        has_byte(s, c),
    decreases j,
{
    if forall|j2: int| 0 <= j2 < j ==> s[j2] != c {
        assert(first_at(s, c, j));
    } else {
        let j2 = choose|j2: int| 0 <= j2 < j && s[j2] == c;
        lemma_has_byte(s, c, j2);
    }
}

pub proof fn lemma_first_at_unique(s: Seq<u8>, c: u8, i: int, j: int)
    requires
        first_at(s, c, i),
        first_at(s, c, j),
    ensures
        i == j,
{
}

/// The meaning of one record: key bytes and value in tenths, or the error.
pub open spec fn parse_record(s: Seq<u8>) -> Result<(Seq<u8>, int), RecordError> {
    if !has_byte(s, SEMI) {
        Err(RecordError::MissingDelimiter)
    } else if first_idx(s, SEMI) == 0 {
        Err(RecordError::EmptyKey)
    } else {
        let v = s.skip(first_idx(s, SEMI) + 1);
        if valid_value(v) && value_fits(v) {
            Ok((s.take(first_idx(s, SEMI)), value_of(v)))
        } else {
            Err(RecordError::MalformedValue)
        }
    }
}

/// The records of a buffer: the runs between newlines, and a final run
/// without a trailing newline when it is non-empty.
pub open spec fn split_lines(s: Seq<u8>) -> Seq<Seq<u8>>
    decreases s.len(),
{
    if s.len() == 0 {
        Seq::empty()
    } else if has_byte(s, NL) {
        seq![s.take(first_idx(s, NL))] + split_lines(s.skip(first_idx(s, NL) + 1))
    } else {
        seq![s]
    }
}

/// There are never more records than bytes.
pub proof fn lemma_split_lines_len(s: Seq<u8>)
    ensures
        split_lines(s).len() <= s.len(),
    decreases s.len(),
{
    if s.len() > 0 && has_byte(s, NL) {
        lemma_split_lines_len(s.skip(first_idx(s, NL) + 1));
    }
}

/// A cut placed at the start, at the end, or right after a newline splits the
/// record sequence without splitting any record.
pub proof fn lemma_split_at_boundary(s: Seq<u8>, b: int)
    requires
        0 <= b <= s.len(),
        b == 0 || b == s.len() || s[b - 1] == NL,
    ensures
        split_lines(s) == split_lines(s.take(b)) + split_lines(s.skip(b)),
    decreases s.len(),
{
    if b == 0 {
        assert(s.take(0) =~= Seq::<u8>::empty());
        assert(s.skip(0) =~= s);
        assert(split_lines(s.take(0)) + split_lines(s.skip(0)) =~= split_lines(s));
    } else if b == s.len() {
        assert(s.take(b) =~= s);
        assert(s.skip(b) =~= Seq::<u8>::empty());
        assert(split_lines(s.take(b)) + split_lines(s.skip(b)) =~= split_lines(s));
    } else {
        lemma_has_byte(s, NL, b - 1);
        let i = first_idx(s, NL);
        assert(first_at(s, NL, i));
        assert(i <= b - 1);
        let t = s.take(b);
        if i == b - 1 {
            assert(first_at(t, NL, i)) by {
                assert(t[i] == s[i]);
                assert(forall|j: int| 0 <= j < i ==> t[j] == s[j]);
            }
            assert(has_byte(t, NL));
            lemma_first_at_unique(t, NL, first_idx(t, NL), i);
            assert(first_idx(t, NL) == i);
            assert(t.take(i) =~= s.take(i));
            assert(t.skip(i + 1) =~= Seq::<u8>::empty());
            assert(split_lines(t) == seq![t.take(i)] + split_lines(t.skip(i + 1)));
            assert(split_lines(t.skip(i + 1)) == Seq::<Seq<u8>>::empty());
            assert(split_lines(t) =~= seq![s.take(i)]);
            assert(split_lines(s) =~= split_lines(t) + split_lines(s.skip(b)));
        } else {
            let rest = s.skip(i + 1);
            lemma_split_at_boundary(rest, b - i - 1);
            assert(first_at(t, NL, i)) by {
                assert(t[i] == s[i]);
                assert(forall|j: int| 0 <= j < i ==> t[j] == s[j]);
            }
            assert(has_byte(t, NL));
            lemma_first_at_unique(t, NL, first_idx(t, NL), i);
            assert(t.take(i) =~= s.take(i));
            assert(t.skip(i + 1) =~= rest.take(b - i - 1));
            assert(rest.skip(b - i - 1) =~= s.skip(b));
            assert(split_lines(s) == seq![s.take(i)] + split_lines(rest));
            assert(split_lines(rest) == split_lines(rest.take(b - i - 1)) + split_lines(
                s.skip(b),
            ));
            assert(split_lines(t) == seq![s.take(i)] + split_lines(rest.take(b - i - 1)));
            assert(seq![s.take(i)] + (split_lines(rest.take(b - i - 1)) + split_lines(s.skip(b)))
                =~= (seq![s.take(i)] + split_lines(rest.take(b - i - 1))) + split_lines(s.skip(b)));
        }
    }
}

/// A run whose only newline is its last byte is a single record.
pub proof fn lemma_split_single(seg: Seq<u8>)
    requires
        seg.len() >= 1,
        seg[seg.len() - 1] == NL,
        forall|j: int| 0 <= j < seg.len() - 1 ==> seg[j] != NL,
    ensures
        split_lines(seg) == seq![seg.take(seg.len() - 1)],
{
    let w = seg.len() - 1;
    assert(first_at(seg, NL, w));
    assert(has_byte(seg, NL));
    lemma_first_at_unique(seg, NL, first_idx(seg, NL), w);
    assert(seg.skip(w + 1) =~= Seq::<u8>::empty());
    assert(split_lines(seg) == seq![seg.take(w)] + split_lines(seg.skip(w + 1)));
    assert(split_lines(seg.skip(w + 1)) == Seq::<Seq<u8>>::empty());
    assert(split_lines(seg) =~= seq![seg.take(w)]);
}

/// A non-empty run without a newline is a single record.
pub proof fn lemma_split_no_nl(seg: Seq<u8>)
    requires
        seg.len() >= 1,
        forall|j: int| 0 <= j < seg.len() ==> seg[j] != NL,
    ensures
        split_lines(seg) == seq![seg],
{
    if has_byte(seg, NL) {
        let w = first_idx(seg, NL);
        assert(first_at(seg, NL, w));
    }
}

/// The reference fold: aggregates records left to right, stopping at the
/// first record that fails to parse.
pub open spec fn agg_of(rs: Seq<Seq<u8>>) -> Result<Map<Seq<u8>, StatsModel>, RecordError>
    decreases rs.len(),
{
    if rs.len() == 0 {
        Ok(Map::empty())
    } else {
        match agg_of(rs.drop_last()) {
            Ok(m) => match parse_record(rs.last()) {
                Ok(kv) => Ok(map_add(m, kv.0, kv.1)),
                Err(e) => Err(e),
            },
            Err(e) => Err(e),
        }
    }
}

/// Folding an observation into the right-hand side of a merge is the same as
/// folding it into the merged map.
pub proof fn lemma_merge_map_add(
    m1: Map<Seq<u8>, StatsModel>,
    m2: Map<Seq<u8>, StatsModel>,
    k: Seq<u8>,
    v: int,
)
    ensures
        merge_maps(m1, map_add(m2, k, v)) == map_add(merge_maps(m1, m2), k, v),
{
    if m1.contains_key(k) && !m2.contains_key(k) {
        lemma_merge_singleton(m1[k], v);
    }
    assert(merge_maps(m1, map_add(m2, k, v)) =~= map_add(merge_maps(m1, m2), k, v));
}

/// Aggregating a concatenation is aggregating the parts and merging, and the
/// first error of the parts is the error of the whole.
pub proof fn lemma_agg_concat(rs1: Seq<Seq<u8>>, rs2: Seq<Seq<u8>>)
    ensures
        agg_of(rs1) is Err ==> agg_of(rs1 + rs2) == agg_of(rs1),
        agg_of(rs1) is Ok && agg_of(rs2) is Err ==> agg_of(rs1 + rs2) == agg_of(rs2),
        agg_of(rs1) is Ok && agg_of(rs2) is Ok ==> agg_of(rs1 + rs2) == Ok::<
            Map<Seq<u8>, StatsModel>,
            RecordError,
        >(merge_maps(agg_of(rs1)->Ok_0, agg_of(rs2)->Ok_0)),
    decreases rs2.len(),
{
    if rs2.len() == 0 {
        assert(rs1 + rs2 =~= rs1);
        if agg_of(rs1) is Ok {
            crate::aggmap::lemma_merge_maps_empty(agg_of(rs1)->Ok_0);
        }
    } else {
        let r = rs2.last();
        let rs2p = rs2.drop_last();
        lemma_agg_concat(rs1, rs2p);
        assert((rs1 + rs2).drop_last() =~= rs1 + rs2p);
        assert((rs1 + rs2).last() == r);
        if agg_of(rs1) is Ok && agg_of(rs2p) is Ok && parse_record(r) is Ok {
            let kv = parse_record(r)->Ok_0;
            lemma_merge_map_add(agg_of(rs1)->Ok_0, agg_of(rs2p)->Ok_0, kv.0, kv.1);
        }
    }
}

/// Two groups of records may be aggregated in either order: the merged
/// result is the same.
pub proof fn lemma_agg_order_independent(rs1: Seq<Seq<u8>>, rs2: Seq<Seq<u8>>)
    requires
        agg_of(rs1) is Ok,
        agg_of(rs2) is Ok,
    ensures
        agg_of(rs1 + rs2) == agg_of(rs2 + rs1),
{
    lemma_agg_concat(rs1, rs2);
    lemma_agg_concat(rs2, rs1);
    crate::aggmap::lemma_merge_maps_comm(agg_of(rs1)->Ok_0, agg_of(rs2)->Ok_0);
}

/// A successful aggregation gives every key between one observation and one
/// per record.
pub proof fn lemma_agg_counts(rs: Seq<Seq<u8>>)
    requires
        agg_of(rs) is Ok,
    ensures
        forall|k: Seq<u8>| #[trigger] (agg_of(rs)->Ok_0).contains_key(k) ==> 1 <= (
        agg_of(rs)->Ok_0)[k].count <= rs.len(),
    decreases rs.len(),
{
    if rs.len() > 0 {
        lemma_agg_counts(rs.drop_last());
    }
}

/// Successful aggregation of a prefix bounds every key's count by the
/// prefix's length.
pub proof fn lemma_counts_bound(prefix: Seq<u8>, m: Map<Seq<u8>, StatsModel>)
    requires
        agg_of(split_lines(prefix)) == Ok::<Map<Seq<u8>, StatsModel>, RecordError>(m),
    ensures
        forall|k: Seq<u8>| m.contains_key(k) ==> #[trigger] m[k].count <= prefix.len(),
{
    lemma_agg_counts(split_lines(prefix));
    lemma_split_lines_len(prefix);
    assert forall|k: Seq<u8>| m.contains_key(k) implies #[trigger] m[k].count <= prefix.len() by {
        assert((agg_of(split_lines(prefix))->Ok_0).contains_key(k));
    }
}

/// Scanning up to a newline at `i` extends the records of the prefix by
/// exactly the one record `data[start..i]`.
pub proof fn lemma_step_records(data: Seq<u8>, lo: int, start: int, i: int)
    requires
        0 <= lo <= start <= i < data.len(),
        data[i] == NL,
        forall|j: int| start <= j < i ==> data[j] != NL,
        start == lo || data[start - 1] == NL,
    ensures
        split_lines(data.subrange(lo, i + 1)) == split_lines(data.subrange(lo, start)).push(
            data.subrange(start, i),
        ),
{
    let upto = data.subrange(lo, i + 1);
    let prefix = data.subrange(lo, start);
    let seg = data.subrange(start, i + 1);
    lemma_split_at_boundary(upto, start - lo);
    assert(upto.take(start - lo) =~= prefix);
    assert(upto.skip(start - lo) =~= seg);
    assert(seg[seg.len() - 1] == data[i]);
    assert(forall|j: int| 0 <= j < seg.len() - 1 ==> seg[j] == data[start + j]);
    lemma_split_single(seg);
    assert(seg.take(seg.len() - 1) =~= data.subrange(start, i));
    assert(split_lines(upto) =~= split_lines(prefix).push(data.subrange(start, i)));
}

/// A newline-free tail extends the records of the prefix by exactly the one
/// record `data[start..hi]`.
pub proof fn lemma_tail_records(data: Seq<u8>, lo: int, start: int, hi: int)
    requires
        0 <= lo <= start < hi <= data.len(),
        forall|j: int| start <= j < hi ==> data[j] != NL,
        start == lo || data[start - 1] == NL,
    ensures
        split_lines(data.subrange(lo, hi)) == split_lines(data.subrange(lo, start)).push(
            data.subrange(start, hi),
        ),
{
    let whole = data.subrange(lo, hi);
    let prefix = data.subrange(lo, start);
    let seg = data.subrange(start, hi);
    lemma_split_at_boundary(whole, start - lo);
    assert(whole.take(start - lo) =~= prefix);
    assert(whole.skip(start - lo) =~= seg);
    assert(forall|j: int| 0 <= j < seg.len() ==> seg[j] == data[start + j]);
    lemma_split_no_nl(seg);
    assert(split_lines(whole) =~= split_lines(prefix).push(seg));
}

/// An error in the records up to an aligned cut is the error of the whole
/// range.
pub proof fn lemma_err_propagates(data: Seq<u8>, lo: int, b: int, hi: int, e: RecordError)
    requires
        0 <= lo <= b <= hi <= data.len(),
        b == lo || b == hi || data[b - 1] == NL,
        agg_of(split_lines(data.subrange(lo, b))) == Err::<Map<Seq<u8>, StatsModel>, RecordError>(
            e,
        ),
    ensures
        agg_of(split_lines(data.subrange(lo, hi))) == Err::<Map<Seq<u8>, StatsModel>, RecordError>(
            e,
        ),
{
    let whole = data.subrange(lo, hi);
    lemma_split_at_boundary(whole, b - lo);
    assert(whole.take(b - lo) =~= data.subrange(lo, b));
    assert(whole.skip(b - lo) =~= data.subrange(b, hi));
    lemma_agg_concat(split_lines(data.subrange(lo, b)), split_lines(data.subrange(b, hi)));
}

/// Parses the record held in `data[start..end]` and folds it into `m`.
///
/// On a parse failure the map is left unchanged and the record's own error is
/// returned.
pub fn process_record(data: &[u8], start: usize, end: usize, m: &mut AggMap) -> (r: Result<
    (),
    RecordError,
>)
    requires
        start <= end <= data@.len(),
        old(m).inv(),
        forall|k: Seq<u8>| old(m)@.contains_key(k) ==> old(m)@[k].count < u64::MAX,
    ensures
        final(m).inv(),
        match parse_record(data@.subrange(start as int, end as int)) {
            Ok(kv) => r is Ok && final(m)@ == map_add(old(m)@, kv.0, kv.1),
            Err(e) => r == Err::<(), RecordError>(e) && final(m)@ == old(m)@,
        },
{
    let ghost rec = data@.subrange(start as int, end as int);
    let mut i: usize = start;
    while i < end && data[i] != SEMI
        invariant
            start <= i <= end,
            forall|j: int| start <= j < i ==> data@[j] != SEMI,
        decreases end - i,
    {
        i += 1;
    }
    if i == end {
        proof {
            assert forall|j: int| 0 <= j < rec.len() implies rec[j] != SEMI by {
                assert(rec[j] == data@[start + j]);
            }
            if has_byte(rec, SEMI) {
                let w = first_idx(rec, SEMI);
                assert(first_at(rec, SEMI, w));
            }
        }
        return Err(RecordError::MissingDelimiter);
    }
    proof {
        assert(first_at(rec, SEMI, i - start)) by {
            assert(rec[i - start] == data@[i as int]);
            assert(forall|j: int| 0 <= j < i - start ==> rec[j] == data@[start + j]);
        }
        assert(has_byte(rec, SEMI));
        lemma_first_at_unique(rec, SEMI, first_idx(rec, SEMI), i - start);
    }
    if i == start {
        return Err(RecordError::EmptyKey);
    }
    let key = vstd::slice::slice_subrange(data, start, i);
    let vs = vstd::slice::slice_subrange(data, i + 1, end);
    proof {
        assert(vs@ =~= rec.skip(i - start + 1));
        assert(key@ =~= rec.take(i - start));
    }
    match crate::value::parse_value(vs) {
        Ok(v) => {
            m.fold_value(key, v);
            Ok(())
        },
        Err(e) => Err(e),
    }
}

/// Aggregates every record of `data[lo..hi]`, stopping at the first record
/// that fails to parse.
#[verifier::rlimit(80)]
pub fn aggregate_range(data: &[u8], lo: usize, hi: usize) -> (r: Result<AggMap, RecordError>)
    requires
        lo <= hi <= data@.len(),
    ensures
        match r {
            Ok(m) => m.inv() && agg_of(split_lines(data@.subrange(lo as int, hi as int))) == Ok::<
                Map<Seq<u8>, StatsModel>,
                RecordError,
            >(m@),
            Err(e) => agg_of(split_lines(data@.subrange(lo as int, hi as int))) == Err::<
                Map<Seq<u8>, StatsModel>,
                RecordError,
            >(e),
        },
{
    let ghost whole = data@.subrange(lo as int, hi as int);
    let mut m = AggMap::new();
    let mut start: usize = lo;
    let mut i: usize = lo;
    while i < hi
        invariant
            lo <= start <= i <= hi,
            m.inv(),
            agg_of(split_lines(data@.subrange(lo as int, start as int))) == Ok::<
                Map<Seq<u8>, StatsModel>,
                RecordError,
            >(m@),
            forall|j: int| start <= j < i ==> data@[j] != NL,
            start == lo || data@[start - 1] == NL,
        decreases hi - i,
    {
        if data[i] == NL {
            let ghost prefix = data@.subrange(lo as int, start as int);
            let ghost rec = data@.subrange(start as int, i as int);
            let ghost upto = data@.subrange(lo as int, i + 1);
            proof {
                lemma_counts_bound(prefix, m@);
                lemma_step_records(data@, lo as int, start as int, i as int);
                assert(split_lines(upto).drop_last() =~= split_lines(prefix));
            }
            let r = process_record(data, start, i, &mut m);
            match r {
                Ok(_) => {
                    start = i + 1;
                },
                Err(e) => {
                    proof {
                        lemma_err_propagates(data@, lo as int, i + 1, hi as int, e);
                    }
                    return Err(e);
                },
            }
        }
        i += 1;
    }
    if start < hi {
        let ghost prefix = data@.subrange(lo as int, start as int);
        let ghost seg = data@.subrange(start as int, hi as int);
        proof {
            lemma_counts_bound(prefix, m@);
            lemma_tail_records(data@, lo as int, start as int, hi as int);
            assert(split_lines(whole).drop_last() =~= split_lines(prefix));
        }
        let r = process_record(data, start, hi, &mut m);
        match r {
            Ok(_) => Ok(m),
            Err(e) => Err(e),
        }
    } else {
        proof {
            assert(data@.subrange(lo as int, start as int) =~= whole);
        }
        Ok(m)
    }
}

} // verus!
