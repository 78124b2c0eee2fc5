//! The aggregation map: per-key statistics, held as a vector of entries kept
//! strictly sorted by byte-lexicographic key order.
//!
//! The view of a map is a mathematical `Map` from key bytes to statistics;
//! folding one record and merging whole maps are specified against that view.

use vstd::prelude::*;
use crate::lex::{
    lemma_lex_lt_irrefl, lemma_lex_lt_trans, lex_cmp, lex_lt, KeyOrder,
};
use crate::stats::{
    lemma_merge_singleton, singleton_stats, stats_add, stats_merge, stats_wf, Stats, StatsModel,
};

verus! {

/// One key with its statistics.
pub struct Entry {
    pub key: Vec<u8>,
    pub stats: Stats,
}

/// Folding one observation into a map of statistics.
pub open spec fn map_add(m: Map<Seq<u8>, StatsModel>, k: Seq<u8>, v: int) -> Map<
    Seq<u8>,
    StatsModel,
> {
    if m.contains_key(k) {
        m.insert(k, stats_add(m[k], v))
    } else {
        m.insert(k, singleton_stats(v))
    }
}

/// Merging one key's statistics into a map.
pub open spec fn merge_one(m: Map<Seq<u8>, StatsModel>, k: Seq<u8>, st: StatsModel) -> Map<
    Seq<u8>,
    StatsModel,
> {
    if m.contains_key(k) {
        m.insert(k, stats_merge(m[k], st))
    } else {
        m.insert(k, st)
    }
}

/// Merging two maps: union of keys, statistics combined where both have them.
pub open spec fn merge_maps(
    a: Map<Seq<u8>, StatsModel>,
    b: Map<Seq<u8>, StatsModel>,
) -> Map<Seq<u8>, StatsModel> {
    Map::new(
        |k: Seq<u8>| a.contains_key(k) || b.contains_key(k),
        |k: Seq<u8>|
            if a.contains_key(k) && b.contains_key(k) {
                stats_merge(a[k], b[k])
            } else if b.contains_key(k) {
                b[k]
            } else {
                a[k]
            },
    )
}

/// Merging with the empty map changes nothing.
pub proof fn lemma_merge_maps_empty(a: Map<Seq<u8>, StatsModel>)
    ensures
        merge_maps(a, Map::empty()) == a,
{
    assert(merge_maps(a, Map::empty()) =~= a);
}

/// Merging maps is commutative.
pub proof fn lemma_merge_maps_comm(a: Map<Seq<u8>, StatsModel>, b: Map<Seq<u8>, StatsModel>)
    ensures
        merge_maps(a, b) == merge_maps(b, a),
{
    assert(merge_maps(a, b) =~= merge_maps(b, a));
}

/// Merging maps is associative.
pub proof fn lemma_merge_maps_assoc(
    a: Map<Seq<u8>, StatsModel>,
    b: Map<Seq<u8>, StatsModel>,
    c: Map<Seq<u8>, StatsModel>,
)
    ensures
        merge_maps(merge_maps(a, b), c) == merge_maps(a, merge_maps(b, c)),
{
    assert(merge_maps(merge_maps(a, b), c) =~= merge_maps(a, merge_maps(b, c)));
}

/// A key fresh in `b` can be merged into `b` before or after merging with `a`.
pub proof fn lemma_merge_one_shift(
    a: Map<Seq<u8>, StatsModel>,
    b: Map<Seq<u8>, StatsModel>,
    k: Seq<u8>,
    st: StatsModel,
)
    requires
        !b.contains_key(k),
    ensures
        merge_maps(a, b.insert(k, st)) == merge_one(merge_maps(a, b), k, st),
{
    assert(merge_maps(a, b.insert(k, st)) =~= merge_one(merge_maps(a, b), k, st));
}

/// The map described by a sequence of entries.
pub open spec fn map_of(es: Seq<Entry>) -> Map<Seq<u8>, StatsModel>
    decreases es.len(),
{
    if es.len() == 0 {
        Map::empty()
    } else {
        map_of(es.drop_last()).insert(es.last().key@, es.last().stats@)
    }
}

pub open spec fn keys_distinct(es: Seq<Entry>) -> bool {
    forall|i: int, j: int| 0 <= i < j < es.len() ==> es[i].key@ != es[j].key@
}

pub open spec fn entries_sorted(es: Seq<Entry>) -> bool {
    forall|i: int, j: int| 0 <= i < j < es.len() ==> lex_lt(es[i].key@, es[j].key@)
}

pub open spec fn entries_wf(es: Seq<Entry>) -> bool {
    forall|i: int| 0 <= i < es.len() ==> stats_wf(es[i].stats@)
}

pub proof fn lemma_sorted_distinct(es: Seq<Entry>)
    requires
        entries_sorted(es),
    ensures
        keys_distinct(es),
{
    assert forall|i: int, j: int| 0 <= i < j < es.len() implies es[i].key@ != es[j].key@ by {
        if es[i].key@ == es[j].key@ {
            lemma_lex_lt_irrefl(es[i].key@);
        }
    }
}

/// A key held by no entry is absent from the described map.
pub proof fn lemma_map_of_absent(es: Seq<Entry>, k: Seq<u8>)
    requires
        forall|i: int| 0 <= i < es.len() ==> es[i].key@ != k,
    ensures
        !map_of(es).contains_key(k),
    decreases es.len(),
{
    if es.len() > 0 {
        lemma_map_of_absent(es.drop_last(), k);
    }
}

/// With distinct keys, every entry is exactly reflected in the described map.
pub proof fn lemma_map_of_index(es: Seq<Entry>, i: int)
    requires
        keys_distinct(es),
        0 <= i < es.len(),
    ensures
        map_of(es).contains_key(es[i].key@),
        map_of(es)[es[i].key@] == es[i].stats@,
    decreases es.len(),
{
    if i < es.len() - 1 {
        lemma_map_of_index(es.drop_last(), i);
    }
}

/// Inserting an entry with a fresh key inserts exactly that key in the map.
pub proof fn lemma_map_of_insert(es: Seq<Entry>, pos: int, e: Entry)
    requires
        0 <= pos <= es.len(),
        forall|i: int| 0 <= i < es.len() ==> es[i].key@ != e.key@,
    ensures
        map_of(es.insert(pos, e)) == map_of(es).insert(e.key@, e.stats@),
    decreases es.len(),
{
    let es1 = es.insert(pos, e);
    if pos == es.len() {
        assert(es1.drop_last() =~= es);
        assert(es1.last() == e);
    } else {
        assert(es1.last() == es.last());
        assert(es1.drop_last() =~= es.drop_last().insert(pos, e));
        lemma_map_of_insert(es.drop_last(), pos, e);
        assert(map_of(es1) == map_of(es.drop_last()).insert(e.key@, e.stats@).insert(
            es.last().key@,
            es.last().stats@,
        ));
        assert(map_of(es.drop_last()).insert(e.key@, e.stats@).insert(
            es.last().key@,
            es.last().stats@,
        ) =~= map_of(es).insert(e.key@, e.stats@));
    }
}

/// Replacing the entry at `pos` by one with the same key updates exactly that
/// key in the map.
pub proof fn lemma_map_of_update(es: Seq<Entry>, pos: int, e: Entry)
    requires
        keys_distinct(es),
        0 <= pos < es.len(),
        es[pos].key@ == e.key@,
    ensures
        map_of(es.update(pos, e)) == map_of(es).insert(e.key@, e.stats@),
    decreases es.len(),
{
    let es1 = es.update(pos, e);
    if pos == es.len() - 1 {
        assert(es1.drop_last() =~= es.drop_last());
        assert(es1.last() == e);
        assert(map_of(es1) =~= map_of(es).insert(e.key@, e.stats@));
    } else {
        assert(es1.last() == es.last());
        assert(es1.drop_last() =~= es.drop_last().update(pos, e));
        lemma_map_of_update(es.drop_last(), pos, e);
        assert(map_of(es1) == map_of(es.drop_last()).insert(e.key@, e.stats@).insert(
            es.last().key@,
            es.last().stats@,
        ));
        assert(map_of(es.drop_last()).insert(e.key@, e.stats@).insert(
            es.last().key@,
            es.last().stats@,
        ) =~= map_of(es).insert(e.key@, e.stats@));
    }
}

/// Per-key statistics for the records seen so far.
pub struct AggMap {
    pub entries: Vec<Entry>,
}

impl View for AggMap {
    type V = Map<Seq<u8>, StatsModel>;

    open spec fn view(&self) -> Map<Seq<u8>, StatsModel> {
        map_of(self.entries@)
    }
}

impl AggMap {
    /// Entries strictly sorted by key, each with well-formed statistics.
    pub open spec fn inv(&self) -> bool {
        &&& entries_sorted(self.entries@)
        &&& entries_wf(self.entries@)
    }

    /// An empty map.
    pub fn new() -> (r: AggMap)
        ensures
            r.inv(),
            r@ == Map::<Seq<u8>, StatsModel>::empty(),
    {
        AggMap { entries: Vec::new() }
    }

    /// Finds the place of `key` in the sorted entries: the index of the first
    /// entry not below `key`, and whether that entry holds `key` itself.
    fn locate(&self, key: &[u8]) -> (r: (usize, bool))
        requires
            self.inv(),
        ensures
            r.0 <= self.entries@.len(),
            forall|i: int| 0 <= i < r.0 ==> lex_lt(self.entries@[i].key@, key@),
            r.1 <==> (r.0 < self.entries@.len() && self.entries@[r.0 as int].key@ == key@),
            !r.1 && r.0 < self.entries@.len() ==> lex_lt(key@, self.entries@[r.0 as int].key@),
    {
        let n = self.entries.len();
        let mut i: usize = 0;
        while i < n
            invariant
                0 <= i <= n,
                forall|j: int| 0 <= j < i ==> lex_lt(self.entries@[j].key@, key@),
            decreases n - i,
        {
            let e = &self.entries[i];
            match lex_cmp(e.key.as_slice(), key) {
                KeyOrder::Less => {
                    i += 1;
                },
                KeyOrder::Equal => {
                    return (i, true);
                },
                KeyOrder::Greater => {
                    proof {
                        lemma_lex_lt_irrefl(key@);
                    }
                    return (i, false);
                },
            }
        }
        (n, false)
    }

    /// All entry keys differ from `key` when `locate` found no match.
    proof fn lemma_locate_absent(&self, key: Seq<u8>, pos: int)
        requires
            self.inv(),
            0 <= pos <= self.entries@.len(),
            forall|i: int| 0 <= i < pos ==> lex_lt(self.entries@[i].key@, key),
            pos < self.entries@.len() ==> lex_lt(key, self.entries@[pos].key@),
        ensures
            forall|i: int| 0 <= i < self.entries@.len() ==> self.entries@[i].key@ != key,
            !self@.contains_key(key),
    {
        let es = self.entries@;
        assert forall|i: int| 0 <= i < es.len() implies es[i].key@ != key by {
            if es[i].key@ == key {
                if i < pos {
                    lemma_lex_lt_irrefl(key);
                } else if i == pos {
                    lemma_lex_lt_irrefl(key);
                } else {
                    lemma_lex_lt_trans(key, es[pos].key@, es[i].key@);
                    lemma_lex_lt_irrefl(key);
                }
            }
        }
        lemma_map_of_absent(es, key);
    }

    /// Merges one key's statistics into the map.
    pub fn merge_entry(&mut self, key: &[u8], st: Stats)
        requires
            old(self).inv(),
            stats_wf(st@),
            old(self)@.contains_key(key@) ==> old(self)@[key@].count + st@.count <= u64::MAX,
        ensures
            final(self).inv(),
            final(self)@ == merge_one(old(self)@, key@, st@),
    {
        proof {
            lemma_sorted_distinct(self.entries@);
        }
        let (pos, found) = self.locate(key);
        let ghost es = self.entries@;
        if found {
            proof {
                lemma_map_of_index(es, pos as int);
            }
            let mut e = self.entries.remove(pos);
            e.stats.combine(&st);
            self.entries.insert(pos, e);
            proof {
                assert(self.entries@ =~= es.update(pos as int, self.entries@[pos as int]));
                lemma_map_of_update(es, pos as int, self.entries@[pos as int]);
                assert(forall|i: int|
                    0 <= i < es.len() ==> self.entries@[i].key@ == es[i].key@);
                assert(entries_sorted(self.entries@));
            }
        } else {
            proof {
                self.lemma_locate_absent(key@, pos as int);
            }
            let e = Entry { key: vstd::slice::slice_to_vec(key), stats: st };
            self.entries.insert(pos, e);
            proof {
                lemma_map_of_insert(es, pos as int, self.entries@[pos as int]);
                assert forall|i: int| pos <= i < es.len() implies lex_lt(
                    key@,
                    es[i].key@,
                ) by {
                    if i > pos {
                        lemma_lex_lt_trans(key@, es[pos as int].key@, es[i].key@);
                    }
                }
                let es1 = self.entries@;
                assert forall|i: int, j: int| 0 <= i < j < es1.len() implies lex_lt(
                    es1[i].key@,
                    es1[j].key@,
                ) by {
                    if i < pos && j == pos {
                    } else if i == pos {
                        assert(es1[j] == es[j - 1]);
                    } else if i < pos && j > pos {
                        assert(es1[j] == es[j - 1]);
                    } else if i > pos {
                        assert(es1[i] == es[i - 1]);
                        assert(es1[j] == es[j - 1]);
                    }
                }
                assert(entries_wf(es1));
            }
        }
    }

    /// Folds one observation for `key` into the map.
    pub fn fold_value(&mut self, key: &[u8], v: i64)
        requires
            old(self).inv(),
            v != i64::MIN,
            old(self)@.contains_key(key@) ==> old(self)@[key@].count < u64::MAX,
        ensures
            final(self).inv(),
            final(self)@ == map_add(old(self)@, key@, v as int),
    {
        let st = Stats::one(v);
        self.merge_entry(key, st);
        proof {
            if old(self)@.contains_key(key@) {
                lemma_merge_singleton(old(self)@[key@], v as int);
            }
        }
    }

    /// Merges every key of `other` into this map.
    pub fn absorb(&mut self, other: &AggMap)
        requires
            old(self).inv(),
            other.inv(),
            forall|k: Seq<u8>|
                old(self)@.contains_key(k) && other@.contains_key(k) ==> old(self)@[k].count
                    + other@[k].count <= u64::MAX,
        ensures
            final(self).inv(),
            final(self)@ == merge_maps(old(self)@, other@),
    {
        proof {
            lemma_sorted_distinct(other.entries@);
        }
        let n = other.entries.len();
        let mut idx: usize = 0;
        proof {
            lemma_merge_maps_empty(old(self)@);
            assert(other.entries@.take(0) =~= Seq::<Entry>::empty());
        }
        while idx < n
            invariant
                0 <= idx <= n,
                self.inv(),
                self@ == merge_maps(old(self)@, map_of(other.entries@.take(idx as int))),
            decreases n - idx,
        {
            let e = &other.entries[idx];
            let ghost taken = other.entries@.take(idx as int);
            proof {
                assert(forall|i: int| 0 <= i < idx ==> taken[i].key@ != e.key@);
                lemma_map_of_absent(taken, e.key@);
                if self@.contains_key(e.key@) {
                    assert(old(self)@.contains_key(e.key@));
                    assert(self@[e.key@] == old(self)@[e.key@]);
                    lemma_map_of_index(other.entries@, idx as int);
                    assert(other@.contains_key(e.key@) && other@[e.key@] == e.stats@);
                    assert(old(self)@[e.key@].count + other@[e.key@].count <= u64::MAX);
                }
            }
            self.merge_entry(e.key.as_slice(), e.stats);
            idx += 1;
            proof {
                assert(other.entries@.take(idx as int).drop_last() =~= taken);
                assert(other.entries@.take(idx as int).last() == e);
                lemma_merge_one_shift(old(self)@, map_of(taken), e.key@, e.stats@);
            }
        }
        proof {
            assert(other.entries@.take(n as int) =~= other.entries@);
        }
    }
}

} // verus!
