//! Deterministic rendering: `{key=min/avg/max, ...}` with keys in ascending
//! byte-lexicographic order, every figure with exactly one fractional digit.

use vstd::prelude::*;
use crate::aggmap::{entries_sorted, lemma_map_of_absent, lemma_map_of_index,
    lemma_sorted_distinct, AggMap, Entry};
use crate::lex::{lemma_lex_lt_asym, lemma_lex_lt_irrefl, lex_lt};
use crate::stats::{stats_wf, Stats, StatsModel};
use crate::value::{fmt_tenths, push_tenths};

verus! {

/// Byte value of `{`.
pub const LBRACE: u8 = 123;
/// Byte value of `}`.
pub const RBRACE: u8 = 125;
/// Byte value of `=`.
pub const EQUALS: u8 = 61;
/// Byte value of `/`.
pub const SLASH: u8 = 47;
/// Byte value of `,`.
pub const COMMA: u8 = 44;
/// Byte value of a space.
pub const SPACE: u8 = 32;

/// `a / c` rounded to the nearest integer, ties upward, for `a >= 0, c > 0`.
pub open spec fn round_div(a: int, c: int) -> int {
    (2 * a + c) / (2 * c)
}

/// The average in tenths: sum over count, rounded to the nearest tenth,
/// ties away from zero.
pub open spec fn avg_tenths(s: StatsModel) -> int {
    if s.sum >= 0 {
        round_div(s.sum, s.count as int)
    } else {
        -round_div(-s.sum, s.count as int)
    }
}

/// The rounded average lies between the extremes.
pub proof fn lemma_avg_bounds(s: StatsModel)
    requires
        stats_wf(s),
    ensures
        s.min <= avg_tenths(s) <= s.max,
{
    let c = s.count as int;
    if s.sum >= 0 {
        assert(2 * s.sum + c <= 2 * (s.max * c) + c) by (nonlinear_arith)
            requires
                s.sum <= s.max * c,
        ;
        assert(2 * (s.max * c) + c == s.max * (2 * c) + c) by (nonlinear_arith);
        vstd::arithmetic::div_mod::lemma_fundamental_div_mod_converse(
            s.max * (2 * c) + c,
            2 * c,
            s.max,
            c,
        );
        vstd::arithmetic::div_mod::lemma_div_is_ordered(2 * s.sum + c, s.max * (2 * c) + c, 2 * c);
        assert(2 * s.sum + c >= 2 * (s.min * c) + c) by (nonlinear_arith)
            requires
                s.min * c <= s.sum,
        ;
        assert(2 * (s.min * c) + c == s.min * (2 * c) + c) by (nonlinear_arith);
        vstd::arithmetic::div_mod::lemma_fundamental_div_mod_converse(
            s.min * (2 * c) + c,
            2 * c,
            s.min,
            c,
        );
        vstd::arithmetic::div_mod::lemma_div_is_ordered(s.min * (2 * c) + c, 2 * s.sum + c, 2 * c);
    } else {
        let a = -s.sum;
        assert(2 * a + c <= 2 * (-(s.min * c)) + c) by (nonlinear_arith)
            requires
                s.min * c <= s.sum,
                a == -s.sum,
        ;
        assert(2 * (-(s.min * c)) + c == (-s.min) * (2 * c) + c) by (nonlinear_arith);
        vstd::arithmetic::div_mod::lemma_fundamental_div_mod_converse(
            (-s.min) * (2 * c) + c,
            2 * c,
            -s.min,
            c,
        );
        vstd::arithmetic::div_mod::lemma_div_is_ordered(2 * a + c, (-s.min) * (2 * c) + c, 2 * c);
        assert(2 * a + c >= 2 * (-(s.max * c)) + c) by (nonlinear_arith)
            requires
                s.sum <= s.max * c,
                a == -s.sum,
        ;
        assert(2 * (-(s.max * c)) + c == (-s.max) * (2 * c) + c) by (nonlinear_arith);
        vstd::arithmetic::div_mod::lemma_fundamental_div_mod_converse(
            (-s.max) * (2 * c) + c,
            2 * c,
            -s.max,
            c,
        );
        vstd::arithmetic::div_mod::lemma_div_is_ordered((-s.max) * (2 * c) + c, 2 * a + c, 2 * c);
    }
}

/// Computes the rounded average of well-formed statistics.
pub fn avg_of(st: &Stats) -> (r: i64)
    requires
        stats_wf(st@),
    ensures
        r as int == avg_tenths(st@),
        st@.min <= r as int <= st@.max,
{
    proof {
        crate::stats::lemma_stats_sum_bounds(st@);
        lemma_avg_bounds(st@);
    }
    let neg = st.sum < 0;
    let a: u128 = if neg {
        (-st.sum) as u128
    } else {
        st.sum as u128
    };
    let c: u128 = st.count as u128;
    let q = a / c;
    let rem = a % c;
    proof {
        vstd::arithmetic::div_mod::lemma_fundamental_div_mod(a as int, c as int);
        assert(a as int == (c as int) * (q as int) + (rem as int));
        if 2 * rem >= c {
            assert(2 * (a as int) + c == (q as int + 1) * (2 * (c as int)) + (2 * (rem as int)
                - c)) by (nonlinear_arith)
                requires
                    a as int == (c as int) * (q as int) + (rem as int),
            ;
            vstd::arithmetic::div_mod::lemma_fundamental_div_mod_converse(
                2 * (a as int) + c,
                2 * (c as int),
                q as int + 1,
                2 * (rem as int) - c,
            );
        } else {
            assert(2 * (a as int) + c == (q as int) * (2 * (c as int)) + (2 * (rem as int)
                + c)) by (nonlinear_arith)
                requires
                    a as int == (c as int) * (q as int) + (rem as int),
            ;
            vstd::arithmetic::div_mod::lemma_fundamental_div_mod_converse(
                2 * (a as int) + c,
                2 * (c as int),
                q as int,
                2 * (rem as int) + c,
            );
        }
    }
    let rounded: u128 = if 2 * rem >= c {
        q + 1
    } else {
        q
    };
    proof {
        assert(rounded as int == round_div(a as int, c as int));
        if neg {
            assert(avg_tenths(st@) == -(rounded as int));
        } else {
            assert(avg_tenths(st@) == rounded as int);
        }
        assert(rounded as int <= i64::MAX as int);
    }
    if neg {
        -(rounded as i64)
    } else {
        rounded as i64
    }
}

/// The rendering of one key's statistics: `min/avg/max, `.
pub open spec fn render_stats(st: StatsModel) -> Seq<u8> {
    fmt_tenths(st.min) + seq![SLASH] + fmt_tenths(avg_tenths(st)) + seq![SLASH] + fmt_tenths(
        st.max,
    ) + seq![COMMA, SPACE]
}

/// The rendering of one entry: `key=min/avg/max, `.
pub open spec fn render_pair(k: Seq<u8>, st: StatsModel) -> Seq<u8> {
    k + seq![EQUALS] + render_stats(st)
}

/// The rendering of a sequence of entries, in order.
pub open spec fn render_pairs(es: Seq<(Seq<u8>, StatsModel)>) -> Seq<u8>
    decreases es.len(),
{
    if es.len() == 0 {
        Seq::empty()
    } else {
        render_pairs(es.drop_last()) + render_pair(es.last().0, es.last().1)
    }
}

/// The key-statistics pairs of an entry sequence.
pub open spec fn spec_pairs(es: Seq<Entry>) -> Seq<(Seq<u8>, StatsModel)> {
    es.map_values(|e: Entry| (e.key@, e.stats@))
}

pub open spec fn pairs_sorted(es: Seq<(Seq<u8>, StatsModel)>) -> bool {
    forall|i: int, j: int| 0 <= i < j < es.len() ==> lex_lt(es[i].0, es[j].0)
}

/// The pairs list the map exactly: every pair is in the map, every key of the
/// map appears.
pub open spec fn pairs_match(es: Seq<(Seq<u8>, StatsModel)>, m: Map<Seq<u8>, StatsModel>) -> bool {
    &&& forall|i: int|
        0 <= i < es.len() ==> m.contains_key((#[trigger] es[i]).0) && m[es[i].0] == es[i].1
    &&& forall|k: Seq<u8>|
        m.contains_key(k) ==> exists|i: int| 0 <= i < es.len() && (#[trigger] es[i]).0 == k
}

/// `o` is the rendering of `m`: braces around the sorted entries of `m`.
pub open spec fn is_rendering(m: Map<Seq<u8>, StatsModel>, o: Seq<u8>) -> bool {
    exists|es: Seq<(Seq<u8>, StatsModel)>|
        #![auto]
        pairs_sorted(es) && pairs_match(es, m) && o == seq![LBRACE] + render_pairs(es) + seq![
            RBRACE,
        ]
}

/// A map has exactly one sorted pair sequence.
pub proof fn lemma_sorted_pairs_unique(
    es1: Seq<(Seq<u8>, StatsModel)>,
    es2: Seq<(Seq<u8>, StatsModel)>,
    m: Map<Seq<u8>, StatsModel>,
)
    requires
        pairs_sorted(es1),
        pairs_sorted(es2),
        pairs_match(es1, m),
        pairs_match(es2, m),
    ensures
        es1 == es2,
    decreases es1.len(),
{
    if es1.len() == 0 {
        if es2.len() > 0 {
            assert(m.contains_key(es2[0].0));
            assert(exists|i: int| 0 <= i < es1.len() && (#[trigger] es1[i]).0 == es2[0].0);
        }
        assert(es1 =~= es2);
    } else if es2.len() == 0 {
        assert(m.contains_key(es1[0].0));
        assert(exists|i: int| 0 <= i < es2.len() && (#[trigger] es2[i]).0 == es1[0].0);
    } else {
        let k1 = es1[0].0;
        let k2 = es2[0].0;
        let j1 = choose|j: int| 0 <= j < es2.len() && (#[trigger] es2[j]).0 == k1;
        let i1 = choose|i: int| 0 <= i < es1.len() && (#[trigger] es1[i]).0 == k2;
        assert(m.contains_key(k1) && m.contains_key(k2));
        assert(0 <= j1 < es2.len() && es2[j1].0 == k1);
        assert(0 <= i1 < es1.len() && es1[i1].0 == k2);
        if j1 > 0 && i1 > 0 {
            assert(lex_lt(k2, k1));
            assert(lex_lt(k1, k2));
            lemma_lex_lt_asym(k1, k2);
        }
        assert(k1 == k2);
        assert(es1[0].1 == m[k1] && es2[0].1 == m[k1]);
        let t1 = es1.drop_first();
        let t2 = es2.drop_first();
        let m1 = m.remove(k1);
        assert forall|i: int| 0 <= i < t1.len() implies m1.contains_key((#[trigger] t1[i]).0)
            && m1[t1[i].0] == t1[i].1 by {
            assert(t1[i] == es1[i + 1]);
            assert(lex_lt(es1[0].0, es1[i + 1].0));
            if es1[i + 1].0 == k1 {
                lemma_lex_lt_irrefl(k1);
            }
        }
        assert forall|i: int| 0 <= i < t2.len() implies m1.contains_key((#[trigger] t2[i]).0)
            && m1[t2[i].0] == t2[i].1 by {
            assert(t2[i] == es2[i + 1]);
            assert(lex_lt(es2[0].0, es2[i + 1].0));
            if es2[i + 1].0 == k1 {
                lemma_lex_lt_irrefl(k1);
            }
        }
        assert forall|k: Seq<u8>| m1.contains_key(k) implies exists|i: int|
            0 <= i < t1.len() && (#[trigger] t1[i]).0 == k by {
            assert(m.contains_key(k));
            let i0 = choose|i: int| 0 <= i < es1.len() && (#[trigger] es1[i]).0 == k;
            assert(i0 > 0);
            assert(t1[i0 - 1].0 == k);
        }
        assert forall|k: Seq<u8>| m1.contains_key(k) implies exists|i: int|
            0 <= i < t2.len() && (#[trigger] t2[i]).0 == k by {
            assert(m.contains_key(k));
            let i0 = choose|i: int| 0 <= i < es2.len() && (#[trigger] es2[i]).0 == k;
            assert(i0 > 0);
            assert(t2[i0 - 1].0 == k);
        }
        assert(pairs_sorted(t1)) by {
            assert(forall|i: int, j: int|
                0 <= i < j < t1.len() ==> t1[i] == es1[i + 1] && t1[j] == es1[j + 1]);
        }
        assert(pairs_sorted(t2)) by {
            assert(forall|i: int, j: int|
                0 <= i < j < t2.len() ==> t2[i] == es2[i + 1] && t2[j] == es2[j + 1]);
        }
        lemma_sorted_pairs_unique(t1, t2, m1);
        assert(es1[0] == es2[0]);
        assert(forall|i: int| 1 <= i < es1.len() ==> es1[i] == t1[i - 1]);
        assert(forall|i: int| 1 <= i < es2.len() ==> es2[i] == t2[i - 1]);
        assert(es1 =~= es2);
    }
}

/// Determinism: a map has at most one rendering.
pub proof fn lemma_rendering_deterministic(m: Map<Seq<u8>, StatsModel>, o1: Seq<u8>, o2: Seq<u8>)
    requires
        is_rendering(m, o1),
        is_rendering(m, o2),
    ensures
        o1 == o2,
{
    let es1 = choose|es: Seq<(Seq<u8>, StatsModel)>|
        #![auto]
        pairs_sorted(es) && pairs_match(es, m) && o1 == seq![LBRACE] + render_pairs(es) + seq![
            RBRACE,
        ];
    let es2 = choose|es: Seq<(Seq<u8>, StatsModel)>|
        #![auto]
        pairs_sorted(es) && pairs_match(es, m) && o2 == seq![LBRACE] + render_pairs(es) + seq![
            RBRACE,
        ];
    lemma_sorted_pairs_unique(es1, es2, m);
}

/// The pairs of a sorted entry sequence are sorted and list its map exactly.
pub proof fn lemma_entries_pairs_match(es: Seq<Entry>)
    requires
        entries_sorted(es),
    ensures
        pairs_sorted(spec_pairs(es)),
        pairs_match(spec_pairs(es), crate::aggmap::map_of(es)),
{
    let pairs = spec_pairs(es);
    let m = crate::aggmap::map_of(es);
    lemma_sorted_distinct(es);
    assert forall|i: int| 0 <= i < pairs.len() implies m.contains_key((#[trigger] pairs[i]).0)
        && m[pairs[i].0] == pairs[i].1 by {
        lemma_map_of_index(es, i);
    }
    assert forall|k: Seq<u8>| m.contains_key(k) implies exists|i: int|
        0 <= i < pairs.len() && (#[trigger] pairs[i]).0 == k by {
        if forall|i: int| 0 <= i < es.len() ==> (#[trigger] es[i]).key@ != k {
            lemma_map_of_absent(es, k);
        }
        let w = choose|i: int| 0 <= i < es.len() && (#[trigger] es[i]).key@ == k;
        assert(pairs[w].0 == k);
    }
}

/// Renders the map: `{` then each entry in key order then `}`.
#[verifier::rlimit(80)]
pub fn render(m: &AggMap) -> (out: Vec<u8>)
    requires
        m.inv(),
    ensures
        is_rendering(m@, out@),
        out@ == seq![LBRACE] + render_pairs(spec_pairs(m.entries@)) + seq![RBRACE],
{
    let ghost pairs = spec_pairs(m.entries@);
    let mut out: Vec<u8> = Vec::new();
    out.push(LBRACE);
    let n = m.entries.len();
    let mut idx: usize = 0;
    proof {
        assert(spec_pairs(m.entries@.take(0)) =~= Seq::<(Seq<u8>, StatsModel)>::empty());
        assert(out@ =~= seq![LBRACE] + render_pairs(spec_pairs(m.entries@.take(0))));
    }
    while idx < n
        invariant
            0 <= idx <= n,
            out@ == seq![LBRACE] + render_pairs(spec_pairs(m.entries@.take(idx as int))),
        decreases n - idx,
    {
        let e = &m.entries[idx];
        let ghost before = out@;
        out.extend_from_slice(e.key.as_slice());
        proof {
            assert(out@ =~= before + e.key@);
        }
        out.push(EQUALS);
        push_tenths(&mut out, e.stats.min);
        out.push(SLASH);
        let avg = avg_of(&e.stats);
        push_tenths(&mut out, avg);
        out.push(SLASH);
        push_tenths(&mut out, e.stats.max);
        out.push(COMMA);
        out.push(SPACE);
        idx += 1;
        proof {
            let taken = spec_pairs(m.entries@.take(idx as int));
            assert(taken.drop_last() =~= spec_pairs(m.entries@.take(idx - 1)));
            assert(taken.last() == (e.key@, e.stats@));
            assert(out@ =~= before + render_pair(e.key@, e.stats@));
            assert(out@ =~= seq![LBRACE] + render_pairs(taken));
        }
    }
    out.push(RBRACE);
    proof {
        assert(m.entries@.take(n as int) =~= m.entries@);
        assert(out@ =~= seq![LBRACE] + render_pairs(pairs) + seq![RBRACE]);
        lemma_entries_pairs_match(m.entries@);
    }
    out
}

} // verus!
