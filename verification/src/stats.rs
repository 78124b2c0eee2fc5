//! Per-key running statistics and their commutative, associative combination.
//!
//! Values are in tenths (see `value`). The sum is carried in a wider integer
//! type; the well-formedness invariant brackets the sum between `min * count`
//! and `max * count`, which keeps every combination free of overflow.

use vstd::prelude::*;

verus! {

/// Mathematical statistics for one key.
pub ghost struct StatsModel {
    pub min: int,
    pub max: int,
    pub sum: int,
    pub count: nat,
}

/// Running statistics for one key, values in tenths.
#[derive(Clone, Copy, Debug)]
pub struct Stats {
    pub min: i64,
    pub max: i64,
    pub sum: i128,
    pub count: u64,
}

impl View for Stats {
    type V = StatsModel;

    open spec fn view(&self) -> StatsModel {
        StatsModel {
            min: self.min as int,
            max: self.max as int,
            sum: self.sum as int,
            count: self.count as nat,
        }
    }
}

pub open spec fn min_val(a: int, b: int) -> int {
    if a <= b {
        a
    } else {
        b
    }
}

pub open spec fn max_val(a: int, b: int) -> int {
    if a >= b {
        a
    } else {
        b
    }
}

/// Statistics after exactly one observation.
pub open spec fn singleton_stats(v: int) -> StatsModel {
    StatsModel { min: v, max: v, sum: v, count: 1 }
}

/// One more observation folded in.
pub open spec fn stats_add(s: StatsModel, v: int) -> StatsModel {
    StatsModel {
        min: min_val(s.min, v),
        max: max_val(s.max, v),
        sum: s.sum + v,
        count: s.count + 1,
    }
}

/// Two groups of observations combined.
pub open spec fn stats_merge(a: StatsModel, b: StatsModel) -> StatsModel {
    StatsModel {
        min: min_val(a.min, b.min),
        max: max_val(a.max, b.max),
        sum: a.sum + b.sum,
        count: a.count + b.count,
    }
}

/// Well-formed statistics: at least one observation, extremes representable,
/// and the sum bracketed by `count` copies of each extreme.
pub open spec fn stats_wf(s: StatsModel) -> bool {
    &&& 1 <= s.count <= u64::MAX
    &&& -(i64::MAX as int) <= s.min <= s.max <= i64::MAX as int
    &&& s.min * s.count <= s.sum <= s.max * s.count
}

/// Combining a group with a single observation is the same as folding the
/// observation in.
pub proof fn lemma_merge_singleton(a: StatsModel, v: int)
    ensures
        stats_merge(a, singleton_stats(v)) == stats_add(a, v),
{
}

/// Merging statistics is commutative.
pub proof fn lemma_stats_merge_comm(a: StatsModel, b: StatsModel)
    ensures
        stats_merge(a, b) == stats_merge(b, a),
{
}

/// Merging statistics is associative.
pub proof fn lemma_stats_merge_assoc(a: StatsModel, b: StatsModel, c: StatsModel)
    ensures
        stats_merge(stats_merge(a, b), c) == stats_merge(a, stats_merge(b, c)),
{
}

/// Merging preserves well-formedness whenever the combined count is
/// representable.
pub proof fn lemma_stats_merge_wf(a: StatsModel, b: StatsModel)
    requires
        stats_wf(a),
        stats_wf(b),
        a.count + b.count <= u64::MAX,
    ensures
        stats_wf(stats_merge(a, b)),
{
    let m = stats_merge(a, b);
    assert(m.min * m.count <= m.sum) by (nonlinear_arith)
        requires
            m.min <= a.min,
            m.min <= b.min,
            a.count >= 0,
            b.count >= 0,
            a.min * a.count <= a.sum,
            b.min * b.count <= b.sum,
            m.sum == a.sum + b.sum,
            m.count == a.count + b.count,
    ;
    assert(m.sum <= m.max * m.count) by (nonlinear_arith)
        requires
            m.max >= a.max,
            m.max >= b.max,
            a.count >= 0,
            b.count >= 0,
            a.sum <= a.max * a.count,
            b.sum <= b.max * b.count,
            m.sum == a.sum + b.sum,
            m.count == a.count + b.count,
    ;
}

/// The sum of well-formed statistics stays within the wide integer carried at
/// run time.
pub proof fn lemma_stats_sum_bounds(s: StatsModel)
    requires
        stats_wf(s),
    ensures
        i64::MIN * (u64::MAX as int) <= s.sum <= i64::MAX * (u64::MAX as int),
{
    assert(s.sum <= i64::MAX * (u64::MAX as int)) by (nonlinear_arith)
        requires
            s.sum <= s.max * s.count,
            s.max <= i64::MAX,
            0 <= s.count <= u64::MAX,
    ;
    assert(i64::MIN * (u64::MAX as int) <= s.sum) by (nonlinear_arith)
        requires
            s.min * s.count <= s.sum,
            i64::MIN <= s.min,
            0 <= s.count <= u64::MAX,
    ;
}

impl Stats {
    /// Statistics of a single observation.
    pub fn one(v: i64) -> (r: Stats)
        requires
            v != i64::MIN,
        ensures
            r@ == singleton_stats(v as int),
            stats_wf(r@),
    {
        Stats { min: v, max: v, sum: v as i128, count: 1 }
    }

    /// Combines another group of observations into this one.
    pub fn combine(&mut self, o: &Stats)
        requires
            stats_wf(old(self)@),
            stats_wf(o@),
            old(self)@.count + o@.count <= u64::MAX,
        ensures
            final(self)@ == stats_merge(old(self)@, o@),
            stats_wf(final(self)@),
    {
        proof {
            lemma_stats_merge_wf(self@, o@);
            lemma_stats_sum_bounds(stats_merge(self@, o@));
        }
        if o.min < self.min {
            self.min = o.min;
        }
        if o.max > self.max {
            self.max = o.max;
        }
        self.sum = self.sum + o.sum;
        self.count = self.count + o.count;
    }
}

} // verus!
