//! Per-key statistics: minimum, maximum, running total and observation
//! count, held exactly as integer tenths of the measured unit.
use vstd::prelude::*;

verus! {

/// Mathematical summary of a non-empty collection of observations,
/// each observation an integer number of tenths.
pub ghost struct StatsModel {
    pub min: int,
    pub max: int,
    pub total: int,
    pub count: int,
}

pub open spec fn min_i(a: int, b: int) -> int {
    if a < b {
        a
    } else {
        b
    }
}

pub open spec fn max_i(a: int, b: int) -> int {
    if a > b {
        a
    } else {
        b
    }
}

/// A value field holds at most two integer digits and one fractional digit,
/// so in tenths it lies between -999 and 999.
pub open spec fn value_in_range(v: int) -> bool {
    -999 <= v <= 999
}

/// The summary of a single observation.
pub open spec fn stats_one(v: int) -> StatsModel {
    StatsModel { min: v, max: v, total: v, count: 1 }
}

/// Folding one more observation into a summary.
pub open spec fn stats_add(s: StatsModel, v: int) -> StatsModel {
    StatsModel {
        min: min_i(s.min, v),
        max: max_i(s.max, v),
        total: s.total + v,
        count: s.count + 1,
    }
}

/// Combining the summaries of two disjoint collections of observations.
pub open spec fn stats_merge(a: StatsModel, b: StatsModel) -> StatsModel {
    StatsModel {
        min: min_i(a.min, b.min),
        max: max_i(a.max, b.max),
        total: a.total + b.total,
        count: a.count + b.count,
    }
}

/// Well-formedness: at least one observation, ordered bounds within the
/// value range, and a total bracketed by `min * count` and `max * count`
/// (hence the mean always lies between `min` and `max`).
pub open spec fn wf_stats(s: StatsModel) -> bool {
    &&& 1 <= s.count <= usize::MAX
    &&& -999 <= s.min <= s.max <= 999
    &&& s.min * s.count <= s.total <= s.max * s.count
}

/// Executable statistics record; `min`, `max` and `total` are in tenths.
pub struct Statistics {
    pub min: i64,
    pub max: i64,
    pub total: i128,
    pub count: usize,
}

impl Clone for Statistics {
    fn clone(&self) -> (r: Self)
        ensures
            r@ == self@,
    {
        Statistics { min: self.min, max: self.max, total: self.total, count: self.count }
    }
}

impl View for Statistics {
    type V = StatsModel;

    open spec fn view(&self) -> StatsModel {
        StatsModel {
            min: self.min as int,
            max: self.max as int,
            total: self.total as int,
            count: self.count as int,
        }
    }
}

impl Statistics {
    /// Seed a summary from the first observation of a key.
    pub fn new(value: i64) -> (s: Self)
        requires
            value_in_range(value as int),
        ensures
            s@ == stats_one(value as int),
            wf_stats(s@),
    {
        Statistics { min: value, max: value, total: value as i128, count: 1 }
    }

    /// Fold one more observation of the same key into this summary.
    pub fn add_value(&mut self, value: i64)
        requires
            wf_stats(old(self)@),
            value_in_range(value as int),
            old(self)@.count < usize::MAX,
        ensures
            final(self)@ == stats_add(old(self)@, value as int),
            wf_stats(final(self)@),
    {
        proof {
            lemma_stats_total_bounds(self@);
        }
        if value < self.min {
            self.min = value;
        }
        if value > self.max {
            self.max = value;
        }
        self.total = self.total + value as i128;
        self.count = self.count + 1;
        proof {
            lemma_stats_add_wf(old(self)@, value as int);
        }
    }

    /// Absorb the summary of a disjoint collection of observations of the
    /// same key.
    pub fn merge_with(&mut self, other: &Self)
        requires
            wf_stats(old(self)@),
            wf_stats(other@),
            old(self)@.count + other@.count <= usize::MAX,
        ensures
            final(self)@ == stats_merge(old(self)@, other@),
            wf_stats(final(self)@),
    {
        proof {
            lemma_stats_total_bounds(self@);
            lemma_stats_total_bounds(other@);
        }
        if other.min < self.min {
            self.min = other.min;
        }
        if other.max > self.max {
            self.max = other.max;
        }
        self.total = self.total + other.total;
        self.count = self.count + other.count;
        proof {
            lemma_stats_merge_wf(old(self)@, other@);
        }
    }
}

/// A well-formed total is bounded in magnitude by `999 * count`.
pub proof fn lemma_stats_total_bounds(s: StatsModel)
    requires
        wf_stats(s),
    ensures
        -999 * s.count <= s.total <= 999 * s.count,
        -999 * (usize::MAX as int) <= s.total <= 999 * (usize::MAX as int),
{
    assert(s.total <= 999 * s.count && -999 * s.count <= s.total) by (nonlinear_arith)
        requires
            s.min * s.count <= s.total <= s.max * s.count,
            -999 <= s.min <= s.max <= 999,
            s.count >= 1,
    ;
    assert(999 * s.count <= 999 * (usize::MAX as int) && -999 * (usize::MAX as int) <= -999
        * s.count) by (nonlinear_arith)
        requires
            1 <= s.count <= usize::MAX as int,
    ;
}

/// Folding an observation preserves well-formedness.
pub proof fn lemma_stats_add_wf(s: StatsModel, v: int)
    requires
        wf_stats(s),
        value_in_range(v),
        s.count < usize::MAX,
    ensures
        wf_stats(stats_add(s, v)),
{
    let r = stats_add(s, v);
    assert(r.min * r.count <= r.total && r.total <= r.max * r.count) by (nonlinear_arith)
        requires
            r.min == min_i(s.min, v),
            r.max == max_i(s.max, v),
            r.total == s.total + v,
            r.count == s.count + 1,
            s.min * s.count <= s.total <= s.max * s.count,
            r.min <= s.min,
            s.max <= r.max,
            r.min <= v <= r.max,
            s.count >= 1,
    ;
}

/// Merging two summaries preserves well-formedness.
pub proof fn lemma_stats_merge_wf(a: StatsModel, b: StatsModel)
    requires
        wf_stats(a),
        wf_stats(b),
        a.count + b.count <= usize::MAX,
    ensures
        wf_stats(stats_merge(a, b)),
{
    let r = stats_merge(a, b);
    assert(r.min * r.count <= r.total && r.total <= r.max * r.count) by (nonlinear_arith)
        requires
            r.min == min_i(a.min, b.min),
            r.max == max_i(a.max, b.max),
            r.total == a.total + b.total,
            r.count == a.count + b.count,
            a.min * a.count <= a.total <= a.max * a.count,
            b.min * b.count <= b.total <= b.max * b.count,
            r.min <= a.min && r.min <= b.min,
            a.max <= r.max && b.max <= r.max,
            a.count >= 1 && b.count >= 1,
    ;
}

/// Merging summaries is commutative.
pub proof fn lemma_stats_merge_comm(a: StatsModel, b: StatsModel)
    ensures
        stats_merge(a, b) == stats_merge(b, a),
{
}

/// Merging summaries is associative.
pub proof fn lemma_stats_merge_assoc(a: StatsModel, b: StatsModel, c: StatsModel)
    ensures
        stats_merge(stats_merge(a, b), c) == stats_merge(a, stats_merge(b, c)),
{
}

} // verus!
