use vstd::prelude::*;
use vstd::arithmetic::div_mod::{lemma_div_is_ordered, lemma_div_multiples_vanish};
use crate::value::VALUE_LIMIT;

verus! {

/// Mathematical model of one key's aggregate: the least and greatest
/// observed value, the total of all observed values, and how many there
/// were, all in tenths.
pub ghost struct AggModel {
    pub low: int,
    pub high: int,
    pub sum: int,
    pub count: nat,
}

/// A well-formed aggregate covers at least one observation, keeps its
/// bounds ordered and within the value limit, and its sum within
/// `count` times the value limit.
pub open spec fn agg_wf(a: AggModel) -> bool {
    &&& a.count >= 1
    &&& -(VALUE_LIMIT as int) <= a.low <= a.high <= VALUE_LIMIT as int
    &&& -(a.count * (VALUE_LIMIT as int)) <= a.sum <= a.count * (VALUE_LIMIT as int)
}

/// The aggregate after the first observation of a key.
pub open spec fn agg_init(v: int) -> AggModel {
    AggModel { low: v, high: v, sum: v, count: 1 }
}

/// The aggregate after folding one more observed value in.
pub open spec fn agg_obs(a: AggModel, v: int) -> AggModel {
    AggModel {
        low: if v < a.low { v } else { a.low },
        high: if v > a.high { v } else { a.high },
        sum: a.sum + v,
        count: a.count + 1,
    }
}

/// The combination rule for two aggregates of the same key: elementwise
/// least and greatest bounds, added sums and counts.
pub open spec fn agg_merge(a: AggModel, b: AggModel) -> AggModel {
    AggModel {
        low: if b.low < a.low { b.low } else { a.low },
        high: if b.high > a.high { b.high } else { a.high },
        sum: a.sum + b.sum,
        count: a.count + b.count,
    }
}

/// The mean of a sum of observations, in tenths, rounded toward zero.
pub open spec fn mean_of(sum: int, count: int) -> int {
    if sum >= 0 {
        sum / count
    } else {
        -((-sum) / count)
    }
}

/// Merging aggregates is commutative.
pub proof fn lemma_agg_merge_comm(a: AggModel, b: AggModel)
    ensures
        agg_merge(a, b) == agg_merge(b, a),
{
}

/// Merging aggregates is associative.
pub proof fn lemma_agg_merge_assoc(a: AggModel, b: AggModel, c: AggModel)
    ensures
        agg_merge(agg_merge(a, b), c) == agg_merge(a, agg_merge(b, c)),
{
}

/// Merging a fresh single-observation aggregate in equals observing the
/// value directly.
pub proof fn lemma_agg_merge_init(a: AggModel, v: int)
    ensures
        agg_merge(a, agg_init(v)) == agg_obs(a, v),
{
}

/// An observation folded into one side of a merge may instead be folded
/// into the merged aggregate.
pub proof fn lemma_agg_merge_obs(a: AggModel, b: AggModel, v: int)
    ensures
        agg_merge(a, agg_obs(b, v)) == agg_obs(agg_merge(a, b), v),
{
}

/// Well-formedness is preserved by observation and merge.
pub proof fn lemma_agg_wf(a: AggModel, b: AggModel, v: int)
    ensures
        -(VALUE_LIMIT as int) <= v <= VALUE_LIMIT as int ==> agg_wf(agg_init(v)),
        agg_wf(a) && -(VALUE_LIMIT as int) <= v <= VALUE_LIMIT as int ==> agg_wf(agg_obs(a, v)),
        agg_wf(a) && agg_wf(b) ==> agg_wf(agg_merge(a, b)),
{
}

/// The aggregate of `n` observations that all equal `v`.
pub open spec fn agg_repeat(v: int, n: nat) -> AggModel {
    AggModel { low: v, high: v, sum: v * n, count: n }
}

/// One more observation of the same value keeps the aggregate uniform.
pub proof fn lemma_agg_repeat_obs(v: int, n: nat)
    requires
        n >= 1,
    ensures
        agg_obs(agg_repeat(v, n), v) == agg_repeat(v, (n + 1) as nat),
        agg_init(v) == agg_repeat(v, 1),
{
    assert(v * (n + 1) == v * n + v) by (nonlinear_arith);
    assert(v * 1 == v) by (nonlinear_arith);
}

/// The mean of a key whose observations all equal `v` is exactly `v`.
pub proof fn lemma_mean_identical(v: int, n: nat)
    requires
        n >= 1,
    ensures
        mean_of(agg_repeat(v, n).sum, n as int) == v,
{
    if v >= 0 {
        assert(v * n >= 0) by (nonlinear_arith)
            requires v >= 0 && n >= 0;
        lemma_div_multiples_vanish(v, n as int);
        assert((n * v) == (v * n)) by (nonlinear_arith);
    } else {
        assert(v * n < 0) by (nonlinear_arith)
            requires v < 0 && n >= 1;
        assert(-(v * n) == (-v) * n) by (nonlinear_arith);
        lemma_div_multiples_vanish(-v, n as int);
        assert((n * (-v)) == ((-v) * n)) by (nonlinear_arith);
    }
}

/// One key's running aggregate, in execution form. Values are in tenths;
/// the sum is kept wide so that it cannot overflow while the count fits
/// in a machine word.
#[derive(Clone, Copy, Debug)]
pub struct Aggregate {
    pub low: i64,
    pub high: i64,
    pub sum: i128,
    pub count: u64,
}

impl View for Aggregate {
    type V = AggModel;

    open spec fn view(&self) -> AggModel {
        AggModel {
            low: self.low as int,
            high: self.high as int,
            sum: self.sum as int,
            count: self.count as nat,
        }
    }
}

impl Aggregate {
    /// The aggregate of a key's first observation.
    pub fn init(v: i64) -> (r: Aggregate)
        requires
            -VALUE_LIMIT <= v <= VALUE_LIMIT,
        ensures
            r@ == agg_init(v as int),
            agg_wf(r@),
    {
        Aggregate { low: v, high: v, sum: v as i128, count: 1 }
    }

    /// Folds one more observed value in. A value that does not qualify as
    /// a new high is then tested as a new low.
    pub fn observe(&mut self, v: i64)
        requires
            agg_wf(old(self)@),
            -VALUE_LIMIT <= v <= VALUE_LIMIT,
            old(self)@.count < u64::MAX,
        ensures
            final(self)@ == agg_obs(old(self)@, v as int),
            agg_wf(final(self)@),
    {
        if v > self.high {
            self.high = v;
        } else if v < self.low {
            self.low = v;
        }
        self.sum = self.sum + (v as i128);
        self.count = self.count + 1;
    }

    /// Combines another aggregate of the same key into this one.
    pub fn merge(&mut self, other: &Aggregate)
        requires
            agg_wf(old(self)@),
            agg_wf(other@),
            old(self)@.count + other@.count <= u64::MAX,
        ensures
            final(self)@ == agg_merge(old(self)@, other@),
            agg_wf(final(self)@),
    {
        if other.high > self.high {
            self.high = other.high;
        }
        if other.low < self.low {
            self.low = other.low;
        }
        self.sum = self.sum + other.sum;
        self.count = self.count + other.count;
    }

    /// The mean of the observed values, in tenths, rounded toward zero.
    pub fn mean_tenths(&self) -> (r: i64)
        requires
            agg_wf(self@),
        ensures
            r as int == mean_of(self@.sum, self@.count as int),
            -VALUE_LIMIT <= r <= VALUE_LIMIT,
    {
        if self.sum >= 0 {
            let q = (self.sum as u128) / (self.count as u128);
            proof {
                lemma_div_is_ordered(self@.sum, self@.count * (VALUE_LIMIT as int), self@.count as int);
                lemma_div_multiples_vanish(VALUE_LIMIT as int, self@.count as int);
                assert(self@.count * (VALUE_LIMIT as int) == (self@.count as int) * (VALUE_LIMIT as int));
            }
            q as i64
        } else {
            let q = ((-self.sum) as u128) / (self.count as u128);
            proof {
                lemma_div_is_ordered(-self@.sum, self@.count * (VALUE_LIMIT as int), self@.count as int);
                lemma_div_multiples_vanish(VALUE_LIMIT as int, self@.count as int);
                assert(self@.count * (VALUE_LIMIT as int) == (self@.count as int) * (VALUE_LIMIT as int));
            }
            -(q as i64)
        }
    }
}

} // verus!
