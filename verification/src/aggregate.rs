//! The per-key accumulator: minimum, maximum, sum and count of the
//! measurement values seen for one key, together with its mathematical
//! model and the combination rule used when partial results are merged.
//!
//! Measurement values are fixed-point numbers: an `i64` holding the value
//! scaled by `SCALE` (four fractional decimal digits). Parsing rejects
//! values whose magnitude exceeds `RAW_MAX`, so every value an `Aggregate`
//! ever observes lies in `[-RAW_MAX, RAW_MAX]`.
use vstd::prelude::*;

verus! {

/// Fixed-point scale: measurement values carry four fractional decimal
/// digits, so the textual value `1.5` is stored as `15000`.
pub const SCALE: i64 = 10_000;

/// Largest magnitude, in fixed-point units, of a parsed measurement value
/// (a decimal magnitude of ten trillion). Anything larger is treated as
/// malformed and skipped.
pub const RAW_MAX: i64 = 100_000_000_000_000_000;

/// Upper bound (2^70) on the count an aggregate may carry. Counts come
/// from records of in-memory buffers, so they never exceed 2^64; the
/// headroom keeps `COUNT_CAP * RAW_MAX` within `i128`, which makes sums
/// overflow-free.
pub const COUNT_CAP: u128 = 0x40_0000_0000_0000_0000;

/// Mathematical model of an aggregate: unbounded integers.
pub ghost struct AggModel {
    pub min: int,
    pub max: int,
    pub sum: int,
    pub count: int,
}

/// The model of an aggregate that has seen exactly one value.
pub open spec fn from_value_model(v: int) -> AggModel {
    AggModel { min: v, max: v, sum: v, count: 1 }
}

/// The combination rule: pointwise minimum/maximum, sums and counts added.
pub open spec fn combine_model(a: AggModel, b: AggModel) -> AggModel {
    AggModel {
        min: if a.min <= b.min { a.min } else { b.min },
        max: if a.max >= b.max { a.max } else { b.max },
        sum: a.sum + b.sum,
        count: a.count + b.count,
    }
}

/// Folding one more value into an aggregate.
pub open spec fn observe_model(a: AggModel, v: int) -> AggModel {
    combine_model(a, from_value_model(v))
}

/// The aggregate summarizing a non-empty sequence of values, folded left
/// to right.
pub open spec fn agg_of(vs: Seq<int>) -> AggModel
    recommends
        vs.len() > 0,
    decreases vs.len(),
{
    if vs.len() <= 1 {
        from_value_model(if vs.len() == 1 { vs[0] } else { 0 })
    } else {
        observe_model(agg_of(vs.drop_last()), vs.last())
    }
}

/// Sum of a sequence of values.
pub open spec fn sum_of(vs: Seq<int>) -> int
    decreases vs.len(),
{
    if vs.len() == 0 {
        0
    } else {
        sum_of(vs.drop_last()) + vs.last()
    }
}

/// Well-formedness of an aggregate model: it has seen at least one value,
/// its extremes are genuine measurement values, and its sum is bounded by
/// what `count` values can add up to.
pub open spec fn model_wf(a: AggModel) -> bool {
    &&& 1 <= a.count <= COUNT_CAP as int
    &&& -(RAW_MAX as int) <= a.min <= a.max <= RAW_MAX as int
    &&& -(a.count * RAW_MAX as int) <= a.sum <= a.count * RAW_MAX as int
}

/// The executable accumulator for one key.
#[derive(Clone, Copy, Debug)]
pub struct Aggregate {
    pub min: i64,
    pub max: i64,
    pub sum: i128,
    pub count: u128,
}

impl View for Aggregate {
    type V = AggModel;

    open spec fn view(&self) -> AggModel {
        AggModel {
            min: self.min as int,
            max: self.max as int,
            sum: self.sum as int,
            count: self.count as int,
        }
    }
}

impl Aggregate {
    pub open spec fn wf(self) -> bool {
        model_wf(self@)
    }

    /// The aggregate for a single value.
    pub fn from_value(v: i64) -> (r: Aggregate)
        requires
            -RAW_MAX <= v <= RAW_MAX,
        ensures
            r@ == from_value_model(v as int),
            r.wf(),
    {
        Aggregate { min: v, max: v, sum: v as i128, count: 1 }
    }

    /// Folds one more value into this aggregate.
    pub fn observe(&mut self, v: i64)
        requires
            old(self).wf(),
            -RAW_MAX <= v <= RAW_MAX,
            old(self)@.count < COUNT_CAP as int,
        ensures
            final(self)@ == observe_model(old(self)@, v as int),
            final(self).wf(),
    {
        if v < self.min {
            self.min = v;
        }
        if v > self.max {
            self.max = v;
        }
        self.sum = self.sum + v as i128;
        self.count = self.count + 1;
    }

    /// Combines two aggregates for the same key.
    pub fn combine(&self, other: &Aggregate) -> (r: Aggregate)
        requires
            self.wf(),
            other.wf(),
            self@.count + other@.count <= COUNT_CAP as int,
        ensures
            r@ == combine_model(self@, other@),
            r.wf(),
    {
        Aggregate {
            min: if self.min <= other.min {
                self.min
            } else {
                other.min
            },
            max: if self.max >= other.max {
                self.max
            } else {
                other.max
            },
            sum: self.sum + other.sum,
            count: self.count + other.count,
        }
    }
}

/// The combination rule is commutative.
pub proof fn lemma_combine_commutative(a: AggModel, b: AggModel)
    ensures
        combine_model(a, b) == combine_model(b, a),
{
}

/// The combination rule is associative.
pub proof fn lemma_combine_associative(a: AggModel, b: AggModel, c: AggModel)
    ensures
        combine_model(combine_model(a, b), c) == combine_model(a, combine_model(b, c)),
{
}

/// What the fold of a non-empty value sequence guarantees: the count is
/// the number of values, the sum is their exact sum, and the minimum and
/// maximum are values actually seen that bound every value.
pub proof fn lemma_agg_of_props(vs: Seq<int>)
    requires
        vs.len() > 0,
    ensures
        agg_of(vs).count == vs.len(),
        agg_of(vs).sum == sum_of(vs),
        exists|j: int| 0 <= j < vs.len() && vs[j] == agg_of(vs).min,
        exists|j: int| 0 <= j < vs.len() && vs[j] == agg_of(vs).max,
        forall|j: int| 0 <= j < vs.len() ==> agg_of(vs).min <= #[trigger] vs[j],
        forall|j: int| 0 <= j < vs.len() ==> agg_of(vs).max >= #[trigger] vs[j],
    decreases vs.len(),
{
    if vs.len() == 1 {
        assert(vs[0] == agg_of(vs).min);
        assert(vs[0] == agg_of(vs).max);
        assert(sum_of(vs.drop_last()) == 0);
        assert(sum_of(vs) == vs.last());
        assert(vs.last() == vs[0]);
    } else {
        lemma_agg_of_props(vs.drop_last());
        assert forall|j: int| 0 <= j < vs.len() implies agg_of(vs).min <= #[trigger] vs[j]
            && agg_of(vs).max >= vs[j] by {
            if j < vs.len() - 1 {
                assert(vs.drop_last()[j] == vs[j]);
            }
        }
        let m = agg_of(vs.drop_last()).min;
        let j0 = choose|j: int| 0 <= j < vs.drop_last().len() && vs.drop_last()[j] == m;
        assert(vs[j0] == m);
        let mx = agg_of(vs.drop_last()).max;
        let j1 = choose|j: int| 0 <= j < vs.drop_last().len() && vs.drop_last()[j] == mx;
        assert(vs[j1] == mx);
        let n = vs.len() - 1;
        if agg_of(vs).min == vs[n] {
            assert(0 <= n < vs.len() && vs[n] == agg_of(vs).min);
        } else {
            assert(vs[j0] == agg_of(vs).min);
        }
        if agg_of(vs).max == vs[n] {
            assert(0 <= n < vs.len() && vs[n] == agg_of(vs).max);
        } else {
            assert(vs[j1] == agg_of(vs).max);
        }
    }
}

} // verus!
