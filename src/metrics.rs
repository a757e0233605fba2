use vstd::prelude::*;

verus! {

/// Exclusive bound on the magnitude of a value, in thousandths.
pub const VALUE_LIMIT: i64 = 1_000_000_000_000_000_000;

/// Running statistics of one key, as mathematical integers.
pub struct Stats {
    pub count: nat,
    pub sum: int,
    pub min: int,
    pub max: int,
}

/// The statistics of a single value.
pub open spec fn single(v: int) -> Stats {
    Stats { count: 1, sum: v, min: v, max: v }
}

pub open spec fn min_int(a: int, b: int) -> int {
    if a <= b { a } else { b }
}

pub open spec fn max_int(a: int, b: int) -> int {
    if a >= b { a } else { b }
}

/// The merge rule: counts and sums add, extremes take the extreme.
pub open spec fn combine(a: Stats, b: Stats) -> Stats {
    Stats {
        count: a.count + b.count,
        sum: a.sum + b.sum,
        min: min_int(a.min, b.min),
        max: max_int(a.max, b.max),
    }
}

pub open spec fn value_in_range(v: int) -> bool {
    -VALUE_LIMIT < v < VALUE_LIMIT
}

/// Statistics of one key. Values are fixed-point numbers in thousandths.
#[derive(Clone, Copy, Debug, PartialEq, Eq)]
pub struct Metrics {
    pub count: u64,
    pub sum: i128,
    pub min: i64,
    pub max: i64,
}

impl View for Metrics {
    type V = Stats;

    open spec fn view(&self) -> Stats {
        Stats { count: self.count as nat, sum: self.sum as int, min: self.min as int, max: self.max as int }
    }
}

impl Metrics {
    /// At least one value, extremes ordered and in range, and the sum within
    /// what `count` values in range can reach.
    pub open spec fn wf(self) -> bool {
        &&& self.count >= 1
        &&& value_in_range(self.min as int)
        &&& value_in_range(self.max as int)
        &&& self.min <= self.max
        &&& -(self.count * VALUE_LIMIT) <= self.sum <= self.count * VALUE_LIMIT
    }

    /// What `new` returns.
    pub open spec fn fresh(v: i64) -> Metrics {
        Metrics { count: 1, sum: v as i128, min: v, max: v }
    }

    /// What `update` leaves behind.
    pub open spec fn updated(self, v: i64) -> Metrics {
        Metrics {
            count: (self.count + 1) as u64,
            sum: (self.sum + v) as i128,
            min: if v < self.min { v } else { self.min },
            max: if v > self.max { v } else { self.max },
        }
    }

    /// Whether `update` may take `v`.
    pub open spec fn can_take(self, v: i64) -> bool {
        self.wf() && value_in_range(v as int) && self.count < u64::MAX
    }

    pub proof fn lemma_fresh(v: i64)
        requires
            value_in_range(v as int),
        ensures
            Metrics::fresh(v).wf(),
            Metrics::fresh(v)@ == single(v as int),
    {
    }

    pub proof fn lemma_updated(self, v: i64)
        requires
            self.can_take(v),
        ensures
            self.updated(v).wf(),
            self.updated(v)@ == combine(self@, single(v as int)),
    {
    }

    pub fn new(first_value: i64) -> (r: Metrics)
        requires
            value_in_range(first_value as int),
        ensures
            r == Metrics::fresh(first_value),
            r@ == single(first_value as int),
            r.wf(),
    {
        Metrics { count: 1, sum: first_value as i128, min: first_value, max: first_value }
    }

    pub fn update(&mut self, next_value: i64)
        requires
            old(self).can_take(next_value),
        ensures
            *final(self) == old(self).updated(next_value),
            final(self)@ == combine(old(self)@, single(next_value as int)),
            final(self).wf(),
    {
        self.count = self.count + 1;
        self.sum = self.sum + next_value as i128;
        if next_value < self.min {
            self.min = next_value;
        }
        if next_value > self.max {
            self.max = next_value;
        }
    }

    /// Folds `other` into `self` by the merge rule.
    pub fn merge(&mut self, other: &Metrics)
        requires
            old(self).wf(),
            other.wf(),
            old(self).count + other.count <= u64::MAX,
        ensures
            final(self)@ == combine(old(self)@, other@),
            final(self).wf(),
    {
        self.count = self.count + other.count;
        self.sum = self.sum + other.sum;
        if other.min < self.min {
            self.min = other.min;
        }
        if other.max > self.max {
            self.max = other.max;
        }
    }
}

/// The quotient of `sum` by `count`, rounded toward zero.
pub open spec fn mean_of(sum: int, count: int) -> int {
    if sum >= 0 { sum / count } else { -((-sum) / count) }
}

/// Mean of a key's values, in thousandths, rounded toward zero.
pub fn mean(sum: i128, count: u64) -> (r: i128)
    requires
        count > 0,
        sum > i128::MIN,
    ensures
        r == mean_of(sum as int, count as int),
{
    let c = count as i128;
    if sum >= 0 {
        sum / c
    } else {
        -((-sum) / c)
    }
}

} // verus!
