use vstd::prelude::*;

verus! {

/// Running statistics of one category. Values are fixed-point integers
/// scaled by ten (one decimal digit of precision).
#[derive(Clone, Copy, Debug)]
pub struct Record {
    pub min: i16,
    pub max: i16,
    pub sum: i128,
    pub count: usize,
}

/// The mathematical content of a [`Record`].
pub struct RecordView {
    pub min: int,
    pub max: int,
    pub sum: int,
    pub count: nat,
}

impl View for Record {
    type V = RecordView;

    open spec fn view(&self) -> RecordView {
        RecordView { min: self.min as int, max: self.max as int, sum: self.sum as int, count: self.count as nat }
    }
}

/// The smaller of two integers.
pub open spec fn min_int(a: int, b: int) -> int {
    if a <= b { a } else { b }
}

/// The larger of two integers.
pub open spec fn max_int(a: int, b: int) -> int {
    if a >= b { a } else { b }
}

impl RecordView {
    /// A record holds at least one observation, its bounds are ordered, and
    /// its total lies between `count` times the bounds.
    pub open spec fn wf(self) -> bool {
        &&& self.count >= 1
        &&& self.min <= self.max
        &&& self.min * self.count <= self.sum <= self.max * self.count
    }

    /// The record made by a single observation.
    pub open spec fn single(v: int) -> RecordView {
        RecordView { min: v, max: v, sum: v, count: 1 }
    }

    /// The record after one more observation `v`.
    pub open spec fn with_value(self, v: int) -> RecordView {
        RecordView {
            min: min_int(self.min, v),
            max: max_int(self.max, v),
            sum: self.sum + v,
            count: self.count + 1,
        }
    }

    /// The record covering the observations of both `self` and `o`.
    pub open spec fn combine(self, o: RecordView) -> RecordView {
        RecordView {
            min: min_int(self.min, o.min),
            max: max_int(self.max, o.max),
            sum: self.sum + o.sum,
            count: self.count + o.count,
        }
    }
}

/// Sum of a sequence of observations.
pub open spec fn seq_sum(s: Seq<i16>) -> int
    decreases s.len(),
{
    if s.len() == 0 { 0 } else { seq_sum(s.drop_last()) + s.last() as int }
}

/// The record obtained by creating it from the first value of `s`
/// and adding the others in order.
pub open spec fn record_of_values(s: Seq<i16>) -> RecordView
    recommends s.len() >= 1,
    decreases s.len(),
{
    if s.len() <= 1 {
        RecordView::single(s[0] as int)
    } else {
        record_of_values(s.drop_last()).with_value(s.last() as int)
    }
}

/// Adding a non-empty sequence of values to a fresh record gives its true
/// minimum, true maximum, exact total and the number of values.
pub proof fn lemma_record_of_values(s: Seq<i16>)
    requires
        s.len() >= 1,
    ensures
        forall|i: int|
            0 <= i < s.len() ==> record_of_values(s).min <= #[trigger] s[i] <= record_of_values(s).max,
        exists|i: int| 0 <= i < s.len() && #[trigger] s[i] == record_of_values(s).min,
        exists|j: int| 0 <= j < s.len() && #[trigger] s[j] == record_of_values(s).max,
        record_of_values(s).sum == seq_sum(s),
        record_of_values(s).count == s.len(),
    decreases s.len(),
{
    let r = record_of_values(s);
    if s.len() == 1 {
        assert(s.drop_last().len() == 0);
        assert(s[0] == r.min && s[0] == r.max);
        assert(seq_sum(s) == seq_sum(s.drop_last()) + s[0] as int);
    } else {
        let p = s.drop_last();
        lemma_record_of_values(p);
        let q = record_of_values(p);
        assert(r == q.with_value(s.last() as int));
        assert(seq_sum(s) == seq_sum(p) + s.last() as int);
        assert forall|i: int| 0 <= i < s.len() implies r.min <= #[trigger] s[i] <= r.max by {
            if i < s.len() - 1 {
                assert(s[i] == p[i]);
            }
        }
        let i0 = choose|i: int| 0 <= i < p.len() && #[trigger] p[i] == q.min;
        let j0 = choose|j: int| 0 <= j < p.len() && #[trigger] p[j] == q.max;
        if q.min <= s.last() {
            assert(s[i0] == r.min);
        } else {
            assert(s[s.len() - 1] == r.min);
        }
        if q.max >= s.last() {
            assert(s[j0] == r.max);
        } else {
            assert(s[s.len() - 1] == r.max);
        }
    }
}

/// Combining records is commutative and associative.
pub proof fn lemma_combine_commutative_associative(a: RecordView, b: RecordView, c: RecordView)
    ensures
        a.combine(b) == b.combine(a),
        a.combine(b).combine(c) == a.combine(b.combine(c)),
{
}

/// Combining well-formed records gives a well-formed record.
pub proof fn lemma_combine_wf(a: RecordView, b: RecordView)
    requires
        a.wf(),
        b.wf(),
    ensures
        a.combine(b).wf(),
{
    let c = a.combine(b);
    assert(c.min * a.count <= a.min * a.count) by (nonlinear_arith)
        requires c.min <= a.min, a.count >= 1;
    assert(c.min * b.count <= b.min * b.count) by (nonlinear_arith)
        requires c.min <= b.min, b.count >= 1;
    assert(a.max * a.count <= c.max * a.count) by (nonlinear_arith)
        requires c.max >= a.max, a.count >= 1;
    assert(b.max * b.count <= c.max * b.count) by (nonlinear_arith)
        requires c.max >= b.max, b.count >= 1;
    assert(c.min * c.count == c.min * a.count + c.min * b.count) by (nonlinear_arith)
        requires c.count == a.count + b.count;
    assert(c.max * c.count == c.max * a.count + c.max * b.count) by (nonlinear_arith)
        requires c.count == a.count + b.count;
}

/// The total of a well-formed record is bounded by the range of `i16`
/// times its count.
pub proof fn lemma_sum_bounds(a: RecordView)
    requires
        a.wf(),
        i16::MIN <= a.min,
        a.max <= i16::MAX,
    ensures
        -32768 * a.count <= a.sum <= 32767 * a.count,
{
    assert(-32768 * a.count <= a.min * a.count) by (nonlinear_arith)
        requires -32768 <= a.min, a.count >= 1;
    assert(a.max * a.count <= 32767 * a.count) by (nonlinear_arith)
        requires a.max <= 32767, a.count >= 1;
}

impl Record {
    /// See [`RecordView::wf`].
    pub open spec fn wf(&self) -> bool {
        self@.wf()
    }

    /// A record for a first observation.
    pub fn new(value: i16) -> (r: Record)
        ensures
            r@ == RecordView::single(value as int),
            r.wf(),
    {
        Record { min: value, max: value, sum: value as i128, count: 1 }
    }

    /// Folds one more observation into the record.
    pub fn add(&mut self, value: i16)
        requires
            old(self).wf(),
            old(self).count < usize::MAX,
        ensures
            final(self)@ == old(self)@.with_value(value as int),
            final(self).wf(),
    {
        proof {
            lemma_combine_wf(self@, RecordView::single(value as int));
            lemma_sum_bounds(self@);
            assert(32767 * self@.count <= 32767 * usize::MAX) by (nonlinear_arith)
                requires self@.count <= usize::MAX;
        }
        if value < self.min {
            self.min = value;
        }
        if value > self.max {
            self.max = value;
        }
        self.sum = self.sum + value as i128;
        self.count = self.count + 1;
    }

    /// Folds the observations of `other` into the record.
    pub fn merge(&mut self, other: &Record)
        requires
            old(self).wf(),
            other.wf(),
            old(self).count + other.count <= usize::MAX,
        ensures
            final(self)@ == old(self)@.combine(other@),
            final(self).wf(),
    {
        proof {
            lemma_combine_wf(self@, other@);
            lemma_sum_bounds(self@);
            lemma_sum_bounds(other@);
            assert(32767 * (self@.count + other@.count) <= 32767 * usize::MAX) by (nonlinear_arith)
                requires self@.count + other@.count <= usize::MAX;
        }
        if other.min < self.min {
            self.min = other.min;
        }
        if other.max > self.max {
            self.max = other.max;
        }
        self.sum = self.sum + other.sum;
        self.count = self.count + other.count;
    }
}

} // verus!
