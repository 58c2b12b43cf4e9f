use vstd::prelude::*;

verus! {

/// A stored metric value: one variant per metric type.
#[derive(Debug)]
pub enum MetricValue {
    Boolean(bool),
    String(String),
    Counter(u64),
}

/// The mathematical content of a [`MetricValue`].
pub enum ValueModel {
    Boolean(bool),
    Text(Seq<char>),
    Counter(u64),
}

impl View for MetricValue {
    type V = ValueModel;

    open spec fn view(&self) -> ValueModel {
        match self {
            MetricValue::Boolean(b) => ValueModel::Boolean(*b),
            MetricValue::String(s) => ValueModel::Text(s@),
            MetricValue::Counter(n) => ValueModel::Counter(*n),
        }
    }
}

impl MetricValue {
    /// A copy of the value.
    pub fn duplicate(&self) -> (r: MetricValue)
        ensures
            r@ == self@,
    {
        match self {
            MetricValue::Boolean(b) => MetricValue::Boolean(*b),
            MetricValue::String(s) => MetricValue::String(s.clone()),
            MetricValue::Counter(n) => MetricValue::Counter(*n),
        }
    }
}

/// The count held by a stored value: the counter itself, or 0 where there is
/// no value or a value of another type.
pub open spec fn count_of(v: Option<ValueModel>) -> u64 {
    match v {
        Some(ValueModel::Counter(n)) => n,
        _ => 0,
    }
}

/// `a + b`, held at `u64::MAX` instead of wrapping.
pub open spec fn saturating(a: u64, b: u64) -> u64 {
    if a + b > u64::MAX {
        u64::MAX
    } else {
        (a + b) as u64
    }
}

} // verus!
