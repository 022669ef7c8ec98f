//! The snapshot data model produced by `gather`: metric samples grouped into
//! named, typed families.

use vstd::prelude::*;
use crate::desc::LabelPair;

verus! {

/// The kind of instrument a family was produced by.
#[derive(Debug, Clone, Copy, PartialEq, Eq, Structural)]
pub enum MetricType {
    Counter,
    Gauge,
    Histogram,
    Summary,
    Untyped,
}

/// One sample: its label pairs (in label order), its value and an optional
/// timestamp in milliseconds.
#[derive(Debug, Clone)]
pub struct Metric {
    pub labels: Vec<LabelPair>,
    pub value: u64,
    pub timestamp_ms: Option<i64>,
}

impl Metric {
    pub fn new(labels: Vec<LabelPair>, value: u64, timestamp_ms: Option<i64>) -> (r: Metric)
        ensures
            r.labels == labels,
            r.value == value,
            r.timestamp_ms == timestamp_ms,
    {
        Metric { labels, value, timestamp_ms }
    }

    pub fn get_label(&self) -> (r: &Vec<LabelPair>)
        ensures
            *r == self.labels,
    {
        &self.labels
    }

    pub fn get_value(&self) -> (r: u64)
        ensures
            r == self.value,
    {
        self.value
    }

    pub fn get_timestamp_ms(&self) -> (r: Option<i64>)
        ensures
            r == self.timestamp_ms,
    {
        self.timestamp_ms
    }
}

/// A named group of metric samples sharing help text and a type. Produced
/// fresh on every `gather`; never cached.
#[derive(Debug, Clone)]
pub struct MetricFamily {
    pub name: String,
    pub help: String,
    pub metric_type: MetricType,
    pub metrics: Vec<Metric>,
}

impl MetricFamily {
    pub fn new(name: String, help: String, metric_type: MetricType, metrics: Vec<Metric>) -> (r:
        MetricFamily)
        ensures
            r.name@ == name@,
            r.help@ == help@,
            r.metric_type == metric_type,
            r.metrics == metrics,
    {
        MetricFamily { name, help, metric_type, metrics }
    }

    pub fn get_name(&self) -> (r: &str)
        ensures
            r@ == self.name@,
    {
        self.name.as_str()
    }

    pub fn get_metric(&self) -> (r: &Vec<Metric>)
        ensures
            *r == self.metrics,
    {
        &self.metrics
    }

    /// Empty the family's name, leaving everything else as it was.
    pub fn clear_name(&mut self)
        ensures
            final(self).name@ == Seq::<char>::empty(),
            final(self).help == old(self).help,
            final(self).metric_type == old(self).metric_type,
            final(self).metrics == old(self).metrics,
    {
        self.name = String::new();
    }
}

} // verus!
