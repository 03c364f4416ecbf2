//! Metrics64: counters, gauges and log-exponential histograms, kept in a
//! registry that identifies each metric by its name and tag set.
use vstd::prelude::*;

mod arith;
pub mod collector;
pub mod metrics;
pub mod registry;
pub mod tags;
pub mod utils;

pub use metrics::counter::Counter;
pub use metrics::gauge::Gauge;
pub use metrics::histogram::{HistogramBuckets, HistogramInner, HistogramSnapshot, RecordStep};
pub use metrics::{Metric, MetricDef, MetricKind, TagSchema, Tags};
pub use registry::{MetricMetadata, RegisterError, Registry};
pub use utils::{BuildNoopHasher, NoopHasher};

verus! {

/// The definition of a counter.
pub type CounterDef = MetricDef<Counter>;

/// The definition of a gauge.
pub type GaugeDef = MetricDef<Gauge>;

} // verus!
