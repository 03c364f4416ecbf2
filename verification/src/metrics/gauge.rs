use vstd::prelude::*;
use std::sync::Arc;
use std::sync::atomic::AtomicI64;
use std::sync::atomic::Ordering;
use super::{Metric, MetricKind};

verus! {

/// A value that goes up and down and is read as it stands. Clones share the
/// value.
#[derive(Clone)]
pub struct Gauge {
    inner: Arc<AtomicI64>,
}

impl Gauge {
    /// Adds `count`, wrapping around at the ends of `i64`.
    pub fn incr_by(&self, count: i64) {
        self.inner.fetch_add(count, Ordering::Relaxed);
    }

    /// Adds one.
    pub fn incr(&self) {
        self.incr_by(1);
    }

    /// Replaces the value with `val`.
    pub fn set(&self, val: i64) {
        self.inner.store(val, Ordering::Relaxed)
    }

    /// Takes one away.
    pub fn decr(&self) {
        self.incr_by(-1)
    }

    /// The value as it stands.
    pub fn value(&self) -> i64 {
        self.inner.load(Ordering::Relaxed)
    }
}

impl Metric for Gauge {
    const KIND: MetricKind = MetricKind::Gauge;

    fn must() -> Self {
        Gauge { inner: Arc::new(AtomicI64::new(0)) }
    }
}

} // verus!
