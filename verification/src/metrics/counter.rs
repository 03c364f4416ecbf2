use vstd::prelude::*;
use std::sync::Arc;
use std::sync::atomic::AtomicU64;
use std::sync::atomic::Ordering;
use super::{Metric, MetricKind};

verus! {

/// A delta counter for the rate of actions: reading it hands out what was
/// counted since the last read and starts over from zero. Clones share the
/// count.
#[derive(Clone)]
pub struct Counter {
    inner: Arc<AtomicU64>,
}

impl Counter {
    /// Adds `count`, wrapping around at `u64::MAX`.
    pub fn incr_by(&self, count: u64) {
        self.inner.fetch_add(count, Ordering::Relaxed);
    }

    /// Adds one.
    pub fn incr(&self) {
        self.incr_by(1);
    }

    /// Hands out the count since the last read and resets it to zero.
    pub fn value(&self) -> u64 {
        self.inner.swap(0, Ordering::Relaxed)
    }
}

impl Metric for Counter {
    const KIND: MetricKind = MetricKind::Counter;

    fn must() -> Self {
        Counter { inner: Arc::new(AtomicU64::new(0)) }
    }
}

} // verus!
