//! A hasher for keys that are hashes already.
use vstd::prelude::*;
use std::hash::{BuildHasher, Hasher};

verus! {

/// Passes a `u64` value straight through as the hash. Only of use where the
/// key of a `HashMap` is a hash already and hashing it again would be
/// wasted work.
pub struct NoopHasher {
    inner: u64,
}

impl NoopHasher {
    /// The value that `finish` gives.
    pub closed spec fn state(&self) -> u64 {
        self.inner
    }
}

impl Hasher for NoopHasher {
    fn finish(&self) -> (r: u64)
        ensures
            r == self.state(),
    {
        self.inner
    }

    /// Bytes are not hashed: only `u64` keys that are hashes already are
    /// passed through.
    fn write(&mut self, _bytes: &[u8])
        ensures
            final(self).state() == old(self).state(),
    {
    }

    fn write_u64(&mut self, i: u64)
        ensures
            final(self).state() == i,
    {
        self.inner = i;
    }
}

/// Builds `NoopHasher`s that start from zero.
#[derive(Default, Debug, Clone, Copy)]
pub struct BuildNoopHasher;

impl BuildHasher for BuildNoopHasher {
    type Hasher = NoopHasher;

    fn build_hasher(&self) -> (h: NoopHasher)
        ensures
            h.state() == 0,
    {
        NoopHasher { inner: 0 }
    }
}

} // verus!
