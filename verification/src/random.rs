//! A seeded pseudo-random stream.
//!
//! Every sub-generator draws from one sequential stream, so the call order is
//! part of the determinism contract: the same seed and the same call sequence
//! give the same draws.

use vstd::prelude::*;
use rand::Rng;
use rand::SeedableRng;

verus! {

/// Declares rand's `StdRng` so that a field can hold one.
#[verifier::external_type_specification]
#[verifier::external_body]
pub struct ExStdRng(rand::rngs::StdRng);

/// A pseudo-random number stream seeded from 32 bytes.
pub struct RandomStream {
    inner: rand::rngs::StdRng,
}

impl RandomStream {
    /// Relies on rand's `StdRng::from_seed`: builds a generator from a
    /// 32-byte seed.
    #[verifier::external_body]
    pub fn from_seed(seed: [u8; 32]) -> RandomStream {
        RandomStream { inner: rand::rngs::StdRng::from_seed(seed) }
    }

    /// Relies on rand's `Rng::gen_range`: a draw from `lo..hi` lies in
    /// `[lo, hi)`; the call panics on an empty range, so one is ruled out.
    #[verifier::external_body]
    pub fn gen_range(&mut self, lo: i32, hi: i32) -> (r: i32)
        requires
            lo < hi,
        ensures
            lo <= r < hi,
    {
        self.inner.gen_range(lo..hi)
    }
}

} // verus!
