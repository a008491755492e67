use vstd::prelude::*;
use rand::Rng;
use rand::SeedableRng;

verus! {

#[verifier::external_type_specification]
#[verifier::external_body]
pub struct ExSmallRng(rand::rngs::SmallRng);

/// The pseudo-random source every generator draws from. It wraps a small,
/// fast, seedable generator, so that a fixed seed replays a fixed sequence
/// of draws.
pub struct Prng {
    inner: rand::rngs::SmallRng,
}

impl Prng {
    /// Relies on rand's `SmallRng::seed_from_u64` to build a reproducible
    /// generator from a seed.
    #[verifier::external_body]
    pub fn seeded(seed: u64) -> Prng {
        Prng { inner: rand::rngs::SmallRng::seed_from_u64(seed) }
    }

    /// Relies on rand's `SmallRng::from_os_rng` to build a generator seeded
    /// from the operating system.
    #[verifier::external_body]
    pub fn from_entropy() -> Prng {
        Prng { inner: rand::rngs::SmallRng::from_os_rng() }
    }

    /// Relies on rand's `Rng::random_range` over `0..bound`, which returns a
    /// value of the nonempty range and does not panic on it.
    #[verifier::external_body]
    pub(crate) fn below_usize(&mut self, bound: usize) -> (r: usize)
        requires
            bound > 0,
        ensures
            r < bound,
    {
        self.inner.random_range(0..bound)
    }

    /// Relies on rand's `Rng::random_range` over `0..bound`, which returns a
    /// value of the nonempty range and does not panic on it.
    #[verifier::external_body]
    pub(crate) fn below_u32(&mut self, bound: u32) -> (r: u32)
        requires
            bound > 0,
        ensures
            r < bound,
    {
        self.inner.random_range(0..bound)
    }

    /// Relies on rand's `Rng::random_range` over `0..bound`, which returns a
    /// value of the nonempty range and does not panic on it.
    #[verifier::external_body]
    pub(crate) fn below_u128(&mut self, bound: u128) -> (r: u128)
        requires
            bound > 0,
        ensures
            r < bound,
    {
        self.inner.random_range(0..bound)
    }
}

} // verus!
