use vstd::prelude::*;
use rand::Rng;
use rand::SeedableRng;

verus! {

#[verifier::external_type_specification]
#[verifier::external_body]
pub struct ExSmallRng(rand::rngs::SmallRng);

/// A stateful source of randomness for the effects. It wraps one generator
/// instance and advances it on every call that consumes randomness. Nothing
/// is promised about which values come out, only their range, so everything
/// built on it holds for every outcome.
pub struct RandomSource {
    rng: rand::rngs::SmallRng,
}

impl RandomSource {
    /// Relies on rand's `SeedableRng::from_entropy` to seed a fresh `SmallRng`
    /// from the operating system.
    #[verifier::external_body]
    pub fn new() -> RandomSource {
        RandomSource { rng: rand::rngs::SmallRng::from_entropy() }
    }

    /// Relies on rand's `Rng::gen_range`: returns a value of the given
    /// half-open range, and panics only when the range is empty.
    #[verifier::external_body]
    pub fn uniform(&mut self, lo: usize, hi: usize) -> (r: usize)
        requires
            lo < hi,
        ensures
            lo <= r < hi,
    {
        self.rng.gen_range(lo..hi)
    }

    /// Relies on rand's `Rng::gen` at `u8`: returns one random byte.
    #[verifier::external_body]
    pub fn next_byte(&mut self) -> (r: u8) {
        self.rng.gen::<u8>()
    }

    /// A boolean that is true with probability `num / den`.
    pub fn chance(&mut self, num: usize, den: usize) -> bool
        requires
            1 <= den,
    {
        self.uniform(0, den) < num
    }

    /// A fair coin.
    pub fn coin(&mut self) -> bool {
        self.chance(1, 2)
    }
}

} // verus!
