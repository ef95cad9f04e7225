use vstd::prelude::*;

verus! {

/// A small deterministic pseudo-random generator (the splitmix64 step
/// function).  The caller owns and seeds the generator, so generation is
/// reproducible under a fixed seed and independent chains never contend
/// on shared state.
pub struct SplitMix64 {
    state: u64,
}

impl SplitMix64 {
    /// Creates a generator whose stream is determined by `seed`.
    pub fn from_seed(seed: u64) -> SplitMix64 {
        SplitMix64 { state: seed }
    }

    /// Returns the next 64 bits of the stream.
    pub fn next_u64(&mut self) -> u64 {
        self.state = self.state.wrapping_add(0x9E3779B97F4A7C15u64);
        let mut z: u64 = self.state;
        z = (z ^ (z >> 30u64)).wrapping_mul(0xBF58476D1CE4E5B9u64);
        z = (z ^ (z >> 27u64)).wrapping_mul(0x94D049BB133111EBu64);
        z ^ (z >> 31u64)
    }

    /// Draws a value uniformly-enough below `bound`.
    pub fn next_below(&mut self, bound: u128) -> (r: u128)
        requires
            bound > 0,
        ensures
            r < bound,
    {
        let hi = self.next_u64();
        let lo = self.next_u64();
        let x: u128 = ((hi as u128) << 64u128) | (lo as u128);
        x % bound
    }
}

} // verus!
