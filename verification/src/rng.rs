//! The xorshift generator that picks random moves.
use vstd::prelude::*;

verus! {

/// One step of the generator: `x ^= x << 7; x ^= x >> 9`.
pub open spec fn xorshift(x: u64) -> u64 {
    let y = x ^ (x << 7u64);
    y ^ (y >> 9u64)
}

/// Generator state.
pub struct XorShift {
    pub seed: u64,
}

impl XorShift {
    /// The generator with its fixed start seed.
    pub fn new() -> (r: Self)
        ensures
            r.seed == 88172645463325252u64,
    {
        XorShift { seed: 88172645463325252 }
    }

    /// Steps the generator and returns the new seed as a `usize`.
    pub fn next(&mut self) -> (r: usize)
        ensures
            final(self).seed == xorshift(old(self).seed),
            r == final(self).seed as usize,
    {
        self.seed = self.seed ^ (self.seed << 7);
        self.seed = self.seed ^ (self.seed >> 9);
        self.seed as usize
    }
}

} // verus!
