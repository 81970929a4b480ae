use vstd::prelude::*;

use vstd::wrapping::u64_specs::{wrapping_add, wrapping_mul};

verus! {

/// Step added to the state on every draw.
pub const GAMMA: u64 = 0x9E37_79B9_7F4A_7C15;

/// First multiplier of the output mix.
pub const MIX_A: u64 = 0xBF58_476D_1CE4_E5B9;

/// Second multiplier of the output mix.
pub const MIX_B: u64 = 0x94D0_49BB_1331_11EB;

/// The state after one draw.
pub open spec fn next_state(s: u64) -> u64 {
    wrapping_add(s, GAMMA)
}

/// The number drawn from a state (the SplitMix64 output function).
pub open spec fn mix(z: u64) -> u64 {
    let a = wrapping_mul(z ^ (z >> 30u64), MIX_A);
    let b = wrapping_mul(a ^ (a >> 27u64), MIX_B);
    b ^ (b >> 31u64)
}

/// A small seeded source of pseudo-random numbers, so that a game can be replayed
/// exactly from its seed.
pub struct Rng {
    state: u64,
}

impl Rng {
    pub closed spec fn state(&self) -> u64 {
        self.state
    }

    pub fn new(seed: u64) -> (r: Rng)
        ensures
            r.state() == seed,
    {
        Rng { state: seed }
    }

    /// Draws the next number.
    pub fn next_u64(&mut self) -> (r: u64)
        ensures
            final(self).state() == next_state(old(self).state()),
            r == mix(final(self).state()),
    {
        self.state = self.state.wrapping_add(GAMMA);
        let z = self.state;
        let a = (z ^ (z >> 30u64)).wrapping_mul(MIX_A);
        let b = (a ^ (a >> 27u64)).wrapping_mul(MIX_B);
        b ^ (b >> 31u64)
    }
}

} // verus!
