//! The pseudo-random number generator that drives the search.
//!
//! It is the SplitMix64 generator: the state advances by a fixed odd step,
//! and the value handed out is the new state put through a fixed scrambling
//! of shifts and multiplications. What it yields is a function of the seed
//! alone, so that a run can be repeated.

use vstd::prelude::*;

verus! {

/// One million: the rates of the search are counted in parts per million.
pub const RATE_ONE: u32 = 1_000_000;

/// The state that follows `state`.
pub open spec fn advance(state: u64) -> u64 {
    state.wrapping_add(0x9E37_79B9_7F4A_7C15u64)
}

/// The value that the generator hands out in state `state`.
pub open spec fn scramble(state: u64) -> u64 {
    let first = (state ^ (state >> 30)).wrapping_mul(0xBF58_476D_1CE4_E5B9u64);
    let second = (first ^ (first >> 27)).wrapping_mul(0x94D0_49BB_1331_11EBu64);
    second ^ (second >> 31)
}

/// The value drawn from a generator in state `state`: the next state,
/// scrambled.
pub open spec fn draw_of(state: u64) -> u64 {
    scramble(advance(state))
}

#[derive(Debug, Clone, Copy, PartialEq, Eq, Structural)]
pub struct Rng {
    pub state: u64,
}

impl Rng {
    pub fn new(seed: u64) -> (rng: Rng)
        ensures
            rng.state == seed,
    {
        Rng { state: seed }
    }

    /// Draws 64 bits.
    pub fn next_u64(&mut self) -> (value: u64)
        ensures
            final(self).state == advance(old(self).state),
            value == draw_of(old(self).state),
    {
        self.state = self.state.wrapping_add(0x9E37_79B9_7F4A_7C15u64);
        let state: u64 = self.state;
        let first: u64 = (state ^ (state >> 30)).wrapping_mul(0xBF58_476D_1CE4_E5B9u64);
        let second: u64 = (first ^ (first >> 27)).wrapping_mul(0x94D0_49BB_1331_11EBu64);
        second ^ (second >> 31)
    }

    /// Draws a number below `bound`.
    pub fn below(&mut self, bound: u64) -> (value: u64)
        requires
            bound > 0,
        ensures
            final(self).state == advance(old(self).state),
            value == draw_of(old(self).state) % bound,
            value < bound,
    {
        self.next_u64() % bound
    }

    /// Draws an event that comes about `rate` times in a million.
    pub fn chance(&mut self, rate: u32) -> (hit: bool)
        ensures
            final(self).state == advance(old(self).state),
            hit == (draw_of(old(self).state) % 1_000_000 < rate),
    {
        self.below(1_000_000) < rate as u64
    }
}

} // verus!
