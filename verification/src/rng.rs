//! The random source: an explicit pseudo-random generator state.
//!
//! Every generation call consumes the source it is handed, so a run is a
//! deterministic function of the initial seed. Parallel generation derives an
//! independent sub-state per worker from the current state and the worker
//! index, so workers never share a generator and different workers never
//! reproduce one another's sequence.

use vstd::prelude::*;

verus! {

/// Additive constant of the state transition (the splitmix64 increment).
pub const STATE_GAMMA: u64 = 0x9E37_79B9_7F4A_7C15;

/// The state reached after one draw.
pub open spec fn next_state(s: u64) -> u64 {
    s.wrapping_add(STATE_GAMMA)
}

/// The output word produced from a state (the splitmix64 finalizer).
pub open spec fn mix(z: u64) -> u64 {
    let z1 = (z ^ (z >> 30)).wrapping_mul(0xBF58_476D_1CE4_E5B9);
    let z2 = (z1 ^ (z1 >> 27)).wrapping_mul(0x94D0_49BB_1331_11EB);
    z2 ^ (z2 >> 31)
}

/// The value below `n` drawn by one step from state `s`.
pub open spec fn spec_below(s: u64, n: u64) -> u64
    recommends
        n > 0,
{
    (mix(next_state(s)) as int % n as int) as u64
}

/// The sub-state a worker derives from state `s` and its index `w`.
pub open spec fn spec_substate(s: u64, w: u32) -> u64 {
    mix(s.wrapping_add(((w as u64).wrapping_add(1)).wrapping_mul(STATE_GAMMA)))
}

/// Pseudo-random generator state. Each draw advances the state by a fixed
/// increment and mixes the new state into the output word, so the whole
/// sequence of draws is a function of the initial state alone.
pub struct Rng {
    pub state: u64,
}

/// Creates the random source from an explicit seed. Construct it once, before
/// any generation call, and hand it to each builder; builders advance it.
pub fn seed_generator(seed: u32) -> (r: Rng)
    ensures
        r.state == seed as u64,
{
    Rng { state: seed as u64 }
}

impl Rng {
    /// Draws one full output word.
    pub fn next_u64(&mut self) -> (r: u64)
        ensures
            final(self).state == next_state(old(self).state),
            r == mix(final(self).state),
    {
        self.state = self.state.wrapping_add(STATE_GAMMA);
        let z0 = self.state;
        let z1 = (z0 ^ (z0 >> 30)).wrapping_mul(0xBF58_476D_1CE4_E5B9);
        let z2 = (z1 ^ (z1 >> 27)).wrapping_mul(0x94D0_49BB_1331_11EB);
        z2 ^ (z2 >> 31)
    }

    /// Draws a value uniformly below `n`.
    pub fn below(&mut self, n: u64) -> (r: u64)
        requires
            n > 0,
        ensures
            final(self).state == next_state(old(self).state),
            r == spec_below(old(self).state, n),
            r < n,
    {
        let z = self.next_u64();
        z % n
    }

    /// Derives the independent sub-state for worker `w`. The result depends on
    /// both the current state and the worker index; the parent state is left
    /// unchanged.
    pub fn substate(&self, w: u32) -> (r: Rng)
        ensures
            r.state == spec_substate(self.state, w),
    {
        let inc = ((w as u64).wrapping_add(1)).wrapping_mul(STATE_GAMMA);
        let z0 = self.state.wrapping_add(inc);
        let z1 = (z0 ^ (z0 >> 30)).wrapping_mul(0xBF58_476D_1CE4_E5B9);
        let z2 = (z1 ^ (z1 >> 27)).wrapping_mul(0x94D0_49BB_1331_11EB);
        Rng { state: z2 ^ (z2 >> 31) }
    }
}

} // verus!
