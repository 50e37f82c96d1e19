//! Compatibility for LCG streams already shipped by older games.

use vstd::prelude::*;

verus! {

/// The multiplier of the legacy generator.
pub const LCG_MULTIPLIER: u64 = 6_364_136_223_846_793_005;

/// One step of the generator: `state * multiplier + increment`, modulo 2^64.
pub open spec fn lcg_step(state: u64, increment: u64) -> u64 {
    ((state as int * LCG_MULTIPLIER as int + increment as int) % 0x1_0000_0000_0000_0000int) as u64
}

/// The value a step hands out: the upper 32 bits of the new state.
pub open spec fn lcg_output(state: u64) -> u32 {
    (state as int / 0x1_0000_0000int) as u32
}

/// Legacy multiply/add/upper-32-bit generator.
///
/// Increment `1` preserves one shipped stream, `1_442_695_040_888_963_407`
/// another. The increment is part of the algorithm, not serialized state.
#[derive(Debug, Clone, Copy, PartialEq, Eq)]
pub struct LegacyLcg64<const INCREMENT: u64> {
    state: u64,
}

impl<const INCREMENT: u64> LegacyLcg64<INCREMENT> {
    /// The full 64-bit state, as a spec value.
    pub closed spec fn spec_state(&self) -> u64 {
        self.state
    }

    /// Seed zero is mapped to one. This is not state restoration.
    pub fn new(seed: u64) -> (rng: Self)
        ensures
            rng.spec_state() == if seed == 0 { 1 } else { seed },
    {
        Self { state: if seed == 0 { 1 } else { seed } }
    }

    /// Restore all 64 state bits exactly, including zero.
    pub fn from_state(state: u64) -> (rng: Self)
        ensures
            rng.spec_state() == state,
    {
        Self { state }
    }

    pub fn state(&self) -> (state: u64)
        ensures
            state == self.spec_state(),
    {
        self.state
    }

    /// Law: a generator is exactly its state. Two generators of one
    /// increment with the same state are equal, so one rebuilt with
    /// [`from_state`](Self::from_state) from [`state`](Self::state) hands out
    /// the same values as the original from then on, zero state included.
    pub proof fn lemma_state_is_the_whole_generator(a: Self, b: Self)
        requires
            a.spec_state() == b.spec_state(),
        ensures
            a == b,
    {
    }

    /// Advance one step and return the upper half of the new state.
    pub fn next_u32(&mut self) -> (value: u32)
        ensures
            final(self).spec_state() == lcg_step(old(self).spec_state(), INCREMENT),
            value == lcg_output(final(self).spec_state()),
    {
        let next = self.state.wrapping_mul(LCG_MULTIPLIER).wrapping_add(INCREMENT);
        self.state = next;
        let out = (next >> 32u64) as u32;
        assert(out as int == next as int / 0x1_0000_0000int) by (bit_vector)
            requires out == (next >> 32u64) as u32;
        out
    }
}

} // verus!
