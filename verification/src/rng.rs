//! The single seeded pseudo-random generator every random choice flows
//! through (SplitMix64). Pure integer arithmetic, so identical on every target.
use vstd::prelude::*;

verus! {

/// SplitMix64's state increment.
pub const GAMMA: u64 = 0x9E37_79B9_7F4A_7C15;

/// The SplitMix64 output function applied to a state.
#[verifier::opaque]
pub open spec fn mix(z: u64) -> u64 {
    let z1 = (z ^ (z >> 30u64)).wrapping_mul(0xBF58_476D_1CE4_E5B9u64);
    let z2 = (z1 ^ (z1 >> 27u64)).wrapping_mul(0x94D0_49BB_1331_11EBu64);
    z2 ^ (z2 >> 31u64)
}

/// The state of a generator seeded with `s` after `k` draws.
pub open spec fn state_after(s: u64, k: nat) -> u64
    decreases k,
{
    if k == 0 {
        s
    } else {
        state_after(s, (k - 1) as nat).wrapping_add(GAMMA)
    }
}

/// The `k`-th value (from 0) a generator seeded with `s` draws.
pub open spec fn nth_draw(s: u64, k: nat) -> u64 {
    mix(state_after(s, k + 1))
}

/// The first `k` values a generator seeded with `s` draws.
pub open spec fn draws(s: u64, k: nat) -> Seq<u64>
    decreases k,
{
    if k == 0 {
        Seq::empty()
    } else {
        draws(s, (k - 1) as nat).push(mix(state_after(s, k)))
    }
}

/// A deterministic pseudo-random number generator.
#[derive(Clone, Copy, Debug)]
pub struct Rng {
    state: u64,
}

impl Rng {
    pub closed spec fn spec_state(self) -> u64 {
        self.state
    }

    /// The value the next call of `next_u64` returns.
    pub open spec fn peek(self) -> u64 {
        mix(self.spec_state().wrapping_add(GAMMA))
    }

    /// The generator after one draw.
    pub open spec fn advanced(self) -> u64 {
        self.spec_state().wrapping_add(GAMMA)
    }

    pub fn from_seed(seed: u64) -> (r: Rng)
        ensures
            r.spec_state() == seed,
    {
        Rng { state: seed }
    }

    /// The next 64 random bits.
    pub fn next_u64(&mut self) -> (r: u64)
        ensures
            r == old(self).peek(),
            final(self).spec_state() == old(self).advanced(),
    {
        self.state = self.state.wrapping_add(GAMMA);
        proof {
            reveal(mix);
        }
        let z = self.state;
        let z1 = (z ^ (z >> 30u64)).wrapping_mul(0xBF58_476D_1CE4_E5B9u64);
        let z2 = (z1 ^ (z1 >> 27u64)).wrapping_mul(0x94D0_49BB_1331_11EBu64);
        z2 ^ (z2 >> 31u64)
    }

    /// The next 32 random bits (the high half of the next 64).
    pub fn next_u32(&mut self) -> (r: u32)
        ensures
            r == (old(self).peek() >> 32u64) as u32,
            final(self).spec_state() == old(self).advanced(),
    {
        let v = self.next_u64();
        (v >> 32u64) as u32
    }

    /// A value in `[0, n)` (0 when `n == 0`).
    pub fn below(&mut self, n: u64) -> (r: u64)
        ensures
            n > 0 ==> r == old(self).peek() % n,
            n > 0 ==> r < n,
            n == 0 ==> r == 0,
            final(self).spec_state() == old(self).advanced(),
    {
        let v = self.next_u64();
        if n == 0 {
            0
        } else {
            v % n
        }
    }
}

} // verus!
