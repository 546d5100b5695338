//! A small seedable generator of grid positions, so that a run of trials can be
//! repeated from its seed.

use vstd::prelude::*;

verus! {

/// Multiplier of the linear congruential step.
pub const MULTIPLIER: u64 = 6364136223846793005;

/// Increment of the linear congruential step.
pub const INCREMENT: u64 = 1442695040888963407;

/// The state that follows `s`: `s * MULTIPLIER + INCREMENT` modulo 2^64.
pub open spec fn next_state(s: u64) -> u64 {
    ((s as int * MULTIPLIER as int + INCREMENT as int) % 0x1_0000_0000_0000_0000int) as u64
}

/// The position in `1..=n` drawn from state `s`: its high 31 bits, reduced modulo `n`.
pub open spec fn position_of(s: u64, n: int) -> int {
    ((s as int) / 0x2_0000_0000int) % n + 1
}

/// A linear congruential generator over 64-bit states.
pub struct SiteRng {
    state: u64,
}

impl SiteRng {
    /// The current state.
    pub closed spec fn state(&self) -> u64 {
        self.state
    }

    /// A generator that starts from `seed`.
    pub fn new(seed: u64) -> (r: SiteRng)
        ensures
            r.state() == seed,
    {
        SiteRng { state: seed }
    }

    /// Moves to the next state and returns it.
    pub fn next_u64(&mut self) -> (r: u64)
        ensures
            r == next_state(old(self).state()),
            final(self).state() == r,
    {
        assert((self.state as u128) * (MULTIPLIER as u128) <= 0xffff_ffff_ffff_ffffu128 * (MULTIPLIER as u128)) by (nonlinear_arith);
        let m = (self.state as u128) * (MULTIPLIER as u128) + (INCREMENT as u128);
        let r = (m % 0x1_0000_0000_0000_0000u128) as u64;
        self.state = r;
        r
    }

    /// Moves to the next state and returns the position in `1..=n` that it gives.
    pub fn next_position(&mut self, n: usize) -> (r: usize)
        requires
            n >= 1,
        ensures
            final(self).state() == next_state(old(self).state()),
            r == position_of(final(self).state(), n as int),
            1 <= r <= n,
    {
        let s = self.next_u64();
        let high = s >> 33u64;
        assert(high == s / 0x2_0000_0000) by (bit_vector)
            requires
                high == s >> 33u64,
        ;
        let k = (high % (n as u64)) as usize;
        k + 1
    }
}

} // verus!
