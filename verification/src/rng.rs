//! SplitMix64: tiny, fast, and identical output on every platform, which
//! keeps runs byte-for-byte reproducible from the seed alone.
use vstd::prelude::*;

use crate::hash::splitmix;

verus! {

/// State of the generator after one more number.
pub open spec fn stepped(state: u64) -> u64 {
    state.wrapping_add(0x9E37_79B9_7F4A_7C15)
}

/// The next number below `n` from a state.
pub open spec fn draw(state: u64, n: u64) -> u64 {
    splitmix(state) % n
}

pub struct Rng {
    state: u64,
}

impl View for Rng {
    type V = u64;

    closed spec fn view(&self) -> u64 {
        self.state
    }
}

impl Rng {
    pub fn new(seed: u64) -> (rng: Rng)
        ensures
            rng@ == seed,
    {
        Rng { state: seed }
    }

    /// A generator that will give the same numbers.
    pub fn twin(&self) -> (rng: Rng)
        ensures
            rng@ == self@,
    {
        Rng { state: self.state }
    }

    pub fn next(&mut self) -> (x: u64)
        ensures
            x == splitmix(old(self)@),
            final(self)@ == stepped(old(self)@),
    {
        self.state = self.state.wrapping_add(0x9E37_79B9_7F4A_7C15);
        let mut z: u64 = self.state;
        z = (z ^ (z >> 30u64)).wrapping_mul(0xBF58_476D_1CE4_E5B9);
        z = (z ^ (z >> 27u64)).wrapping_mul(0x94D0_49BB_1331_11EB);
        z ^ (z >> 31u64)
    }

    pub fn below(&mut self, n: u64) -> (x: u64)
        requires
            n > 0,
        ensures
            x == draw(old(self)@, n),
            x < n,
            final(self)@ == stepped(old(self)@),
    {
        self.next() % n
    }
}

/// The generator walks all states in steps of one odd constant, and a number
/// below `n` is the remainder of the mixed state.
pub proof fn law_draws_are_remainders(state: u64, n: u64)
    requires
        n > 0,
    ensures
        stepped(state) == (state + 0x9E37_79B9_7F4A_7C15) % 0x1_0000_0000_0000_0000,
        draw(state, n) < n,
        exists|q: int| #[trigger] (q * n) + draw(state, n) == splitmix(state),
{
    let x = splitmix(state) as int;
    let d = n as int;
    assert(x == (x / d) * d + x % d) by (nonlinear_arith)
        requires
            d > 0,
    ;
    assert((x / d) * n + draw(state, n) == splitmix(state));
}

} // verus!
