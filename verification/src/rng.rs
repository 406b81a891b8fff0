//! Pseudo-random source: a 32-bit xorshift step.
//!
//! The game only ever reduces a draw modulo a small bound, so distribution
//! quality does not matter; what matters is that the step is a pure,
//! deterministic function of the state, so that the engine stays testable.
//! A caller that wants irreproducible play seeds the generator from the
//! clock; tests seed it with a fixed value.

use vstd::prelude::*;

verus! {

/// One step of the 32-bit xorshift mixing function.
pub open spec fn xorshift_step(s: u32) -> u32 {
    let a = s ^ (s << 13);
    let b = a ^ (a >> 17);
    b ^ (b << 5)
}

/// Mixes a seed once and hands the result back as an index-sized value.
pub fn random(seed: u32) -> (r: usize)
    ensures
        r == xorshift_step(seed) as usize,
{
    let mut r = seed;
    r = r ^ (r << 13);
    r = r ^ (r >> 17);
    r = r ^ (r << 5);
    r as usize
}

/// An owned xorshift generator: successive draws walk the state forward.
pub struct Rng {
    pub state: u32,
}

impl Rng {
    /// A generator starting from the given seed.
    pub fn new(seed: u32) -> (r: Rng)
        ensures
            r.state == seed,
    {
        Rng { state: seed }
    }

    /// Draws the next value: the state advances by one xorshift step and
    /// the new state is returned.
    pub fn next_draw(&mut self) -> (r: usize)
        ensures
            final(self).state == xorshift_step(old(self).state),
            r == final(self).state as usize,
    {
        let stepped = self.state ^ (self.state << 13);
        let stepped = stepped ^ (stepped >> 17);
        let stepped = stepped ^ (stepped << 5);
        self.state = stepped;
        stepped as usize
    }
}

} // verus!
