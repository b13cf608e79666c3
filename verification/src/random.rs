//! The deterministic pseudo-random stream used to pick exploratory
//! starting values: a 64-bit xorshift generator.

use vstd::prelude::*;

verus! {

/// One xorshift round: three shift-and-mix steps on the state word.
pub open spec fn xorshift_step(x: u64) -> u64 {
    let a = x ^ (x << 13);
    let b = a ^ (a >> 7);
    b ^ (b << 17)
}

/// A 64-bit xorshift generator.  A zero state would be a fixed point, so
/// construction rejects it; every later state is whatever the mixing
/// produces.
pub struct Random {
    pub state: u64,
}

impl Random {
    /// The next value of the stream, which also becomes the new state.
    pub fn get(&mut self) -> (r: u64)
        ensures
            r == xorshift_step(old(self).state),
            final (self).state == r,
    {
        let mut x = self.state;
        x ^= x << 13;
        x ^= x >> 7;
        x ^= x << 17;
        self.state = x;
        x
    }

    /// A value in `[from, to)` driven by the next value of the stream.
    pub fn next_in_range(&mut self, from: u64, to: u64) -> (r: u64)
        requires
            from < to,
        ensures
            r == from + xorshift_step(old(self).state) % ((to - from) as u64),
            from <= r < to,
            final (self).state == xorshift_step(old(self).state),
    {
        from + self.get() % (to - from)
    }

    /// A generator seeded with a nonzero value.
    pub fn new(seed: u64) -> (r: Random)
        requires
            seed != 0,
        ensures
            r.state == seed,
    {
        Random { state: seed }
    }
}

} // verus!
