//! The emulator's random numbers. One seed always gives the same device.
use vstd::prelude::*;

verus! {

/// One step of the generator.
pub open spec fn stepped(state: u64) -> u64 {
    let a = state ^ (state << 13);
    let b = a ^ (a >> 7);
    b ^ (b << 17)
}

/// A number below `upper` and the state of the generator behind it.
pub open spec fn drawn_below(state: u64, upper: u64) -> (u64, u64) {
    if upper == 0 {
        (0, state)
    } else {
        (stepped(state) % upper, stepped(state))
    }
}

/// Whether an event happens that has a probability in parts per million.
pub open spec fn drawn_chance(state: u64, ppm: u32) -> (bool, u64) {
    if ppm == 0 {
        (false, state)
    } else {
        let (n, next) = drawn_below(state, 1_000_000);
        (n < ppm, next)
    }
}

/// How much of a write of `length` bytes lands before it is torn.
pub open spec fn drawn_tear(state: u64, length: nat) -> (nat, u64) {
    if length <= 1 {
        (0, state)
    } else {
        let (n, next) = drawn_below(state, (length - 1) as u64);
        (1 + n as nat, next)
    }
}

/// A xorshift generator.
#[derive(Clone, Copy, Debug, PartialEq, Eq, Structural)]
pub struct XorShift64(pub u64);

impl XorShift64 {
    /// A generator from a seed; a seed of zero counts as one.
    pub fn new(seed: u64) -> (generator: Self)
        ensures
            generator.0 == if seed == 0 {
                1
            } else {
                seed
            },
    {
        if seed == 0 {
            XorShift64(1)
        } else {
            XorShift64(seed)
        }
    }

    /// The next number.
    pub fn next(&mut self) -> (value: u64)
        ensures
            value == stepped(old(self).0),
            final(self).0 == value,
    {
        let a: u64 = self.0 ^ (self.0 << 13);
        let b: u64 = a ^ (a >> 7);
        let value: u64 = b ^ (b << 17);
        self.0 = value;
        value
    }

    /// A number below `upper`, or zero where there is none.
    pub fn below(&mut self, upper: u64) -> (value: u64)
        ensures
            (value, final(self).0) == drawn_below(old(self).0, upper),
            upper > 0 ==> value < upper,
    {
        if upper == 0 {
            0
        } else {
            self.next() % upper
        }
    }

    /// Whether an event happens that has a probability in parts per million.
    pub fn chance(&mut self, probability_ppm: u32) -> (yes: bool)
        ensures
            (yes, final(self).0) == drawn_chance(old(self).0, probability_ppm),
    {
        probability_ppm != 0 && self.below(1_000_000) < probability_ppm as u64
    }
}

/// How much of a write of `length` bytes lands before it is torn: some of it, and
/// not all.
pub fn torn_length(rng: &mut XorShift64, length: usize) -> (n: usize)
    ensures
        (n as nat, final(rng).0) == drawn_tear(old(rng).0, length as nat),
        length > 1 ==> 0 < n < length,
        length <= 1 ==> n == 0,
{
    if length <= 1 {
        0
    } else {
        1 + rng.below((length - 1) as u64) as usize
    }
}

/// An event with probability one always happens, and one with probability zero
/// never does.
pub proof fn certain_events(state: u64)
    ensures
        drawn_chance(state, 1_000_000).0,
        !drawn_chance(state, 0).0,
{
}

} // verus!
