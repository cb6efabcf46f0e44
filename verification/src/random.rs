//! A linear congruential generator of pseudo-random numbers.

use vstd::prelude::*;

verus! {

/// The generator's modulus: two to the power 48.
pub const MODULUS: u64 = 0x1_0000_0000_0000;

/// The generator's multiplier.
pub const MULTIPLIER: u64 = 0x5DEECE66D;

/// The generator's increment.
pub const INCREMENT: u64 = 11;

/// The state that follows `value`.
pub open spec fn next_state(value: int) -> int {
    (0x5DEECE66D * value + 11) % 0x1_0000_0000_0000
}

/// The 31 bits of `value` above its lowest 16.
pub open spec fn relevant_bits(value: int) -> int {
    (value / 0x1_0000) % 0x8000_0000
}

/// The 31 bits of `value` above its lowest 16.
pub fn compute_relevant_bits(value: u64) -> (r: u32)
    ensures
        r == relevant_bits(value as int),
{
    ((value / 0x1_0000) % 0x8000_0000) as u32
}

/// The time stamp of a moment: the seconds since the Unix epoch, as a
/// decimal numeral.
pub fn compute_timestamp(seconds_since_epoch: u64) -> (r: String)
    ensures
        r@ == crate::numbers::digits(seconds_since_epoch as nat),
{
    crate::text::string_of(&crate::numbers::natural_to_chars(seconds_since_epoch))
}

/// A generator of pseudo-random numbers; its whole state is one number.
pub struct RandomNumberGenerator {
    value: u64,
}

impl View for RandomNumberGenerator {
    type V = int;

    closed spec fn view(&self) -> int {
        self.value as int
    }
}

impl RandomNumberGenerator {
    /// The generator whose state is `seed`.
    pub fn new(seed: u64) -> (r: Self)
        ensures
            r@ == seed,
    {
        Self { value: seed }
    }

    /// Moves to the next state and returns its relevant bits.
    pub fn next(&mut self) -> (r: u32)
        ensures
            final(self)@ == next_state(old(self)@),
            r == relevant_bits(final(self)@),
            r < 0x8000_0000,
    {
        let wide: u128 = (MULTIPLIER as u128) * (self.value as u128) + (INCREMENT as u128);
        self.value = (wide % (MODULUS as u128)) as u64;
        compute_relevant_bits(self.value)
    }

    /// Moves to the next state and returns a number from `start` up to, not
    /// including, `end`.
    pub fn next_in_range(&mut self, start: usize, end: usize) -> (r: usize)
        requires
            start < end,
        ensures
            final(self)@ == next_state(old(self)@),
            r == start + relevant_bits(final(self)@) % (end - start),
            start <= r < end,
    {
        let range = end - start;
        let random_value = (self.next() as usize) % range;
        start + random_value
    }
}

} // verus!
