//! Monotonic sequence number generation.

use vstd::prelude::*;

verus! {

/// A monotonically increasing sequence number generator.
#[derive(Debug, Clone, Copy)]
pub struct SequenceGenerator {
    current: u64,
}

impl View for SequenceGenerator {
    type V = u64;

    /// The next sequence number the generator hands out.
    closed spec fn view(&self) -> u64 {
        self.current
    }
}

impl SequenceGenerator {
    /// Create a new sequence generator starting at 0.
    pub fn new() -> (generator: Self)
        ensures
            generator@ == 0,
    {
        SequenceGenerator { current: 0 }
    }

    /// Create a generator starting at a specific value.
    pub fn starting_at(start: u64) -> (generator: Self)
        ensures
            generator@ == start,
    {
        SequenceGenerator { current: start }
    }

    /// Generate the next sequence number.
    ///
    /// The counter cannot step past `u64::MAX`.
    #[allow(clippy::should_implement_trait)]
    pub fn next(&mut self) -> (seq: u64)
        requires
            old(self)@ < u64::MAX,
        ensures
            seq == old(self)@,
            final(self)@ == old(self)@ + 1,
    {
        let seq = self.current;
        self.current = self.current + 1;
        seq
    }

    /// Get the current sequence number (the next one to be generated).
    pub fn current(&self) -> (value: u64)
        ensures
            value == self@,
    {
        self.current
    }

    /// Reset to a specific value (e.g., after recovery).
    pub fn reset_to(&mut self, value: u64)
        ensures
            final(self)@ == value,
    {
        self.current = value;
    }

    /// Peek at the next value without advancing.
    pub fn peek(&self) -> (value: u64)
        ensures
            value == self@,
    {
        self.current
    }
}

impl Default for SequenceGenerator {
    fn default() -> (generator: Self)
        ensures
            generator@ == 0,
    {
        Self::new()
    }
}

} // verus!
