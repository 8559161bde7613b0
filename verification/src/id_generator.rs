//! Monotonic issuers of unique integers.
//!
//! Two independent issuers are used per instance: one numbers the segments of
//! the precedence graph from 0, the other numbers propositional literals
//! from 1, because literal 0 terminates a clause on the wire.

use vstd::prelude::*;

verus! {

/// Issues consecutive integers; the field is the next integer to hand out.
pub struct IdGenerator(pub usize);

impl IdGenerator {
    /// Hands out the next integer and moves the issuer one step forward.
    pub fn next_id(&mut self) -> (id: usize)
        requires
            old(self).0 < usize::MAX,
        ensures
            id == old(self).0,
            final(self).0 == old(self).0 + 1,
    {
        let res = self.0;
        self.0 = self.0 + 1;
        res
    }

    /// An issuer for literal ids: the first id is 1.
    pub fn generator_for_sat() -> (generator: Self)
        ensures
            generator.0 == 1,
    {
        IdGenerator(1)
    }

    /// An issuer for segment ids: the first id is 0.
    pub fn generator_for_segment() -> (generator: Self)
        ensures
            generator.0 == 0,
    {
        IdGenerator(0)
    }

    /// The integer handed out most recently.
    pub fn current_asignment(&self) -> (last: usize)
        requires
            self.0 >= 1,
        ensures
            last == self.0 - 1,
    {
        self.0 - 1
    }

    /// Makes `num` the most recently issued integer, so that the next one is
    /// `num + 1`.
    pub fn new_current(&mut self, num: usize)
        requires
            num < usize::MAX,
        ensures
            final(self).0 == num + 1,
    {
        self.0 = num + 1;
    }
}

} // verus!
