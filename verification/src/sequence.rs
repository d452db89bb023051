use vstd::prelude::*;

verus! {

/// The counter that hands out record identifiers, each one more than the last.
pub struct Sequence {
    value: u64,
}

impl View for Sequence {
    type V = u64;

    /// The identifier handed out last, or 0 when none was.
    closed spec fn view(&self) -> u64 {
        self.value
    }
}

impl Sequence {
    /// A counter that has handed out nothing yet.
    pub fn new() -> (seq: Sequence)
        ensures
            seq@ == 0,
    {
        Sequence { value: 0 }
    }

    /// A counter that goes on after `last`, the identifier handed out last.
    pub fn resume(last: u64) -> (seq: Sequence)
        ensures
            seq@ == last,
    {
        Sequence { value: last }
    }

    /// The identifier handed out last, or 0 when none was.
    pub fn last(&self) -> (value: u64)
        ensures
            value == self@,
    {
        self.value
    }

    /// Whether every identifier has been handed out, so that `next` cannot be called.
    pub fn is_exhausted(&self) -> (full: bool)
        ensures
            full == (self@ == u64::MAX),
    {
        self.value == u64::MAX
    }

    /// Hands out the next identifier and remembers it.
    pub fn next(&mut self) -> (id: u64)
        requires
            old(self)@ < u64::MAX,
        ensures
            id == old(self)@ + 1,
            final(self)@ == id,
    {
        self.value = self.value + 1;
        self.value
    }
}

} // verus!
