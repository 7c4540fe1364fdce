//! Sequence numbers: the position of a byte in the logical byte stream.
use vstd::prelude::*;

verus! {

/// The offset of a byte within the logical byte stream.
#[derive(Clone, Copy, Debug, PartialEq, Eq, Structural)]
pub struct Sequence {
    value: u64,
}

impl View for Sequence {
    type V = u64;

    closed spec fn view(&self) -> u64 {
        self.value
    }
}

impl Sequence {
    /// The sequence number of the byte at offset `value`.
    pub fn new(value: u64) -> (s: Self)
        ensures
            s@ == value,
    {
        Sequence { value }
    }

    /// The raw offset.
    pub fn inner(&self) -> (value: u64)
        ensures
            value == self@,
    {
        self.value
    }
}

/// Two sequence numbers with the same offset are the same sequence number.
pub proof fn lemma_sequence_by_offset(a: Sequence, b: Sequence)
    requires
        a@ == b@,
    ensures
        a == b,
{
}

} // verus!
