//! Identifiers and last-writer-wins values of the v6 stream.

use vstd::prelude::*;

verus! {

/// An identifier of the text CRDT: the author, and the slot the author gave.
#[derive(Debug, Clone, Copy, PartialEq, Eq, Structural)]
pub struct CrdtId {
    pub part1: u8,
    pub part2: u64,
}

impl CrdtId {
    /// The identifier of nothing.
    pub fn zero() -> (r: CrdtId)
        ensures
            r == (CrdtId { part1: 0, part2: 0 }),
    {
        CrdtId { part1: 0, part2: 0 }
    }
}

/// A value with the identifier of the write that set it.
#[derive(Debug, Clone, Copy, PartialEq, Eq)]
pub struct LwwValue<T> {
    pub timestamp: CrdtId,
    pub value: T,
}

} // verus!
