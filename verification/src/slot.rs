//! Positions inside an arena.

use vstd::prelude::*;

verus! {

/// The position of one object: the chunk that holds it and its index there.
///
/// A position plays the part of an address. It is fixed when the object is
/// placed and stays meaningful for as long as the arena lives.
#[derive(Clone, Copy, Debug, PartialEq, Eq, Hash, Structural)]
pub struct Slot {
    pub chunk: usize,
    pub offset: usize,
}

/// A run of `len` neighbouring positions inside one chunk.
#[derive(Clone, Copy, Debug, PartialEq, Eq, Hash, Structural)]
pub struct Span {
    pub chunk: usize,
    pub offset: usize,
    pub len: usize,
}

impl Span {
    /// Whether `slot` is one of the positions of this run.
    pub open spec fn covers(self, slot: Slot) -> bool {
        &&& slot.chunk == self.chunk
        &&& self.offset <= slot.offset < self.offset + self.len
    }

    /// The first position of the run.
    pub open spec fn start(self) -> Slot {
        Slot { chunk: self.chunk, offset: self.offset }
    }

    /// The position `i` places behind the first.
    pub open spec fn nth(self, i: int) -> Slot {
        Slot { chunk: self.chunk, offset: (self.offset + i) as usize }
    }

    /// The position of the `i`-th object of the run: `None` exactly when the
    /// run has no such object or its position cannot be written down.
    pub fn slot(&self, i: usize) -> (found: Option<Slot>)
        ensures
            found.is_some() <==> i < self.len && self.offset + i <= usize::MAX,
            found.is_some() ==> found.unwrap() == self.nth(i as int) && self.covers(found.unwrap()),
    {
        if i < self.len {
            match self.offset.checked_add(i) {
                Some(offset) => Some(Slot { chunk: self.chunk, offset }),
                None => None,
            }
        } else {
            None
        }
    }
}

} // verus!
