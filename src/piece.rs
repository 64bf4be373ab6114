use crate::enums::BufferKind;
use vstd::prelude::*;

verus! {

/// A span `[start, end)` of one of the two byte stores.
#[derive(Clone, Copy, Debug, PartialEq, Eq, Structural)]
pub struct Piece {
    pub buf_kind: BufferKind,
    pub start: u64,
    pub end: u64,
}

impl Piece {
    pub open spec fn spec_len(self) -> int {
        self.end - self.start
    }

    pub fn len(&self) -> (r: u64)
        requires
            self.start <= self.end,
        ensures
            r == self.spec_len(),
    {
        self.end - self.start
    }

    pub fn is_empty(&self) -> (r: bool)
        ensures
            r == (self.start == self.end),
    {
        self.start == self.end
    }
}

} // verus!
