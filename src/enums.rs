use crate::cursor::Position;
use crate::piece::Piece;
use vstd::prelude::*;

verus! {

/// Which store a piece's bytes live in.
#[derive(Clone, Copy, Debug, PartialEq, Eq, Structural)]
pub enum BufferKind {
    Original,
    Add,
}

/// One entry of the piece table's own journal.
#[derive(Clone, Debug)]
pub enum Edit {
    /// Bytes `[start, end)` of the add buffer were inserted at document offset `pos`.
    Insert { pos: u64, start: u64, end: u64 },
    /// `len` bytes were removed at `pos`; `removed` holds exactly the pieces
    /// (or parts of pieces) that covered them, in order.
    Delete { pos: u64, len: u64, removed: Vec<Piece> },
}

/// One step of a user-level transaction, in row/column coordinates.
#[derive(Clone, Debug, PartialEq, Eq)]
pub enum EditAction {
    Insert { pos: Position, text: String },
    Delete { pos: Position, end: Position, text: String },
}

/// Failures of arithmetic on byte counts and indices.
#[derive(Clone, Copy, Debug, PartialEq, Eq, Structural)]
pub enum MathError {
    /// A value did not fit the narrower integer type.
    ConversionFailed,
    /// A checked addition or subtraction overflowed.
    Overflow,
    /// An index or offset lay past the end; holds the length it was checked against.
    OutOfBounds(usize),
}

} // verus!
