use crate::enums::MathError;
use vstd::prelude::*;

verus! {

/// Failures of the text buffer.
#[derive(Clone, Copy, Debug, PartialEq, Eq, Structural)]
pub enum TextBufferError {
    /// The backing store for a new buffer could not be created.
    CreationError,
    /// A value did not fit the narrower integer type.
    ConversionError,
    /// A row, column or offset lay past the end of the document.
    IndexOutOfBounds(usize),
    /// A checked addition or subtraction overflowed.
    Overflow,
    /// A `(row, col)` pair does not name a place in the document.
    PositionToAbsIdxError,
    /// `save` was asked of a buffer with no file path.
    MissingPath,
}

pub type TextBufferResult<T> = Result<T, TextBufferError>;

impl TextBufferError {
    /// The buffer-level error for an arithmetic failure.
    pub fn from_math(e: MathError) -> (r: TextBufferError)
        ensures
            r == (match e {
                MathError::ConversionFailed => TextBufferError::ConversionError,
                MathError::Overflow => TextBufferError::Overflow,
                MathError::OutOfBounds(n) => TextBufferError::IndexOutOfBounds(n),
            }),
    {
        match e {
            MathError::ConversionFailed => TextBufferError::ConversionError,
            MathError::Overflow => TextBufferError::Overflow,
            MathError::OutOfBounds(n) => TextBufferError::IndexOutOfBounds(n),
        }
    }
}

} // verus!
