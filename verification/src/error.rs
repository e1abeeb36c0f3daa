//! The library's error type.

use vstd::prelude::*;

verus! {

/// Why a puzzle input could not be read or solved.
#[derive(Debug, Clone, Copy, PartialEq, Eq, Structural)]
pub enum AocError {
    /// The input does not have the shape the puzzle describes.
    InvalidInput,
    /// A number in the input is malformed or out of range.
    InvalidNumber,
    /// A thing the puzzle needs (a start, an end, a path) is not there.
    NotFound,
    /// An answer does not fit the machine's integers.
    Overflow,
}

} // verus!
