//! The errors that the library reports.

use vstd::prelude::*;

verus! {

/// Why a tile could not be chosen.
#[derive(Debug, Clone, Copy, PartialEq, Eq, Structural)]
pub enum MosaicError {
    /// A match was asked of a palette that holds no tile.
    EmptyPalette,
}

impl MosaicError {
    /// The error in words, for the operator.
    pub fn message(&self) -> (text: &'static str)
        ensures
            *self == MosaicError::EmptyPalette ==> text@ == "the palette holds no tile to match"@,
    {
        match self {
            MosaicError::EmptyPalette => "the palette holds no tile to match",
        }
    }
}

} // verus!
