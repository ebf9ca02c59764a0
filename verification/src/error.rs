//! The ways in which a stage can refuse its input.

use vstd::prelude::*;

verus! {

/// Why a stage refused its input.
#[derive(Clone, Copy, Debug, PartialEq, Eq, Structural)]
pub enum IndexError {
    /// The pointer width is not between 1 and 8 bytes.
    WidthOutOfRange,
    /// An offset does not fit in a word of the chosen width.
    ValueTooWide,
    /// A table's length is not a whole number of words.
    RaggedTable,
    /// A byte range is empty, reversed, or reaches past the data.
    BadRange,
    /// The numbers of texts, tables and boundaries do not agree, or there is
    /// no part at all.
    PartCountMismatch,
    /// A part is not longer than the overlap it shares with the next one, or a
    /// table does not have one pointer for each byte of its part.
    BadPartLength,
    /// An end boundary lies behind the end of its table, or a pivot's index
    /// lies outside the first table.
    BadBoundary,
    /// A pointer that is needed as a pivot points outside its part.
    PointerOutOfRange,
    /// The pieces do not add up to the size that the headers announce.
    SizeMismatch,
}

} // verus!
