//! The ways in which compression can fail.

use vstd::prelude::*;

verus! {

/// The rule of the token stream that an input to the emitter broke.
#[derive(Clone, Copy, Debug, PartialEq, Eq)]
pub enum Violation {
    /// A match length outside `3..=258`.
    LengthOutOfRange,
    /// A match distance outside `1..=32768`.
    DistanceOutOfRange,
    /// A symbol that the block's Huffman code gives no code word.
    SymbolWithoutCode,
}

/// An error of the compressor. Every error is fatal to the call that
/// returned it.
#[derive(Clone, Copy, Debug, PartialEq, Eq)]
pub enum DeflateError {
    /// A vector of code lengths that is over-full or holds a length above 15.
    InvalidCodeLengths,
    /// A token or a block that breaks a rule of the format.
    InternalInvariant(Violation),
}

} // verus!
