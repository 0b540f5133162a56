//! Huffman coding: frequency counting, tree construction, codeword
//! assignment, and encoding / decoding of symbol sequences as textual
//! bit-strings over `'0'` and `'1'`.

pub mod codec;
pub mod tree;

use vstd::prelude::*;

verus! {

/// Failures reported by the library.
#[derive(Debug, Clone, Copy, PartialEq, Eq, Structural)]
pub enum HuffmanError {
    /// A tree was requested for an empty input sequence.
    PreconditionError,
    /// A symbol to encode has no entry in the codebook.
    LookupError(char),
    /// No codeword of the codebook matches the remaining bit-string.
    DecodeError,
}

} // verus!
