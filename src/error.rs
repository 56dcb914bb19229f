//! Errors of the codec.
use vstd::prelude::*;

verus! {

/// The ways in which compression or decompression can fail.
#[derive(Debug, Clone, Copy, PartialEq, Eq, Structural)]
pub enum TampError {
    /// Window or literal size out of range, or a dictionary of the wrong length.
    InvalidParameter,
    /// An input byte has bits set above the literal size.
    ExcessBits,
    /// The header has the reserved or the "more header bytes" bit set.
    UnsupportedHeader,
    /// The stream was made with a custom dictionary and none was given.
    DictionaryRequired,
    /// The source ended in the middle of a field.
    UnexpectedEndOfStream,
    /// Eight bits were read without matching a length code.
    MalformedCode,
    /// Decompressed text is not valid UTF-8.
    InvalidText,
}

} // verus!
