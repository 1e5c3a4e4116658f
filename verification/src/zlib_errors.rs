//! Error taxonomy of the decoder. Every failure aborts the decode and is
//! reported to the caller through one of these variants.

use vstd::prelude::*;

verus! {

/// Errors raised while decoding the DEFLATE payload inside the container.
#[derive(Debug, Clone, Copy, PartialEq, Eq, Structural)]
pub enum InflateError {
    /// A stored block whose NLEN field is not the bitwise complement of LEN.
    FailedNLenCheck,
    /// A block with the reserved type `0b11`.
    UnsupportedMethod { method: u8 },
    /// A read past the end of the input buffer.
    UnexpectedEof,
    /// Huffman tree construction found no free slot at the required depth.
    OversubscribedCode,
    /// A Huffman descent reached a branch with no child on the chosen side.
    InvalidHuffmanCode,
    /// A code-length repeat with no previous length, or a run past the
    /// end of the alphabet.
    InvalidCodeLengthRun,
    /// A back-reference whose distance exceeds the output written so far,
    /// or a distance symbol outside the distance table.
    DistanceOutOfRange,
    /// A length symbol (286 or 287) with no entry in the length table.
    LengthCodeOutOfRange,
}

/// Errors raised by the container envelope around the DEFLATE payload.
#[derive(Debug, Clone, Copy, PartialEq, Eq, Structural)]
pub enum ZlibError {
    /// CM is not 8 or CINFO is not 7.
    InvalidZlibHeader { expected: u8, found: u8 },
    /// The two header bytes fail the mod-31 check.
    ZlibCorrupted,
    /// The header asks for a feature this decoder does not support
    /// (the preset-dictionary flag).
    UnsupportedZlibAction,
    /// The Adler-32 of the decoded output differs from the trailer.
    ZlibChecksumMissmatch,
    /// After the final block the stream does not hold exactly the four
    /// trailer bytes; `left` is how many bytes remain beyond those four
    /// (zero when the trailer itself is truncated).
    ZlibStreamNotConsumed { left: usize },
    /// A failure inside the block decoder.
    Inflate(InflateError),
}

} // verus!
