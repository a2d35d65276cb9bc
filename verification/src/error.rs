//! Errors of the bit stream and of the decoders.

use vstd::prelude::*;

verus! {

/// Failure of a read from a bit stream.
#[derive(Clone, Copy, Debug, PartialEq, Eq, Structural)]
pub enum StreamError {
    /// Fewer bits remain in the stream than were asked for.
    UnexpectedEndOfStream,
}

/// Reason for which a decoder rejects its input.  Every one is fatal for the
/// whole call: nothing is returned besides the error.
#[derive(Clone, Copy, Debug, PartialEq, Eq, Structural)]
pub enum FormatError {
    /// The frequency table at the head of a Huffman file is cut short, or
    /// its counts do not add up to the recorded total.
    CorruptHeader,
    /// The primary index of a block is not a position inside the block.
    PrimaryIndexOutOfRange,
    /// A codeword names an entry that the dictionary cannot hold yet, or a
    /// bit leads to a child that the tree does not have.
    CodeOutOfRange,
    /// The bit stream ends in the middle of a symbol.
    TruncatedStream,
}

} // verus!
