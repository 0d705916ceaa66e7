use vstd::prelude::*;

verus! {

/// Everything that can go wrong while reading, writing or re-encoding a stream.
#[derive(Clone, Copy, Debug, PartialEq, Eq, Structural)]
pub enum Error {
    /// The input ended before the value being read was complete.
    UnexpectedEof,
    /// A bit that pads a byte to its end was set.
    NonZeroPadding,
    /// The length of a stored block does not match its one's complement.
    LengthCheckFailed,
    /// Data too long to be stored in one length-prefixed run.
    DataTooLong,
    /// The block type `3` is reserved.
    ReservedBlockType,
    /// A length symbol was seen, but the block has no distance tree.
    NoDistanceTable,
    /// A run-length symbol outside `257..=287` was handed to the run-length decoder.
    RunSymbolOutOfRange,
    /// The run-length symbols `286` and `287` are reserved.
    ReservedRunSymbol,
    /// A distance symbol above `31`.
    InvalidDistanceSymbol,
    /// The distance symbols `30` and `31` are reserved.
    ReservedDistanceSymbol,
    /// A decoded distance outside `1..=32786`.
    InvalidDistance,
    /// Fewer than two code lengths.
    TooFewLengths,
    /// More code lengths than symbols can be numbered.
    TooManyLengths,
    /// Code lengths that do not pair up into a tree.
    NotATree,
    /// Code lengths that leave more than one root.
    NonCanonicalCode,
    /// A repeat-previous code-length symbol with nothing to repeat.
    NoValueToCopy,
    /// The run-length encoding of the code lengths is in an impossible state.
    InvalidState,
    /// A run of code lengths extends past the number of codes.
    RunExceedsCodes,
    /// A literal that the tree has no code for.
    InvalidLiteral,
    /// A back-reference, but there is no distance tree to encode it with.
    ReferenceWithoutDistanceTree,
    /// A back-reference that reaches outside the dictionary.
    DistanceOutOfRange,
    /// The gzip magic number is wrong.
    InvalidMagic,
    /// The gzip compression method is not deflate.
    UnsupportedMethod,
    /// Reserved gzip flag bits are set.
    ReservedFlags,
    /// A reference among the codes could not be found among the candidates.
    ReferenceNotFound,
    /// The deflate stream could not be decompressed.
    InvalidDeflate,
    /// The stream decompresses to nothing, so there is nothing to store.
    NothingToStore,
}

} // verus!
