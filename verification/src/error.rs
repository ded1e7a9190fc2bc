use vstd::prelude::*;

verus! {

/// Why a compressed stream was rejected.
#[derive(Clone, Copy, Debug, PartialEq, Eq, Structural)]
pub enum InflateError {
    /// The input ended in the middle of a bit field, a symbol or a block.
    UnexpectedEnd,
    /// A block header carries the reserved block type `11`.
    InvalidBlockType,
    /// The length of a stored block and its one's complement do not match.
    CorruptStoredLength,
    /// The bits at hand are no code of the Huffman code in force.
    InvalidCode,
    /// A repeat of the previous code length stands where no length precedes it.
    InvalidCodeLengthRepeat,
    /// A run of code lengths reaches past the number of lengths announced.
    CodeLengthOverrun,
    /// One of the two distance symbols that stand for no distance.
    InvalidDistanceCode,
    /// A back-reference reaches behind the first byte of the output.
    DistanceOutOfRange,
    /// A length symbol in a block that declares no distance code.
    MissingDistanceTable,
}

} // verus!
