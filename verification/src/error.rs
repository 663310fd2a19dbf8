use vstd::prelude::*;

verus! {

/// Why a column could not be written or read.
#[derive(Debug, Clone, Copy, PartialEq, Eq, Structural)]
pub enum CodecError {
    /// A value lies outside the compact space that it was to be written in.
    ValueNotCovered,
    /// The bytes end inside a variable-length number.
    TruncatedVInt,
    /// The bytes end inside a number of fixed length.
    UnexpectedEof,
    /// The bytes hold a number that is out of range where it stands.
    Malformed,
}

} // verus!
