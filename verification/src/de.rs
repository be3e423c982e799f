//! Decoding values from bytes.

use vstd::prelude::*;

verus! {

/// Why some bytes are the encoding of no value of a type.
#[derive(Clone, Copy, Debug, PartialEq, Eq, Structural)]
pub enum DeserializeError {
    /// There are fewer bytes than the type needs.
    ExpectedFurtherInput { provided: usize, expected: usize },
    /// There are more bytes than the type takes.
    AdditionalInput { provided: usize, expected: usize },
    /// A byte has a value that the type does not use.
    InvalidByte(u8),
}

/// A type whose values can be read from their encoding.
pub trait Deserialize: Sized {
    /// The value that `encoding` encodes, or why it encodes none.
    spec fn decoding(encoding: Seq<u8>) -> Result<Self, DeserializeError>;

    /// Reads a value from the whole of `encoding`.
    fn deserialize(encoding: &[u8]) -> (value: Result<Self, DeserializeError>)
        ensures
            value == Self::decoding(encoding@),
    ;
}

} // verus!
