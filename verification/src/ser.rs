//! Encoding values to bytes.

use vstd::prelude::*;

verus! {

/// Why a value has no encoding.
#[derive(Clone, Copy, Debug, PartialEq, Eq, Structural)]
pub enum SerializeError {
    /// The encoding would be longer than an offset can say; the length it
    /// would have is given.
    MaximumEncodedLengthExceeded(usize),
}

/// A type whose values have an encoding.
pub trait Serialize {
    /// The encoding of the value, or why it has none.
    spec fn encoding(&self) -> Result<Seq<u8>, SerializeError>;

    /// Appends the encoding of the value to `buffer` and returns the
    /// number of bytes appended.
    fn serialize(&self, buffer: &mut Vec<u8>) -> (written: Result<usize, SerializeError>)
        ensures
            match written {
                Ok(length) => self.encoding() is Ok && final(buffer)@ == old(buffer)@
                    + self.encoding()->Ok_0 && length == self.encoding()->Ok_0.len(),
                Err(error) => self.encoding() == Err::<Seq<u8>, SerializeError>(error),
            },
    ;
}

} // verus!
