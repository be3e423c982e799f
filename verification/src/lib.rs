//! Merkleization and Merkle proofs for the SSZ ("simple serialize") scheme:
//! hash tree roots over 32-byte chunks, generalized indices, and proofs for
//! one leaf or several leaves against a root.

pub mod boolean;
pub mod de;
pub mod merkleization;
pub mod prelude;
pub mod ser;
pub mod uint;

pub use crate::de::{Deserialize, DeserializeError};
pub use crate::merkleization::generalized_index::{default_generalized_index, GeneralizedIndex};
pub use crate::merkleization::multiproofs;
pub use crate::merkleization::path::{Field, GeneralizedIndexable, PathElement, TypeShape};
pub use crate::merkleization::proofs::{self, Prove, Tree};
pub use crate::merkleization::{HashTreeRoot, MerkleizationError, Node};
pub use crate::ser::{Serialize, SerializeError};
use vstd::prelude::*;

verus! {

/// A type whose values are encoded and decoded by the SSZ rules.
pub trait Serializable: Serialize + Deserialize {
    /// Whether encodings of values of this type differ in length.
    spec fn variable_size() -> bool;

    /// The length of every encoding of a type of fixed size; 0 for a type
    /// of variable size.
    spec fn encoded_size() -> nat;

    /// Whether this type is of variable size.
    fn is_variable_size() -> (variable: bool)
        ensures
            variable == Self::variable_size(),
    ;

    /// The number of bytes that an encoding of this type is expected to
    /// have, or 0 if that is not known ahead of time.
    fn size_hint() -> (size: usize)
        ensures
            size == Self::encoded_size(),
    ;

    /// Every encoding of a type of fixed size has the encoded size.
    proof fn lemma_encoded_size(&self)
        ensures
            !Self::variable_size() && self.encoding() is Ok ==> self.encoding()->Ok_0.len()
                == Self::encoded_size(),
    ;
}

/// A type that conforms to SSZ: its values are encoded and decoded, and
/// they have a hash tree root, generalized indices and proofs.
pub trait SimpleSerialize: Serializable + HashTreeRoot + GeneralizedIndexable + Prove {

}

/// Encodes `value` into a new vector of bytes.
pub fn serialize<T>(value: &T) -> (encoding: Result<Vec<u8>, SerializeError>) where
    T: Serializable,

    ensures
        match encoding {
            Ok(bytes) => value.encoding() == Ok::<Seq<u8>, SerializeError>(bytes@),
            Err(error) => value.encoding() == Err::<Seq<u8>, SerializeError>(error),
        },
{
    let mut result: Vec<u8> = Vec::new();
    match value.serialize(&mut result) {
        Ok(_) => {
            assert(result@ =~= value.encoding()->Ok_0);
            Ok(result)
        },
        Err(error) => Err(error),
    }
}

/// Decodes a value of the type `T` from the whole of `encoding`.
pub fn deserialize<T>(encoding: &[u8]) -> (value: Result<T, DeserializeError>) where
    T: Serializable,

    ensures
        value == T::decoding(encoding@),
{
    T::deserialize(encoding)
}

} // verus!
