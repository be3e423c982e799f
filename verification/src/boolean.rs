//! The truth values: encoded as one byte, 0 or 1.

use crate::de::{Deserialize, DeserializeError};
use crate::merkleization::path::{GeneralizedIndexable, TypeShape};
use crate::merkleization::proofs::Prove;
use crate::merkleization::{
    bytes_root, merkleize_bytes, pack_bytes, packed_chunks, HashTreeRoot, MerkleizationError, Node,
};
use crate::ser::{Serialize, SerializeError};
use crate::{Serializable, SimpleSerialize};
use vstd::prelude::*;

verus! {

/// The byte that encodes a truth value.
pub open spec fn bool_byte(value: bool) -> u8 {
    if value {
        1
    } else {
        0
    }
}

/// The one byte of the encoding of a truth value.
fn encode(value: bool) -> (bytes: Vec<u8>)
    ensures
        bytes@ == seq![bool_byte(value)],
{
    let mut bytes: Vec<u8> = Vec::new();
    bytes.push(
        if value {
            1
        } else {
            0
        },
    );
    bytes
}

impl Serialize for bool {
    open spec fn encoding(&self) -> Result<Seq<u8>, SerializeError> {
        Ok(seq![bool_byte(*self)])
    }

    fn serialize(&self, buffer: &mut Vec<u8>) -> (written: Result<usize, SerializeError>) {
        buffer.push(
            if *self {
                1
            } else {
                0
            },
        );
        assert(buffer@ =~= old(buffer)@ + seq![bool_byte(*self)]);
        Ok(1)
    }
}

impl Deserialize for bool {
    open spec fn decoding(encoding: Seq<u8>) -> Result<Self, DeserializeError> {
        if encoding.len() < 1 {
            Err(DeserializeError::ExpectedFurtherInput { provided: 0, expected: 1 })
        } else if encoding.len() > 1 {
            Err(
                DeserializeError::AdditionalInput {
                    provided: encoding.len() as usize,
                    expected: 1,
                },
            )
        } else if encoding[0] == 0 {
            Ok(false)
        } else if encoding[0] == 1 {
            Ok(true)
        } else {
            Err(DeserializeError::InvalidByte(encoding[0]))
        }
    }

    fn deserialize(encoding: &[u8]) -> (value: Result<Self, DeserializeError>) {
        if encoding.len() < 1 {
            return Err(DeserializeError::ExpectedFurtherInput { provided: 0, expected: 1 });
        }
        if encoding.len() > 1 {
            return Err(DeserializeError::AdditionalInput { provided: encoding.len(), expected: 1 });
        }
        let byte = encoding[0];
        if byte == 0 {
            Ok(false)
        } else if byte == 1 {
            Ok(true)
        } else {
            Err(DeserializeError::InvalidByte(byte))
        }
    }
}

impl Serializable for bool {
    open spec fn variable_size() -> bool {
        false
    }

    open spec fn encoded_size() -> nat {
        1
    }

    fn is_variable_size() -> (variable: bool) {
        false
    }

    fn size_hint() -> (size: usize) {
        1
    }

    proof fn lemma_encoded_size(&self) {
    }
}

impl HashTreeRoot for bool {
    open spec fn tree_root(&self) -> Result<Seq<u8>, MerkleizationError> {
        Ok(bytes_root(seq![bool_byte(*self)]))
    }

    fn hash_tree_root(&self) -> (root: Result<Node, MerkleizationError>) {
        let bytes = encode(*self);
        Ok(merkleize_bytes(bytes.as_slice()))
    }
}

impl GeneralizedIndexable for bool {
    open spec fn shape_of() -> TypeShape {
        TypeShape::Basic { size: 1 }
    }

    fn shape() -> (shape: TypeShape) {
        TypeShape::Basic { size: 1 }
    }
}

impl Prove for bool {
    open spec fn chunk_row(&self) -> Result<Seq<Seq<u8>>, MerkleizationError> {
        Ok(packed_chunks(seq![bool_byte(*self)]))
    }

    fn chunks(&self) -> (chunks: Result<Vec<Node>, MerkleizationError>) {
        let bytes = encode(*self);
        Ok(pack_bytes(bytes.as_slice()))
    }
}

impl SimpleSerialize for bool {

}

} // verus!
