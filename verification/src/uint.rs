//! The unsigned integers of 8 to 64 bits: encoded as their bytes in
//! little-endian order.

use crate::de::{Deserialize, DeserializeError};
use crate::merkleization::path::{GeneralizedIndexable, TypeShape};
use crate::merkleization::proofs::Prove;
use crate::merkleization::generalized_index::{is_power_of_two, lemma_power_of_two_ceil};
use crate::merkleization::{
    byte_limit, bytes_root, le_byte, lemma_le_byte_of_zero, merkleize_bytes, pack_bytes,
    packed_chunks, padded_chunks, uint_chunk, HashTreeRoot, MerkleizationError, Node,
};
use crate::ser::{Serialize, SerializeError};
use crate::{Serializable, SimpleSerialize};
use vstd::prelude::*;

verus! {

/// The `width` low bytes of `value` in little-endian order.
pub open spec fn le_bytes(value: nat, width: nat) -> Seq<u8> {
    Seq::new(width, |i: int| le_byte(value, i))
}

/// The number that `bytes` are in little-endian order.
pub open spec fn le_value(bytes: Seq<u8>) -> nat
    decreases bytes.len(),
{
    if bytes.len() == 0 {
        0
    } else {
        bytes[0] as nat + 256 * le_value(bytes.drop_first())
    }
}

/// The number that `encoding` encodes in `width` bytes: it has to have
/// exactly that many.
pub open spec fn decoded_uint(encoding: Seq<u8>, width: nat) -> Result<nat, DeserializeError> {
    if encoding.len() < width {
        Err(
            DeserializeError::ExpectedFurtherInput {
                provided: encoding.len() as usize,
                expected: width as usize,
            },
        )
    } else if encoding.len() > width {
        Err(
            DeserializeError::AdditionalInput {
                provided: encoding.len() as usize,
                expected: width as usize,
            },
        )
    } else {
        Ok(le_value(encoding))
    }
}

/// Decoding undoes encoding: the bytes of a number that fits `width`
/// bytes are that number.
pub proof fn lemma_le_round_trip(value: nat, width: nat)
    requires
        value < byte_limit(width),
    ensures
        le_value(le_bytes(value, width)) == value,
        decoded_uint(le_bytes(value, width), width) == Ok::<nat, DeserializeError>(value),
    decreases width,
{
    if width > 0 {
        let rest = value / 256;
        lemma_le_round_trip(rest, (width - 1) as nat);
        assert(le_bytes(value, width).drop_first() =~= le_bytes(rest, (width - 1) as nat));
    }
}

/// The bytes of a number beyond its width are 0.
pub proof fn lemma_high_bytes_are_zero(value: nat, width: nat, i: int)
    requires
        value < byte_limit(width),
        i >= width,
    ensures
        le_byte(value, i) == 0,
    decreases width,
{
    if width == 0 {
        lemma_le_byte_of_zero(i);
    } else {
        lemma_high_bytes_are_zero(value / 256, (width - 1) as nat, i - 1);
    }
}

/// The root of a number of at most 32 bytes is its chunk: its encoding
/// fills one chunk, and a single chunk is its own root.
pub proof fn lemma_root_of_number(value: nat, width: nat)
    requires
        1 <= width <= 32,
        value < byte_limit(width),
    ensures
        packed_chunks(le_bytes(value, width)) == seq![uint_chunk(value)],
        bytes_root(le_bytes(value, width)) == uint_chunk(value),
{
    let bytes = le_bytes(value, width);
    let chunks = packed_chunks(bytes);
    assert forall|j: int| 0 <= j < 32 implies chunks[0][j] == uint_chunk(value)[j] by {
        if j >= width {
            lemma_high_bytes_are_zero(value, width, j);
        }
    }
    assert(chunks[0] =~= uint_chunk(value));
    assert(chunks =~= seq![uint_chunk(value)]);
    lemma_power_of_two_ceil(1);
    assert(is_power_of_two(1));
    assert(padded_chunks(chunks) =~= chunks);
}

/// Appends the `width` low bytes of `value` to `buffer`.
pub fn write_uint(value: u64, width: usize, buffer: &mut Vec<u8>)
    ensures
        final(buffer)@ == old(buffer)@ + le_bytes(value as nat, width as nat),
{
    let mut rest = value;
    let mut i: usize = 0;
    while i < width
        invariant
            i <= width,
            buffer@ == old(buffer)@ + le_bytes(value as nat, i as nat),
            forall|k: int|
                i <= k ==> #[trigger] le_byte(value as nat, k) == le_byte(rest as nat, k - i),
        decreases width - i,
    {
        proof {
            assert forall|k: int| i + 1 <= k implies #[trigger] le_byte(value as nat, k)
                == le_byte((rest / 256) as nat, k - (i + 1)) by {
                assert(le_byte(rest as nat, k - i) == le_byte((rest / 256) as nat, k - i - 1));
            }
            assert(le_byte(value as nat, i as int) == le_byte(rest as nat, 0));
            assert(le_bytes(value as nat, (i + 1) as nat) =~= le_bytes(value as nat, i as nat).push(
                (rest % 256) as u8,
            ));
        }
        buffer.push((rest % 256) as u8);
        rest = rest / 256;
        i += 1;
    }
}

/// Reads a number from `encoding`, which has to have exactly `width`
/// bytes.
pub fn read_uint(encoding: &[u8], width: usize) -> (value: Result<u64, DeserializeError>)
    requires
        width <= 8,
    ensures
        match value {
            Ok(number) => decoded_uint(encoding@, width as nat) == Ok::<nat, DeserializeError>(
                number as nat,
            ) && number < byte_limit(width as nat),
            Err(error) => decoded_uint(encoding@, width as nat) == Err::<nat, DeserializeError>(
                error,
            ),
        },
{
    if encoding.len() < width {
        return Err(
            DeserializeError::ExpectedFurtherInput { provided: encoding.len(), expected: width },
        );
    }
    if encoding.len() > width {
        return Err(DeserializeError::AdditionalInput { provided: encoding.len(), expected: width });
    }
    let mut number: u64 = 0;
    let mut i: usize = width;
    assert(encoding@.skip(width as int) =~= Seq::<u8>::empty());
    while i > 0
        invariant
            i <= width,
            width == encoding.len(),
            width <= 8,
            number == le_value(encoding@.skip(i as int)),
            number < byte_limit((width - i) as nat),
        decreases i,
    {
        proof {
            reveal_with_fuel(byte_limit, 9);
            assert(encoding@.skip(i as int - 1).drop_first() =~= encoding@.skip(i as int));
        }
        i -= 1;
        number = number * 256 + encoding[i] as u64;
    }
    assert(encoding@.skip(0) =~= encoding@);
    Ok(number)
}

impl Serialize for u8 {
    open spec fn encoding(&self) -> Result<Seq<u8>, SerializeError> {
        Ok(le_bytes(*self as nat, 1))
    }

    fn serialize(&self, buffer: &mut Vec<u8>) -> (written: Result<usize, SerializeError>) {
        write_uint(*self as u64, 1, buffer);
        Ok(1)
    }
}

impl Deserialize for u8 {
    open spec fn decoding(encoding: Seq<u8>) -> Result<Self, DeserializeError> {
        match decoded_uint(encoding, 1) {
            Ok(number) => Ok(number as u8),
            Err(error) => Err(error),
        }
    }

    fn deserialize(encoding: &[u8]) -> (value: Result<Self, DeserializeError>) {
        match read_uint(encoding, 1) {
            Ok(number) => {
                proof {
                    reveal_with_fuel(byte_limit, 9);
                }
                Ok(number as u8)
            },
            Err(error) => Err(error),
        }
    }
}

impl Serializable for u8 {
    open spec fn variable_size() -> bool {
        false
    }

    open spec fn encoded_size() -> nat {
        1
    }

    fn is_variable_size() -> (variable: bool) {
        false
    }

    fn size_hint() -> (size: usize) {
        1
    }

    proof fn lemma_encoded_size(&self) {
    }
}

impl HashTreeRoot for u8 {
    open spec fn tree_root(&self) -> Result<Seq<u8>, MerkleizationError> {
        Ok(bytes_root(le_bytes(*self as nat, 1)))
    }

    fn hash_tree_root(&self) -> (root: Result<Node, MerkleizationError>) {
        let mut bytes: Vec<u8> = Vec::new();
        write_uint(*self as u64, 1, &mut bytes);
        assert(bytes@ =~= le_bytes(*self as nat, 1));
        Ok(merkleize_bytes(bytes.as_slice()))
    }
}

impl GeneralizedIndexable for u8 {
    open spec fn shape_of() -> TypeShape {
        TypeShape::Basic { size: 1 }
    }

    fn shape() -> (shape: TypeShape) {
        TypeShape::Basic { size: 1 }
    }
}

impl Prove for u8 {
    open spec fn chunk_row(&self) -> Result<Seq<Seq<u8>>, MerkleizationError> {
        Ok(packed_chunks(le_bytes(*self as nat, 1)))
    }

    fn chunks(&self) -> (chunks: Result<Vec<Node>, MerkleizationError>) {
        let mut bytes: Vec<u8> = Vec::new();
        write_uint(*self as u64, 1, &mut bytes);
        assert(bytes@ =~= le_bytes(*self as nat, 1));
        Ok(pack_bytes(bytes.as_slice()))
    }
}

impl SimpleSerialize for u8 {

}

impl Serialize for u16 {
    open spec fn encoding(&self) -> Result<Seq<u8>, SerializeError> {
        Ok(le_bytes(*self as nat, 2))
    }

    fn serialize(&self, buffer: &mut Vec<u8>) -> (written: Result<usize, SerializeError>) {
        write_uint(*self as u64, 2, buffer);
        Ok(2)
    }
}

impl Deserialize for u16 {
    open spec fn decoding(encoding: Seq<u8>) -> Result<Self, DeserializeError> {
        match decoded_uint(encoding, 2) {
            Ok(number) => Ok(number as u16),
            Err(error) => Err(error),
        }
    }

    fn deserialize(encoding: &[u8]) -> (value: Result<Self, DeserializeError>) {
        match read_uint(encoding, 2) {
            Ok(number) => {
                proof {
                    reveal_with_fuel(byte_limit, 9);
                }
                Ok(number as u16)
            },
            Err(error) => Err(error),
        }
    }
}

impl Serializable for u16 {
    open spec fn variable_size() -> bool {
        false
    }

    open spec fn encoded_size() -> nat {
        2
    }

    fn is_variable_size() -> (variable: bool) {
        false
    }

    fn size_hint() -> (size: usize) {
        2
    }

    proof fn lemma_encoded_size(&self) {
    }
}

impl HashTreeRoot for u16 {
    open spec fn tree_root(&self) -> Result<Seq<u8>, MerkleizationError> {
        Ok(bytes_root(le_bytes(*self as nat, 2)))
    }

    fn hash_tree_root(&self) -> (root: Result<Node, MerkleizationError>) {
        let mut bytes: Vec<u8> = Vec::new();
        write_uint(*self as u64, 2, &mut bytes);
        assert(bytes@ =~= le_bytes(*self as nat, 2));
        Ok(merkleize_bytes(bytes.as_slice()))
    }
}

impl GeneralizedIndexable for u16 {
    open spec fn shape_of() -> TypeShape {
        TypeShape::Basic { size: 2 }
    }

    fn shape() -> (shape: TypeShape) {
        TypeShape::Basic { size: 2 }
    }
}

impl Prove for u16 {
    open spec fn chunk_row(&self) -> Result<Seq<Seq<u8>>, MerkleizationError> {
        Ok(packed_chunks(le_bytes(*self as nat, 2)))
    }

    fn chunks(&self) -> (chunks: Result<Vec<Node>, MerkleizationError>) {
        let mut bytes: Vec<u8> = Vec::new();
        write_uint(*self as u64, 2, &mut bytes);
        assert(bytes@ =~= le_bytes(*self as nat, 2));
        Ok(pack_bytes(bytes.as_slice()))
    }
}

impl SimpleSerialize for u16 {

}

impl Serialize for u32 {
    open spec fn encoding(&self) -> Result<Seq<u8>, SerializeError> {
        Ok(le_bytes(*self as nat, 4))
    }

    fn serialize(&self, buffer: &mut Vec<u8>) -> (written: Result<usize, SerializeError>) {
        write_uint(*self as u64, 4, buffer);
        Ok(4)
    }
}

impl Deserialize for u32 {
    open spec fn decoding(encoding: Seq<u8>) -> Result<Self, DeserializeError> {
        match decoded_uint(encoding, 4) {
            Ok(number) => Ok(number as u32),
            Err(error) => Err(error),
        }
    }

    fn deserialize(encoding: &[u8]) -> (value: Result<Self, DeserializeError>) {
        match read_uint(encoding, 4) {
            Ok(number) => {
                proof {
                    reveal_with_fuel(byte_limit, 9);
                }
                Ok(number as u32)
            },
            Err(error) => Err(error),
        }
    }
}

impl Serializable for u32 {
    open spec fn variable_size() -> bool {
        false
    }

    open spec fn encoded_size() -> nat {
        4
    }

    fn is_variable_size() -> (variable: bool) {
        false
    }

    fn size_hint() -> (size: usize) {
        4
    }

    proof fn lemma_encoded_size(&self) {
    }
}

impl HashTreeRoot for u32 {
    open spec fn tree_root(&self) -> Result<Seq<u8>, MerkleizationError> {
        Ok(bytes_root(le_bytes(*self as nat, 4)))
    }

    fn hash_tree_root(&self) -> (root: Result<Node, MerkleizationError>) {
        let mut bytes: Vec<u8> = Vec::new();
        write_uint(*self as u64, 4, &mut bytes);
        assert(bytes@ =~= le_bytes(*self as nat, 4));
        Ok(merkleize_bytes(bytes.as_slice()))
    }
}

impl GeneralizedIndexable for u32 {
    open spec fn shape_of() -> TypeShape {
        TypeShape::Basic { size: 4 }
    }

    fn shape() -> (shape: TypeShape) {
        TypeShape::Basic { size: 4 }
    }
}

impl Prove for u32 {
    open spec fn chunk_row(&self) -> Result<Seq<Seq<u8>>, MerkleizationError> {
        Ok(packed_chunks(le_bytes(*self as nat, 4)))
    }

    fn chunks(&self) -> (chunks: Result<Vec<Node>, MerkleizationError>) {
        let mut bytes: Vec<u8> = Vec::new();
        write_uint(*self as u64, 4, &mut bytes);
        assert(bytes@ =~= le_bytes(*self as nat, 4));
        Ok(pack_bytes(bytes.as_slice()))
    }
}

impl SimpleSerialize for u32 {

}

impl Serialize for u64 {
    open spec fn encoding(&self) -> Result<Seq<u8>, SerializeError> {
        Ok(le_bytes(*self as nat, 8))
    }

    fn serialize(&self, buffer: &mut Vec<u8>) -> (written: Result<usize, SerializeError>) {
        write_uint(*self as u64, 8, buffer);
        Ok(8)
    }
}

impl Deserialize for u64 {
    open spec fn decoding(encoding: Seq<u8>) -> Result<Self, DeserializeError> {
        match decoded_uint(encoding, 8) {
            Ok(number) => Ok(number as u64),
            Err(error) => Err(error),
        }
    }

    fn deserialize(encoding: &[u8]) -> (value: Result<Self, DeserializeError>) {
        match read_uint(encoding, 8) {
            Ok(number) => {
                proof {
                    reveal_with_fuel(byte_limit, 9);
                }
                Ok(number as u64)
            },
            Err(error) => Err(error),
        }
    }
}

impl Serializable for u64 {
    open spec fn variable_size() -> bool {
        false
    }

    open spec fn encoded_size() -> nat {
        8
    }

    fn is_variable_size() -> (variable: bool) {
        false
    }

    fn size_hint() -> (size: usize) {
        8
    }

    proof fn lemma_encoded_size(&self) {
    }
}

impl HashTreeRoot for u64 {
    open spec fn tree_root(&self) -> Result<Seq<u8>, MerkleizationError> {
        Ok(bytes_root(le_bytes(*self as nat, 8)))
    }

    fn hash_tree_root(&self) -> (root: Result<Node, MerkleizationError>) {
        let mut bytes: Vec<u8> = Vec::new();
        write_uint(*self as u64, 8, &mut bytes);
        assert(bytes@ =~= le_bytes(*self as nat, 8));
        Ok(merkleize_bytes(bytes.as_slice()))
    }
}

impl GeneralizedIndexable for u64 {
    open spec fn shape_of() -> TypeShape {
        TypeShape::Basic { size: 8 }
    }

    fn shape() -> (shape: TypeShape) {
        TypeShape::Basic { size: 8 }
    }
}

impl Prove for u64 {
    open spec fn chunk_row(&self) -> Result<Seq<Seq<u8>>, MerkleizationError> {
        Ok(packed_chunks(le_bytes(*self as nat, 8)))
    }

    fn chunks(&self) -> (chunks: Result<Vec<Node>, MerkleizationError>) {
        let mut bytes: Vec<u8> = Vec::new();
        write_uint(*self as u64, 8, &mut bytes);
        assert(bytes@ =~= le_bytes(*self as nat, 8));
        Ok(pack_bytes(bytes.as_slice()))
    }
}

impl SimpleSerialize for u64 {

}

} // verus!
