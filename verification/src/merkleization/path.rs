//! Paths into a value, and the generalized index that a path leads to.

use super::generalized_index::{
    get_power_of_two_ceil, is_power_of_two, lemma_power_of_two_ceil,
    lemma_powers_of_two_are_spread, power_of_two_ceil, GeneralizedIndex,
};
use super::MerkleizationError;
use vstd::prelude::*;

verus! {

/// One step of a path into a value.
#[derive(Debug, PartialEq, Eq)]
pub enum PathElement {
    /// The element of a vector, a list or a bit collection at a position.
    Index(usize),
    /// The field of a container with a name.
    Field(String),
    /// The length of a list or of a bit list.
    Length,
}

/// A field of a container.
#[derive(Debug)]
pub struct Field {
    pub name: String,
    pub shape: TypeShape,
}

/// The shape of a type, as far as its tree depends on it.
#[derive(Debug)]
pub enum TypeShape {
    /// A basic value of `size` bytes, where `size` divides 32.
    Basic { size: usize },
    /// `length` bits.
    Bitvector { length: usize },
    /// At most `limit` bits, with the number of bits mixed in.
    Bitlist { limit: usize },
    /// The fields of a container, in order.
    Container { fields: Vec<Field> },
    /// `length` elements of one shape.
    Vector { element: Box<TypeShape>, length: usize },
    /// At most `limit` elements of one shape, with their number mixed in.
    List { element: Box<TypeShape>, limit: usize },
}

/// A type whose tree has a known shape, so that paths into its values
/// lead to generalized indices.
pub trait GeneralizedIndexable {
    /// The shape of the type.
    spec fn shape_of() -> TypeShape;

    /// Describes the shape of the type.
    fn shape() -> (shape: TypeShape)
        ensures
            shape == Self::shape_of(),
    ;
}

/// How many elements of a shape one chunk holds: several basic values, or
/// the root of one composite value.
pub open spec fn items_per_chunk_of(element: TypeShape) -> nat {
    match element {
        TypeShape::Basic { size } => if 1 <= size <= 32 {
            (32int / size as int) as nat
        } else {
            1
        },
        _ => 1,
    }
}

/// How many chunks `count` elements of a shape fill.
pub open spec fn chunks_for(element: TypeShape, count: nat) -> nat {
    let per_chunk = items_per_chunk_of(element);
    if count % per_chunk == 0 {
        count / per_chunk
    } else {
        count / per_chunk + 1
    }
}

/// How many chunks `count` bits fill.
pub open spec fn chunks_for_bits(count: nat) -> nat {
    if count % 256 == 0 {
        count / 256
    } else {
        count / 256 + 1
    }
}

/// The number of chunks in the lowest row of the tree of a shape, before
/// padding.
pub open spec fn chunk_count_of(shape: TypeShape) -> nat {
    match shape {
        TypeShape::Basic { .. } => 1,
        TypeShape::Bitvector { length } => chunks_for_bits(length as nat),
        TypeShape::Bitlist { limit } => chunks_for_bits(limit as nat),
        TypeShape::Container { fields } => fields@.len(),
        TypeShape::Vector { element, length } => chunks_for(*element, length as nat),
        TypeShape::List { element, limit } => chunks_for(*element, limit as nat),
    }
}

/// Whether the root of a shape has a length mixed in, so that its data
/// tree hangs one level lower, beside the length.
pub open spec fn mixes_in_length(shape: TypeShape) -> bool {
    shape is List || shape is Bitlist
}

/// Whether `i` is the position of the first field with the name `name`.
pub open spec fn is_field_position(fields: Seq<Field>, name: Seq<char>, i: int) -> bool {
    &&& 0 <= i < fields.len()
    &&& fields[i].name@ == name
    &&& forall|j: int| 0 <= j < i ==> (#[trigger] fields[j]).name@ != name
}

/// The shape of a single bit: a truth value of one byte.
pub open spec fn bit_shape() -> TypeShape {
    TypeShape::Basic { size: 1 }
}

/// The shape of a length: a number of 8 bytes.
pub open spec fn length_shape() -> TypeShape {
    TypeShape::Basic { size: 8 }
}

/// The child of a shape that a selector names: the chunk in which it
/// starts, and its shape. `None` where the shape has no such child.
pub open spec fn child_of(shape: TypeShape, selector: PathElement) -> Option<(nat, TypeShape)> {
    match (shape, selector) {
        (TypeShape::Container { fields }, PathElement::Field(name)) => {
            if exists|i: int| is_field_position(fields@, name@, i) {
                let i = choose|i: int| is_field_position(fields@, name@, i);
                Some((i as nat, fields@[i].shape))
            } else {
                None
            }
        },
        (TypeShape::Vector { element, length }, PathElement::Index(i)) => {
            if i < length {
                Some((i as nat / items_per_chunk_of(*element), *element))
            } else {
                None
            }
        },
        (TypeShape::List { element, limit }, PathElement::Index(i)) => {
            if i < limit {
                Some((i as nat / items_per_chunk_of(*element), *element))
            } else {
                None
            }
        },
        (TypeShape::Bitvector { length }, PathElement::Index(i)) => {
            if i < length {
                Some((i as nat / 256, bit_shape()))
            } else {
                None
            }
        },
        (TypeShape::Bitlist { limit }, PathElement::Index(i)) => {
            if i < limit {
                Some((i as nat / 256, bit_shape()))
            } else {
                None
            }
        },
        _ => None,
    }
}

/// The generalized index that `path` leads to from the node `parent` of a
/// value of the shape `shape`. Each step goes down to the row of the
/// chunks, which is as deep as the padded chunk count asks and one level
/// deeper where a length is mixed in, and there to the chunk of the child;
/// the length itself is the right child. A selector that names no child is
/// refused, and so is an index that does not fit the machine word.
pub open spec fn resolve(shape: TypeShape, path: Seq<PathElement>, parent: usize) -> Result<
    usize,
    MerkleizationError,
>
    decreases path.len(),
{
    if path.len() == 0 {
        Ok(parent)
    } else if path[0] is Length {
        if !mixes_in_length(shape) {
            Err(MerkleizationError::PathResolutionError)
        } else if 2 * parent + 1 > usize::MAX {
            Err(MerkleizationError::InvalidGeneralizedIndex)
        } else {
            resolve(length_shape(), path.drop_first(), (2 * parent + 1) as usize)
        }
    } else {
        match child_of(shape, path[0]) {
            None => Err(MerkleizationError::PathResolutionError),
            Some((position, child)) => {
                let base: nat = if mixes_in_length(shape) {
                    2
                } else {
                    1
                };
                let index = parent * base * power_of_two_ceil(chunk_count_of(shape)) + position;
                if index > usize::MAX {
                    Err(MerkleizationError::InvalidGeneralizedIndex)
                } else {
                    resolve(child, path.drop_first(), index as usize)
                }
            },
        }
    }
}

/// The generalized index that `path` leads to from the root of a value of
/// the shape `shape`.
pub open spec fn generalized_index_of(shape: TypeShape, path: Seq<PathElement>) -> Result<
    usize,
    MerkleizationError,
> {
    resolve(shape, path, 1)
}

/// How many elements of a shape one chunk holds.
pub fn items_per_chunk(element: &TypeShape) -> (count: usize)
    ensures
        count == items_per_chunk_of(*element),
        1 <= count <= 32,
{
    match element {
        TypeShape::Basic { size } => {
            if 1 <= *size && *size <= 32 {
                assert(1 <= 32usize / *size <= 32) by (nonlinear_arith)
                    requires
                        1 <= *size <= 32,
                ;
                32 / *size
            } else {
                1
            }
        },
        _ => 1,
    }
}

/// `count` divided by `per_chunk`, rounded up.
fn chunks_needed(count: usize, per_chunk: usize) -> (chunks: usize)
    requires
        per_chunk >= 1,
    ensures
        chunks == if count % per_chunk == 0 {
            count as int / per_chunk as int
        } else {
            count as int / per_chunk as int + 1
        },
        chunks <= count,
{
    if count % per_chunk == 0 {
        count / per_chunk
    } else {
        assert(count / per_chunk < count) by (nonlinear_arith)
            requires
                count % per_chunk != 0,
                per_chunk >= 1,
        ;
        count / per_chunk + 1
    }
}

/// The number of chunks in the lowest row of the tree of a shape.
pub fn chunk_count(shape: &TypeShape) -> (count: usize)
    ensures
        count == chunk_count_of(*shape),
{
    match shape {
        TypeShape::Basic { .. } => 1,
        TypeShape::Bitvector { length } => chunks_needed(*length, 256),
        TypeShape::Bitlist { limit } => chunks_needed(*limit, 256),
        TypeShape::Container { fields } => fields.len(),
        TypeShape::Vector { element, length } => chunks_needed(*length, items_per_chunk(element)),
        TypeShape::List { element, limit } => chunks_needed(*limit, items_per_chunk(element)),
    }
}

/// The position of the first field with the name `name`.
fn find_field(fields: &Vec<Field>, name: &String) -> (position: Option<usize>)
    ensures
        match position {
            Some(i) => is_field_position(fields@, name@, i as int),
            None => !exists|i: int| is_field_position(fields@, name@, i),
        },
{
    let mut i: usize = 0;
    while i < fields.len()
        invariant
            i <= fields.len(),
            forall|j: int| 0 <= j < i ==> (#[trigger] fields@[j]).name@ != name@,
        decreases fields.len() - i,
    {
        if fields[i].name == *name {
            return Some(i);
        }
        i += 1;
    }
    None
}

/// The first number that does not fit the machine word is a power of two.
proof fn lemma_word_limit_is_power_of_two()
    ensures
        is_power_of_two((usize::MAX + 1) as nat),
{
    assert(usize::MAX == 0xffff_ffff || usize::MAX == 0xffff_ffff_ffff_ffff);
    reveal_with_fuel(is_power_of_two, 65);
}

/// The index of the chunk at `position` in the chunk row of a shape whose
/// root is at `parent`, where it fits the machine word.
fn descend(shape: &TypeShape, parent: GeneralizedIndex, position: usize) -> (index: Option<
    GeneralizedIndex,
>)
    ensures
        ({
            let base: nat = if mixes_in_length(*shape) {
                2
            } else {
                1
            };
            let below = parent * base * power_of_two_ceil(chunk_count_of(*shape)) + position;
            match index {
                Some(child) => child == below,
                None => below > usize::MAX,
            }
        }),
{
    let count = chunk_count(shape);
    let base: usize = match shape {
        TypeShape::List { .. } => 2,
        TypeShape::Bitlist { .. } => 2,
        _ => 1,
    };
    proof {
        lemma_power_of_two_ceil(count as nat);
    }
    if parent == 0 {
        assert(parent * base * power_of_two_ceil(count as nat) == 0) by (nonlinear_arith)
            requires
                parent == 0,
        ;
        return Some(position);
    }
    if count > usize::MAX / 2 + 1 {
        proof {
            lemma_word_limit_is_power_of_two();
            lemma_powers_of_two_are_spread(
                (usize::MAX + 1) as nat,
                power_of_two_ceil(count as nat),
            );
        }
        assert(parent * base * power_of_two_ceil(count as nat) > usize::MAX) by (nonlinear_arith)
            requires
                parent >= 1,
                base >= 1,
                power_of_two_ceil(count as nat) > usize::MAX,
        ;
        return None;
    }
    let width = get_power_of_two_ceil(count);
    let scaled = match parent.checked_mul(base) {
        Some(scaled) => scaled,
        None => {
            assert(parent * base * width >= parent * base) by (nonlinear_arith)
                requires
                    width >= 1,
            ;
            return None;
        },
    };
    let row = match scaled.checked_mul(width) {
        Some(row) => row,
        None => {
            return None;
        },
    };
    row.checked_add(position)
}

/// The generalized index that `path` leads to from the root of a value of
/// the shape `shape`.
pub fn compute_generalized_index(shape: &TypeShape, path: &[PathElement]) -> (index: Result<
    GeneralizedIndex,
    MerkleizationError,
>)
    ensures
        index == generalized_index_of(*shape, path@),
{
    let bit = TypeShape::Basic { size: 1 };
    let length = TypeShape::Basic { size: 8 };
    let mut current: &TypeShape = shape;
    let mut index: GeneralizedIndex = 1;
    let mut i: usize = 0;
    assert(path@.skip(0) =~= path@);
    while i < path.len()
        invariant
            i <= path.len(),
            bit == bit_shape(),
            length == length_shape(),
            resolve(*current, path@.skip(i as int), index) == generalized_index_of(*shape, path@),
        decreases path.len() - i,
    {
        assert(path@.skip(i as int).drop_first() =~= path@.skip(i as int + 1));
        assert(path@.skip(i as int)[0] == path@[i as int]);
        let (position, child): (usize, &TypeShape) = match (current, &path[i]) {
            (TypeShape::List { .. }, PathElement::Length) | (
                TypeShape::Bitlist { .. },
                PathElement::Length,
            ) => {
                if index > (usize::MAX - 1) / 2 {
                    return Err(MerkleizationError::InvalidGeneralizedIndex);
                }
                index = 2 * index + 1;
                current = &length;
                i += 1;
                continue ;
            },
            (TypeShape::Container { fields }, PathElement::Field(name)) => {
                match find_field(fields, name) {
                    Some(position) => (position, &fields[position].shape),
                    None => {
                        return Err(MerkleizationError::PathResolutionError);
                    },
                }
            },
            (TypeShape::Vector { element, length }, PathElement::Index(at)) => {
                if *at >= *length {
                    return Err(MerkleizationError::PathResolutionError);
                }
                (*at / items_per_chunk(element), &**element)
            },
            (TypeShape::List { element, limit }, PathElement::Index(at)) => {
                if *at >= *limit {
                    return Err(MerkleizationError::PathResolutionError);
                }
                (*at / items_per_chunk(element), &**element)
            },
            (TypeShape::Bitvector { length }, PathElement::Index(at)) => {
                if *at >= *length {
                    return Err(MerkleizationError::PathResolutionError);
                }
                (*at / 256, &bit)
            },
            (TypeShape::Bitlist { limit }, PathElement::Index(at)) => {
                if *at >= *limit {
                    return Err(MerkleizationError::PathResolutionError);
                }
                (*at / 256, &bit)
            },
            _ => {
                return Err(MerkleizationError::PathResolutionError);
            },
        };
        assert(child_of(*current, path@[i as int]) == Some((position as nat, *child)));
        match descend(current, index, position) {
            Some(below) => {
                index = below;
            },
            None => {
                return Err(MerkleizationError::InvalidGeneralizedIndex);
            },
        }
        current = child;
        i += 1;
    }
    Ok(index)
}

/// The generalized index that `path` leads to from the root of a value of
/// the type `T`.
pub fn generalized_index<T: GeneralizedIndexable>(path: &[PathElement]) -> (index: Result<
    GeneralizedIndex,
    MerkleizationError,
>)
    ensures
        index == generalized_index_of(T::shape_of(), path@),
{
    let shape = T::shape();
    compute_generalized_index(&shape, path)
}

} // verus!
