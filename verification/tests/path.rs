use ssz_rs::merkleization::path::{
    chunk_count, compute_generalized_index, generalized_index, items_per_chunk, Field,
    PathElement, TypeShape,
};
use ssz_rs::merkleization::MerkleizationError;

fn uint(size: usize) -> TypeShape {
    TypeShape::Basic { size }
}

fn field(name: &str, shape: TypeShape) -> Field {
    Field { name: name.to_string(), shape }
}

fn named(name: &str) -> PathElement {
    PathElement::Field(name.to_string())
}

// a container with a number, a list of up to 1024 numbers of 8 bytes, a
// vector of 5 containers of two fields each, and a list of up to 100 bits
fn state() -> TypeShape {
    let pair = || {
        TypeShape::Container { fields: vec![field("x", uint(8)), field("y", uint(32))] }
    };
    TypeShape::Container {
        fields: vec![
            field("slot", uint(8)),
            field("balances", TypeShape::List { element: Box::new(uint(8)), limit: 1024 }),
            field("pairs", TypeShape::Vector { element: Box::new(pair()), length: 5 }),
            field("flags", TypeShape::Bitlist { limit: 100 }),
            field("bits", TypeShape::Bitvector { length: 512 }),
        ],
    }
}

#[test]
fn empty_path_leads_to_the_root() {
    assert_eq!(compute_generalized_index(&state(), &[]), Ok(1));
    assert_eq!(compute_generalized_index(&uint(8), &[]), Ok(1));
}

#[test]
fn fields_stand_in_their_order_below_the_padded_row() {
    // 5 fields are padded to 8 chunks
    assert_eq!(compute_generalized_index(&state(), &[named("slot")]), Ok(8));
    assert_eq!(compute_generalized_index(&state(), &[named("balances")]), Ok(9));
    assert_eq!(compute_generalized_index(&state(), &[named("pairs")]), Ok(10));
    assert_eq!(compute_generalized_index(&state(), &[named("flags")]), Ok(11));
    assert_eq!(compute_generalized_index(&state(), &[named("bits")]), Ok(12));
}

#[test]
fn list_elements_stand_below_the_data_root_beside_the_length() {
    // 1024 numbers of 8 bytes fill 256 chunks; the data root is the left child
    assert_eq!(
        compute_generalized_index(&state(), &[named("balances"), PathElement::Index(0)]),
        Ok(9 * 2 * 256)
    );
    assert_eq!(
        compute_generalized_index(&state(), &[named("balances"), PathElement::Index(3)]),
        Ok(9 * 2 * 256)
    );
    assert_eq!(
        compute_generalized_index(&state(), &[named("balances"), PathElement::Index(4)]),
        Ok(9 * 2 * 256 + 1)
    );
    assert_eq!(
        compute_generalized_index(&state(), &[named("balances"), PathElement::Index(1023)]),
        Ok(9 * 2 * 256 + 255)
    );
    assert_eq!(
        compute_generalized_index(&state(), &[named("balances"), PathElement::Length]),
        Ok(9 * 2 + 1)
    );
}

#[test]
fn vector_elements_of_containers_take_one_chunk_each() {
    // 5 elements are padded to 8
    assert_eq!(
        compute_generalized_index(&state(), &[named("pairs"), PathElement::Index(4)]),
        Ok(10 * 8 + 4)
    );
    assert_eq!(
        compute_generalized_index(
            &state(),
            &[named("pairs"), PathElement::Index(4), named("y")]
        ),
        Ok((10 * 8 + 4) * 2 + 1)
    );
}

#[test]
fn bits_stand_256_to_a_chunk() {
    assert_eq!(
        compute_generalized_index(&state(), &[named("flags"), PathElement::Index(99)]),
        Ok(11 * 2)
    );
    assert_eq!(
        compute_generalized_index(&state(), &[named("flags"), PathElement::Length]),
        Ok(11 * 2 + 1)
    );
    assert_eq!(
        compute_generalized_index(&state(), &[named("bits"), PathElement::Index(255)]),
        Ok(12 * 2)
    );
    assert_eq!(
        compute_generalized_index(&state(), &[named("bits"), PathElement::Index(256)]),
        Ok(12 * 2 + 1)
    );
}

#[test]
fn unknown_field_is_refused() {
    assert_eq!(
        compute_generalized_index(&state(), &[named("epoch")]),
        Err(MerkleizationError::PathResolutionError)
    );
    assert_eq!(
        compute_generalized_index(&state(), &[named("pairs"), PathElement::Index(0), named("z")]),
        Err(MerkleizationError::PathResolutionError)
    );
}

#[test]
fn index_out_of_bounds_is_refused() {
    assert_eq!(
        compute_generalized_index(&state(), &[named("balances"), PathElement::Index(1024)]),
        Err(MerkleizationError::PathResolutionError)
    );
    assert_eq!(
        compute_generalized_index(&state(), &[named("pairs"), PathElement::Index(5)]),
        Err(MerkleizationError::PathResolutionError)
    );
    assert_eq!(
        compute_generalized_index(&state(), &[named("flags"), PathElement::Index(100)]),
        Err(MerkleizationError::PathResolutionError)
    );
    assert_eq!(
        compute_generalized_index(&state(), &[named("bits"), PathElement::Index(512)]),
        Err(MerkleizationError::PathResolutionError)
    );
}

#[test]
fn selector_of_the_wrong_kind_is_refused() {
    assert_eq!(
        compute_generalized_index(&state(), &[PathElement::Index(0)]),
        Err(MerkleizationError::PathResolutionError)
    );
    assert_eq!(
        compute_generalized_index(&state(), &[PathElement::Length]),
        Err(MerkleizationError::PathResolutionError)
    );
    assert_eq!(
        compute_generalized_index(&state(), &[named("pairs"), PathElement::Length]),
        Err(MerkleizationError::PathResolutionError)
    );
    assert_eq!(
        compute_generalized_index(&state(), &[named("balances"), named("x")]),
        Err(MerkleizationError::PathResolutionError)
    );
}

#[test]
fn path_cannot_go_on_below_a_basic_value() {
    assert_eq!(
        compute_generalized_index(&state(), &[named("slot"), PathElement::Index(0)]),
        Err(MerkleizationError::PathResolutionError)
    );
    assert_eq!(
        compute_generalized_index(
            &state(),
            &[named("balances"), PathElement::Length, PathElement::Length]
        ),
        Err(MerkleizationError::PathResolutionError)
    );
    assert_eq!(
        compute_generalized_index(
            &state(),
            &[named("flags"), PathElement::Index(1), PathElement::Index(0)]
        ),
        Err(MerkleizationError::PathResolutionError)
    );
}

#[test]
fn first_field_of_a_name_is_taken() {
    let shape = TypeShape::Container {
        fields: vec![field("a", uint(8)), field("b", uint(8)), field("b", uint(8))],
    };
    assert_eq!(compute_generalized_index(&shape, &[named("b")]), Ok(5));
}

#[test]
fn index_beyond_the_machine_word_is_refused() {
    let mut shape = uint(8);
    for _ in 0..8 {
        shape = TypeShape::List { element: Box::new(shape), limit: 1 << 20 };
    }
    let path: Vec<PathElement> = (0..8).map(|_| PathElement::Index(0)).collect();
    assert_eq!(
        compute_generalized_index(&shape, &path),
        Err(MerkleizationError::InvalidGeneralizedIndex)
    );
    let deep: Vec<PathElement> = (0..2).map(|_| PathElement::Index(7)).collect();
    assert_eq!(
        compute_generalized_index(&shape, &deep),
        Ok(((1usize << 21) + 7) * (1 << 21) + 7)
    );
    let huge = TypeShape::Vector {
        element: Box::new(TypeShape::Container { fields: vec![] }),
        length: usize::MAX,
    };
    assert_eq!(
        compute_generalized_index(&huge, &[PathElement::Index(0)]),
        Err(MerkleizationError::InvalidGeneralizedIndex)
    );
}

#[test]
fn chunk_counts_follow_the_shape() {
    assert_eq!(chunk_count(&uint(8)), 1);
    assert_eq!(chunk_count(&state()), 5);
    assert_eq!(chunk_count(&TypeShape::Bitvector { length: 512 }), 2);
    assert_eq!(chunk_count(&TypeShape::Bitvector { length: 513 }), 3);
    assert_eq!(chunk_count(&TypeShape::Bitlist { limit: 100 }), 1);
    assert_eq!(chunk_count(&TypeShape::Bitlist { limit: 0 }), 0);
    assert_eq!(chunk_count(&TypeShape::List { element: Box::new(uint(8)), limit: 1024 }), 256);
    assert_eq!(chunk_count(&TypeShape::Vector { element: Box::new(uint(1)), length: 33 }), 2);
    assert_eq!(chunk_count(&TypeShape::Vector { element: Box::new(uint(32)), length: 33 }), 33);
    assert_eq!(chunk_count(&TypeShape::Vector { element: Box::new(state()), length: 7 }), 7);
    assert_eq!(items_per_chunk(&uint(1)), 32);
    assert_eq!(items_per_chunk(&uint(2)), 16);
    assert_eq!(items_per_chunk(&uint(8)), 4);
    assert_eq!(items_per_chunk(&uint(32)), 1);
    assert_eq!(items_per_chunk(&uint(0)), 1);
    assert_eq!(items_per_chunk(&uint(33)), 1);
    assert_eq!(items_per_chunk(&state()), 1);
}

#[test]
fn basic_types_have_no_children() {
    assert_eq!(generalized_index::<u64>(&[]), Ok(1));
    assert_eq!(
        generalized_index::<u64>(&[PathElement::Index(0)]),
        Err(MerkleizationError::PathResolutionError)
    );
    assert_eq!(
        generalized_index::<bool>(&[PathElement::Length]),
        Err(MerkleizationError::PathResolutionError)
    );
}
