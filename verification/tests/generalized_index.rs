use ssz_rs::merkleization::generalized_index::{
    child_left, child_right, default_generalized_index, get_bit, get_path_length,
    get_power_of_two_ceil, parent, sibling,
};
use ssz_rs::merkleization::MerkleizationError;

#[test]
fn power_of_two_ceil_is_the_smallest_power_of_two_from_the_count_on() {
    for n in 1..=1025usize {
        let ceil = get_power_of_two_ceil(n);
        assert!(ceil.is_power_of_two());
        assert!(ceil >= n);
        assert!(ceil == 1 || ceil / 2 < n);
        assert_eq!(ceil, n.next_power_of_two());
    }
}

#[test]
fn power_of_two_ceil_at_the_edges() {
    assert_eq!(get_power_of_two_ceil(0), 1);
    assert_eq!(get_power_of_two_ceil(1), 1);
    assert_eq!(get_power_of_two_ceil(2), 2);
    assert_eq!(get_power_of_two_ceil(3), 4);
    assert_eq!(get_power_of_two_ceil(5), 8);
    assert_eq!(get_power_of_two_ceil(usize::MAX / 2 + 1), usize::MAX / 2 + 1);
    assert_eq!(get_power_of_two_ceil(usize::MAX / 2), usize::MAX / 2 + 1);
}

#[test]
fn siblings_share_their_parent() {
    for index in 2..=1000usize {
        assert_eq!(parent(sibling(index)), parent(index));
        assert_eq!(sibling(sibling(index)), index);
        assert_ne!(sibling(index), index);
    }
    assert_eq!(sibling(usize::MAX), usize::MAX - 1);
    assert_eq!(sibling(usize::MAX - 1), usize::MAX);
}

#[test]
fn index_arithmetic_has_the_known_values() {
    assert_eq!(default_generalized_index(), 1);
    assert_eq!(parent(2), 1);
    assert_eq!(parent(3), 1);
    assert_eq!(parent(13), 6);
    assert_eq!(sibling(2), 3);
    assert_eq!(sibling(3), 2);
    assert_eq!(sibling(12), 13);
    assert_eq!(child_left(1), 2);
    assert_eq!(child_right(1), 3);
    assert_eq!(child_left(6), 12);
    assert_eq!(child_right(6), 13);
    assert_eq!(parent(child_left(21)), 21);
    assert_eq!(parent(child_right(21)), 21);
    assert_eq!(sibling(child_left(21)), child_right(21));
}

#[test]
fn bits_are_counted_from_the_least_significant() {
    // 10 is 1010 in binary
    assert!(!get_bit(10, 0));
    assert!(get_bit(10, 1));
    assert!(!get_bit(10, 2));
    assert!(get_bit(10, 3));
    assert!(!get_bit(10, 4));
    assert!(get_bit(usize::MAX, usize::BITS as usize - 1));
    assert!(!get_bit(usize::MAX, usize::BITS as usize));
    assert!(!get_bit(usize::MAX, usize::MAX));
    assert!(!get_bit(0, 0));
}

#[test]
fn path_length_is_the_depth() {
    assert_eq!(get_path_length(1), Ok(0));
    assert_eq!(get_path_length(2), Ok(1));
    assert_eq!(get_path_length(3), Ok(1));
    assert_eq!(get_path_length(4), Ok(2));
    assert_eq!(get_path_length(7), Ok(2));
    assert_eq!(get_path_length(8), Ok(3));
    assert_eq!(get_path_length(1 << 20), Ok(20));
    assert_eq!(get_path_length((1 << 20) - 1), Ok(19));
    assert_eq!(get_path_length(usize::MAX), Ok(usize::BITS as usize - 1));
}

#[test]
fn path_length_refuses_the_index_zero() {
    assert_eq!(get_path_length(0), Err(MerkleizationError::InvalidGeneralizedIndex));
}
