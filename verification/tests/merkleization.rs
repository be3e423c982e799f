use sha2::{Digest, Sha256};
use ssz_rs::merkleization::{
    hash_nodes, merkleize, merkleize_bytes, mix_in_length, mix_in_selector, nodes_equal,
    pack_bytes, uint_to_chunk, Node, BYTES_PER_CHUNK,
};

fn chunk_with(first: u8) -> Node {
    let mut node = Node::default();
    node[0] = first;
    node
}

fn chunk_from_hex(text: &str) -> Node {
    let mut node = Node::default();
    for i in 0..32 {
        node[i] = u8::from_str_radix(&text[2 * i..2 * i + 2], 16).unwrap();
    }
    node
}

fn sha256_of(bytes: &[u8]) -> Node {
    let mut node = Node::default();
    node.copy_from_slice(&Sha256::digest(bytes));
    node
}

#[test]
fn chunks_have_32_bytes() {
    assert_eq!(BYTES_PER_CHUNK, 32);
    assert_eq!(Node::default().len(), BYTES_PER_CHUNK);
}

#[test]
fn hash_of_two_zero_chunks_has_the_known_value() {
    let zero = Node::default();
    let above = hash_nodes(&zero, &zero);
    assert_eq!(
        above,
        chunk_from_hex("f5a5fd42d16a20302798ef6ed309979b43003d2320d9f0e8ea9831a92759fb4b")
    );
    assert_eq!(
        hash_nodes(&above, &above),
        chunk_from_hex("db56114e00fdd4c1f85c892bf35ac9a89289aaecb1ebd0a96cde606a748b5d71")
    );
}

#[test]
fn hash_of_two_nodes_depends_on_their_order() {
    let one = chunk_with(1);
    let two = chunk_with(2);
    assert_eq!(
        hash_nodes(&one, &two),
        chunk_from_hex("ff55c97976a840b4ced964ed49e3794594ba3f675238b5fd25d282b60f70a194")
    );
    assert_eq!(
        hash_nodes(&two, &one),
        chunk_from_hex("95e73e8616bb927bb074ee055b1223f3a085f7100c97468d92e63a1c87af1c1a")
    );
    assert_ne!(hash_nodes(&one, &two), one);
    assert_ne!(hash_nodes(&one, &two), two);
}

#[test]
fn nodes_are_equal_where_all_bytes_are() {
    let mut a = chunk_with(1);
    let b = chunk_with(1);
    assert!(nodes_equal(&a, &b));
    a[31] = 1;
    assert!(!nodes_equal(&a, &b));
}

#[test]
fn bytes_are_packed_into_chunks_with_zero_bytes_at_the_end() {
    assert_eq!(pack_bytes(&[]), Vec::<Node>::new());
    assert_eq!(pack_bytes(&[1]), vec![chunk_with(1)]);
    let bytes: Vec<u8> = (0..33).collect();
    let chunks = pack_bytes(&bytes);
    assert_eq!(chunks.len(), 2);
    for i in 0..32 {
        assert_eq!(chunks[0][i], i as u8);
    }
    assert_eq!(chunks[1], chunk_with(32));
    let full: Vec<u8> = (0..64).collect();
    let chunks = pack_bytes(&full);
    assert_eq!(chunks.len(), 2);
    assert_eq!(chunks[1][31], 63);
}

#[test]
fn single_chunk_is_its_own_root() {
    let chunk = chunk_with(9);
    assert_eq!(merkleize(&[chunk]), chunk);
}

#[test]
fn no_chunk_has_the_zero_chunk_as_root() {
    assert_eq!(merkleize(&[]), Node::default());
}

#[test]
fn root_of_three_chunks_is_padded_to_four() {
    let chunks = vec![chunk_with(1), chunk_with(2), chunk_with(3)];
    let expected =
        chunk_from_hex("66c419026fee8793be7fd0011b9db46b98a79f9c9b640e25317865c358f442db");
    assert_eq!(merkleize(&chunks), expected);
    let padded = vec![chunk_with(1), chunk_with(2), chunk_with(3), Node::default()];
    assert_eq!(merkleize(&padded), expected);
    let left = hash_nodes(&chunks[0], &chunks[1]);
    let right = hash_nodes(&chunks[2], &Node::default());
    assert_eq!(hash_nodes(&left, &right), expected);
}

#[test]
fn root_of_two_chunks_is_their_hash() {
    let one = chunk_with(1);
    let two = chunk_with(2);
    assert_eq!(merkleize(&[one, two]), hash_nodes(&one, &two));
}

#[test]
fn root_of_bytes_is_the_root_of_their_chunks() {
    let bytes: Vec<u8> = (0..33).collect();
    assert_eq!(
        merkleize_bytes(&bytes),
        chunk_from_hex("d1fe638391d3ea81f192505cef1b81ec87821b255c6ec8896e399a7a4cc8413e")
    );
    assert_eq!(merkleize_bytes(&bytes), merkleize(&pack_bytes(&bytes)));
}

#[test]
fn number_chunk_is_little_endian() {
    let chunk = uint_to_chunk(0x0102030405060708);
    assert_eq!(&chunk[..8], &[8, 7, 6, 5, 4, 3, 2, 1]);
    assert_eq!(&chunk[8..], &[0u8; 24]);
    assert_eq!(uint_to_chunk(0), Node::default());
    assert_eq!(uint_to_chunk(3), chunk_with(3));
    let chunk = uint_to_chunk(u64::MAX);
    assert_eq!(&chunk[..8], &[255u8; 8]);
    assert_eq!(&chunk[8..], &[0u8; 24]);
    assert_eq!(uint_to_chunk(256)[1], 1);
}

#[test]
fn mixed_in_length_is_the_hash_of_root_and_length() {
    let root = chunk_from_hex("66c419026fee8793be7fd0011b9db46b98a79f9c9b640e25317865c358f442db");
    assert_eq!(
        mix_in_length(root, 3),
        chunk_from_hex("48e0187123ec029d586ac948fc8081f1e6d11632e336b41983c90685040fe63d")
    );
    assert_eq!(
        mix_in_length(root, 0x0102030405060708),
        chunk_from_hex("632ff8f648c972123a5b4bbd7a60d2a0a46a7207e87a7e673d3880248f83cd8d")
    );
    for length in [0usize, 1, 255, 256, 65535, 1 << 20, usize::MAX] {
        let mut message = root.to_vec();
        message.extend_from_slice(&(length as u64).to_le_bytes());
        message.extend_from_slice(&[0u8; 24]);
        assert_eq!(mix_in_length(root, length), sha256_of(&message));
    }
}

#[test]
fn another_length_gives_another_root() {
    let root = chunk_with(1);
    assert_ne!(mix_in_length(root, 3), mix_in_length(root, 4));
    assert_ne!(mix_in_length(root, 0), mix_in_length(root, 256));
    assert_ne!(mix_in_length(root, 0), root);
}

#[test]
fn mixed_in_selector_is_the_hash_of_root_and_selector() {
    let root = chunk_from_hex("66c419026fee8793be7fd0011b9db46b98a79f9c9b640e25317865c358f442db");
    assert_eq!(
        mix_in_selector(root, 3),
        chunk_from_hex("48e0187123ec029d586ac948fc8081f1e6d11632e336b41983c90685040fe63d")
    );
    assert_ne!(mix_in_selector(root, 0), mix_in_selector(root, 1));
}
