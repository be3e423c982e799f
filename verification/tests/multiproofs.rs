use sha2::{Digest, Sha256};
use ssz_rs::merkleization::multiproofs::{
    calculate_merkle_root, calculate_multi_merkle_root, check_root, get_branch_indices,
    get_helper_indices, get_path_indices, verify_merkle_multiproof, verify_merkle_proof,
};
use ssz_rs::merkleization::proofs::Tree;
use ssz_rs::merkleization::{merkleize, MerkleizationError, Node};

fn leaf_with(first: u8) -> Node {
    let mut node = Node::default();
    node[0] = first;
    node
}

fn sha256_of_pair(left: &Node, right: &Node) -> Node {
    let mut hasher = Sha256::new();
    hasher.update(left.as_slice());
    hasher.update(right.as_slice());
    let mut node = Node::default();
    node.copy_from_slice(&hasher.finalize());
    node
}

fn node_from_hex(text: &str) -> Node {
    let mut node = Node::default();
    for i in 0..32 {
        node[i] = u8::from_str_radix(&text[2 * i..2 * i + 2], 16).unwrap();
    }
    node
}

fn numbered_leaves(count: usize) -> Vec<Node> {
    (0..count).map(|i| leaf_with(i as u8 + 1)).collect()
}

#[test]
fn test_verify_merkle_multiproof() {
    //         Root
    //        /  \
    //     Leaf1  ProofNode
    //    (idx2)  (idx3)
    let leaf1 = {
        let mut node = Node::default();
        node[0] = 1;
        node
    };

    // Single proof node
    let proof_node = {
        let mut node = Node::default();
        node[0] = 2;
        node
    };

    // Just try to verify a single leaf
    let leaves = vec![leaf1];
    let indices = vec![2];
    let proof = vec![proof_node];

    // Calculate root we expect
    let mut hasher = Sha256::new();
    hasher.update(leaf1.as_slice());
    hasher.update(proof_node.as_slice());
    let mut root = Node::default();
    root.copy_from_slice(&hasher.finalize());

    let result = verify_merkle_multiproof(&leaves, &proof, &indices, root);
    assert!(result.is_ok());
}

#[test]
fn multiproof_of_one_leaf_has_the_known_root() {
    let leaf = leaf_with(1);
    let proof_node = leaf_with(2);
    let expected =
        node_from_hex("ff55c97976a840b4ced964ed49e3794594ba3f675238b5fd25d282b60f70a194");
    assert_eq!(calculate_multi_merkle_root(&[leaf], &[proof_node], &[2]), Ok(expected));
    assert_eq!(verify_merkle_multiproof(&[leaf], &[proof_node], &[2], expected), Ok(()));
}

#[test]
fn multiproof_against_another_root_is_invalid() {
    let leaf = leaf_with(1);
    let proof_node = leaf_with(2);
    let mut root = sha256_of_pair(&leaf, &proof_node);
    root[31] ^= 1;
    assert_eq!(
        verify_merkle_multiproof(&[leaf], &[proof_node], &[2], root),
        Err(MerkleizationError::InvalidProof)
    );
    assert_eq!(
        verify_merkle_multiproof(&[leaf], &[proof_node], &[2], Node::default()),
        Err(MerkleizationError::InvalidProof)
    );
}

#[test]
fn multiproof_for_the_right_child_hashes_the_helper_first() {
    let leaf = leaf_with(1);
    let proof_node = leaf_with(2);
    let expected =
        node_from_hex("95e73e8616bb927bb074ee055b1223f3a085f7100c97468d92e63a1c87af1c1a");
    assert_eq!(calculate_multi_merkle_root(&[leaf], &[proof_node], &[3]), Ok(expected));
}

#[test]
fn branch_indices_go_from_the_sibling_upwards() {
    assert_eq!(get_branch_indices(4), vec![5, 3]);
    assert_eq!(get_branch_indices(9), vec![8, 5, 3]);
    assert_eq!(get_branch_indices(2), vec![3]);
    assert_eq!(get_branch_indices(3), vec![2]);
    assert_eq!(get_branch_indices(usize::MAX).len(), usize::BITS as usize - 1);
}

#[test]
fn branch_indices_of_the_root_and_of_no_node_are_empty() {
    assert_eq!(get_branch_indices(1), Vec::<usize>::new());
    assert_eq!(get_branch_indices(0), Vec::<usize>::new());
}

#[test]
fn path_indices_go_from_the_index_to_the_root() {
    assert_eq!(get_path_indices(4), vec![4, 2, 1]);
    assert_eq!(get_path_indices(9), vec![9, 4, 2, 1]);
    assert_eq!(get_path_indices(1), vec![1]);
    assert_eq!(get_path_indices(0), Vec::<usize>::new());
}

#[test]
fn helper_indices_are_the_branches_without_the_paths_in_descending_order() {
    assert_eq!(get_helper_indices(&[2]), vec![3]);
    assert_eq!(get_helper_indices(&[8, 9]), vec![5, 3]);
    assert_eq!(get_helper_indices(&[9, 8]), vec![5, 3]);
    assert_eq!(get_helper_indices(&[8, 9, 14]), vec![15, 6, 5]);
    assert_eq!(get_helper_indices(&[16, 17]), vec![9, 5, 3]);
    assert_eq!(get_helper_indices(&[8, 8]), vec![9, 5, 3]);
    assert_eq!(get_helper_indices(&[4, 8]), vec![9, 5, 3]);
    assert_eq!(get_helper_indices(&[2, 3]), Vec::<usize>::new());
    assert_eq!(get_helper_indices(&[1]), Vec::<usize>::new());
    assert_eq!(get_helper_indices(&[]), Vec::<usize>::new());
}

#[test]
fn merkle_root_of_a_branch_has_the_known_value() {
    let leaves = numbered_leaves(8);
    // leaf 3 stands at index 10; its branch is 11, 4, 3
    let proof = vec![
        leaf_with(4),
        node_from_hex("ff55c97976a840b4ced964ed49e3794594ba3f675238b5fd25d282b60f70a194"),
        node_from_hex("9aedb6064f07c438453eb0bc7da08b69e2fb5437010daa7319905818d657afee"),
    ];
    let root = node_from_hex("99cb728885028dc2c35af59794139055007536d3ed8efb214db6b8798fcc8480");
    assert_eq!(calculate_merkle_root(leaves[2], &proof, 10), Ok(root));
    assert_eq!(verify_merkle_proof(leaves[2], &proof, 10, root), Ok(()));
    assert_eq!(merkleize(&leaves), root);
}

#[test]
fn merkle_root_refuses_the_index_zero() {
    assert_eq!(
        calculate_merkle_root(leaf_with(1), &[], 0),
        Err(MerkleizationError::InvalidGeneralizedIndex)
    );
    assert_eq!(
        verify_merkle_proof(leaf_with(1), &[], 0, leaf_with(1)),
        Err(MerkleizationError::InvalidGeneralizedIndex)
    );
}

#[test]
fn merkle_root_refuses_a_proof_of_the_wrong_length() {
    let proof = vec![leaf_with(2)];
    assert_eq!(
        calculate_merkle_root(leaf_with(1), &proof, 4),
        Err(MerkleizationError::InvalidProof)
    );
    assert_eq!(
        calculate_merkle_root(leaf_with(1), &proof, 1),
        Err(MerkleizationError::InvalidProof)
    );
    assert_eq!(
        calculate_merkle_root(leaf_with(1), &[], 2),
        Err(MerkleizationError::InvalidProof)
    );
}

#[test]
fn empty_proof_verifies_the_root_against_itself_only() {
    let leaf = leaf_with(7);
    assert_eq!(calculate_merkle_root(leaf, &[], 1), Ok(leaf));
    assert_eq!(verify_merkle_proof(leaf, &[], 1, leaf), Ok(()));
    assert_eq!(
        verify_merkle_proof(leaf, &[], 1, leaf_with(8)),
        Err(MerkleizationError::InvalidProof)
    );
}

#[test]
fn check_root_compares_and_keeps_errors() {
    let node = leaf_with(5);
    assert_eq!(check_root(Ok(node), &node), Ok(()));
    assert_eq!(check_root(Ok(node), &leaf_with(6)), Err(MerkleizationError::InvalidProof));
    assert_eq!(
        check_root(Err(MerkleizationError::InvalidGeneralizedIndex), &node),
        Err(MerkleizationError::InvalidGeneralizedIndex)
    );
    assert_eq!(
        check_root(Err(MerkleizationError::InvalidProof), &node),
        Err(MerkleizationError::InvalidProof)
    );
}

#[test]
fn proofs_of_all_nodes_verify_against_the_root() {
    for count in 1..=9usize {
        let chunks = numbered_leaves(count);
        let tree = Tree::new(&chunks);
        let root = tree.root();
        assert_eq!(root, merkleize(&chunks));
        for index in 2..2 * tree.leaf_count() {
            let node = tree.node(index).unwrap();
            let proof = tree.prove(index).unwrap();
            assert_eq!(verify_merkle_proof(node, &proof, index, root), Ok(()));
        }
    }
}

#[test]
fn verifying_twice_gives_the_same_verdict() {
    let chunks = numbered_leaves(4);
    let tree = Tree::new(&chunks);
    let proof = tree.prove(6).unwrap();
    let first = verify_merkle_proof(chunks[2], &proof, 6, tree.root());
    let second = verify_merkle_proof(chunks[2], &proof, 6, tree.root());
    assert_eq!(first, Ok(()));
    assert_eq!(first, second);
    let first = verify_merkle_proof(chunks[1], &proof, 6, tree.root());
    let second = verify_merkle_proof(chunks[1], &proof, 6, tree.root());
    assert_eq!(first, Err(MerkleizationError::InvalidProof));
    assert_eq!(first, second);
    let indices = [4, 7];
    let (leaves, helpers) = tree.prove_multi(&indices).unwrap();
    let first = verify_merkle_multiproof(&leaves, &helpers, &indices, tree.root());
    let second = verify_merkle_multiproof(&leaves, &helpers, &indices, tree.root());
    assert_eq!(first, Ok(()));
    assert_eq!(first, second);
}

#[test]
fn multiproofs_lead_to_the_root_of_the_tree() {
    let chunks = numbered_leaves(8);
    let tree = Tree::new(&chunks);
    let root = node_from_hex("99cb728885028dc2c35af59794139055007536d3ed8efb214db6b8798fcc8480");
    assert_eq!(tree.root(), root);
    let sets: Vec<Vec<usize>> = vec![
        vec![8],
        vec![15],
        vec![8, 9],
        vec![9, 8],
        vec![8, 15],
        vec![8, 9, 14],
        vec![10, 13, 15],
        vec![8, 9, 10, 11, 12, 13, 14, 15],
        vec![8, 8],
        vec![4, 8],
        vec![2, 12],
        vec![1],
        vec![1, 9],
        vec![3, 5, 9],
    ];
    for indices in sets {
        let (leaves, helpers) = tree.prove_multi(&indices).unwrap();
        assert_eq!(helpers.len(), get_helper_indices(&indices).len());
        assert_eq!(calculate_multi_merkle_root(&leaves, &helpers, &indices), Ok(root));
        assert_eq!(verify_merkle_multiproof(&leaves, &helpers, &indices, root), Ok(()));
    }
}

#[test]
fn multiproof_is_smaller_than_the_single_proofs() {
    let chunks = numbered_leaves(8);
    let tree = Tree::new(&chunks);
    let (leaves, helpers) = tree.prove_multi(&[8, 9, 14]).unwrap();
    assert_eq!(leaves, vec![chunks[0], chunks[1], chunks[6]]);
    assert_eq!(
        helpers,
        vec![tree.node(15).unwrap(), tree.node(6).unwrap(), tree.node(5).unwrap()]
    );
    assert!(helpers.len() < 3 * tree.prove(8).unwrap().len());
}

#[test]
fn multiproof_refuses_wrong_counts() {
    let leaf = leaf_with(1);
    let helper = leaf_with(2);
    assert_eq!(
        calculate_multi_merkle_root(&[leaf, leaf], &[helper], &[2]),
        Err(MerkleizationError::InvalidProof)
    );
    assert_eq!(
        calculate_multi_merkle_root(&[], &[helper], &[2]),
        Err(MerkleizationError::InvalidProof)
    );
    assert_eq!(
        calculate_multi_merkle_root(&[leaf], &[], &[2]),
        Err(MerkleizationError::InvalidProof)
    );
    assert_eq!(
        calculate_multi_merkle_root(&[leaf], &[helper, helper], &[2]),
        Err(MerkleizationError::InvalidProof)
    );
}

#[test]
fn multiproof_without_an_index_reaches_no_root() {
    assert_eq!(
        calculate_multi_merkle_root(&[], &[], &[]),
        Err(MerkleizationError::InvalidProof)
    );
    assert_eq!(
        verify_merkle_multiproof(&[], &[], &[], Node::default()),
        Err(MerkleizationError::InvalidProof)
    );
}

#[test]
fn multiproof_refuses_the_index_zero() {
    let zero = Node::default();
    assert_eq!(
        calculate_multi_merkle_root(&[zero], &[], &[0]),
        Err(MerkleizationError::InvalidGeneralizedIndex)
    );
    assert_eq!(
        calculate_multi_merkle_root(&[leaf_with(1)], &[], &[0]),
        Err(MerkleizationError::InvalidGeneralizedIndex)
    );
    assert_eq!(
        verify_merkle_multiproof(&[zero], &[], &[0], zero),
        Err(MerkleizationError::InvalidGeneralizedIndex)
    );
    // beside an index that addresses a node, with the counts that fit
    assert_eq!(
        calculate_multi_merkle_root(&[zero, leaf_with(1)], &[leaf_with(2)], &[0, 2]),
        Err(MerkleizationError::InvalidGeneralizedIndex)
    );
    assert_eq!(
        calculate_multi_merkle_root(&[leaf_with(1), zero], &[leaf_with(2)], &[2, 0]),
        Err(MerkleizationError::InvalidGeneralizedIndex)
    );
    // whatever the number of proof nodes
    assert_eq!(
        calculate_multi_merkle_root(&[zero], &[leaf_with(2), leaf_with(3)], &[0]),
        Err(MerkleizationError::InvalidGeneralizedIndex)
    );
}

#[test]
fn leaf_count_is_compared_before_the_indices() {
    assert_eq!(
        calculate_multi_merkle_root(&[], &[], &[0]),
        Err(MerkleizationError::InvalidProof)
    );
    assert_eq!(
        calculate_multi_merkle_root(&[leaf_with(1), leaf_with(2)], &[], &[0]),
        Err(MerkleizationError::InvalidProof)
    );
}

#[test]
fn multiproof_with_a_repeated_index_takes_the_last_leaf() {
    let first = leaf_with(1);
    let last = leaf_with(9);
    let helper = leaf_with(2);
    assert_eq!(
        calculate_multi_merkle_root(&[first, last], &[helper], &[2, 2]),
        Ok(sha256_of_pair(&last, &helper))
    );
}

#[test]
fn multiproof_of_the_root_is_the_root() {
    let leaf = leaf_with(3);
    assert_eq!(calculate_multi_merkle_root(&[leaf], &[], &[1]), Ok(leaf));
}

#[test]
fn tampered_proof_is_invalid() {
    let chunks = numbered_leaves(8);
    let tree = Tree::new(&chunks);
    let root = tree.root();
    let proof = tree.prove(10).unwrap();
    for node in 0..proof.len() {
        for bit in [0usize, 7, 100, 255] {
            let mut tampered = proof.clone();
            tampered[node][bit / 8] ^= 1 << (bit % 8);
            assert_eq!(
                verify_merkle_proof(chunks[2], &tampered, 10, root),
                Err(MerkleizationError::InvalidProof)
            );
        }
    }
    assert_eq!(
        verify_merkle_proof(chunks[3], &proof, 10, root),
        Err(MerkleizationError::InvalidProof)
    );
    assert_eq!(
        verify_merkle_proof(chunks[2], &proof, 11, root),
        Err(MerkleizationError::InvalidProof)
    );
}

#[test]
fn tampered_multiproof_is_invalid() {
    let chunks = numbered_leaves(8);
    let tree = Tree::new(&chunks);
    let root = tree.root();
    let indices = [8, 9, 14];
    let (leaves, helpers) = tree.prove_multi(&indices).unwrap();
    for node in 0..helpers.len() {
        let mut tampered = helpers.clone();
        tampered[node][5] ^= 0x10;
        assert_eq!(
            verify_merkle_multiproof(&leaves, &tampered, &indices, root),
            Err(MerkleizationError::InvalidProof)
        );
    }
    for node in 0..leaves.len() {
        let mut tampered = leaves.clone();
        tampered[node] = leaf_with(200);
        assert_eq!(
            verify_merkle_multiproof(&tampered, &helpers, &indices, root),
            Err(MerkleizationError::InvalidProof)
        );
    }
}

#[test]
fn tree_gives_no_proof_for_the_root_nor_outside_the_tree() {
    let tree = Tree::new(&numbered_leaves(4));
    assert_eq!(tree.prove(1), Err(MerkleizationError::InvalidGeneralizedIndex));
    assert_eq!(tree.prove(0), Err(MerkleizationError::InvalidGeneralizedIndex));
    assert_eq!(tree.prove(8), Err(MerkleizationError::InvalidGeneralizedIndex));
    assert_eq!(tree.node(0), Err(MerkleizationError::InvalidGeneralizedIndex));
    assert_eq!(tree.node(8), Err(MerkleizationError::InvalidGeneralizedIndex));
    assert_eq!(tree.prove_multi(&[4, 8]), Err(MerkleizationError::InvalidGeneralizedIndex));
    assert_eq!(tree.prove_multi(&[0]), Err(MerkleizationError::InvalidGeneralizedIndex));
    assert_eq!(tree.prove_multi(&[]), Ok((vec![], vec![])));
    let single = Tree::new(&numbered_leaves(1));
    assert_eq!(single.leaf_count(), 1);
    assert_eq!(single.root(), leaf_with(1));
    assert_eq!(single.prove(1), Err(MerkleizationError::InvalidGeneralizedIndex));
}

#[test]
fn tree_of_three_chunks_is_padded_with_a_zero_chunk() {
    let tree = Tree::new(&numbered_leaves(3));
    assert_eq!(tree.leaf_count(), 4);
    assert_eq!(tree.node(7), Ok(Node::default()));
    assert_eq!(tree.node(4), Ok(leaf_with(1)));
    assert_eq!(
        tree.root(),
        node_from_hex("66c419026fee8793be7fd0011b9db46b98a79f9c9b640e25317865c358f442db")
    );
    assert_eq!(tree.prove(6), Ok(vec![Node::default(), tree.node(2).unwrap()]));
}

#[test]
fn leaf_below_another_index_is_not_read() {
    let chunks = numbered_leaves(4);
    let tree = Tree::new(&chunks);
    let indices = [2, 4];
    let (mut leaves, helpers) = tree.prove_multi(&indices).unwrap();
    assert_eq!(verify_merkle_multiproof(&leaves, &helpers, &indices, tree.root()), Ok(()));
    leaves[1] = leaf_with(200);
    assert_eq!(verify_merkle_multiproof(&leaves, &helpers, &indices, tree.root()), Ok(()));
    leaves[0] = leaf_with(200);
    assert_eq!(
        verify_merkle_multiproof(&leaves, &helpers, &indices, tree.root()),
        Err(MerkleizationError::InvalidProof)
    );
}
