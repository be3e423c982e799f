//! The whole tree over a chunk sequence, and the proofs taken from it.

use super::generalized_index::{
    get_power_of_two_ceil, is_power_of_two, lemma_power_of_two_ceil,
    lemma_power_of_two_ceil_is_near, GeneralizedIndex,
};
use super::multiproofs::{
    branch_indices, get_branch_indices, get_helper_indices, helper_indices, helper_set,
    merkle_root_of_branch, multi_merkle_root, root_bytes, root_verdict,
};
use super::theorems::{lemma_multiproof_leads_to_root, lemma_proof_round_trip};
use super::path::GeneralizedIndexable;
use super::{
    hash_nodes, merkle_root, node_seq, padded_chunks, tree_node, zero_chunk, HashTreeRoot,
    MerkleizationError, Node,
};
use vstd::prelude::*;

verus! {

/// The nodes of the tree over `leaves` at `positions`, in their order.
pub open spec fn nodes_at(leaves: Seq<Seq<u8>>, positions: Seq<usize>) -> Seq<Seq<u8>> {
    positions.map_values(|g: usize| tree_node(leaves, g as nat))
}

/// Whether `index` addresses a node of the tree over `leaves`.
pub open spec fn in_tree(leaves: Seq<Seq<u8>>, index: usize) -> bool {
    1 <= index < 2 * leaves.len()
}

/// What `Tree::node` gives: the node at `index`, where there is one.
pub open spec fn node_at(leaves: Seq<Seq<u8>>, index: usize) -> Result<
    Seq<u8>,
    MerkleizationError,
> {
    if in_tree(leaves, index) {
        Ok(tree_node(leaves, index as nat))
    } else {
        Err(MerkleizationError::InvalidGeneralizedIndex)
    }
}

/// What `Tree::prove` gives: the nodes on the branch of `index`, where
/// `index` addresses a node below the root. The root has no branch.
pub open spec fn branch_proof(leaves: Seq<Seq<u8>>, index: usize) -> Result<
    Seq<Seq<u8>>,
    MerkleizationError,
> {
    if in_tree(leaves, index) && index != 1 {
        Ok(nodes_at(leaves, branch_indices(index)))
    } else {
        Err(MerkleizationError::InvalidGeneralizedIndex)
    }
}

/// What `Tree::prove_multi` gives: the nodes at `indices` and the nodes at
/// their helper positions, where each index addresses a node.
pub open spec fn multiproof(leaves: Seq<Seq<u8>>, indices: Seq<usize>) -> Result<
    (Seq<Seq<u8>>, Seq<Seq<u8>>),
    MerkleizationError,
> {
    if forall|j: int| 0 <= j < indices.len() ==> in_tree(leaves, #[trigger] indices[j]) {
        Ok((nodes_at(leaves, indices), nodes_at(leaves, helper_indices(indices))))
    } else {
        Err(MerkleizationError::InvalidGeneralizedIndex)
    }
}

/// The byte strings of a proof, errors kept.
pub open spec fn proof_bytes(branch: Result<Vec<Node>, MerkleizationError>) -> Result<
    Seq<Seq<u8>>,
    MerkleizationError,
> {
    match branch {
        Ok(nodes) => Ok(node_seq(nodes@)),
        Err(error) => Err(error),
    }
}

/// The byte strings of a multiproof, errors kept.
pub open spec fn multiproof_bytes(
    parts: Result<(Vec<Node>, Vec<Node>), MerkleizationError>,
) -> Result<(Seq<Seq<u8>>, Seq<Seq<u8>>), MerkleizationError> {
    match parts {
        Ok((leaves, helpers)) => Ok((node_seq(leaves@), node_seq(helpers@))),
        Err(error) => Err(error),
    }
}

/// A type whose values give proofs for the chunks of their tree.
pub trait Prove: HashTreeRoot + GeneralizedIndexable {
    /// The chunks of the value: the lowest row of its tree, before
    /// padding; or why it has none.
    spec fn chunk_row(&self) -> Result<Seq<Seq<u8>>, MerkleizationError>;

    /// Calculates the chunks of the value.
    fn chunks(&self) -> (chunks: Result<Vec<Node>, MerkleizationError>)
        ensures
            proof_bytes(chunks) == self.chunk_row(),
    ;
}

/// The positions on the branch of a node of a tree are nodes of the tree
/// below the root.
pub proof fn lemma_branch_stays_in_tree(index: usize, limit: nat)
    requires
        index < limit,
        limit % 2 == 0,
    ensures
        forall|k: int|
            0 <= k < branch_indices(index).len() ==> 2 <= #[trigger] branch_indices(index)[k]
                < limit,
    decreases index,
{
    if index > 1 {
        lemma_branch_stays_in_tree(index / 2, limit);
        assert forall|k: int| 0 <= k < branch_indices(index).len() implies 2
            <= #[trigger] branch_indices(index)[k] < limit by {
            if k > 0 {
                assert(branch_indices(index)[k] == branch_indices(index / 2)[k - 1]);
            }
        }
    }
}

/// A tree over a padded chunk sequence with all its nodes.
pub struct Tree {
    nodes: Vec<Node>,
}

impl Tree {
    #[verifier::type_invariant]
    closed spec fn well_formed(&self) -> bool {
        let count = self.nodes@.len() / 2;
        &&& self.nodes@.len() == 2 * count
        &&& is_power_of_two(count)
        &&& forall|g: int|
            1 <= g < 2 * count ==> (#[trigger] self.nodes@[g])@ == tree_node(
                self.leaves(),
                g as nat,
            )
    }

    /// The lowest row of the tree: the chunks it was built from and the
    /// zero chunks that pad them.
    pub closed spec fn leaves(&self) -> Seq<Seq<u8>> {
        let count = self.nodes@.len() / 2;
        node_seq(self.nodes@.subrange(count as int, 2 * count as int))
    }

    /// Builds the tree over `chunks`, padded with zero chunks to the next
    /// power of two.
    pub fn new(chunks: &[Node]) -> (tree: Tree)
        requires
            chunks.len() <= usize::MAX / 4,
        ensures
            tree.leaves() == padded_chunks(node_seq(chunks@)),
            is_power_of_two(tree.leaves().len()),
    {
        proof {
            lemma_power_of_two_ceil(chunks.len() as nat);
            lemma_power_of_two_ceil_is_near(chunks.len() as nat);
        }
        let count = get_power_of_two_ceil(chunks.len());
        let ghost leaves = padded_chunks(node_seq(chunks@));
        let zero: Node = [0u8; 32];
        assert(zero@ =~= zero_chunk());
        let mut nodes: Vec<Node> = Vec::new();
        let mut i: usize = 0;
        while i < 2 * count
            invariant
                i <= 2 * count,
                2 * count <= usize::MAX,
                chunks.len() <= count,
                leaves == padded_chunks(node_seq(chunks@)),
                leaves.len() == count,
                zero@ == zero_chunk(),
                nodes.len() == i,
                forall|g: int| count <= g < i ==> (#[trigger] nodes@[g])@ == leaves[g - count],
            decreases 2 * count - i,
        {
            if i >= count && i - count < chunks.len() {
                nodes.push(chunks[i - count]);
            } else {
                nodes.push(zero);
            }
            i += 1;
        }
        let mut g: usize = count;
        while g > 1
            invariant
                1 <= g <= count,
                leaves.len() == count,
                nodes.len() == 2 * count,
                forall|h: int| count <= h < 2 * count ==> (#[trigger] nodes@[h])@ == leaves[h - count],
                forall|h: int| g <= h < 2 * count ==> (#[trigger] nodes@[h])@ == tree_node(leaves, h as nat),
            decreases g,
        {
            g -= 1;
            let above = hash_nodes(&nodes[2 * g], &nodes[2 * g + 1]);
            nodes[g] = above;
        }
        proof {
            assert(node_seq(nodes@.subrange(count as int, 2 * count)) =~= leaves);
            assert(nodes@.len() / 2 == count);
        }
        Tree { nodes }
    }

    /// The number of leaves: a power of two.
    pub fn leaf_count(&self) -> (count: usize)
        ensures
            count == self.leaves().len(),
            is_power_of_two(count as nat),
    {
        proof {
            use_type_invariant(self);
        }
        self.nodes.len() / 2
    }

    /// The root of the tree.
    pub fn root(&self) -> (root: Node)
        ensures
            root@ == merkle_root(self.leaves()),
    {
        proof {
            use_type_invariant(self);
        }
        self.nodes[1]
    }

    /// The node at `index`. An index outside the tree is refused.
    pub fn node(&self, index: GeneralizedIndex) -> (node: Result<Node, MerkleizationError>)
        ensures
            root_bytes(node) == node_at(self.leaves(), index),
    {
        proof {
            use_type_invariant(self);
        }
        if index >= 1 && index < self.nodes.len() {
            Ok(self.nodes[index])
        } else {
            Err(MerkleizationError::InvalidGeneralizedIndex)
        }
    }

    /// The nodes at `positions`, which all address nodes of the tree.
    fn collect(&self, positions: &[GeneralizedIndex]) -> (nodes: Vec<Node>)
        requires
            forall|k: int| 0 <= k < positions.len() ==> in_tree(self.leaves(), #[trigger] positions[k]),
        ensures
            node_seq(nodes@) == nodes_at(self.leaves(), positions@),
    {
        proof {
            use_type_invariant(self);
        }
        let mut nodes: Vec<Node> = Vec::new();
        let mut k: usize = 0;
        while k < positions.len()
            invariant
                k <= positions.len(),
                nodes.len() == k,
                self.nodes@.len() == 2 * self.leaves().len(),
                forall|m: int| 0 <= m < positions.len() ==> in_tree(self.leaves(), #[trigger] positions[m]),
                forall|g: int|
                    1 <= g < self.nodes@.len() ==> (#[trigger] self.nodes@[g])@ == tree_node(
                        self.leaves(),
                        g as nat,
                    ),
                forall|m: int|
                    0 <= m < k ==> (#[trigger] nodes@[m])@ == tree_node(
                        self.leaves(),
                        positions@[m] as nat,
                    ),
            decreases positions.len() - k,
        {
            assert(in_tree(self.leaves(), positions[k as int]));
            nodes.push(self.nodes[positions[k]]);
            k += 1;
        }
        assert(node_seq(nodes@) =~= nodes_at(self.leaves(), positions@));
        nodes
    }

    /// The proof for the node at `index`: the nodes on its branch, from
    /// its sibling upwards. No proof is given for the root, nor for an
    /// index outside the tree. The proof verifies for the node, the index
    /// and the root of the tree.
    pub fn prove(&self, index: GeneralizedIndex) -> (proof: Result<Vec<Node>, MerkleizationError>)
        ensures
            proof_bytes(proof) == branch_proof(self.leaves(), index),
            proof matches Ok(branch) ==> root_verdict(
                merkle_root_of_branch(
                    tree_node(self.leaves(), index as nat),
                    node_seq(branch@),
                    index,
                ),
                merkle_root(self.leaves()),
            ) is Ok,
    {
        proof {
            use_type_invariant(self);
            if in_tree(self.leaves(), index) && index != 1 {
                lemma_proof_round_trip(self.leaves(), index);
            }
        }
        if index <= 1 || index >= self.nodes.len() {
            return Err(MerkleizationError::InvalidGeneralizedIndex);
        }
        let branch = get_branch_indices(index);
        proof {
            lemma_branch_stays_in_tree(index, self.nodes@.len());
        }
        Ok(self.collect(branch.as_slice()))
    }

    /// The multiproof for the nodes at `indices`: these nodes, and the
    /// nodes at their helper positions from the largest position to the
    /// smallest. An index outside the tree is refused. From a multiproof
    /// for at least one index, the root of the tree is calculated.
    pub fn prove_multi(&self, indices: &[GeneralizedIndex]) -> (proof: Result<
        (Vec<Node>, Vec<Node>),
        MerkleizationError,
    >)
        ensures
            multiproof_bytes(proof) == multiproof(self.leaves(), indices@),
            proof matches Ok(parts) ==> (indices.len() > 0 ==> multi_merkle_root(
                node_seq(parts.0@),
                node_seq(parts.1@),
                indices@,
            ) == Ok::<Seq<u8>, MerkleizationError>(merkle_root(self.leaves()))),
    {
        proof {
            use_type_invariant(self);
            if indices.len() > 0 && multiproof(self.leaves(), indices@) is Ok {
                lemma_multiproof_leads_to_root(self.leaves(), indices@);
            }
        }
        let mut j: usize = 0;
        while j < indices.len()
            invariant
                j <= indices.len(),
                self.nodes@.len() == 2 * self.leaves().len(),
                forall|m: int| 0 <= m < j ==> in_tree(self.leaves(), #[trigger] indices[m]),
            decreases indices.len() - j,
        {
            if indices[j] == 0 || indices[j] >= self.nodes.len() {
                assert(!in_tree(self.leaves(), indices[j as int]));
                return Err(MerkleizationError::InvalidGeneralizedIndex);
            }
            j += 1;
        }
        let helpers = get_helper_indices(indices);
        proof {
            assert forall|k: int| 0 <= k < helpers.len() implies in_tree(
                self.leaves(),
                #[trigger] helpers[k],
            ) by {
                let g = helpers[k];
                assert(helpers@.contains(g));
                assert(helper_set(indices@).contains(g));
                let w = choose|w: int|
                    0 <= w < indices.len() && #[trigger] branch_indices(indices[w]).contains(g);
                lemma_branch_stays_in_tree(indices[w], self.nodes@.len());
            }
        }
        Ok((self.collect(indices), self.collect(helpers.as_slice())))
    }
}

} // verus!
