//! What holds of proofs taken from a tree and of proofs that verify.

use super::generalized_index::{depth_of, sibling_of};
use super::multiproofs::{
    branch_indices, branch_root, helper_indices, helper_set, in_branches, known_nodes,
    merkle_root_of_branch, multi_merkle_root, on_paths, path_indices, reconstructed,
    reconstructible, record_nodes, root_verdict,
};
use super::descending::{lemma_descending_listing, strictly_descending};
use super::proofs::{
    branch_proof, in_tree, lemma_branch_stays_in_tree, multiproof, nodes_at,
};
use super::{collides, hash_pair, merkle_root, tree_node};
use vstd::prelude::*;

verus! {

/// A branch has one position for each level above its index.
pub proof fn lemma_branch_length(index: usize)
    ensures
        branch_indices(index).len() == depth_of(index),
    decreases index,
{
    if index > 1 {
        lemma_branch_length(index / 2);
    }
}

/// The nodes on the branch of a node of a tree lead from that node to the
/// root of the tree.
pub proof fn lemma_branch_leads_to_root(leaves: Seq<Seq<u8>>, index: usize)
    requires
        in_tree(leaves, index),
    ensures
        branch_root(
            tree_node(leaves, index as nat),
            nodes_at(leaves, branch_indices(index)),
            index,
        ) == merkle_root(leaves),
    decreases index,
{
    let branch = nodes_at(leaves, branch_indices(index));
    if index > 1 {
        let above = (index / 2) as usize;
        lemma_branch_leads_to_root(leaves, above);
        assert(branch.drop_first() =~= nodes_at(leaves, branch_indices(above)));
        assert(branch[0] == tree_node(leaves, sibling_of(index) as nat));
        assert(tree_node(leaves, above as nat) == hash_pair(
            tree_node(leaves, 2 * (above as nat)),
            tree_node(leaves, 2 * (above as nat) + 1),
        ));
    }
}

/// Round trip: the proof that a tree gives for one of its nodes verifies
/// against the root of the tree.
pub proof fn lemma_proof_round_trip(leaves: Seq<Seq<u8>>, index: usize)
    requires
        in_tree(leaves, index),
        index != 1,
    ensures
        branch_proof(leaves, index) is Ok,
        root_verdict(
            merkle_root_of_branch(
                tree_node(leaves, index as nat),
                branch_proof(leaves, index)->Ok_0,
                index,
            ),
            merkle_root(leaves),
        ) == Ok::<(), super::MerkleizationError>(()),
{
    lemma_branch_length(index);
    lemma_branch_leads_to_root(leaves, index);
}

/// An empty proof verifies a node against itself at the root, and against
/// nothing else.
pub proof fn lemma_root_needs_no_proof(leaf: Seq<u8>, root: Seq<u8>)
    ensures
        root_verdict(merkle_root_of_branch(leaf, Seq::empty(), 1), root) is Ok <==> leaf == root,
{
}

/// The message that is hashed at `level` of a branch: the node reached
/// there and the proof node of that level, the node at an odd index last.
pub open spec fn branch_message(
    leaf: Seq<u8>,
    proof: Seq<Seq<u8>>,
    index: usize,
    level: nat,
) -> Seq<u8>
    decreases level,
{
    let message = if index % 2 == 1 {
        proof[0] + leaf
    } else {
        leaf + proof[0]
    };
    if level == 0 {
        message
    } else {
        branch_message(
            super::sha256(message)@,
            proof.drop_first(),
            (index / 2) as usize,
            (level - 1) as nat,
        )
    }
}

/// Two branches of the same shape that lead from the same index to the
/// same node are the same branch from the same leaf, unless at some level
/// the two messages hashed there differ and have the same digest. The
/// level is returned.
pub proof fn lemma_branch_root_binds(
    leaf1: Seq<u8>,
    proof1: Seq<Seq<u8>>,
    leaf2: Seq<u8>,
    proof2: Seq<Seq<u8>>,
    index: usize,
) -> (level: nat)
    requires
        proof1.len() == proof2.len(),
        forall|i: int| 0 <= i < proof1.len() ==> proof1[i].len() == proof2[i].len(),
        leaf1 != leaf2 || proof1 != proof2,
        branch_root(leaf1, proof1, index) == branch_root(leaf2, proof2, index),
    ensures
        level < proof1.len(),
        collides(
            branch_message(leaf1, proof1, index, level),
            branch_message(leaf2, proof2, index, level),
        ),
    decreases proof1.len(),
{
    if proof1.len() == 0 {
        assert(proof1 =~= proof2);
        0
    } else {
        let message1 = if index % 2 == 1 {
            proof1[0] + leaf1
        } else {
            leaf1 + proof1[0]
        };
        let message2 = if index % 2 == 1 {
            proof2[0] + leaf2
        } else {
            leaf2 + proof2[0]
        };
        let above1 = super::sha256(message1)@;
        let above2 = super::sha256(message2)@;
        let rest1 = proof1.drop_first();
        let rest2 = proof2.drop_first();
        let above = (index / 2) as usize;
        assert(branch_root(leaf1, proof1, index) == branch_root(above1, rest1, above));
        assert(branch_root(leaf2, proof2, index) == branch_root(above2, rest2, above));
        assert forall|i: int| 0 <= i < rest1.len() implies rest1[i].len() == rest2[i].len() by {
            assert(rest1[i] == proof1[i + 1] && rest2[i] == proof2[i + 1]);
        }
        if above1 == above2 && message1 != message2 {
            assert(branch_message(leaf1, proof1, index, 0) == message1);
            assert(branch_message(leaf2, proof2, index, 0) == message2);
            0
        } else {
            if above1 == above2 {
                let width = proof1[0].len() as int;
                if index % 2 == 1 {
                    assert(message1.subrange(0, width) =~= proof1[0]);
                    assert(message2.subrange(0, width) =~= proof2[0]);
                    assert(message1.subrange(width, message1.len() as int) =~= leaf1);
                    assert(message2.subrange(width, message2.len() as int) =~= leaf2);
                } else {
                    let length = message1.len() - width;
                    assert(message1.subrange(0, length) =~= leaf1);
                    assert(message2.subrange(0, length) =~= leaf2);
                    assert(message1.subrange(length, message1.len() as int) =~= proof1[0]);
                    assert(message2.subrange(length, message2.len() as int) =~= proof2[0]);
                }
                assert(leaf1 == leaf2 && proof1[0] == proof2[0]);
                if rest1 == rest2 {
                    assert(proof1 =~= seq![proof1[0]] + rest1);
                    assert(proof2 =~= seq![proof2[0]] + rest2);
                }
            }
            let higher = lemma_branch_root_binds(above1, rest1, above2, rest2, above);
            assert(branch_message(leaf1, proof1, index, higher + 1) == branch_message(
                above1,
                rest1,
                above,
                higher,
            ));
            assert(branch_message(leaf2, proof2, index, higher + 1) == branch_message(
                above2,
                rest2,
                above,
                higher,
            ));
            higher + 1
        }
    }
}

/// Tampering shows: if a leaf and a proof verify for an index and a root,
/// and another leaf, or a proof that differs in any node, verifies for
/// them too, then at some level of the branch the two calculations hash
/// two different messages to the same digest: a collision of SHA-256.
pub proof fn lemma_tampering_needs_collision(
    leaf1: Seq<u8>,
    proof1: Seq<Seq<u8>>,
    leaf2: Seq<u8>,
    proof2: Seq<Seq<u8>>,
    index: usize,
    root: Seq<u8>,
)
    requires
        forall|i: int| 0 <= i < proof1.len() ==> proof1[i].len() == 32,
        forall|i: int| 0 <= i < proof2.len() ==> proof2[i].len() == 32,
        leaf1 != leaf2 || proof1 != proof2,
        root_verdict(merkle_root_of_branch(leaf1, proof1, index), root) is Ok,
        root_verdict(merkle_root_of_branch(leaf2, proof2, index), root) is Ok,
    ensures
        exists|level: nat|
            level < depth_of(index) && collides(
                #[trigger] branch_message(leaf1, proof1, index, level),
                branch_message(leaf2, proof2, index, level),
            ),
{
    let level = lemma_branch_root_binds(leaf1, proof1, leaf2, proof2, index);
    assert(collides(
        branch_message(leaf1, proof1, index, level),
        branch_message(leaf2, proof2, index, level),
    ));
}

/// What `record_nodes` records: each index holds the last node given for
/// it, and the other positions hold what they held.
pub proof fn lemma_record_nodes(
    base: Map<usize, Seq<u8>>,
    indices: Seq<usize>,
    nodes: Seq<Seq<u8>>,
)
    requires
        indices.len() == nodes.len(),
    ensures
        forall|g: usize|
            #[trigger] record_nodes(base, indices, nodes).contains_key(g) <==> (base.contains_key(
                g,
            ) || indices.contains(g)),
        forall|g: usize|
            base.contains_key(g) && !indices.contains(g) ==> #[trigger] record_nodes(
                base,
                indices,
                nodes,
            )[g] == base[g],
        forall|g: usize|
            #[trigger] indices.contains(g) ==> exists|j: int|
                0 <= j < indices.len() && indices[j] == g && record_nodes(base, indices, nodes)[g]
                    == #[trigger] nodes[j],
    decreases indices.len(),
{
    let recorded = record_nodes(base, indices, nodes);
    if indices.len() > 0 {
        let fewer = indices.drop_last();
        let before = record_nodes(base, fewer, nodes.drop_last());
        lemma_record_nodes(base, fewer, nodes.drop_last());
        assert forall|g: usize| indices.contains(g) <==> (fewer.contains(g) || g
            == indices.last()) by {
            if indices.contains(g) {
                let j = choose|j: int| 0 <= j < indices.len() && indices[j] == g;
                if j < fewer.len() {
                    assert(fewer[j] == g);
                }
            }
            if fewer.contains(g) {
                let j = choose|j: int| 0 <= j < fewer.len() && fewer[j] == g;
                assert(indices[j] == g);
            }
            if g == indices.last() {
                assert(indices[indices.len() - 1] == g);
            }
        }
        assert forall|g: usize| #[trigger]
            recorded.contains_key(g) <==> (base.contains_key(g) || indices.contains(g)) by {
            assert(recorded.contains_key(g) <==> (before.contains_key(g) || g == indices.last()));
            assert(before.contains_key(g) <==> (base.contains_key(g) || fewer.contains(g)));
        }
        assert forall|g: usize| base.contains_key(g) && !indices.contains(g) implies recorded[g]
            == base[g] by {
            assert(recorded[g] == before[g]);
        }
        assert forall|g: usize| indices.contains(g) implies exists|j: int|
            0 <= j < indices.len() && indices[j] == g && recorded[g] == #[trigger] nodes[j] by {
            if g == indices.last() {
                assert(recorded[g] == nodes[indices.len() - 1]);
            } else {
                let j = choose|j: int|
                    0 <= j < fewer.len() && fewer[j] == g && before[g]
                        == #[trigger] nodes.drop_last()[j];
                assert(recorded[g] == nodes[j]);
            }
        }
    } else {
        assert forall|g: usize| !indices.contains(g) by {}
    }
}

/// The positions on a path are nodes, the root among them.
pub proof fn lemma_path_reaches_root(index: usize)
    requires
        index >= 1,
    ensures
        path_indices(index).contains(1),
        path_indices(index).contains(index),
        forall|k: int| 0 <= k < path_indices(index).len() ==> path_indices(index)[k] >= 1,
    decreases index,
{
    let path = path_indices(index);
    assert(path[0] == index);
    if index > 1 {
        let above = (index / 2) as usize;
        lemma_path_reaches_root(above);
        let k = choose|k: int| 0 <= k < path_indices(above).len() && path_indices(above)[k] == 1;
        assert(path[k + 1] == 1);
        assert forall|k: int| 0 <= k < path.len() implies path[k] >= 1 by {
            if k > 0 {
                assert(path[k] == path_indices(above)[k - 1]);
            }
        }
    }
}

/// A position on the path of `index`, other than `index` itself, has a
/// child on that path, and the sibling of that child is on the branch of
/// `index`.
pub proof fn lemma_path_has_child(index: usize, g: usize) -> (child: usize)
    requires
        path_indices(index).contains(g),
        g != index,
    ensures
        child >= 2,
        child / 2 == g,
        path_indices(index).contains(child),
        branch_indices(index).contains(sibling_of(child)),
    decreases index,
{
    let path = path_indices(index);
    let branch = branch_indices(index);
    let k = choose|k: int| 0 <= k < path.len() && path[k] == g;
    assert(index >= 2);
    let above = (index / 2) as usize;
    assert(path_indices(above)[k - 1] == g);
    if g == above {
        assert(path[0] == index);
        assert(branch[0] == sibling_of(index));
        index
    } else {
        let child = lemma_path_has_child(above, g);
        let at = choose|at: int|
            0 <= at < path_indices(above).len() && path_indices(above)[at] == child;
        assert(path[at + 1] == child);
        let beside = choose|beside: int|
            0 <= beside < branch_indices(above).len() && branch_indices(above)[beside]
                == sibling_of(child);
        assert(branch[beside + 1] == sibling_of(child));
        child
    }
}

/// Where the indices and their helper positions are known, every node on
/// the path of an index can be reconstructed.
pub proof fn lemma_paths_are_reconstructible(
    known: Map<usize, Seq<u8>>,
    indices: Seq<usize>,
    g: usize,
)
    requires
        forall|j: int| 0 <= j < indices.len() ==> known.contains_key(#[trigger] indices[j]),
        forall|h: usize| helper_set(indices).contains(h) ==> known.contains_key(h),
        on_paths(indices, g),
    ensures
        reconstructible(known, g),
    decreases usize::MAX - g,
{
    let w = choose|w: int|
        0 <= w < indices.len() && #[trigger] path_indices(indices[w]).contains(g);
    let target = indices[w];
    if g != target {
        let child = lemma_path_has_child(target, g);
        let beside = sibling_of(child);
        lemma_path_reaches_root(target);
        assert(g >= 1) by {
            let k = choose|k: int|
                0 <= k < path_indices(target).len() && path_indices(target)[k] == g;
        }
        assert(on_paths(indices, child));
        lemma_paths_are_reconstructible(known, indices, child);
        assert(in_branches(indices, beside));
        if on_paths(indices, beside) {
            lemma_paths_are_reconstructible(known, indices, beside);
        } else {
            assert(helper_set(indices).contains(beside));
        }
        assert(reconstructible(known, (2 * g) as usize));
        assert(reconstructible(known, (2 * g + 1) as usize));
    }
}

/// Where every known node is the node of a tree at its position, every
/// node that can be reconstructed is the node of that tree at its
/// position.
pub proof fn lemma_reconstructed_is_tree_node(
    leaves: Seq<Seq<u8>>,
    known: Map<usize, Seq<u8>>,
    g: usize,
)
    requires
        forall|k: usize|
            known.contains_key(k) ==> in_tree(leaves, k) && known[k] == tree_node(leaves, k as nat),
        reconstructible(known, g),
    ensures
        in_tree(leaves, g),
        reconstructed(known, g) == tree_node(leaves, g as nat),
    decreases usize::MAX - g,
{
    if !known.contains_key(g) {
        lemma_reconstructed_is_tree_node(leaves, known, (2 * g) as usize);
        lemma_reconstructed_is_tree_node(leaves, known, (2 * g + 1) as usize);
    }
}

/// Where no node is known, no node can be reconstructed.
proof fn lemma_nothing_from_nothing(known: Map<usize, Seq<u8>>, g: usize)
    requires
        forall|k: usize| known.contains_key(k) ==> k == 0,
        g >= 1,
    ensures
        !reconstructible(known, g),
    decreases usize::MAX - g,
{
    if 2 * g + 1 <= usize::MAX {
        lemma_nothing_from_nothing(known, (2 * g) as usize);
    }
}

/// The positions that a multiproof makes known: the indices and their
/// helper positions.
pub proof fn lemma_known_positions(
    leaves: Seq<Seq<u8>>,
    proof: Seq<Seq<u8>>,
    indices: Seq<usize>,
)
    requires
        leaves.len() == indices.len(),
        proof.len() == helper_indices(indices).len(),
    ensures
        forall|g: usize|
            #[trigger] known_nodes(leaves, proof, indices).contains_key(g) <==> (indices.contains(
                g,
            ) || helper_set(indices).contains(g)),
{
    let seeded = record_nodes(Map::empty(), indices, leaves);
    let known = known_nodes(leaves, proof, indices);
    lemma_descending_listing(helper_set(indices));
    lemma_record_nodes(Map::empty(), indices, leaves);
    lemma_record_nodes(seeded, helper_indices(indices), proof);
    assert forall|g: usize| #[trigger]
        known.contains_key(g) <==> (indices.contains(g) || helper_set(indices).contains(g)) by {
        assert(seeded.contains_key(g) <==> indices.contains(g));
        assert(helper_indices(indices).contains(g) <==> helper_set(indices).contains(g));
    }
}

/// A root is owed to every multiproof of the right shape: the calculation
/// succeeds if and only if there is a leaf for each index, at least one
/// index and none that is 0, and a proof node for each helper position.
pub proof fn lemma_multi_merkle_root_is_owed(
    leaves: Seq<Seq<u8>>,
    proof: Seq<Seq<u8>>,
    indices: Seq<usize>,
)
    ensures
        multi_merkle_root(leaves, proof, indices) is Ok <==> (leaves.len() == indices.len()
            && indices.len() > 0 && !indices.contains(0) && proof.len() == helper_indices(
            indices,
        ).len()),
{
    if leaves.len() == indices.len() && !indices.contains(0) && proof.len() == helper_indices(
        indices,
    ).len() {
        let known = known_nodes(leaves, proof, indices);
        lemma_known_positions(leaves, proof, indices);
        if indices.len() > 0 {
            assert(indices.contains(indices[0]));
            lemma_path_reaches_root(indices[0]);
            assert(on_paths(indices, 1));
            assert forall|i: int| 0 <= i < indices.len() implies known.contains_key(
                #[trigger] indices[i],
            ) by {
                assert(indices.contains(indices[i]));
            }
            assert forall|h: usize| helper_set(indices).contains(h) implies known.contains_key(
                h,
            ) by {
                assert(known.contains_key(h) <==> (indices.contains(h) || helper_set(
                    indices,
                ).contains(h)));
            }
            lemma_paths_are_reconstructible(known, indices, 1);
        } else {
            assert forall|k: usize| known.contains_key(k) implies k == 0 by {
                assert(!indices.contains(k));
                assert(!helper_set(indices).contains(k));
            }
            lemma_nothing_from_nothing(known, 1);
        }
    }
}

/// A multiproof taken from a tree leads to the root of the tree: from the
/// nodes at the indices and the nodes at their helper positions, the
/// calculation gives the root that the whole tree has.
pub proof fn lemma_multiproof_leads_to_root(leaves: Seq<Seq<u8>>, indices: Seq<usize>)
    requires
        indices.len() > 0,
        forall|j: int| 0 <= j < indices.len() ==> in_tree(leaves, #[trigger] indices[j]),
    ensures
        multiproof(leaves, indices) is Ok,
        multi_merkle_root(
            multiproof(leaves, indices)->Ok_0.0,
            multiproof(leaves, indices)->Ok_0.1,
            indices,
        ) == Ok::<Seq<u8>, super::MerkleizationError>(merkle_root(leaves)),
{
    let helpers = helper_indices(indices);
    let given = nodes_at(leaves, indices);
    let helping = nodes_at(leaves, helpers);
    let seeded = record_nodes(Map::empty(), indices, given);
    let known = known_nodes(given, helping, indices);
    lemma_descending_listing(helper_set(indices));
    lemma_record_nodes(Map::empty(), indices, given);
    lemma_record_nodes(seeded, helpers, helping);
    assert forall|k: usize| known.contains_key(k) implies in_tree(leaves, k) && known[k]
        == tree_node(leaves, k as nat) by {
        if helpers.contains(k) {
            let j = choose|j: int|
                0 <= j < helpers.len() && helpers[j] == k && known[k] == #[trigger] helping[j];
            assert(helper_set(indices).contains(k));
            let w = choose|w: int|
                0 <= w < indices.len() && #[trigger] branch_indices(indices[w]).contains(k);
            lemma_branch_stays_in_tree(indices[w], 2 * leaves.len());
        } else {
            assert(known[k] == seeded[k]);
            assert(indices.contains(k));
            let j = choose|j: int|
                0 <= j < indices.len() && indices[j] == k && seeded[k] == #[trigger] given[j];
        }
    }
    assert(!indices.contains(0)) by {
        if indices.contains(0) {
            let j = choose|j: int| 0 <= j < indices.len() && indices[j] == 0;
            assert(in_tree(leaves, indices[j]));
        }
    }
    lemma_multi_merkle_root_is_owed(given, helping, indices);
    lemma_reconstructed_is_tree_node(leaves, known, 1);
}

/// Whether the reconstruction of the node at `g` reads the known node at
/// `k`: the reconstruction goes down from `g` and stops at known nodes.
pub open spec fn reads(known: Map<usize, Seq<u8>>, g: usize, k: usize) -> bool
    decreases usize::MAX - g,
{
    if known.contains_key(g) {
        k == g
    } else if 1 <= g && 2 * g + 1 <= usize::MAX {
        reads(known, (2 * g) as usize, k) || reads(known, (2 * g + 1) as usize, k)
    } else {
        false
    }
}

/// Whether no index is on the path of another one: no index is repeated,
/// and none is an ancestor of another.
pub open spec fn unrelated(indices: Seq<usize>) -> bool {
    forall|i: int, j: int|
        0 <= i < indices.len() && 0 <= j < indices.len() && i != j ==> !path_indices(
            #[trigger] indices[j],
        ).contains(#[trigger] indices[i])
}

/// Whether each of `nodes` has 32 bytes.
pub open spec fn all_chunks(nodes: Seq<Seq<u8>>) -> bool {
    forall|i: int| 0 <= i < nodes.len() ==> (#[trigger] nodes[i]).len() == 32
}

/// Whether a node can be reconstructed depends on the known positions
/// alone.
proof fn lemma_reconstructible_by_positions(
    known1: Map<usize, Seq<u8>>,
    known2: Map<usize, Seq<u8>>,
    g: usize,
)
    requires
        forall|k: usize| known1.contains_key(k) <==> known2.contains_key(k),
        reconstructible(known1, g),
    ensures
        reconstructible(known2, g),
    decreases usize::MAX - g,
{
    if !known1.contains_key(g) {
        lemma_reconstructible_by_positions(known1, known2, (2 * g) as usize);
        lemma_reconstructible_by_positions(known1, known2, (2 * g + 1) as usize);
    }
}

/// A node reconstructed from chunks is a chunk.
proof fn lemma_reconstructed_is_chunk(known: Map<usize, Seq<u8>>, g: usize)
    requires
        forall|k: usize| known.contains_key(k) ==> (#[trigger] known[k]).len() == 32,
        reconstructible(known, g),
    ensures
        reconstructed(known, g).len() == 32,
{
}

/// The message that the reconstruction hashes for the node at `g`: the
/// nodes of its two children.
pub open spec fn reconstruction_message(known: Map<usize, Seq<u8>>, g: usize) -> Seq<u8> {
    reconstructed(known, (2 * g) as usize) + reconstructed(known, (2 * g + 1) as usize)
}

/// Whether the reconstruction of the node at `g` hashes the node at `p`:
/// it hashes each node that is not known, from `g` down to the known
/// nodes.
pub open spec fn hashes(known: Map<usize, Seq<u8>>, g: usize, p: usize) -> bool
    decreases usize::MAX - g,
{
    !known.contains_key(g) && 1 <= g && 2 * g + 1 <= usize::MAX && (p == g || hashes(
        known,
        (2 * g) as usize,
        p,
    ) || hashes(known, (2 * g + 1) as usize, p))
}

/// Two tables of known nodes at the same positions that give the same
/// node at `g` hold the same node wherever the reconstruction of `g`
/// reads one, unless there is a position, which is returned, where the
/// two reconstructions hash two different messages to the same digest.
pub proof fn lemma_reconstruction_binds(
    known1: Map<usize, Seq<u8>>,
    known2: Map<usize, Seq<u8>>,
    g: usize,
) -> (position: Option<usize>)
    requires
        forall|k: usize| known1.contains_key(k) <==> known2.contains_key(k),
        forall|k: usize| known1.contains_key(k) ==> (#[trigger] known1[k]).len() == 32,
        forall|k: usize| known2.contains_key(k) ==> (#[trigger] known2[k]).len() == 32,
        reconstructible(known1, g),
        reconstructed(known1, g) == reconstructed(known2, g),
    ensures
        match position {
            Some(p) => hashes(known1, g, p) && hashes(known2, g, p) && collides(
                reconstruction_message(known1, p),
                reconstruction_message(known2, p),
            ),
            None => forall|k: usize| reads(known1, g, k) ==> known1[k] == known2[k],
        },
    decreases usize::MAX - g,
{
    if known1.contains_key(g) {
        None
    } else {
        let left = (2 * g) as usize;
        let right = (2 * g + 1) as usize;
        lemma_reconstructible_by_positions(known1, known2, left);
        lemma_reconstructible_by_positions(known1, known2, right);
        lemma_reconstructed_is_chunk(known1, left);
        lemma_reconstructed_is_chunk(known1, right);
        lemma_reconstructed_is_chunk(known2, left);
        lemma_reconstructed_is_chunk(known2, right);
        let left1 = reconstructed(known1, left);
        let right1 = reconstructed(known1, right);
        let left2 = reconstructed(known2, left);
        let right2 = reconstructed(known2, right);
        let message1 = left1 + right1;
        let message2 = left2 + right2;
        if message1 != message2 {
            assert(collides(message1, message2));
            Some(g)
        } else {
            assert(message1.subrange(0, 32) =~= left1);
            assert(message2.subrange(0, 32) =~= left2);
            assert(message1.subrange(32, 64) =~= right1);
            assert(message2.subrange(32, 64) =~= right2);
            let below_left = lemma_reconstruction_binds(known1, known2, left);
            let below_right = lemma_reconstruction_binds(known1, known2, right);
            if below_left is Some {
                below_left
            } else {
                below_right
            }
        }
    }
}

/// The positions on a path are not beyond its index.
proof fn lemma_path_goes_up(index: usize)
    ensures
        forall|k: int| 0 <= k < path_indices(index).len() ==> path_indices(index)[k] <= index,
    decreases index,
{
    if index > 1 {
        let above = (index / 2) as usize;
        lemma_path_goes_up(above);
        assert forall|k: int| 0 <= k < path_indices(index).len() implies path_indices(index)[k]
            <= index by {
            if k > 0 {
                assert(path_indices(index)[k] == path_indices(above)[k - 1]);
            }
        }
    }
}

/// What is on the path of the parent is on the path of the child.
proof fn lemma_path_holds_path_above(index: usize, g: usize)
    requires
        index >= 2,
        path_indices((index / 2) as usize).contains(g),
    ensures
        path_indices(index).contains(g),
        g != index,
{
    let above = (index / 2) as usize;
    let k = choose|k: int| 0 <= k < path_indices(above).len() && path_indices(above)[k] == g;
    assert(path_indices(index)[k + 1] == g);
    lemma_path_goes_up(above);
}

/// The nodes above a node on the branch of `index` are above `index`.
proof fn lemma_above_branch_is_on_path(index: usize, beside: usize, g: usize)
    requires
        branch_indices(index).contains(beside),
        path_indices(beside).contains(g),
        g != beside,
    ensures
        path_indices(index).contains(g),
        g != index,
    decreases index,
{
    let branch = branch_indices(index);
    let k = choose|k: int| 0 <= k < branch.len() && branch[k] == beside;
    let above = (index / 2) as usize;
    if k == 0 {
        let at = choose|at: int|
            0 <= at < path_indices(beside).len() && path_indices(beside)[at] == g;
        assert(beside == sibling_of(index));
        assert(beside / 2 == above);
        assert(path_indices(above)[at - 1] == g);
    } else {
        assert(branch_indices(above)[k - 1] == beside);
        lemma_above_branch_is_on_path(above, beside, g);
    }
    lemma_path_holds_path_above(index, g);
}

/// The reconstruction of a node on the path of a known node reads that
/// node, where none of the nodes above it is known.
pub proof fn lemma_unshadowed_is_read(known: Map<usize, Seq<u8>>, k: usize, g: usize)
    requires
        known.contains_key(k),
        forall|a: usize| path_indices(k).contains(a) && a != k ==> !known.contains_key(a),
        path_indices(k).contains(g),
    ensures
        reads(known, g, k),
    decreases usize::MAX - g,
{
    if g != k {
        let child = lemma_path_has_child(k, g);
        lemma_unshadowed_is_read(known, k, child);
        assert(k >= 1);
        lemma_path_reaches_root(k);
        let at = choose|at: int| 0 <= at < path_indices(k).len() && path_indices(k)[at] == g;
        assert(g >= 1);
        assert(child == 2 * g || child == 2 * g + 1);
    }
}

/// Where no index is on the path of another, the reconstruction of the
/// root reads every leaf and every proof node of a multiproof.
pub proof fn lemma_multiproof_is_read(
    leaves: Seq<Seq<u8>>,
    proof: Seq<Seq<u8>>,
    indices: Seq<usize>,
    k: usize,
)
    requires
        leaves.len() == indices.len(),
        proof.len() == helper_indices(indices).len(),
        unrelated(indices),
        forall|j: int| 0 <= j < indices.len() ==> #[trigger] indices[j] >= 1,
        known_nodes(leaves, proof, indices).contains_key(k),
    ensures
        reads(known_nodes(leaves, proof, indices), 1, k),
{
    let known = known_nodes(leaves, proof, indices);
    lemma_known_positions(leaves, proof, indices);
    assert(indices.contains(k) || helper_set(indices).contains(k));
    assert forall|a: usize| path_indices(k).contains(a) && a != k implies !known.contains_key(
        a,
    ) by {
        // `a` is above one of the indices, so it is no helper; were it an
        // index, it would be on the path of another one
        let target = if indices.contains(k) {
            let j = choose|j: int| 0 <= j < indices.len() && indices[j] == k;
            j
        } else {
            let w = choose|w: int|
                0 <= w < indices.len() && #[trigger] branch_indices(indices[w]).contains(k);
            lemma_above_branch_is_on_path(indices[w], k, a);
            w
        };
        assert(path_indices(indices[target]).contains(a) && a != indices[target]);
        assert(on_paths(indices, a));
        if indices.contains(a) {
            let i = choose|i: int| 0 <= i < indices.len() && indices[i] == a;
            assert(i != target);
        }
    }
    assert(k >= 1) by {
        if indices.contains(k) {
            let j = choose|j: int| 0 <= j < indices.len() && indices[j] == k;
        } else {
            let w = choose|w: int|
                0 <= w < indices.len() && #[trigger] branch_indices(indices[w]).contains(k);
            lemma_branch_stays_in_tree(indices[w], (usize::MAX + 1) as nat);
            let at = choose|at: int|
                0 <= at < branch_indices(indices[w]).len() && branch_indices(indices[w])[at] == k;
        }
    }
    lemma_path_reaches_root(k);
    lemma_unshadowed_is_read(known, k, 1);
}

/// Tampering with a multiproof shows: where no index is on the path of
/// another index, and some leaves and proof nodes verify for the indices
/// and a root, and other leaves or other proof nodes verify for them too,
/// then at some position the two reconstructions of the root hash two
/// different messages to the same digest: a collision of SHA-256.
pub proof fn lemma_multiproof_tampering_needs_collision(
    leaves1: Seq<Seq<u8>>,
    proof1: Seq<Seq<u8>>,
    leaves2: Seq<Seq<u8>>,
    proof2: Seq<Seq<u8>>,
    indices: Seq<usize>,
    root: Seq<u8>,
)
    requires
        all_chunks(leaves1),
        all_chunks(proof1),
        all_chunks(leaves2),
        all_chunks(proof2),
        unrelated(indices),
        leaves1 != leaves2 || proof1 != proof2,
        root_verdict(multi_merkle_root(leaves1, proof1, indices), root) is Ok,
        root_verdict(multi_merkle_root(leaves2, proof2, indices), root) is Ok,
    ensures
        exists|p: usize| #[trigger]
            hashes(known_nodes(leaves1, proof1, indices), 1, p) && hashes(
                known_nodes(leaves2, proof2, indices),
                1,
                p,
            ) && collides(
                reconstruction_message(known_nodes(leaves1, proof1, indices), p),
                reconstruction_message(known_nodes(leaves2, proof2, indices), p),
            ),
{
    assert forall|j: int| 0 <= j < indices.len() implies #[trigger] indices[j] >= 1 by {
        assert(indices.contains(indices[j]));
    }
    let helpers = helper_indices(indices);
    let seeded1 = record_nodes(Map::empty(), indices, leaves1);
    let seeded2 = record_nodes(Map::empty(), indices, leaves2);
    let known1 = known_nodes(leaves1, proof1, indices);
    let known2 = known_nodes(leaves2, proof2, indices);
    lemma_descending_listing(helper_set(indices));
    lemma_known_positions(leaves1, proof1, indices);
    lemma_known_positions(leaves2, proof2, indices);
    lemma_record_nodes(Map::empty(), indices, leaves1);
    lemma_record_nodes(Map::empty(), indices, leaves2);
    lemma_record_nodes(seeded1, helpers, proof1);
    lemma_record_nodes(seeded2, helpers, proof2);
    // what stands at an index is its leaf, what stands at a helper
    // position is its proof node
    assert forall|j: int| 0 <= j < indices.len() implies known1[#[trigger] indices[j]]
        == leaves1[j] && known2[indices[j]] == leaves2[j] by {
        let k = indices[j];
        assert(indices.contains(k));
        lemma_path_reaches_root(k);
        assert(on_paths(indices, k));
        assert(!helpers.contains(k));
        assert(known1[k] == seeded1[k] && known2[k] == seeded2[k]);
        let j1 = choose|j1: int|
            0 <= j1 < indices.len() && indices[j1] == k && seeded1[k] == #[trigger] leaves1[j1];
        let j2 = choose|j2: int|
            0 <= j2 < indices.len() && indices[j2] == k && seeded2[k] == #[trigger] leaves2[j2];
        assert(j1 == j && j2 == j);
    }
    assert forall|j: int| 0 <= j < helpers.len() implies known1[#[trigger] helpers[j]]
        == proof1[j] && known2[helpers[j]] == proof2[j] by {
        let k = helpers[j];
        assert(helpers.contains(k));
        let j1 = choose|j1: int|
            0 <= j1 < helpers.len() && helpers[j1] == k && known1[k] == #[trigger] proof1[j1];
        let j2 = choose|j2: int|
            0 <= j2 < helpers.len() && helpers[j2] == k && known2[k] == #[trigger] proof2[j2];
        assert(strictly_descending(helpers));
        assert(j1 == j && j2 == j);
    }
    assert forall|k: usize| known1.contains_key(k) implies (#[trigger] known1[k]).len() == 32
        && known2[k].len() == 32 by {
        if helpers.contains(k) {
            let j = choose|j: int| 0 <= j < helpers.len() && helpers[j] == k;
            assert(known1[helpers[j]] == proof1[j]);
        } else {
            assert(indices.contains(k));
            let j = choose|j: int| 0 <= j < indices.len() && indices[j] == k;
            assert(known1[indices[j]] == leaves1[j]);
        }
    }
    assert forall|k: usize| known2.contains_key(k) implies (#[trigger] known2[k]).len() == 32 by {
        assert(known1.contains_key(k));
        assert(known1[k].len() == 32);
    }
    let position = lemma_reconstruction_binds(known1, known2, 1);
    if position is None {
        assert forall|j: int| 0 <= j < indices.len() implies leaves1[j] == leaves2[j] by {
            assert(indices.contains(indices[j]));
            lemma_multiproof_is_read(leaves1, proof1, indices, indices[j]);
        }
        assert forall|j: int| 0 <= j < helpers.len() implies proof1[j] == proof2[j] by {
            assert(helpers.contains(helpers[j]));
            lemma_multiproof_is_read(leaves1, proof1, indices, helpers[j]);
        }
        assert(leaves1 =~= leaves2);
        assert(proof1 =~= proof2);
    } else {
        assert(hashes(known1, 1, position->Some_0));
    }
}

} // verus!
