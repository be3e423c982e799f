//! Merkle proofs for one leaf and for several leaves at once.

use super::descending::{
    descending_listing, insert_descending, lemma_descending_listing, lists_descending,
    strictly_descending,
};
use super::generalized_index::{
    ancestor_of, depth_of, get_bit, get_path_length, lemma_ancestor_step, parent, sibling,
    sibling_of, GeneralizedIndex,
};
use super::theorems::lemma_multi_merkle_root_is_owed;
use super::{hash_nodes, hash_pair, node_seq, nodes_equal, MerkleizationError, Node};
use std::collections::{HashMap, HashSet};
use vstd::prelude::*;
use vstd::set_lib::{lemma_len_subset, range_set_properties};
use vstd::std_specs::hash::group_hash_axioms;

verus! {

/// The positions whose nodes lead from `index` to the root: the sibling of
/// `index`, then the sibling of each ancestor below the root, upwards.
pub open spec fn branch_indices(index: usize) -> Seq<usize>
    decreases index,
{
    if index <= 1 {
        Seq::empty()
    } else {
        seq![sibling_of(index)] + branch_indices(index / 2)
    }
}

/// The positions on the way from `index` to the root: `index`, then each
/// of its ancestors, the root last. The index 0 is on no path.
pub open spec fn path_indices(index: usize) -> Seq<usize>
    decreases index,
{
    if index == 0 {
        Seq::empty()
    } else if index == 1 {
        seq![1usize]
    } else {
        seq![index] + path_indices(index / 2)
    }
}

/// The node that a branch leads to: starting from `leaf` at `index`, each
/// node of `proof` is hashed in on the side that the index gives, the node
/// at an odd index being the right operand.
pub open spec fn branch_root(leaf: Seq<u8>, proof: Seq<Seq<u8>>, index: usize) -> Seq<u8>
    decreases proof.len(),
{
    if proof.len() == 0 {
        leaf
    } else {
        let above = if index % 2 == 1 {
            hash_pair(proof[0], leaf)
        } else {
            hash_pair(leaf, proof[0])
        };
        branch_root(above, proof.drop_first(), index / 2)
    }
}

/// What `calculate_merkle_root` gives: the root that the branch leads to,
/// where `index` is a node and the proof has one node per level above it.
pub open spec fn merkle_root_of_branch(
    leaf: Seq<u8>,
    proof: Seq<Seq<u8>>,
    index: usize,
) -> Result<Seq<u8>, MerkleizationError> {
    if index == 0 {
        Err(MerkleizationError::InvalidGeneralizedIndex)
    } else if proof.len() != depth_of(index) {
        Err(MerkleizationError::InvalidProof)
    } else {
        Ok(branch_root(leaf, proof, index))
    }
}

/// Whether a calculated root, or the refusal to calculate one, bears out
/// the claimed `root`.
pub open spec fn root_verdict(
    calculated: Result<Seq<u8>, MerkleizationError>,
    root: Seq<u8>,
) -> Result<(), MerkleizationError> {
    match calculated {
        Ok(node) => if node == root {
            Ok(())
        } else {
            Err(MerkleizationError::InvalidProof)
        },
        Err(error) => Err(error),
    }
}

/// The byte string of a calculated root, errors kept.
pub open spec fn root_bytes(calculated: Result<Node, MerkleizationError>) -> Result<
    Seq<u8>,
    MerkleizationError,
> {
    match calculated {
        Ok(node) => Ok(node@),
        Err(error) => Err(error),
    }
}

/// The positions of the nodes needed beside the node at `tree_index` to
/// calculate the root.
pub fn get_branch_indices(tree_index: GeneralizedIndex) -> (branch: Vec<GeneralizedIndex>)
    ensures
        branch@ == branch_indices(tree_index),
{
    let mut branch: Vec<GeneralizedIndex> = Vec::new();
    let mut focus = tree_index;
    while focus > 1
        invariant
            branch@ + branch_indices(focus) == branch_indices(tree_index),
        decreases focus,
    {
        assert(branch@.push(sibling_of(focus)) + branch_indices(focus / 2) =~= branch@
            + branch_indices(focus));
        branch.push(sibling(focus));
        focus = parent(focus);
    }
    assert(branch@ + branch_indices(focus) =~= branch@);
    branch
}

/// The positions of the nodes between the node at `tree_index` and the
/// root, both included.
pub fn get_path_indices(tree_index: GeneralizedIndex) -> (path: Vec<GeneralizedIndex>)
    ensures
        path@ == path_indices(tree_index),
{
    let mut path: Vec<GeneralizedIndex> = Vec::new();
    if tree_index == 0 {
        return path;
    }
    let mut focus = tree_index;
    while focus > 1
        invariant
            focus >= 1,
            path@ + path_indices(focus) == path_indices(tree_index),
        decreases focus,
    {
        assert(path@.push(focus) + path_indices(focus / 2) =~= path@ + path_indices(focus));
        path.push(focus);
        focus = parent(focus);
    }
    assert(path@.push(1usize) =~= path@ + path_indices(focus));
    path.push(focus);
    path
}

/// Calculates the root that `leaf` at `index` and its branch `proof` lead
/// to. Refuses the index 0, and a proof that has not one node for each
/// level above `index`.
pub fn calculate_merkle_root(leaf: Node, proof: &[Node], index: GeneralizedIndex) -> (root: Result<
    Node,
    MerkleizationError,
>)
    ensures
        root_bytes(root) == merkle_root_of_branch(leaf@, node_seq(proof@), index),
{
    let path_length = match get_path_length(index) {
        Ok(length) => length,
        Err(error) => {
            return Err(error);
        },
    };
    if path_length != proof.len() {
        return Err(MerkleizationError::InvalidProof);
    }
    let mut result = leaf;
    let mut i: usize = 0;
    assert(node_seq(proof@).skip(0) =~= node_seq(proof@));
    while i < proof.len()
        invariant
            i <= proof.len(),
            branch_root(result@, node_seq(proof@).skip(i as int), ancestor_of(index, i as nat))
                == branch_root(leaf@, node_seq(proof@), index),
        decreases proof.len() - i,
    {
        proof {
            lemma_ancestor_step(index, i as nat);
            assert(node_seq(proof@).skip(i as int).drop_first() =~= node_seq(proof@).skip(
                i as int + 1,
            ));
        }
        let next = &proof[i];
        if get_bit(index, i) {
            result = hash_nodes(next, &result);
        } else {
            result = hash_nodes(&result, next);
        }
        i += 1;
    }
    Ok(result)
}

/// Compares a calculated root with the claimed one.
pub fn check_root(calculated: Result<Node, MerkleizationError>, root: &Node) -> (verdict: Result<
    (),
    MerkleizationError,
>)
    ensures
        verdict == root_verdict(root_bytes(calculated), root@),
{
    match calculated {
        Ok(node) => {
            if nodes_equal(&node, root) {
                Ok(())
            } else {
                Err(MerkleizationError::InvalidProof)
            }
        },
        Err(error) => Err(error),
    }
}

/// Verifies that `leaf` stands at `index` in the tree with the root
/// `root`, by the branch `proof`. The verdict is a function of the four
/// arguments: the same question always has the same answer.
pub fn verify_merkle_proof(
    leaf: Node,
    proof: &[Node],
    index: GeneralizedIndex,
    root: Node,
) -> (verdict: Result<(), MerkleizationError>)
    ensures
        verdict == root_verdict(merkle_root_of_branch(leaf@, node_seq(proof@), index), root@),
{
    check_root(calculate_merkle_root(leaf, proof, index), &root)
}

/// Whether `g` is on the branch of one of `indices`.
pub open spec fn in_branches(indices: Seq<usize>, g: usize) -> bool {
    exists|j: int| 0 <= j < indices.len() && #[trigger] branch_indices(indices[j]).contains(g)
}

/// Whether `g` is on the path from one of `indices` to the root.
pub open spec fn on_paths(indices: Seq<usize>, g: usize) -> bool {
    exists|j: int| 0 <= j < indices.len() && #[trigger] path_indices(indices[j]).contains(g)
}

/// The positions of the nodes that a multiproof for `indices` has to
/// supply: those on the branch of some index and on the path of none.
pub open spec fn helper_set(indices: Seq<usize>) -> Set<usize> {
    Set::new(|g: usize| in_branches(indices, g) && !on_paths(indices, g))
}

/// The helper positions in the order of the proof: from the largest to
/// the smallest.
pub open spec fn helper_indices(indices: Seq<usize>) -> Seq<usize> {
    descending_listing(helper_set(indices))
}

/// `base` with each of `nodes` recorded at its index, in order: a later
/// node replaces an earlier one at the same index.
pub open spec fn record_nodes(
    base: Map<usize, Seq<u8>>,
    indices: Seq<usize>,
    nodes: Seq<Seq<u8>>,
) -> Map<usize, Seq<u8>>
    decreases indices.len(),
{
    if indices.len() == 0 || nodes.len() == 0 {
        base
    } else {
        record_nodes(base, indices.drop_last(), nodes.drop_last()).insert(
            indices.last(),
            nodes.last(),
        )
    }
}

/// The nodes that a multiproof makes known: the leaves at their indices
/// and the proof nodes at the helper positions.
pub open spec fn known_nodes(
    leaves: Seq<Seq<u8>>,
    proof: Seq<Seq<u8>>,
    indices: Seq<usize>,
) -> Map<usize, Seq<u8>> {
    record_nodes(record_nodes(Map::empty(), indices, leaves), helper_indices(indices), proof)
}

/// Whether the node at `g` is known or can be hashed from nodes below it
/// that are.
pub open spec fn reconstructible(known: Map<usize, Seq<u8>>, g: usize) -> bool
    decreases usize::MAX - g,
{
    known.contains_key(g) || (1 <= g && 2 * g + 1 <= usize::MAX && reconstructible(
        known,
        (2 * g) as usize,
    ) && reconstructible(known, (2 * g + 1) as usize))
}

/// The node at `g` as the known nodes give it: the known node where there
/// is one, else the hash of the two nodes below.
pub open spec fn reconstructed(known: Map<usize, Seq<u8>>, g: usize) -> Seq<u8>
    decreases usize::MAX - g,
{
    if known.contains_key(g) {
        known[g]
    } else if 1 <= g && 2 * g + 1 <= usize::MAX {
        hash_pair(
            reconstructed(known, (2 * g) as usize),
            reconstructed(known, (2 * g + 1) as usize),
        )
    } else {
        Seq::empty()
    }
}

/// What `calculate_multi_merkle_root` gives. A multiproof without a leaf
/// for each index is invalid; then the index 0, which addresses no node,
/// is refused; then a multiproof without a proof node for each helper
/// position is invalid, and so is one from which the root cannot be
/// reached. Else it gives the root as the known nodes give it.
pub open spec fn multi_merkle_root(
    leaves: Seq<Seq<u8>>,
    proof: Seq<Seq<u8>>,
    indices: Seq<usize>,
) -> Result<Seq<u8>, MerkleizationError> {
    let known = known_nodes(leaves, proof, indices);
    if leaves.len() != indices.len() {
        Err(MerkleizationError::InvalidProof)
    } else if indices.contains(0) {
        Err(MerkleizationError::InvalidGeneralizedIndex)
    } else if proof.len() != helper_indices(indices).len() || !reconstructible(known, 1) {
        Err(MerkleizationError::InvalidProof)
    } else {
        Ok(reconstructed(known, 1))
    }
}

/// The byte strings of the nodes in a table of nodes.
pub open spec fn map_bytes(objects: Map<usize, Node>) -> Map<usize, Seq<u8>> {
    Map::new(|g: usize| objects.contains_key(g), |g: usize| objects[g]@)
}

/// Whether a set of positions holds, with two siblings, their parent.
pub open spec fn holds_parents(positions: Set<usize>) -> bool {
    forall|g: usize|
        g >= 2 && positions.contains(g) && positions.contains(sibling_of(g))
            ==> #[trigger] positions.contains(g / 2)
}

proof fn lemma_take_contains_step(list: Seq<usize>, k: int, g: usize)
    requires
        0 <= k < list.len(),
    ensures
        list.take(k + 1).contains(g) <==> (list.take(k).contains(g) || list[k] == g),
{
    let more = list.take(k + 1);
    let less = list.take(k);
    if more.contains(g) {
        let i = choose|i: int| 0 <= i < more.len() && more[i] == g;
        if i < k {
            assert(less[i] == g);
        }
    }
    if less.contains(g) {
        let i = choose|i: int| 0 <= i < less.len() && less[i] == g;
        assert(more[i] == g);
    }
    if list[k] == g {
        assert(more[k] == g);
    }
}

proof fn lemma_on_paths_step(indices: Seq<usize>, j: int, g: usize)
    requires
        0 <= j < indices.len(),
    ensures
        on_paths(indices.take(j + 1), g) <==> (on_paths(indices.take(j), g) || path_indices(
            indices[j],
        ).contains(g)),
{
    let more = indices.take(j + 1);
    let less = indices.take(j);
    if on_paths(more, g) {
        let w = choose|w: int| 0 <= w < more.len() && #[trigger] path_indices(more[w]).contains(g);
        if w < j {
            assert(path_indices(less[w]).contains(g));
        }
    }
    if on_paths(less, g) {
        let w = choose|w: int| 0 <= w < less.len() && #[trigger] path_indices(less[w]).contains(g);
        assert(path_indices(more[w]).contains(g));
    }
    if path_indices(indices[j]).contains(g) {
        assert(path_indices(more[j]).contains(g));
    }
}

proof fn lemma_in_branches_step(indices: Seq<usize>, j: int, g: usize)
    requires
        0 <= j < indices.len(),
    ensures
        in_branches(indices.take(j + 1), g) <==> (in_branches(indices.take(j), g)
            || branch_indices(indices[j]).contains(g)),
{
    let more = indices.take(j + 1);
    let less = indices.take(j);
    if in_branches(more, g) {
        let w = choose|w: int|
            0 <= w < more.len() && #[trigger] branch_indices(more[w]).contains(g);
        if w < j {
            assert(branch_indices(less[w]).contains(g));
        }
    }
    if in_branches(less, g) {
        let w = choose|w: int|
            0 <= w < less.len() && #[trigger] branch_indices(less[w]).contains(g);
        assert(branch_indices(more[w]).contains(g));
    }
    if branch_indices(indices[j]).contains(g) {
        assert(branch_indices(more[j]).contains(g));
    }
}

/// The positions of the nodes that a multiproof for `indices` has to
/// supply, from the largest to the smallest.
pub fn get_helper_indices(indices: &[GeneralizedIndex]) -> (helpers: Vec<GeneralizedIndex>)
    ensures
        helpers@ == helper_indices(indices@),
        lists_descending(helpers@, helper_set(indices@)),
{
    broadcast use group_hash_axioms;

    let mut all_path_indices: HashSet<usize> = HashSet::new();
    let mut j: usize = 0;
    while j < indices.len()
        invariant
            j <= indices.len(),
            forall|g: usize|
                all_path_indices@.contains(g) <==> on_paths(indices@.take(j as int), g),
        decreases indices.len() - j,
    {
        let path = get_path_indices(indices[j]);
        let mut k: usize = 0;
        while k < path.len()
            invariant
                j < indices.len(),
                k <= path.len(),
                path@ == path_indices(indices@[j as int]),
                forall|g: usize|
                    all_path_indices@.contains(g) <==> (on_paths(indices@.take(j as int), g)
                        || path@.take(k as int).contains(g)),
            decreases path.len() - k,
        {
            proof {
                assert forall|g: usize|
                    path@.take(k as int + 1).contains(g) <==> (path@.take(k as int).contains(g)
                        || path@[k as int] == g) by {
                    lemma_take_contains_step(path@, k as int, g);
                }
            }
            all_path_indices.insert(path[k]);
            k += 1;
        }
        proof {
            assert(path@.take(k as int) =~= path@);
            assert forall|g: usize|
                all_path_indices@.contains(g) <==> on_paths(indices@.take(j as int + 1), g) by {
                lemma_on_paths_step(indices@, j as int, g);
            }
        }
        j += 1;
    }
    assert(indices@.take(j as int) =~= indices@);

    let mut helpers: Vec<usize> = Vec::new();
    j = 0;
    while j < indices.len()
        invariant
            j <= indices.len(),
            forall|g: usize| all_path_indices@.contains(g) <==> on_paths(indices@, g),
            strictly_descending(helpers@),
            forall|g: usize|
                helpers@.contains(g) <==> (in_branches(indices@.take(j as int), g) && !on_paths(
                    indices@,
                    g,
                )),
        decreases indices.len() - j,
    {
        let branch = get_branch_indices(indices[j]);
        let mut k: usize = 0;
        while k < branch.len()
            invariant
                j < indices.len(),
                k <= branch.len(),
                branch@ == branch_indices(indices@[j as int]),
                forall|g: usize| all_path_indices@.contains(g) <==> on_paths(indices@, g),
                strictly_descending(helpers@),
                forall|g: usize|
                    helpers@.contains(g) <==> ((in_branches(indices@.take(j as int), g)
                        || branch@.take(k as int).contains(g)) && !on_paths(indices@, g)),
            decreases branch.len() - k,
        {
            proof {
                assert forall|g: usize|
                    branch@.take(k as int + 1).contains(g) <==> (branch@.take(k as int).contains(
                        g,
                    ) || branch@[k as int] == g) by {
                    lemma_take_contains_step(branch@, k as int, g);
                }
            }
            let candidate = branch[k];
            if !all_path_indices.contains(&candidate) {
                insert_descending(&mut helpers, candidate);
            }
            k += 1;
        }
        proof {
            assert(branch@.take(k as int) =~= branch@);
            assert forall|g: usize|
                helpers@.contains(g) <==> (in_branches(indices@.take(j as int + 1), g)
                    && !on_paths(indices@, g)) by {
                lemma_in_branches_step(indices@, j as int, g);
            }
        }
        j += 1;
    }
    proof {
        assert(indices@.take(j as int) =~= indices@);
        assert(lists_descending(helpers@, helper_set(indices@)));
        lemma_descending_listing(helper_set(indices@));
    }
    helpers
}

/// A list without repetitions of indices up to `top` has at most
/// `top + 1` elements.
proof fn lemma_distinct_indices_are_few(list: Seq<usize>, top: usize)
    requires
        list.no_duplicates(),
        forall|i: int| 0 <= i < list.len() ==> list[i] <= top,
    ensures
        list.len() <= top + 1,
{
    let upto = Set::<usize>::range(0, top).insert(top);
    range_set_properties::<usize>(0, top);
    list.unique_seq_to_set();
    assert(list.to_set().subset_of(upto)) by {
        assert forall|g: usize| list.to_set().contains(g) implies upto.contains(g) by {
            let i = choose|i: int| 0 <= i < list.len() && list[i] == g;
            assert(list[i] <= top);
        }
    }
    lemma_len_subset(list.to_set(), upto);
}

/// A set that holds the known positions and, with two siblings, their
/// parent, holds every position whose node can be reconstructed.
pub proof fn lemma_reconstructible_is_held(
    known: Map<usize, Seq<u8>>,
    positions: Set<usize>,
    g: usize,
)
    requires
        forall|k: usize| known.contains_key(k) ==> positions.contains(k),
        holds_parents(positions),
        reconstructible(known, g),
    ensures
        positions.contains(g),
    decreases usize::MAX - g,
{
    if !known.contains_key(g) {
        let left = (2 * g) as usize;
        let right = (2 * g + 1) as usize;
        lemma_reconstructible_is_held(known, positions, left);
        lemma_reconstructible_is_held(known, positions, right);
        assert(sibling_of(left) == right);
        assert(positions.contains(left / 2));
    }
}

/// Records each of `nodes` at its index in `objects`, and each index in the
/// descending list `keys`.
fn record(
    objects: &mut HashMap<usize, Node>,
    keys: &mut Vec<usize>,
    indices: &[GeneralizedIndex],
    nodes: &[Node],
)
    requires
        indices.len() == nodes.len(),
        strictly_descending(old(keys)@),
        forall|g: usize| old(keys)@.contains(g) <==> old(objects)@.contains_key(g),
    ensures
        map_bytes(final(objects)@) == record_nodes(
            map_bytes(old(objects)@),
            indices@,
            node_seq(nodes@),
        ),
        strictly_descending(final(keys)@),
        forall|g: usize| final(keys)@.contains(g) <==> final(objects)@.contains_key(g),
{
    broadcast use group_hash_axioms;

    let mut i: usize = 0;
    while i < indices.len()
        invariant
            i <= indices.len(),
            indices.len() == nodes.len(),
            map_bytes(objects@) == record_nodes(
                map_bytes(old(objects)@),
                indices@.take(i as int),
                node_seq(nodes@).take(i as int),
            ),
            strictly_descending(keys@),
            forall|g: usize| keys@.contains(g) <==> objects@.contains_key(g),
        decreases indices.len() - i,
    {
        let ghost before = map_bytes(objects@);
        objects.insert(indices[i], nodes[i]);
        insert_descending(keys, indices[i]);
        proof {
            let more = indices@.take(i as int + 1);
            let more_nodes = node_seq(nodes@).take(i as int + 1);
            assert(more.drop_last() =~= indices@.take(i as int));
            assert(more_nodes.drop_last() =~= node_seq(nodes@).take(i as int));
            assert(more.last() == indices@[i as int]);
            assert(more_nodes.last() == nodes@[i as int]@);
            assert(map_bytes(objects@) =~= before.insert(indices@[i as int], nodes@[i as int]@));
        }
        i += 1;
    }
    proof {
        assert(indices@.take(i as int) =~= indices@);
        assert(node_seq(nodes@).take(i as int) =~= node_seq(nodes@));
    }
}

/// Calculates the root from several leaves, each at its index, and the
/// proof nodes at the helper positions of these indices. Starting from
/// these nodes, each node whose two children are known is hashed from
/// them, until no more can be. A multiproof without a leaf for each index
/// is invalid; an index 0 is refused as no generalized index; a
/// multiproof without a proof node for each helper position, or without
/// any index, is invalid. Every other multiproof has a root.
pub fn calculate_multi_merkle_root(
    leaves: &[Node],
    proof: &[Node],
    indices: &[GeneralizedIndex],
) -> (root: Result<Node, MerkleizationError>)
    ensures
        root_bytes(root) == multi_merkle_root(node_seq(leaves@), node_seq(proof@), indices@),
        root is Ok <==> (leaves.len() == indices.len() && indices.len() > 0 && !indices@.contains(
            0,
        ) && proof.len() == helper_indices(indices@).len()),
{
    broadcast use group_hash_axioms;

    proof {
        lemma_multi_merkle_root_is_owed(node_seq(leaves@), node_seq(proof@), indices@);
    }
    if leaves.len() != indices.len() {
        return Err(MerkleizationError::InvalidProof);
    }
    let mut checked: usize = 0;
    while checked < indices.len()
        invariant
            checked <= indices.len(),
            leaves.len() == indices.len(),
            forall|j: int| 0 <= j < checked ==> indices@[j] != 0,
        decreases indices.len() - checked,
    {
        if indices[checked] == 0 {
            assert(indices@.contains(0));
            return Err(MerkleizationError::InvalidGeneralizedIndex);
        }
        checked += 1;
    }
    assert(!indices@.contains(0));
    let helper_indices = get_helper_indices(indices);
    if proof.len() != helper_indices.len() {
        return Err(MerkleizationError::InvalidProof);
    }
    let mut objects: HashMap<usize, Node> = HashMap::new();
    let mut keys: Vec<usize> = Vec::new();
    assert(map_bytes(objects@) =~= Map::<usize, Seq<u8>>::empty());
    record(&mut objects, &mut keys, indices, leaves);
    record(&mut objects, &mut keys, helper_indices.as_slice(), proof);

    let ghost known = map_bytes(objects@);
    assert(known == known_nodes(node_seq(leaves@), node_seq(proof@), indices@));
    let top: usize = if keys.len() > 0 {
        keys[0]
    } else {
        0
    };
    proof {
        assert forall|g: usize| objects@.contains_key(g) implies g <= top by {
            assert(keys@.contains(g));
            let i = choose|i: int| 0 <= i < keys@.len() && keys@[i] == g;
            assert(i > 0 ==> keys@[0] > keys@[i]);
        }
    }
    let mut pos: usize = 0;
    while pos < keys.len()
        invariant
            pos <= keys.len(),
            keys@.no_duplicates(),
            forall|g: usize| keys@.contains(g) <==> objects@.contains_key(g),
            forall|g: usize| objects@.contains_key(g) ==> g <= top,
            forall|g: usize| known.contains_key(g) ==> objects@.contains_key(g),
            forall|g: usize|
                objects@.contains_key(g) ==> reconstructible(known, g) && objects@[g]@
                    == reconstructed(known, g),
            forall|q: int, r: int|
                0 <= q < pos && 0 <= r < pos && keys@[q] >= 2 && keys@[r] == sibling_of(keys@[q])
                    ==> objects@.contains_key(keys@[q] / 2),
        decreases top + 1 - pos,
    {
        proof {
            assert forall|i: int| 0 <= i < keys@.len() implies keys@[i] <= top by {
                assert(keys@.contains(keys@[i]));
            }
            lemma_distinct_indices_are_few(keys@, top);
        }
        let key = keys[pos];
        assert(keys@.contains(key));
        if key >= 2 {
            let parent_index = parent(key);
            if objects.contains_key(&sibling(key)) && !objects.contains_key(&parent_index) {
                let right_index = key | 1;
                let left_index = sibling(right_index);
                assert(right_index == 2 * parent_index + 1 && (right_index == key || right_index
                    == sibling_of(key))) by {
                    assert((key % 2 == 0 ==> (key | 1) == key + 1) && (key % 2 == 1 ==> (key | 1)
                        == key)) by (bit_vector);
                }
                let left_input = *objects.get(&left_index).unwrap();
                let right_input = *objects.get(&right_index).unwrap();
                let above = hash_nodes(&left_input, &right_input);
                let ghost listed = keys@;
                let ghost held = objects@;
                assert(left_index == 2 * parent_index);
                assert(held.contains_key(left_index) && held.contains_key(right_index));
                objects.insert(parent_index, above);
                keys.push(parent_index);
                proof {
                    assert(!known.contains_key(parent_index));
                    assert(reconstructible(known, left_index) && reconstructible(
                        known,
                        right_index,
                    ));
                    assert(reconstructible(known, parent_index));
                    assert(above@ == reconstructed(known, parent_index));
                    assert forall|g: usize| objects@.contains_key(g) implies reconstructible(
                        known,
                        g,
                    ) && objects@[g]@ == reconstructed(known, g) by {
                        if g != parent_index {
                            assert(held.contains_key(g));
                        }
                    }
                    assert forall|g: usize| keys@.contains(g) <==> objects@.contains_key(g) by {
                        if keys@.contains(g) {
                            let i = choose|i: int| 0 <= i < keys@.len() && keys@[i] == g;
                            if i < listed.len() {
                                assert(listed[i] == g);
                                assert(listed.contains(g));
                            }
                        }
                        if objects@.contains_key(g) {
                            if g == parent_index {
                                assert(keys@[listed.len() as int] == g);
                            } else {
                                assert(listed.contains(g));
                                let i = choose|i: int| 0 <= i < listed.len() && listed[i] == g;
                                assert(keys@[i] == g);
                            }
                        }
                    }
                    assert(keys@.no_duplicates()) by {
                        assert forall|i: int, j: int|
                            0 <= i < keys@.len() && 0 <= j < keys@.len() && i != j implies keys@[i]
                            != keys@[j] by {
                            if i < listed.len() {
                                assert(listed.contains(listed[i]));
                            }
                            if j < listed.len() {
                                assert(listed.contains(listed[j]));
                            }
                        }
                    }
                }
            }
        }
        proof {
            assert forall|q: int, r: int|
                0 <= q < pos + 1 && 0 <= r < pos + 1 && keys@[q] >= 2 && keys@[r] == sibling_of(
                    keys@[q],
                ) implies objects@.contains_key(keys@[q] / 2) by {
                assert(keys@.contains(keys@[q]));
                assert(keys@.contains(keys@[r]));
            }
        }
        pos += 1;
    }
    proof {
        assert(holds_parents(objects@.dom())) by {
            assert forall|g: usize|
                g >= 2 && objects@.dom().contains(g) && objects@.dom().contains(
                    sibling_of(g),
                ) implies #[trigger] objects@.dom().contains(g / 2) by {
                assert(keys@.contains(g) && keys@.contains(sibling_of(g)));
                let q = choose|q: int| 0 <= q < keys@.len() && keys@[q] == g;
                let r = choose|r: int| 0 <= r < keys@.len() && keys@[r] == sibling_of(g);
                assert(objects@.contains_key(keys@[q] / 2));
            }
        }
        if reconstructible(known, 1) {
            lemma_reconstructible_is_held(known, objects@.dom(), 1);
        }
    }
    match objects.get(&1) {
        Some(node) => Ok(*node),
        None => Err(MerkleizationError::InvalidProof),
    }
}

/// Verifies that the `leaves` stand at their `indices` in the tree with
/// the root `root`, by the helper nodes `proof`. The verdict is a function
/// of the four arguments: the same question always has the same answer.
pub fn verify_merkle_multiproof(
    leaves: &[Node],
    proof: &[Node],
    indices: &[GeneralizedIndex],
    root: Node,
) -> (verdict: Result<(), MerkleizationError>)
    ensures
        verdict == root_verdict(
            multi_merkle_root(node_seq(leaves@), node_seq(proof@), indices@),
            root@,
        ),
{
    check_root(calculate_multi_merkle_root(leaves, proof, indices), &root)
}

} // verus!
