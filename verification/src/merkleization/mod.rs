//! Hash tree roots over 32-byte chunks.

use generalized_index::{
    get_power_of_two_ceil, is_power_of_two, is_power_of_two_ceil, lemma_power_of_two_ceil,
    power_of_two_ceil,
};
use sha2::{Digest, Sha256};
use vstd::prelude::*;

pub mod descending;
pub mod generalized_index;
pub mod multiproofs;
pub mod path;
pub mod proofs;
pub mod theorems;

verus! {

/// Why a merkleization request was refused.
#[derive(Clone, Copy, Debug, PartialEq, Eq, Structural)]
pub enum MerkleizationError {
    /// The index is 0, or addresses no node of the tree at hand, or a proof
    /// was asked for the root.
    InvalidGeneralizedIndex,
    /// The proof has the wrong number of nodes, or does not lead to the
    /// claimed root.
    InvalidProof,
    /// A path names a child that the type at that step does not have.
    PathResolutionError,
}

/// Number of bytes in one chunk of the hash tree.
pub const BYTES_PER_CHUNK: usize = 32;

/// A node of the hash tree: a chunk of data or the hash of two nodes.
pub type Node = [u8; 32];

/// A type whose values have a hash tree root.
pub trait HashTreeRoot {
    /// The root of the tree of the value, or why it has none.
    spec fn tree_root(&self) -> Result<Seq<u8>, MerkleizationError>;

    /// Calculates the root of the tree of the value.
    fn hash_tree_root(&self) -> (root: Result<Node, MerkleizationError>)
        ensures
            match root {
                Ok(node) => self.tree_root() == Ok::<Seq<u8>, MerkleizationError>(node@),
                Err(error) => self.tree_root() == Err::<Seq<u8>, MerkleizationError>(error),
            },
    ;
}

/// The SHA-256 digest of `message`: 32 bytes.
pub uninterp spec fn sha256(message: Seq<u8>) -> [u8; 32];

/// Calls `Sha256::digest` of the `sha2` crate on `message`. The contract
/// gives the digest the name `sha256(message)` and claims nothing else
/// about it: SHA-256 is a function of the message alone, and its digest
/// has 32 bytes.
#[verifier::external_body]
fn sha256_digest(message: &[u8]) -> (digest: Node)
    ensures
        digest == sha256(message@),
{
    Sha256::digest(message).into()
}

/// The node above `left` and `right`: the digest of their concatenation.
pub open spec fn hash_pair(left: Seq<u8>, right: Seq<u8>) -> Seq<u8> {
    sha256(left + right)@
}

/// Hashes two sibling nodes into their parent.
pub fn hash_nodes(left: &Node, right: &Node) -> (parent: Node)
    ensures
        parent@ == hash_pair(left@, right@),
{
    let mut message = [0u8; 64];
    let mut i: usize = 0;
    while i < 32
        invariant
            i <= 32,
            forall|j: int| 0 <= j < i ==> message@[j] == left@[j],
            forall|j: int| 0 <= j < i ==> message@[32 + j] == right@[j],
        decreases 32 - i,
    {
        message[i] = left[i];
        message[i + 32] = right[i];
        i += 1;
    }
    assert(message@ =~= left@ + right@);
    sha256_digest(message.as_slice())
}

/// Whether two nodes hold the same bytes.
pub fn nodes_equal(a: &Node, b: &Node) -> (same: bool)
    ensures
        same == (a@ == b@),
{
    let mut i: usize = 0;
    while i < 32
        invariant
            i <= 32,
            forall|j: int| 0 <= j < i ==> a@[j] == b@[j],
        decreases 32 - i,
    {
        if a[i] != b[i] {
            return false;
        }
        i += 1;
    }
    assert(a@ =~= b@);
    true
}

/// The byte strings that a sequence of nodes holds.
pub open spec fn node_seq(nodes: Seq<Node>) -> Seq<Seq<u8>> {
    nodes.map_values(|node: Node| node@)
}

/// Whether two distinct messages have the same SHA-256 digest.
pub open spec fn collides(a: Seq<u8>, b: Seq<u8>) -> bool {
    a != b && sha256(a)@ == sha256(b)@
}

/// The chunk that pads a chunk sequence: 32 zero bytes.
pub open spec fn zero_chunk() -> Seq<u8> {
    Seq::new(32, |i: int| 0u8)
}

/// Chunk `i` of `bytes`: its bytes from `32 * i` on, with zero bytes behind
/// the last one.
pub open spec fn packed_chunk(bytes: Seq<u8>, i: int) -> Seq<u8> {
    Seq::new(
        32,
        |j: int|
            if 32 * i + j < bytes.len() {
                bytes[32 * i + j]
            } else {
                0u8
            },
    )
}

/// `bytes` cut into chunks of 32 bytes, the last one filled up with zero
/// bytes.
pub open spec fn packed_chunks(bytes: Seq<u8>) -> Seq<Seq<u8>> {
    Seq::new(((bytes.len() + 31) / 32) as nat, |i: int| packed_chunk(bytes, i))
}

/// `chunks` followed by zero chunks up to the next power of two; no chunk
/// at all counts as one zero chunk.
pub open spec fn padded_chunks(chunks: Seq<Seq<u8>>) -> Seq<Seq<u8>> {
    Seq::new(
        power_of_two_ceil(chunks.len()),
        |i: int|
            if i < chunks.len() {
                chunks[i]
            } else {
                zero_chunk()
            },
    )
}

/// A padded chunk sequence holds the chunks, then zero chunks, and its
/// length is the smallest power of two that is at least the number of
/// chunks.
pub proof fn lemma_padded_length(chunks: Seq<Seq<u8>>)
    ensures
        is_power_of_two_ceil(chunks.len(), padded_chunks(chunks).len()),
        is_power_of_two(padded_chunks(chunks).len()),
        padded_chunks(chunks).take(chunks.len() as int) == chunks,
        forall|i: int|
            chunks.len() <= i < padded_chunks(chunks).len() ==> padded_chunks(chunks)[i]
                == zero_chunk(),
{
    lemma_power_of_two_ceil(chunks.len());
    assert(padded_chunks(chunks).take(chunks.len() as int) =~= chunks);
}

/// The node at the generalized index `g` of the tree over `leaves`: a leaf
/// in the lowest row, the hash of its two children above it. `leaves` is
/// the whole lowest row, so its length is a power of two. Outside the tree
/// there is no node, and the result is empty.
pub open spec fn tree_node(leaves: Seq<Seq<u8>>, g: nat) -> Seq<u8>
    decreases 2 * leaves.len() - g,
{
    if g == 0 || g >= 2 * leaves.len() {
        Seq::empty()
    } else if g >= leaves.len() {
        leaves[g - leaves.len()]
    } else {
        hash_pair(tree_node(leaves, 2 * g), tree_node(leaves, 2 * g + 1))
    }
}

/// The root of the tree over `leaves`.
pub open spec fn merkle_root(leaves: Seq<Seq<u8>>) -> Seq<u8> {
    tree_node(leaves, 1)
}

/// Byte `i` of `value` in little-endian order.
pub open spec fn le_byte(value: nat, i: int) -> u8
    decreases i,
{
    if i <= 0 {
        (value % 256) as u8
    } else {
        le_byte(value / 256, i - 1)
    }
}

/// `value` as a chunk: its 32 low bytes in little-endian order.
pub open spec fn uint_chunk(value: nat) -> Seq<u8> {
    Seq::new(32, |i: int| le_byte(value, i))
}

/// The root that commits to `root` and to an auxiliary number, a length or
/// a selector: the hash of the root and the number's chunk.
pub open spec fn mixed_in(root: Seq<u8>, value: nat) -> Seq<u8> {
    hash_pair(root, uint_chunk(value))
}

/// Cuts `bytes` into chunks of 32 bytes, the last one filled up with zero
/// bytes.
pub fn pack_bytes(bytes: &[u8]) -> (chunks: Vec<Node>)
    ensures
        node_seq(chunks@) == packed_chunks(bytes@),
{
    let count = if bytes.len() % 32 == 0 {
        bytes.len() / 32
    } else {
        bytes.len() / 32 + 1
    };
    let mut chunks: Vec<Node> = Vec::new();
    let mut i: usize = 0;
    while i < count
        invariant
            i <= count,
            count == (bytes.len() + 31) / 32,
            chunks.len() == i,
            forall|k: int| 0 <= k < i ==> chunks@[k]@ == packed_chunk(bytes@, k),
        decreases count - i,
    {
        let offset = 32 * i;
        let remaining = bytes.len() - offset;
        let mut chunk: Node = [0u8; 32];
        let mut j: usize = 0;
        while j < 32 && j < remaining
            invariant
                j <= 32,
                j <= remaining,
                offset + remaining == bytes.len(),
                forall|k: int| 0 <= k < j ==> chunk@[k] == bytes@[offset + k],
                forall|k: int| j <= k < 32 ==> chunk@[k] == 0u8,
            decreases 32 - j,
        {
            chunk[j] = bytes[offset + j];
            j += 1;
        }
        assert forall|k: int| 0 <= k < 32 implies chunk@[k] == packed_chunk(bytes@, i as int)[k] by {
            if k < j {
                assert(chunk@[k] == bytes@[offset + k]);
            } else {
                assert(chunk@[k] == 0u8);
            }
        }
        assert(chunk@ =~= packed_chunk(bytes@, i as int));
        chunks.push(chunk);
        i += 1;
    }
    assert(node_seq(chunks@) =~= packed_chunks(bytes@));
    chunks
}

/// The root of the tree over `chunks`, padded with zero chunks to the next
/// power of two: each row is hashed pairwise into the row above until one
/// node is left. A single chunk is its own root.
pub fn merkleize(chunks: &[Node]) -> (root: Node)
    requires
        chunks.len() <= usize::MAX / 2 + 1,
    ensures
        root@ == merkle_root(padded_chunks(node_seq(chunks@))),
{
    let size = get_power_of_two_ceil(chunks.len());
    let mut level: Vec<Node> = Vec::new();
    let mut i: usize = 0;
    while i < size
        invariant
            i <= size,
            chunks.len() <= size,
            level.len() == i,
            forall|k: int| 0 <= k < i ==> level@[k]@ == padded_chunks(node_seq(chunks@))[k],
            padded_chunks(node_seq(chunks@)).len() == size,
        decreases size - i,
    {
        if i < chunks.len() {
            level.push(chunks[i]);
        } else {
            let zero: Node = [0u8; 32];
            assert(zero@ =~= zero_chunk());
            level.push(zero);
        }
        i += 1;
    }
    let ghost leaves = padded_chunks(node_seq(chunks@));
    let mut width = size;
    while width > 1
        invariant
            1 <= width <= size,
            size == leaves.len(),
            is_power_of_two(width as nat),
            level.len() == width,
            forall|k: int| 0 <= k < width ==> level@[k]@ == tree_node(leaves, (width + k) as nat),
        decreases width,
    {
        let half = width / 2;
        let mut above: Vec<Node> = Vec::new();
        let mut k: usize = 0;
        while k < half
            invariant
                k <= half,
                width == 2 * half,
                width <= size,
                size == leaves.len(),
                level.len() == width,
                above.len() == k,
                forall|m: int|
                    0 <= m < width ==> level@[m]@ == tree_node(leaves, (width + m) as nat),
                forall|m: int| 0 <= m < k ==> above@[m]@ == tree_node(leaves, (half + m) as nat),
            decreases half - k,
        {
            above.push(hash_nodes(&level[2 * k], &level[2 * k + 1]));
            k += 1;
        }
        level = above;
        width = half;
    }
    level[0]
}

/// The chunk of a number: its bytes in little-endian order, zero bytes
/// behind them.
pub fn uint_to_chunk(value: u64) -> (chunk: Node)
    ensures
        chunk@ == uint_chunk(value as nat),
{
    let mut chunk: Node = [0u8; 32];
    let mut rest = value;
    let mut i: usize = 0;
    while rest > 0 && i < 32
        invariant
            i <= 32,
            forall|k: int| 0 <= k < i ==> chunk@[k] == le_byte(value as nat, k),
            forall|k: int| i <= k < 32 ==> chunk@[k] == 0u8,
            forall|k: int|
                i <= k ==> #[trigger] le_byte(value as nat, k) == le_byte(rest as nat, k - i),
        decreases 32 - i,
    {
        proof {
            assert forall|k: int| i + 1 <= k implies #[trigger] le_byte(value as nat, k)
                == le_byte((rest / 256) as nat, k - (i + 1)) by {
                assert(le_byte(rest as nat, k - i) == le_byte((rest / 256) as nat, k - i - 1));
            }
            assert(le_byte(value as nat, i as int) == le_byte(rest as nat, 0));
        }
        chunk[i] = (rest % 256) as u8;
        rest = rest / 256;
        i += 1;
    }
    proof {
        assert forall|k: int| 0 <= k < 32 implies chunk@[k] == le_byte(value as nat, k) by {
            if k >= i {
                lemma_le_byte_of_zero(k - i);
            }
        }
        assert(chunk@ =~= uint_chunk(value as nat));
    }
    chunk
}

/// The root of the tree over the chunks of `bytes`.
pub open spec fn bytes_root(bytes: Seq<u8>) -> Seq<u8> {
    merkle_root(padded_chunks(packed_chunks(bytes)))
}

/// The root of the tree over `bytes`, cut into chunks.
pub fn merkleize_bytes(bytes: &[u8]) -> (root: Node)
    ensures
        root@ == bytes_root(bytes@),
{
    let chunks = pack_bytes(bytes);
    assert(chunks.len() == packed_chunks(bytes@).len());
    assert(bytes@.len() == bytes.len());
    merkleize(chunks.as_slice())
}

/// Mixes a number into a root.
fn mix_in_decoration(root: &Node, decoration: usize) -> (mixed: Node)
    ensures
        mixed@ == mixed_in(root@, decoration as nat),
{
    let chunk = uint_to_chunk(decoration as u64);
    hash_nodes(root, &chunk)
}

/// Every byte of 0 is 0.
pub proof fn lemma_le_byte_of_zero(i: int)
    ensures
        le_byte(0, i) == 0,
    decreases i,
{
    if i > 0 {
        lemma_le_byte_of_zero(i - 1);
    }
}

/// The root of a collection of variable size: its data root with its
/// length mixed in.
pub fn mix_in_length(root: Node, length: usize) -> (mixed: Node)
    ensures
        mixed@ == mixed_in(root@, length as nat),
{
    mix_in_decoration(&root, length)
}

/// The root of a union: the root of its value with its selector mixed in.
pub fn mix_in_selector(root: Node, selector: usize) -> (mixed: Node)
    ensures
        mixed@ == mixed_in(root@, selector as nat),
{
    mix_in_decoration(&root, selector)
}

/// The number below which every number has at most `n` bytes.
pub open spec fn byte_limit(n: nat) -> nat
    decreases n,
{
    if n == 0 {
        1
    } else {
        256 * byte_limit((n - 1) as nat)
    }
}

/// Two numbers of at most `n` bytes with the same `n` low bytes are equal.
pub proof fn lemma_le_bytes_determine(a: nat, b: nat, n: nat)
    requires
        a < byte_limit(n),
        b < byte_limit(n),
        forall|i: int| 0 <= i < n ==> le_byte(a, i) == le_byte(b, i),
    ensures
        a == b,
    decreases n,
{
    if n > 0 {
        let a_rest = a / 256;
        let b_rest = b / 256;
        assert forall|i: int| 0 <= i < n - 1 implies le_byte(a_rest, i) == le_byte(b_rest, i) by {
            assert(le_byte(a, i + 1) == le_byte(b, i + 1));
        }
        lemma_le_bytes_determine(a_rest, b_rest, (n - 1) as nat);
        assert(le_byte(a, 0) == le_byte(b, 0));
    }
}

/// Mixing in binds the number: two different lengths (or selectors) mixed
/// into one root give two different messages to hash, so the two results
/// differ unless SHA-256 collides on these messages.
pub proof fn lemma_mix_in_binds_number(root: Seq<u8>, a: usize, b: usize)
    requires
        a != b,
    ensures
        root + uint_chunk(a as nat) != root + uint_chunk(b as nat),
        mixed_in(root, a as nat) != mixed_in(root, b as nat) || collides(
            root + uint_chunk(a as nat),
            root + uint_chunk(b as nat),
        ),
{
    let x = uint_chunk(a as nat);
    let y = uint_chunk(b as nat);
    if x == y {
        assert forall|i: int| 0 <= i < 32 implies le_byte(a as nat, i) == le_byte(b as nat, i) by {
            assert(x[i] == y[i]);
        }
        assert(usize::MAX < byte_limit(32)) by {
            reveal_with_fuel(byte_limit, 33);
        }
        lemma_le_bytes_determine(a as nat, b as nat, 32);
    }
    if root + x == root + y {
        assert((root + x).subrange(root.len() as int, root.len() as int + 32) =~= x);
        assert((root + y).subrange(root.len() as int, root.len() as int + 32) =~= y);
    }
}

} // verus!
