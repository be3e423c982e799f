//! Arithmetic on generalized indices.
//!
//! A generalized index addresses a node of a complete binary tree: the root
//! is 1, the children of `i` are `2i` and `2i + 1`.

use super::MerkleizationError;
use vstd::prelude::*;

verus! {

/// The address of a node in a binary tree; a valid index is at least 1.
pub type GeneralizedIndex = usize;

/// The index one level above `index`.
pub open spec fn parent_of(index: usize) -> usize {
    index / 2
}

/// The other child of the parent of `index`.
pub open spec fn sibling_of(index: usize) -> usize {
    if index % 2 == 0 {
        (index + 1) as usize
    } else {
        (index - 1) as usize
    }
}

/// The left child of `index`.
pub open spec fn child_left_of(index: usize) -> usize {
    (2 * index) as usize
}

/// The right child of `index`.
pub open spec fn child_right_of(index: usize) -> usize {
    (2 * index + 1) as usize
}

/// The number of levels between `index` and the root: the integer
/// logarithm of `index` to base two (0 for the index 0, which is no node).
pub open spec fn depth_of(index: usize) -> nat
    decreases index,
{
    if index <= 1 {
        0
    } else {
        1 + depth_of(index / 2)
    }
}

/// The index `levels` levels above `index`.
pub open spec fn ancestor_of(index: usize, levels: nat) -> usize
    decreases levels,
{
    if levels == 0 {
        index
    } else {
        ancestor_of(index / 2, (levels - 1) as nat)
    }
}

/// Whether the bit of `index` at `position`, counted from the least
/// significant one, is set: whether the ancestor `position` levels up is a
/// right child.
pub open spec fn bit_of(index: usize, position: nat) -> bool {
    ancestor_of(index, position) % 2 == 1
}

/// Whether `n` is 1, 2, 4, 8, ...
pub open spec fn is_power_of_two(n: nat) -> bool
    decreases n,
{
    n == 1 || (n >= 2 && n % 2 == 0 && is_power_of_two(n / 2))
}

/// Whether `p` is the smallest power of two that is at least `n`.
pub open spec fn is_power_of_two_ceil(n: nat, p: nat) -> bool {
    &&& is_power_of_two(p)
    &&& n <= p
    &&& forall|q: nat| is_power_of_two(q) && n <= q ==> p <= q
}

/// The smallest power of two that is at least `n`.
pub open spec fn power_of_two_ceil(n: nat) -> nat {
    choose|p: nat| is_power_of_two_ceil(n, p)
}

/// Of two powers of two, the one that exceeds half of the other is at
/// least as large as it.
pub proof fn lemma_powers_of_two_are_spread(p: nat, q: nat)
    requires
        is_power_of_two(p),
        is_power_of_two(q),
        2 * q > p,
    ensures
        q >= p,
    decreases p,
{
    if p >= 2 && q >= 2 {
        lemma_powers_of_two_are_spread(p / 2, q / 2);
    }
}

/// Doubling from 1 reaches the smallest power of two from `n` on.
proof fn lemma_doubling_reaches_ceil(n: nat, p: nat) -> (c: nat)
    requires
        is_power_of_two(p),
        p == 1 || p < 2 * n,
    ensures
        is_power_of_two_ceil(n, c),
        c >= p,
    decreases 2 * n - p,
{
    if p >= n {
        assert forall|q: nat| is_power_of_two(q) && n <= q implies p <= q by {
            if p > 1 {
                lemma_powers_of_two_are_spread(p, q);
            }
        }
        p
    } else {
        assert(p >= 1);
        assert(is_power_of_two(2 * p)) by {
            assert((2 * p) / 2 == p);
        }
        lemma_doubling_reaches_ceil(n, 2 * p)
    }
}

/// Every count has exactly one smallest power of two above or at it, and
/// `power_of_two_ceil` is that number.
pub proof fn lemma_power_of_two_ceil(n: nat)
    ensures
        is_power_of_two_ceil(n, power_of_two_ceil(n)),
        forall|p: nat| is_power_of_two_ceil(n, p) ==> p == power_of_two_ceil(n),
{
    let c = lemma_doubling_reaches_ceil(n, 1);
    assert(is_power_of_two_ceil(n, c));
}

/// The smallest power of two from `n` on is 1 or smaller than `2 * n`.
pub proof fn lemma_power_of_two_ceil_is_near(n: nat)
    ensures
        power_of_two_ceil(n) == 1 || power_of_two_ceil(n) < 2 * n,
{
    lemma_power_of_two_ceil(n);
    let p = power_of_two_ceil(n);
    if p >= 2 && p >= 2 * n {
        assert(is_power_of_two(p / 2));
    }
}

/// The depth of an index is smaller than the index, so it fits where the
/// index fits.
pub proof fn lemma_depth_is_small(index: usize)
    ensures
        depth_of(index) <= index,
        index >= 1 ==> depth_of(index) < index,
    decreases index,
{
    if index > 1 {
        lemma_depth_is_small(index / 2);
    }
}

/// Going up `levels + 1` levels is going up `levels` levels and then one.
pub proof fn lemma_ancestor_step(index: usize, levels: nat)
    ensures
        ancestor_of(index, levels + 1) == ancestor_of(index, levels) / 2,
    decreases levels,
{
    if levels > 0 {
        lemma_ancestor_step(index / 2, (levels - 1) as nat);
        assert(ancestor_of(index, levels + 1) == ancestor_of(index / 2, levels));
    } else {
        assert(ancestor_of(index, 1) == ancestor_of(index / 2, 0));
    }
}

/// Two siblings have the same parent, and the sibling of the sibling of a
/// node is the node itself.
pub proof fn lemma_sibling_involution(index: usize)
    requires
        index >= 2,
    ensures
        parent_of(sibling_of(index)) == parent_of(index),
        sibling_of(sibling_of(index)) == index,
        sibling_of(index) >= 2,
        sibling_of(index) != index,
{
}

/// The generalized index of the root of a type's tree.
pub fn default_generalized_index() -> (index: GeneralizedIndex)
    ensures
        index == 1,
{
    1
}

/// The parent of a node below the root.
#[verifier::when_used_as_spec(parent_of)]
pub fn parent(index: GeneralizedIndex) -> (above: GeneralizedIndex)
    requires
        index > 1,
    ensures
        above == parent_of(index),
        1 <= above < index,
{
    index / 2
}

/// The sibling of a node: the index with its lowest bit flipped.
#[verifier::when_used_as_spec(sibling_of)]
pub fn sibling(index: GeneralizedIndex) -> (beside: GeneralizedIndex)
    ensures
        beside == sibling_of(index),
{
    assert((index % 2 == 0 ==> (index ^ 1) == index + 1) && (index % 2 == 1 ==> (index ^ 1) == index
        - 1)) by (bit_vector);
    index ^ 1
}

/// The left child of a node, where its index fits the machine word.
#[verifier::when_used_as_spec(child_left_of)]
pub fn child_left(index: GeneralizedIndex) -> (child: GeneralizedIndex)
    requires
        2 * index <= usize::MAX,
    ensures
        child == child_left_of(index),
        child == 2 * index,
{
    index * 2
}

/// The right child of a node, where its index fits the machine word.
#[verifier::when_used_as_spec(child_right_of)]
pub fn child_right(index: GeneralizedIndex) -> (child: GeneralizedIndex)
    requires
        2 * index + 1 <= usize::MAX,
    ensures
        child == child_right_of(index),
        child == 2 * index + 1,
{
    index * 2 + 1
}

/// Whether the bit of `index` at `position` is set. Positions beyond the
/// machine word hold no bit.
pub fn get_bit(index: GeneralizedIndex, position: usize) -> (set: bool)
    ensures
        set == bit_of(index, position as nat),
{
    if position >= usize::BITS as usize {
        proof {
            lemma_ancestor_beyond_word(index, position as nat);
        }
        false
    } else {
        let shifted = index >> position;
        proof {
            lemma_shift_is_ancestor(index, position);
            assert((shifted & 1 == 1) == (shifted % 2 == 1)) by (bit_vector);
        }
        shifted & 1 == 1
    }
}

/// Shifting an index right by `position` bits walks `position` levels up.
pub proof fn lemma_shift_is_ancestor(index: usize, position: usize)
    requires
        position < usize::BITS,
    ensures
        index >> position == ancestor_of(index, position as nat),
    decreases position,
{
    if position == 0 {
        assert(index >> 0usize == index) by (bit_vector);
    } else {
        let below = (position - 1) as usize;
        lemma_shift_is_ancestor(index, below);
        lemma_ancestor_step(index, below as nat);
        assert(index >> position == (index >> below) / 2) by (bit_vector)
            requires
                position == below + 1,
                position < usize::BITS,
        ;
    }
}

/// No index reaches further up than the machine word has bits.
proof fn lemma_ancestor_beyond_word(index: usize, levels: nat)
    requires
        levels >= usize::BITS,
    ensures
        ancestor_of(index, levels) == 0,
{
    let top = (usize::BITS - 1) as usize;
    lemma_shift_is_ancestor(index, top);
    lemma_ancestor_step(index, top as nat);
    assert((index >> top) / 2 == 0) by (bit_vector)
        requires
            top == usize::BITS - 1,
    ;
    lemma_ancestor_of_zero(index, usize::BITS as nat, levels);
}

/// Once the walk up has left the tree it stays at 0.
proof fn lemma_ancestor_of_zero(index: usize, reached: nat, levels: nat)
    requires
        reached <= levels,
        ancestor_of(index, reached) == 0,
    ensures
        ancestor_of(index, levels) == 0,
    decreases levels - reached,
{
    if reached < levels {
        lemma_ancestor_step(index, reached);
        lemma_ancestor_of_zero(index, reached + 1, levels);
    }
}

/// The length of the path from the root to `index`: its depth. The index 0
/// addresses no node and is refused.
pub fn get_path_length(index: GeneralizedIndex) -> (length: Result<usize, MerkleizationError>)
    ensures
        index == 0 <==> length == Err::<usize, MerkleizationError>(
            MerkleizationError::InvalidGeneralizedIndex,
        ),
        index != 0 ==> length == Ok::<usize, MerkleizationError>(depth_of(index) as usize),
        index != 0 ==> depth_of(index) < index,
{
    if index == 0 {
        return Err(MerkleizationError::InvalidGeneralizedIndex);
    }
    let mut focus = index;
    let mut length: usize = 0;
    proof {
        lemma_depth_is_small(index);
    }
    while focus > 1
        invariant
            focus >= 1,
            length + depth_of(focus) == depth_of(index),
            depth_of(index) < index,
        decreases focus,
    {
        focus = focus / 2;
        length += 1;
    }
    Ok(length)
}

/// The smallest power of two that is at least `x`, where it fits the
/// machine word; 1 for `x == 0`.
pub fn get_power_of_two_ceil(x: usize) -> (ceil: usize)
    requires
        x <= usize::MAX / 2 + 1,
    ensures
        ceil == power_of_two_ceil(x as nat),
        is_power_of_two_ceil(x as nat, ceil as nat),
{
    let mut p: usize = 1;
    while p < x
        invariant
            x <= usize::MAX / 2 + 1,
            is_power_of_two(p as nat),
            p >= 1,
            p == 1 || p < 2 * x,
        decreases 2 * x - p,
    {
        assert(is_power_of_two((2 * p) as nat)) by {
            assert((2 * p) as nat / 2 == p as nat);
        }
        p = p * 2;
    }
    proof {
        assert forall|q: nat| is_power_of_two(q) && x as nat <= q implies p as nat <= q by {
            if p > 1 {
                lemma_powers_of_two_are_spread(p as nat, q);
            }
        }
        lemma_power_of_two_ceil(x as nat);
    }
    p
}

} // verus!
