//! The binary tree as mathematics: the sequence of digests at each level,
//! from the leaves (level 0) up to the single digest at the root.

use crate::hasher::{combine, Hasher};
use crate::merkle_proof::{
    fold_steps, has_collision, lemma_fold_keeps_apart, ProofDirection, StepModel,
};
use vstd::arithmetic::power2::{lemma2_to64, lemma_pow2_pos, lemma_pow2_unfold, pow2};
use vstd::prelude::*;

verus! {

/// The number of nodes one level above a level of `width` nodes: nodes are
/// paired off from the left, and an unmatched last node still gets a parent.
pub open spec fn half_up(width: nat) -> nat {
    (width + 1) / 2
}

/// The number of nodes at `level` over `n` leaves.
pub open spec fn layer_width(n: nat, level: nat) -> nat
    decreases level,
{
    if level == 0 {
        n
    } else {
        half_up(layer_width(n, (level - 1) as nat))
    }
}

/// The number of levels above the leaves: the least `k` with `2^k >= n`.
pub open spec fn tree_height(n: nat) -> nat
    decreases n,
{
    if n <= 1 {
        0
    } else {
        1 + tree_height(half_up(n))
    }
}

/// The position, one level down, of the right child of node `k`, where that
/// level has `width` nodes. An unmatched last node is its parent's right
/// child as well as its left one.
pub open spec fn right_child(k: int, width: nat) -> int {
    if 2 * k + 1 < width {
        2 * k + 1
    } else {
        2 * k
    }
}

/// The digests one level above `layer`.
pub open spec fn next_layer<H: Hasher>(h: &H, layer: Seq<Seq<u8>>) -> Seq<Seq<u8>> {
    Seq::new(
        half_up(layer.len()),
        |k: int| combine(h, layer[2 * k], layer[right_child(k, layer.len())]),
    )
}

/// The digests at `level` of the tree over `leaves`.
pub open spec fn layer<H: Hasher>(h: &H, leaves: Seq<Seq<u8>>, level: nat) -> Seq<Seq<u8>>
    decreases level,
{
    if level == 0 {
        leaves
    } else {
        next_layer(h, layer(h, leaves, (level - 1) as nat))
    }
}

/// The root digest of the tree over `leaves` (which must not be empty).
pub open spec fn merkle_root<H: Hasher>(h: &H, leaves: Seq<Seq<u8>>) -> Seq<u8> {
    layer(h, leaves, tree_height(leaves.len()))[0]
}

/// Where an index range that starts at `start` and holds `size` leaves is
/// split: the left part gets the larger half when `size` is odd.
pub open spec fn split_point(start: int, size: int) -> int {
    start + (size + 1) / 2
}

/// The steps recorded on the way from node `node` of `level` down to a leaf,
/// the deepest step first. The way is chosen by index ranges alone: at each
/// node the range `[start, start + size)` is split at `split_point`, and the
/// descent goes left when `target` lies before the split, recording the
/// right child's digest, and right otherwise, recording the left child's.
pub open spec fn auth_path<H: Hasher>(
    h: &H,
    leaves: Seq<Seq<u8>>,
    level: nat,
    node: int,
    target: int,
    start: int,
    size: int,
) -> Seq<StepModel>
    decreases level,
{
    if level == 0 {
        Seq::empty()
    } else {
        let below = layer(h, leaves, (level - 1) as nat);
        let left = 2 * node;
        let right = right_child(node, below.len());
        let mid = split_point(start, size);
        if target < mid {
            auth_path(h, leaves, (level - 1) as nat, left, target, start, mid - start).push(
                StepModel { hash: below[right], direction: ProofDirection::Right },
            )
        } else {
            auth_path(h, leaves, (level - 1) as nat, right, target, mid, size - (mid - start)).push(
                StepModel { hash: below[left], direction: ProofDirection::Left },
            )
        }
    }
}

/// The position of the leaf at which the descent of `auth_path` ends, in a
/// tree over `n` leaves.
pub open spec fn reached_leaf(n: nat, level: nat, node: int, target: int, start: int, size: int) -> int
    decreases level,
{
    if level == 0 {
        node
    } else {
        let mid = split_point(start, size);
        if target < mid {
            reached_leaf(n, (level - 1) as nat, 2 * node, target, start, mid - start)
        } else {
            reached_leaf(
                n,
                (level - 1) as nat,
                right_child(node, layer_width(n, (level - 1) as nat)),
                target,
                mid,
                size - (mid - start),
            )
        }
    }
}

/// The steps of the proof for leaf `index` of the tree over `leaves`, the
/// leaf's own sibling first.
pub open spec fn proof_steps<H: Hasher>(h: &H, leaves: Seq<Seq<u8>>, index: int) -> Seq<StepModel> {
    auth_path(h, leaves, tree_height(leaves.len()), 0, index, 0, leaves.len() as int)
}

/// The position of the leaf that the proof for `index` authenticates in a
/// tree over `n` leaves. It is `index` itself wherever the split of index
/// ranges agrees with the shape of the tree, as it does at every index when
/// `n` is a power of two.
pub open spec fn proven_leaf(n: nat, index: int) -> int {
    reached_leaf(n, tree_height(n), 0, index, 0, n as int)
}

/// Every level of a tree has as many digests as `layer_width` says.
pub proof fn lemma_layer_len<H: Hasher>(h: &H, leaves: Seq<Seq<u8>>, level: nat)
    ensures
        layer(h, leaves, level).len() == layer_width(leaves.len(), level),
    decreases level,
{
    if level > 0 {
        lemma_layer_len(h, leaves, (level - 1) as nat);
    }
}

/// No level of a tree over at least one leaf is empty.
pub proof fn lemma_layer_width_positive(n: nat, level: nat)
    requires
        n >= 1,
    ensures
        layer_width(n, level) >= 1,
    decreases level,
{
    if level > 0 {
        lemma_layer_width_positive(n, (level - 1) as nat);
    }
}

/// Going up `level` levels and then measuring what is left gives the same
/// height as measuring from the leaves.
pub proof fn lemma_height_splits(n: nat, level: nat)
    requires
        n >= 1,
        level <= tree_height(n),
    ensures
        tree_height(n) == level + tree_height(layer_width(n, level)),
        level < tree_height(n) ==> layer_width(n, level) > 1,
    decreases level,
{
    if level > 0 {
        lemma_height_splits(n, (level - 1) as nat);
    }
}

/// The top level of a tree holds exactly one digest.
pub proof fn lemma_single_root(n: nat)
    requires
        n >= 1,
    ensures
        layer_width(n, tree_height(n)) == 1,
{
    lemma_height_splits(n, tree_height(n));
    lemma_layer_width_positive(n, tree_height(n));
}

/// The height of a tree is less than its number of leaves.
pub proof fn lemma_height_below_size(n: nat)
    requires
        n >= 1,
    ensures
        tree_height(n) < n,
    decreases n,
{
    if n > 1 {
        lemma_height_below_size(half_up(n));
    }
}

/// The height is the ceiling of the binary logarithm: `2^height` leaves
/// are enough for `n`, and `2^(height - 1)` are not.
pub proof fn lemma_height_is_ceil_log2(n: nat)
    requires
        n >= 1,
    ensures
        n <= pow2(tree_height(n)),
        n > 1 ==> pow2((tree_height(n) - 1) as nat) < n,
    decreases n,
{
    if n > 1 {
        lemma_height_is_ceil_log2(half_up(n));
        lemma_pow2_unfold(tree_height(n));
        if half_up(n) > 1 {
            lemma_pow2_unfold(tree_height(half_up(n)));
        } else {
            assert(pow2(0) == 1) by {
                lemma2_to64();
            }
        }
    } else {
        assert(pow2(0) == 1) by {
            vstd::arithmetic::power2::lemma2_to64();
        }
    }
}

/// A descent from `level` records one step per level.
pub proof fn lemma_auth_path_len<H: Hasher>(
    h: &H,
    leaves: Seq<Seq<u8>>,
    level: nat,
    node: int,
    target: int,
    start: int,
    size: int,
)
    ensures
        auth_path(h, leaves, level, node, target, start, size).len() == level,
    decreases level,
{
    if level > 0 {
        let below = layer(h, leaves, (level - 1) as nat);
        let mid = split_point(start, size);
        if target < mid {
            lemma_auth_path_len(h, leaves, (level - 1) as nat, 2 * node, target, start, mid - start);
        } else {
            lemma_auth_path_len(
                h,
                leaves,
                (level - 1) as nat,
                right_child(node, below.len()),
                target,
                mid,
                size - (mid - start),
            );
        }
    }
}

/// The descent from a node of the tree ends at a leaf of the tree.
pub proof fn lemma_reached_leaf_in_range(
    n: nat,
    level: nat,
    node: int,
    target: int,
    start: int,
    size: int,
)
    requires
        n >= 1,
        0 <= node < layer_width(n, level),
    ensures
        0 <= reached_leaf(n, level, node, target, start, size) < n,
    decreases level,
{
    if level > 0 {
        let mid = split_point(start, size);
        let width = layer_width(n, (level - 1) as nat);
        if target < mid {
            lemma_reached_leaf_in_range(n, (level - 1) as nat, 2 * node, target, start, mid - start);
        } else {
            lemma_reached_leaf_in_range(
                n,
                (level - 1) as nat,
                right_child(node, width),
                target,
                mid,
                size - (mid - start),
            );
        }
    }
}

/// Climbing through the steps of a descent, from the digest of the leaf at
/// which the descent ended, gives the digest of the node at which it began.
pub proof fn lemma_auth_path_climbs<H: Hasher>(
    h: &H,
    leaves: Seq<Seq<u8>>,
    level: nat,
    node: int,
    target: int,
    start: int,
    size: int,
)
    requires
        leaves.len() >= 1,
        0 <= node < layer_width(leaves.len(), level),
    ensures
        fold_steps(
            h,
            auth_path(h, leaves, level, node, target, start, size),
            leaves[reached_leaf(leaves.len(), level, node, target, start, size)],
        ) == layer(h, leaves, level)[node],
    decreases level,
{
    if level > 0 {
        let down = (level - 1) as nat;
        let below = layer(h, leaves, down);
        lemma_layer_len(h, leaves, down);
        let left = 2 * node;
        let right = right_child(node, below.len());
        let mid = split_point(start, size);
        let path = auth_path(h, leaves, level, node, target, start, size);
        if target < mid {
            lemma_auth_path_climbs(h, leaves, down, left, target, start, mid - start);
            let sub = auth_path(h, leaves, down, left, target, start, mid - start);
            assert(path.drop_last() =~= sub);
        } else {
            lemma_auth_path_climbs(h, leaves, down, right, target, mid, size - (mid - start));
            let sub = auth_path(h, leaves, down, right, target, mid, size - (mid - start));
            assert(path.drop_last() =~= sub);
        }
    }
}

/// The proof for any leaf of a tree leads from the digest of the leaf that
/// it authenticates, `proven_leaf`, to the root of the tree.
pub proof fn lemma_proof_reaches_root<H: Hasher>(h: &H, leaves: Seq<Seq<u8>>, index: int)
    requires
        leaves.len() >= 1,
    ensures
        0 <= proven_leaf(leaves.len(), index) < leaves.len(),
        fold_steps(h, proof_steps(h, leaves, index), leaves[proven_leaf(leaves.len(), index)])
            == merkle_root(h, leaves),
{
    let n = leaves.len();
    lemma_single_root(n);
    lemma_reached_leaf_in_range(n, tree_height(n), 0, index, 0, n as int);
    lemma_auth_path_climbs(h, leaves, tree_height(n), 0, index, 0, n as int);
}

/// Round trip: the proof for a leaf leads from that leaf's digest to the
/// root, at every index at which the leaf that the proof authenticates
/// holds the same digest as the leaf asked for.
pub proof fn lemma_round_trip<H: Hasher>(h: &H, leaves: Seq<Seq<u8>>, index: int)
    requires
        leaves.len() >= 1,
        0 <= index < leaves.len(),
        leaves[proven_leaf(leaves.len(), index)] == leaves[index],
    ensures
        fold_steps(h, proof_steps(h, leaves, index), leaves[index]) == merkle_root(h, leaves),
{
    lemma_proof_reaches_root(h, leaves, index);
}

/// Soundness: the proof for a leaf does not lead to the root from the
/// digest of any item other than the one at the leaf that it
/// authenticates, unless the hash function has a collision.
pub proof fn lemma_other_item_rejected<H: Hasher>(
    h: &H,
    leaves: Seq<Seq<u8>>,
    index: int,
    item: Seq<u8>,
    other: Seq<u8>,
)
    requires
        leaves.len() >= 1,
        0 <= index < leaves.len(),
        leaves[proven_leaf(leaves.len(), index)] == h.digest(item),
        other != item,
    ensures
        fold_steps(h, proof_steps(h, leaves, index), h.digest(other)) != merkle_root(h, leaves)
            || has_collision(h),
{
    lemma_proof_reaches_root(h, leaves, index);
    let steps = proof_steps(h, leaves, index);
    if fold_steps(h, steps, h.digest(other)) == merkle_root(h, leaves) {
        if h.digest(other) != h.digest(item) {
            lemma_fold_keeps_apart(h, steps, h.digest(other), h.digest(item));
        }
    }
}

/// Height law: a proof has one step for each level above the leaves, that
/// is `ceil(log2(n))` steps for a tree over `n` leaves.
pub proof fn lemma_proof_length<H: Hasher>(h: &H, leaves: Seq<Seq<u8>>, index: int)
    requires
        leaves.len() >= 1,
    ensures
        proof_steps(h, leaves, index).len() == tree_height(leaves.len()),
        leaves.len() <= pow2(tree_height(leaves.len())),
        leaves.len() > 1 ==> pow2((tree_height(leaves.len()) - 1) as nat) < leaves.len(),
{
    let n = leaves.len();
    lemma_auth_path_len(h, leaves, tree_height(n), 0, index, 0, n as int);
    lemma_height_is_ceil_log2(n);
}

/// A tree over `2^k` leaves has height `k`.
pub proof fn lemma_full_tree_height(k: nat)
    ensures
        tree_height(pow2(k)) == k,
    decreases k,
{
    lemma2_to64();
    if k > 0 {
        lemma_full_tree_height((k - 1) as nat);
        lemma_pow2_unfold(k);
        lemma_pow2_pos((k - 1) as nat);
    }
}

/// A tree over `2^k` leaves has `2^(k - level)` nodes at each level up to
/// `k`.
pub proof fn lemma_full_tree_width(k: nat, level: nat)
    requires
        level <= k,
    ensures
        layer_width(pow2(k), level) == pow2((k - level) as nat),
    decreases level,
{
    if level > 0 {
        lemma_full_tree_width(k, (level - 1) as nat);
        lemma_pow2_unfold((k - level + 1) as nat);
    }
}

/// In a tree over `2^k` leaves the split of index ranges agrees with the
/// shape of the tree: the descent from a node towards a leaf below it ends
/// at that leaf.
pub proof fn lemma_full_tree_descent(k: nat, level: nat, node: int, target: int)
    requires
        level <= k,
        0 <= node < pow2((k - level) as nat),
        node * pow2(level) <= target < (node + 1) * pow2(level),
    ensures
        reached_leaf(pow2(k), level, node, target, node * pow2(level), pow2(level) as int)
            == target,
    decreases level,
{
    lemma2_to64();
    if level > 0 {
        let down = (level - 1) as nat;
        let half = pow2(down) as int;
        let start = node * pow2(level);
        lemma_pow2_unfold(level);
        lemma_pow2_pos(down);
        lemma_pow2_unfold((k - down) as nat);
        lemma_full_tree_width(k, down);
        assert(pow2(level) == 2 * half);
        assert(start == (2 * node) * half) by (nonlinear_arith)
            requires
                start == node * (2 * half),
        ;
        assert(start + half == (2 * node + 1) * half) by (nonlinear_arith)
            requires
                start == node * (2 * half),
        ;
        assert((node + 1) * (2 * half) == (2 * node + 2) * half) by (nonlinear_arith);
        assert((2 * node + 2) * half == (2 * node + 1) * half + half) by (nonlinear_arith);
        let mid = split_point(start, 2 * half);
        assert(mid == start + half);
        if target < mid {
            lemma_full_tree_descent(k, down, 2 * node, target);
        } else {
            assert(right_child(node, layer_width(pow2(k), down)) == 2 * node + 1);
            lemma_full_tree_descent(k, down, 2 * node + 1, target);
        }
    } else {
        assert(pow2(0) == 1);
        assert(node * 1 == node && (node + 1) * 1 == node + 1);
    }
}

/// Round trip over a full tree: when the number of leaves is a power of
/// two, the proof for every index authenticates the leaf at that index.
pub proof fn lemma_full_tree_proves_own_leaf(k: nat, index: int)
    requires
        0 <= index < pow2(k),
    ensures
        proven_leaf(pow2(k), index) == index,
{
    lemma2_to64();
    lemma_full_tree_height(k);
    assert(0 * pow2(k) == 0) by (nonlinear_arith);
    assert((0 + 1) * pow2(k) == pow2(k)) by (nonlinear_arith);
    lemma_full_tree_descent(k, k, 0, index);
}

} // verus!
