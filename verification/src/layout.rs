//! The shape of the tree as mathematics: how one level of hashes gives the
//! next, the order in which all levels lie in one flat sequence, and where in
//! that sequence each level starts.

use crate::field::hash_spec;
use vstd::arithmetic::power2::{lemma_pow2_pos, lemma_pow2_unfold, pow2};
use vstd::prelude::*;

verus! {

/// The hash of a parent node, from its left and its right child.
pub open spec fn combine(left: nat, right: nat) -> nat {
    hash_spec(seq![left, right])
}

/// The parents of the adjacent pairs of `level`, from left to right.
pub open spec fn paired(level: Seq<nat>) -> Seq<nat> {
    Seq::new(level.len() / 2, |k: int| combine(level[2 * k], level[2 * k + 1]))
}

/// The level above `level`: the parents of its pairs and, where its count is
/// odd, its last node carried up as it is.
pub open spec fn next_level(level: Seq<nat>) -> Seq<nat> {
    if level.len() % 2 == 0 {
        paired(level)
    } else {
        paired(level).push(level.last())
    }
}

/// All hashes that are computed above `level`, level by level, until one node
/// is left. A node that was carried up is not among them.
pub open spec fn upper_nodes(level: Seq<nat>) -> Seq<nat>
    decreases level.len(),
{
    if level.len() <= 1 {
        Seq::empty()
    } else {
        paired(level) + upper_nodes(next_level(level))
    }
}

/// The flat sequence of node hashes of a tree with the given leaf hashes: the
/// leaf hashes, then each computed level in turn, the root last.
pub open spec fn node_hashes_of(leaf_hashes: Seq<nat>) -> Seq<nat> {
    leaf_hashes + upper_nodes(leaf_hashes)
}

/// The one node that is left when `level` is reduced again and again.
pub open spec fn root_of(level: Seq<nat>) -> nat
    decreases level.len(),
{
    if level.len() == 0 {
        0
    } else if level.len() == 1 {
        level[0]
    } else {
        root_of(next_level(level))
    }
}

/// The `height`-th level above the leaf hashes; the leaf hashes are level 0.
pub open spec fn level_at(leaf_hashes: Seq<nat>, height: nat) -> Seq<nat>
    decreases height,
{
    if height == 0 {
        leaf_hashes
    } else {
        next_level(level_at(leaf_hashes, (height - 1) as nat))
    }
}

/// Where level `height` starts in the flat sequence of a tree of `depth`
/// levels.
pub open spec fn level_offset(depth: nat, height: nat) -> int
    recommends
        height <= depth,
{
    pow2(depth) - pow2((depth - height) as nat)
}

/// The position beside `index` under the same parent.
pub open spec fn sibling_index(index: int) -> int {
    if index % 2 == 0 {
        index + 1
    } else {
        index - 1
    }
}

/// The hash that a node and its sibling give, the node at `index` of its
/// level: at an even index the node is the left child.
pub open spec fn step_up(node: nat, index: int, sibling: nat) -> nat {
    if index % 2 == 0 {
        combine(node, sibling)
    } else {
        combine(sibling, node)
    }
}

/// The hash reached from `start` at `index` by combining with each sibling
/// in turn and halving the index after each.
pub open spec fn climb(start: nat, index: int, siblings: Seq<nat>) -> nat
    decreases siblings.len(),
{
    if siblings.len() == 0 {
        start
    } else {
        climb(step_up(start, index, siblings[0]), index / 2, siblings.drop_first())
    }
}

/// Reducing a level of at least one node computes one hash less than it has
/// nodes.
pub proof fn lemma_upper_nodes_len(level: Seq<nat>)
    requires
        level.len() >= 1,
    ensures
        upper_nodes(level).len() == level.len() - 1,
    decreases level.len(),
{
    if level.len() > 1 {
        lemma_upper_nodes_len(next_level(level));
    }
}

/// The levels above `leaf_hashes` are the levels above its next level, one
/// lower each.
pub proof fn lemma_level_at_shift(leaf_hashes: Seq<nat>, height: nat)
    requires
        height >= 1,
    ensures
        level_at(leaf_hashes, height) == level_at(next_level(leaf_hashes), (height - 1) as nat),
    decreases height,
{
    let above = next_level(leaf_hashes);
    if height > 1 {
        lemma_level_at_shift(leaf_hashes, (height - 1) as nat);
        assert(level_at(above, (height - 1) as nat) == next_level(
            level_at(above, (height - 2) as nat),
        ));
    } else {
        assert(level_at(leaf_hashes, 0) == leaf_hashes);
        assert(level_at(above, 0) == above);
    }
}

/// In a tree of `depth` levels over a power-of-two count of leaves, level
/// `height` has `2^(depth - 1 - height)` nodes, the flat sequence has
/// `2^depth - 1`, and node `j` of level `height` lies at
/// `level_offset(depth, height) + j`.
pub proof fn lemma_node_address(leaf_hashes: Seq<nat>, depth: nat, height: nat, j: int)
    requires
        depth >= 1,
        leaf_hashes.len() == pow2((depth - 1) as nat),
        height < depth,
        0 <= j < pow2((depth - 1 - height) as nat),
    ensures
        level_at(leaf_hashes, height).len() == pow2((depth - 1 - height) as nat),
        node_hashes_of(leaf_hashes).len() == pow2(depth) - 1,
        0 <= level_offset(depth, height) + j < pow2(depth) - 1,
        node_hashes_of(leaf_hashes)[level_offset(depth, height) + j] == level_at(
            leaf_hashes,
            height,
        )[j],
    decreases depth,
{
    lemma_pow2_pos((depth - 1) as nat);
    lemma_pow2_unfold(depth);
    lemma_upper_nodes_len(leaf_hashes);
    if height > 0 {
        let above = next_level(leaf_hashes);
        lemma_pow2_unfold((depth - 1) as nat);
        assert(above.len() == pow2((depth - 2) as nat));
        lemma_node_address(above, (depth - 1) as nat, (height - 1) as nat, j);
        lemma_level_at_shift(leaf_hashes, height);
        lemma_upper_nodes_len(above);
        assert(node_hashes_of(leaf_hashes) =~= leaf_hashes + node_hashes_of(above));
        assert(level_offset(depth, height) == leaf_hashes.len() + level_offset(
            (depth - 1) as nat,
            (height - 1) as nat,
        ));
    }
}

/// Over a power-of-two count of leaves the root is the single node of the
/// topmost level.
pub proof fn lemma_root_is_top(leaf_hashes: Seq<nat>, depth: nat)
    requires
        depth >= 1,
        leaf_hashes.len() == pow2((depth - 1) as nat),
    ensures
        level_at(leaf_hashes, (depth - 1) as nat).len() == 1,
        root_of(leaf_hashes) == level_at(leaf_hashes, (depth - 1) as nat)[0],
    decreases depth,
{
    lemma_pow2_pos(0);
    assert(pow2(0) == 1) by {
        vstd::arithmetic::power2::lemma2_to64();
    }
    if depth > 1 {
        let above = next_level(leaf_hashes);
        lemma_pow2_unfold((depth - 1) as nat);
        lemma_pow2_pos((depth - 2) as nat);
        assert(above.len() == pow2((depth - 2) as nat));
        lemma_root_is_top(above, (depth - 1) as nat);
        lemma_level_at_shift(leaf_hashes, (depth - 1) as nat);
    }
}

} // verus!
