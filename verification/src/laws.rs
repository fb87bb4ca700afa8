//! What holds of the tree across its operations.

use crate::encoder::{chunk_count, encodable, encoding};
use crate::field::hash_spec;
use crate::hexcode::lemma_hex_round_trip;
use crate::inclusion::{start_hash, verify_outcome, ProofView};
use crate::layout::{
    climb, lemma_node_address, lemma_root_is_top, level_at, next_level, paired, root_of,
    sibling_index, step_up,
};
use crate::tree::{
    leaf_hash, leaf_hashes, leaf_ok, occupied_leaf, shift_insert, InsertOutcome, LeafView,
    TreeView,
};
use vstd::arithmetic::div_mod::{lemma_div_denominator, lemma_div_pos_is_pos};
use vstd::arithmetic::power2::{lemma_pow2_pos, lemma_pow2_unfold, pow2};
use vstd::prelude::*;

verus! {

/// Two trees that were built from the same leaves have the same node hashes
/// and the same root.
pub proof fn lemma_rebuild_is_deterministic(first: TreeView, second: TreeView)
    requires
        first.is_built(),
        second.is_built(),
        first.leaves == second.leaves,
    ensures
        first.root == second.root,
        first.node_hashes == second.node_hashes,
{
}

/// The index of a leaf's ancestor at `height` lies within that level, and
/// halving it gives the index of the ancestor one level up.
pub proof fn lemma_ancestor_index(index: int, depth: nat, height: nat)
    requires
        depth >= 1,
        0 <= index < pow2((depth - 1) as nat),
        height <= depth - 1,
    ensures
        0 <= index / (pow2(height) as int) < pow2((depth - 1 - height) as nat),
        (index / (pow2(height) as int)) / 2 == index / (pow2(height + 1) as int),
    decreases height,
{
    lemma_pow2_pos(height);
    lemma_pow2_unfold(height + 1);
    lemma_div_denominator(index, pow2(height) as int, 2);
    assert(pow2(height) * 2 == pow2(height + 1));
    if height == 0 {
        assert(pow2(0) == 1) by {
            vstd::arithmetic::power2::lemma2_to64();
        }
    } else {
        lemma_ancestor_index(index, depth, (height - 1) as nat);
        lemma_pow2_unfold((depth - height) as nat);
        lemma_pow2_pos((height - 1) as nat);
        lemma_div_pos_is_pos(index / (pow2((height - 1) as nat) as int), 2);
    }
}

/// Climbing from a leaf's ancestor at `height` through the siblings from
/// that level upwards reaches the root.
proof fn lemma_climb_reaches_root(
    hashes: Seq<nat>,
    depth: nat,
    index: int,
    height: nat,
    path: Seq<nat>,
)
    requires
        depth >= 1,
        hashes.len() == pow2((depth - 1) as nat),
        0 <= index < pow2((depth - 1) as nat),
        height <= depth - 1,
        path.len() == depth - 1,
        forall|h: int|
            0 <= h < depth - 1 ==> #[trigger] path[h] == level_at(hashes, h as nat)[sibling_index(
                index / (pow2(h as nat) as int),
            )],
    ensures
        climb(
            level_at(hashes, height)[index / (pow2(height) as int)],
            index / (pow2(height) as int),
            path.skip(height as int),
        ) == root_of(hashes),
    decreases depth - 1 - height,
{
    let at = index / (pow2(height) as int);
    lemma_ancestor_index(index, depth, height);
    if height == depth - 1 {
        lemma_root_is_top(hashes, depth);
        assert(pow2(0) == 1) by {
            vstd::arithmetic::power2::lemma2_to64();
        }
        assert(at == 0);
        assert(path.skip(height as int).len() == 0);
    } else {
        let level = level_at(hashes, height);
        let rest = path.skip(height as int);
        lemma_node_address(hashes, depth, height, 0);
        lemma_pow2_unfold((depth - 1 - height) as nat);
        lemma_pow2_pos((depth - 2 - height) as nat);
        assert(level.len() % 2 == 0);
        assert(level_at(hashes, height + 1) == next_level(level));
        assert(next_level(level) == paired(level));
        assert(rest[0] == path[height as int]);
        assert(rest.drop_first() =~= path.skip(height as int + 1));
        assert(paired(level)[at / 2] == step_up(level[at], at, level[sibling_index(at)]));
        lemma_climb_reaches_root(hashes, depth, index, height + 1, path);
    }
}

/// In a built tree the proof for any leaf index is accepted.
pub proof fn lemma_generated_proof_verifies(tree: TreeView, index: int)
    requires
        tree.wf(),
        tree.is_built(),
        0 <= index < tree.capacity(),
    ensures
        tree.proof_outcome(index) == Ok::<ProofView, crate::error::MerkleError>(
            tree.proof_of(index),
        ),
        verify_outcome(tree.proof_of(index)) == Ok::<bool, crate::error::MerkleError>(true),
{
    let hashes = leaf_hashes(tree.leaves);
    let claim = tree.proof_of(index);
    let leaf = tree.leaves[index];
    lemma_pow2_pos((tree.depth - 1) as nat);
    lemma_node_address(hashes, tree.depth, 0, index);
    lemma_hex_round_trip(leaf.value);
    assert(leaf_ok(leaf));
    assert(start_hash(claim) == leaf_hash(leaf)) by {
        if leaf.is_empty {
            assert(chunk_count(0) == 0);
            assert(encoding(leaf.value).len() == 0);
        }
    }
    assert forall|h: int| 0 <= h < tree.depth - 1 implies #[trigger] claim.siblings[h]
        == level_at(hashes, h as nat)[sibling_index(index / (pow2(h as nat) as int))] by {
        let at = index / (pow2(h as nat) as int);
        lemma_ancestor_index(index, tree.depth, h as nat);
        lemma_pow2_unfold((tree.depth - 1 - h) as nat);
        lemma_node_address(hashes, tree.depth, h as nat, sibling_index(at));
    }
    assert(pow2(0) == 1) by {
        vstd::arithmetic::power2::lemma2_to64();
    }
    assert(claim.siblings.skip(0) =~= claim.siblings);
    lemma_climb_reaches_root(hashes, tree.depth, index, 0, claim.siblings);
    assert(level_at(hashes, 0)[index] == start_hash(claim));
    assert(index / (pow2(0) as int) == index) by {
        assert(pow2(0) as int == 1);
        assert(index / 1 == index);
    }
    assert(climb(start_hash(claim), claim.index as int, claim.siblings) == claim.root);
    if !claim.empty {
        assert(crate::hexcode::hex_bytes(claim.value) == leaf.value);
        assert(encodable(crate::hexcode::hex_bytes(claim.value)));
    }
}

/// In a built tree the proof for an empty leaf starts from zero and is
/// accepted.
pub proof fn lemma_empty_leaf_proof_verifies(tree: TreeView, index: int)
    requires
        tree.wf(),
        tree.is_built(),
        0 <= index < tree.capacity(),
        tree.leaves[index].is_empty,
    ensures
        start_hash(tree.proof_of(index)) == 0,
        verify_outcome(tree.proof_of(index)) == Ok::<bool, crate::error::MerkleError>(true),
{
    lemma_generated_proof_verifies(tree, index);
}

/// A proof that is accepted is refused once it claims any other root.
pub proof fn lemma_other_root_is_refused(claim: ProofView, root: nat)
    requires
        verify_outcome(claim) == Ok::<bool, crate::error::MerkleError>(true),
        root != claim.root,
    ensures
        verify_outcome(
            ProofView {
                index: claim.index,
                value: claim.value,
                siblings: claim.siblings,
                root,
                empty: claim.empty,
            },
        ) == Ok::<bool, crate::error::MerkleError>(false),
{
}

/// Two different inputs with one hash.
pub open spec fn is_collision(first: Seq<nat>, second: Seq<nat>) -> bool {
    first != second && hash_spec(first) == hash_spec(second)
}

/// Two climbs of one length from one index that end in the same hash start
/// from the same hash and pass the same siblings, unless the hash function
/// has a collision.
pub proof fn lemma_equal_climbs_agree_or_collide(
    first_start: nat,
    second_start: nat,
    index: int,
    first_path: Seq<nat>,
    second_path: Seq<nat>,
)
    requires
        first_path.len() == second_path.len(),
        climb(first_start, index, first_path) == climb(second_start, index, second_path),
        first_start != second_start || first_path != second_path,
    ensures
        exists|a: Seq<nat>, b: Seq<nat>| is_collision(a, b),
    decreases first_path.len(),
{
    if first_path.len() == 0 {
        assert(first_path =~= second_path);
    } else {
        let x = first_path[0];
        let y = second_path[0];
        let first_up = step_up(first_start, index, x);
        let second_up = step_up(second_start, index, y);
        if first_up == second_up && (first_start != second_start || x != y) {
            let a = if index % 2 == 0 {
                seq![first_start, x]
            } else {
                seq![x, first_start]
            };
            let b = if index % 2 == 0 {
                seq![second_start, y]
            } else {
                seq![y, second_start]
            };
            assert(a[0] != b[0] || a[1] != b[1]);
            assert(is_collision(a, b));
        } else {
            if first_up == second_up {
                assert(first_path =~= seq![x] + first_path.drop_first());
                assert(second_path =~= seq![y] + second_path.drop_first());
            }
            lemma_equal_climbs_agree_or_collide(
                first_up,
                second_up,
                index / 2,
                first_path.drop_first(),
                second_path.drop_first(),
            );
        }
    }
}

/// Two accepted proofs for one index and one root, with paths of one length,
/// start from the same hash and hold the same siblings, unless the hash
/// function has a collision.
pub proof fn lemma_accepted_proofs_agree_or_collide(first: ProofView, second: ProofView)
    requires
        verify_outcome(first) == Ok::<bool, crate::error::MerkleError>(true),
        verify_outcome(second) == Ok::<bool, crate::error::MerkleError>(true),
        first.index == second.index,
        first.root == second.root,
        first.siblings.len() == second.siblings.len(),
        start_hash(first) != start_hash(second) || first.siblings != second.siblings,
    ensures
        exists|a: Seq<nat>, b: Seq<nat>| is_collision(a, b),
{
    lemma_equal_climbs_agree_or_collide(
        start_hash(first),
        start_hash(second),
        first.index as int,
        first.siblings,
        second.siblings,
    );
}

/// The tree after each of `payloads` was inserted at `position`, in their
/// order.
pub open spec fn after_inserts(tree: TreeView, position: int, payloads: Seq<Seq<u8>>) -> TreeView
    decreases payloads.len(),
{
    if payloads.len() == 0 {
        tree
    } else {
        after_inserts(tree, position, payloads.drop_last()).after_insert(
            position,
            payloads.last(),
        )
    }
}

/// The leaves of a tree after `payloads` went in at `position` one after
/// another: the slots before the position as they were, then the payloads
/// with the last one first, then the old slots from the position on.
pub open spec fn leaves_with_payloads(
    leaves: Seq<LeafView>,
    position: int,
    payloads: Seq<Seq<u8>>,
) -> Seq<LeafView> {
    Seq::new(
        leaves.len(),
        |i: int|
            if i < position {
                leaves[i]
            } else if i < position + payloads.len() {
                occupied_leaf(payloads[payloads.len() - 1 - (i - position)])
            } else {
                leaves[i - payloads.len()]
            },
    )
}

/// One more payload put in at the position moves the earlier payloads one
/// step on.
proof fn lemma_one_more_payload(leaves: Seq<LeafView>, position: int, payloads: Seq<Seq<u8>>)
    requires
        payloads.len() > 0,
        0 <= position,
        position + payloads.len() <= leaves.len(),
    ensures
        shift_insert(
            leaves_with_payloads(leaves, position, payloads.drop_last()),
            position,
            occupied_leaf(payloads.last()),
        ) == leaves_with_payloads(leaves, position, payloads),
{
    let earlier = payloads.drop_last();
    let before = leaves_with_payloads(leaves, position, earlier);
    let after = shift_insert(before, position, occupied_leaf(payloads.last()));
    let wanted = leaves_with_payloads(leaves, position, payloads);
    assert(after.len() == wanted.len());
    assert forall|i: int| 0 <= i < after.len() implies after[i] == wanted[i] by {
        if i > position {
            assert(after[i] == before[i - 1]);
        }
    }
    assert(after =~= wanted);
}

/// Payloads inserted one after another at one position, into a tree whose
/// last slots are empty and leave room for them behind the position: the
/// last insertion is accepted, the payload inserted last stands at the
/// position, each earlier one a step further on, the slots before the
/// position stay, and the slots behind the payloads hold what stood as many
/// steps before them.
pub proof fn lemma_repeated_insert_shifts(tree: TreeView, position: int, payloads: Seq<Seq<u8>>)
    requires
        tree.wf(),
        0 <= position,
        position + payloads.len() <= tree.capacity(),
        forall|k: int| 0 <= k < payloads.len() ==> encodable(#[trigger] payloads[k]),
        forall|i: int|
            tree.leaves.len() - payloads.len() <= i < tree.leaves.len() ==> (
            #[trigger] tree.leaves[i]).is_empty,
    ensures
        after_inserts(tree, position, payloads).wf(),
        after_inserts(tree, position, payloads).depth == tree.depth,
        after_inserts(tree, position, payloads).leaves == leaves_with_payloads(
            tree.leaves,
            position,
            payloads,
        ),
        payloads.len() > 0 ==> after_inserts(tree, position, payloads).is_built(),
        payloads.len() > 0 ==> after_inserts(
            tree,
            position,
            payloads.drop_last(),
        ).insert_outcome(position, payloads.last()) == Ok::<
            InsertOutcome,
            crate::error::MerkleError,
        >(InsertOutcome::Inserted),
    decreases payloads.len(),
{
    let n = payloads.len() as int;
    if n == 0 {
        assert(tree.leaves =~= leaves_with_payloads(tree.leaves, position, payloads));
    } else {
        let earlier = payloads.drop_last();
        let before = after_inserts(tree, position, earlier);
        let data = payloads.last();
        lemma_repeated_insert_shifts(tree, position, earlier);
        lemma_one_more_payload(tree.leaves, position, payloads);
        assert(before.leaves.last() == tree.leaves[tree.leaves.len() - n]);
        assert(encodable(payloads[n - 1]));
        assert(before.insert_outcome(position, data) == Ok::<
            InsertOutcome,
            crate::error::MerkleError,
        >(InsertOutcome::Inserted));
        let after = before.after_insert(position, data);
        assert(after.leaves == leaves_with_payloads(tree.leaves, position, payloads));
        assert forall|i: int| 0 <= i < after.leaves.len() implies leaf_ok(
            #[trigger] after.leaves[i],
        ) by {
            if i < position {
                assert(leaf_ok(tree.leaves[i]));
            } else if i < position + n {
                assert(encodable(payloads[n - 1 - (i - position)]));
            } else {
                assert(leaf_ok(tree.leaves[i - n]));
            }
        }
        crate::layout::lemma_upper_nodes_len(leaf_hashes(after.leaves));
        lemma_pow2_unfold(tree.depth);
        lemma_pow2_pos((tree.depth - 1) as nat);
    }
}

/// Of payloads inserted one after another as in
/// `lemma_repeated_insert_shifts`, each one is accepted.
pub proof fn lemma_every_insert_is_accepted(
    tree: TreeView,
    position: int,
    payloads: Seq<Seq<u8>>,
    k: int,
)
    requires
        tree.wf(),
        0 <= position,
        position + payloads.len() <= tree.capacity(),
        forall|j: int| 0 <= j < payloads.len() ==> encodable(#[trigger] payloads[j]),
        forall|i: int|
            tree.leaves.len() - payloads.len() <= i < tree.leaves.len() ==> (
            #[trigger] tree.leaves[i]).is_empty,
        0 <= k < payloads.len(),
    ensures
        after_inserts(tree, position, payloads.take(k)).insert_outcome(position, payloads[k])
            == Ok::<InsertOutcome, crate::error::MerkleError>(InsertOutcome::Inserted),
{
    let upto = payloads.take(k + 1);
    assert(upto.drop_last() =~= payloads.take(k));
    assert(upto.last() == payloads[k]);
    assert forall|j: int| 0 <= j < upto.len() implies encodable(#[trigger] upto[j]) by {
        assert(upto[j] == payloads[j]);
    }
    lemma_repeated_insert_shifts(tree, position, upto);
}

} // verus!
