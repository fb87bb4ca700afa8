//! The Merkle tree and its leaves.
//!
//! A tree of depth `d` has `d` levels, the leaves being the lowest and the
//! root the highest: it holds `2^(d - 1)` leaf slots, and that number is its
//! capacity. All levels lie in one flat sequence of `2^d - 1` node hashes,
//! the leaf hashes first and the root last.

use crate::encoder::{bytes_2_blascalar, encodable, encoding};
use crate::error::MerkleError;
use crate::field::{element_values, hash_spec, poseidon_hash, FieldElement};
use crate::hexcode::{decode, encode_upper, hex_upper};
use crate::inclusion::{start_hash, verify_outcome, MerkleProof, ProofView};
use crate::layout::{
    climb, combine, lemma_upper_nodes_len, level_offset, next_level, node_hashes_of, paired,
    root_of, sibling_index, upper_nodes,
};
use vstd::arithmetic::div_mod::lemma_div_denominator;
use vstd::arithmetic::power2::{
    lemma2_to64, lemma_pow2_pos, lemma_pow2_strictly_increases, lemma_pow2_unfold, pow2,
};
use vstd::prelude::*;

verus! {

/// What a leaf slot is, as plain values.
pub struct LeafView {
    pub value: Seq<u8>,
    pub is_empty: bool,
}

/// A leaf slot of the tree: a byte payload and a flag that marks a slot which
/// no payload was put into yet.
#[derive(Debug)]
pub struct Leave {
    pub value: Vec<u8>,
    pub is_empty: bool,
}

impl View for Leave {
    type V = LeafView;

    open spec fn view(&self) -> LeafView {
        LeafView { value: self.value@, is_empty: self.is_empty }
    }
}

impl Leave {
    /// The payload as upper-case hexadecimal text.
    pub fn to_string(&self) -> (text: String)
        ensures
            text@ == hex_upper(self@.value),
    {
        encode_upper(&self.value)
    }
}

/// The slots that a sequence of leaves stands for.
pub open spec fn leaf_views(leaves: Seq<Leave>) -> Seq<LeafView> {
    Seq::new(leaves.len(), |i: int| leaves[i]@)
}

/// The slot that nothing was put into.
pub open spec fn empty_leaf() -> LeafView {
    LeafView { value: Seq::empty(), is_empty: true }
}

/// The slot that holds the payload `data`.
pub open spec fn occupied_leaf(data: Seq<u8>) -> LeafView {
    LeafView { value: data, is_empty: false }
}

/// A slot as the tree accepts it: its payload can be encoded, and an empty
/// slot has no payload.
pub open spec fn leaf_ok(leaf: LeafView) -> bool {
    &&& encodable(leaf.value)
    &&& leaf.is_empty ==> leaf.value.len() == 0
}

/// The hash of a leaf: the hash of its encoded payload.
pub open spec fn leaf_hash(leaf: LeafView) -> nat {
    hash_spec(encoding(leaf.value))
}

/// The hashes of the leaves, in their order.
pub open spec fn leaf_hashes(leaves: Seq<LeafView>) -> Seq<nat> {
    Seq::new(leaves.len(), |i: int| leaf_hash(leaves[i]))
}

/// The leaves after `leaf` was put in at `position`: the slots from there on
/// move one step towards the end, and what the last slot held is dropped.
pub open spec fn shift_insert(leaves: Seq<LeafView>, position: int, leaf: LeafView) -> Seq<
    LeafView,
>
    recommends
        0 <= position < leaves.len(),
{
    leaves.insert(position, leaf).drop_last()
}

/// How an insertion that was not in error ended.
#[derive(Clone, Copy, Debug, PartialEq, Eq, Structural)]
pub enum InsertOutcome {
    /// The payload is in the tree.
    Inserted,
    /// The last slot is taken: nothing was put in.
    CapacityExhausted,
}

/// What a tree is, as plain values.
pub struct TreeView {
    pub depth: nat,
    pub leaves: Seq<LeafView>,
    pub node_hashes: Seq<nat>,
    pub root: nat,
}

impl TreeView {
    /// The number of leaf slots.
    pub open spec fn capacity(self) -> nat {
        pow2((self.depth - 1) as nat)
    }

    /// What holds of every tree: its shape, and that every leaf is
    /// acceptable. The node hashes are either not computed yet or all there.
    pub open spec fn wf(self) -> bool {
        &&& self.depth >= 1
        &&& pow2(self.depth) <= usize::MAX
        &&& self.leaves.len() == self.capacity()
        &&& forall|i: int| 0 <= i < self.leaves.len() ==> leaf_ok(#[trigger] self.leaves[i])
        &&& (self.node_hashes.len() == 0 || self.node_hashes.len() == pow2(self.depth) - 1)
    }

    /// A tree as `new` makes it: all slots empty, no node hash computed, and
    /// zero as its root.
    pub open spec fn is_fresh(self) -> bool {
        &&& forall|i: int| 0 <= i < self.leaves.len() ==> #[trigger] self.leaves[i] == empty_leaf()
        &&& self.node_hashes.len() == 0
        &&& self.root == 0
    }

    /// The node hashes and the root are those of the leaves.
    pub open spec fn is_built(self) -> bool {
        &&& self.node_hashes == node_hashes_of(leaf_hashes(self.leaves))
        &&& self.root == root_of(leaf_hashes(self.leaves))
    }

    /// The siblings of the ancestors of leaf `index`, from the leaf's level
    /// upwards, as the flat sequence of node hashes holds them.
    pub open spec fn sibling_path(self, index: int) -> Seq<nat> {
        Seq::new(
            (self.depth - 1) as nat,
            |height: int|
                self.node_hashes[level_offset(self.depth, height as nat) + sibling_index(
                    index / (pow2(height as nat) as int),
                )],
        )
    }

    /// The proof for leaf `index`.
    pub open spec fn proof_of(self, index: int) -> ProofView {
        ProofView {
            index: index as nat,
            value: hex_upper(self.leaves[index].value),
            siblings: self.sibling_path(index),
            root: self.root,
            empty: self.leaves[index].is_empty,
        }
    }

    /// How `generate_proof` ends for an index.
    pub open spec fn proof_outcome(self, index: int) -> Result<ProofView, MerkleError> {
        if index >= self.capacity() {
            Err(MerkleError::OutOfBounds)
        } else if self.depth > 1 && self.node_hashes.len() == 0 {
            Err(MerkleError::NotBuilt)
        } else {
            Ok(self.proof_of(index))
        }
    }

    /// The tree with every node hash and the root computed from its leaves.
    pub open spec fn rebuilt(self) -> TreeView {
        TreeView {
            depth: self.depth,
            leaves: self.leaves,
            node_hashes: node_hashes_of(leaf_hashes(self.leaves)),
            root: root_of(leaf_hashes(self.leaves)),
        }
    }

    /// How `insert_leaf` ends for a position and a payload.
    pub open spec fn insert_outcome(self, position: int, data: Seq<u8>) -> Result<
        InsertOutcome,
        MerkleError,
    > {
        if position >= self.capacity() {
            Err(MerkleError::OutOfBounds)
        } else if !self.leaves.last().is_empty {
            Ok(InsertOutcome::CapacityExhausted)
        } else if !encodable(data) {
            Err(MerkleError::InvalidEncoding)
        } else {
            Ok(InsertOutcome::Inserted)
        }
    }

    /// The tree that `insert_leaf` leaves behind. An error changes nothing.
    /// With the last slot taken the leaves stay and the hashes are computed
    /// anew. Otherwise the payload is put in by `shift_insert` first.
    pub open spec fn after_insert(self, position: int, data: Seq<u8>) -> TreeView {
        match self.insert_outcome(position, data) {
            Err(_) => self,
            Ok(InsertOutcome::CapacityExhausted) => self.rebuilt(),
            Ok(InsertOutcome::Inserted) => (TreeView {
                depth: self.depth,
                leaves: shift_insert(self.leaves, position, occupied_leaf(data)),
                node_hashes: self.node_hashes,
                root: self.root,
            }).rebuilt(),
        }
    }
}

/// Two to the power `exponent`.
fn power_of_two(exponent: usize) -> (power: usize)
    requires
        pow2(exponent as nat) <= usize::MAX,
    ensures
        power == pow2(exponent as nat),
{
    let mut power: usize = 1;
    let mut done: usize = 0;
    proof {
        lemma2_to64();
    }
    while done < exponent
        invariant
            done <= exponent,
            power == pow2(done as nat),
            pow2(exponent as nat) <= usize::MAX,
        decreases exponent - done,
    {
        proof {
            lemma_pow2_unfold((done + 1) as nat);
            if done + 1 < exponent {
                lemma_pow2_strictly_increases((done + 1) as nat, exponent as nat);
            }
        }
        power = power * 2;
        done += 1;
    }
    power
}

/// A power of two with an exponent below the width of `usize` fits in it.
pub proof fn lemma_pow2_fits(exponent: nat)
    requires
        exponent < usize::BITS,
    ensures
        pow2(exponent) <= usize::MAX,
{
    lemma2_to64();
    if usize::BITS == 32 {
        lemma_pow2_strictly_increases(exponent, 32);
    } else {
        lemma_pow2_strictly_increases(exponent, 64);
    }
}

/// Hashes a left and a right child to their parent.
pub fn hash_pair(left: FieldElement, right: FieldElement) -> (parent: FieldElement)
    ensures
        parent@ == combine(left@, right@),
{
    let pair = vec![left, right];
    assert(element_values(pair@) =~= seq![left@, right@]);
    poseidon_hash(&pair)
}

/// Hashes a payload: encodes it as field elements and hashes those.
pub fn hash_payload(value: &Vec<u8>) -> (hashed: Result<FieldElement, MerkleError>)
    ensures
        hashed is Ok <==> encodable(value@),
        hashed matches Ok(hash) ==> hash@ == hash_spec(encoding(value@)),
        hashed matches Err(e) ==> e == MerkleError::InvalidEncoding,
{
    match bytes_2_blascalar(value.clone()) {
        Ok(elements) => Ok(poseidon_hash(&elements)),
        Err(e) => Err(e),
    }
}

/// A Merkle tree of fixed depth over byte payloads.
#[derive(Debug)]
pub struct MerkleTree {
    root: FieldElement,
    leaves: Vec<Leave>,
    inners: Vec<FieldElement>,
    depth: usize,
}

impl View for MerkleTree {
    type V = TreeView;

    closed spec fn view(&self) -> TreeView {
        TreeView {
            depth: self.depth as nat,
            leaves: leaf_views(self.leaves@),
            node_hashes: element_values(self.inners@),
            root: self.root@,
        }
    }
}

impl MerkleTree {
    /// What holds of every tree that this module hands out.
    pub open spec fn wf(&self) -> bool {
        self@.wf()
    }

    /// A tree of `depth` levels with all of its `2^(depth - 1)` slots empty.
    pub fn new(depth: usize) -> (tree: MerkleTree)
        requires
            1 <= depth < usize::BITS,
        ensures
            tree.wf(),
            tree@.depth == depth,
            tree@.is_fresh(),
    {
        proof {
            lemma_pow2_fits(depth as nat);
            lemma_pow2_fits((depth - 1) as nat);
        }
        let capacity = power_of_two(depth - 1);
        let mut leaves: Vec<Leave> = Vec::new();
        let mut i: usize = 0;
        while i < capacity
            invariant
                i <= capacity,
                leaves@.len() == i,
                forall|j: int| 0 <= j < i ==> (#[trigger] leaves@[j])@ == empty_leaf(),
            decreases capacity - i,
        {
            leaves.push(Leave { value: Vec::new(), is_empty: true });
            i += 1;
        }
        let tree = MerkleTree { root: FieldElement::zero(), leaves, inners: Vec::new(), depth };
        proof {
            assert forall|j: int| 0 <= j < tree@.leaves.len() implies #[trigger] tree@.leaves[j]
                == empty_leaf() by {}
            assert forall|j: int| 0 <= j < tree@.leaves.len() implies leaf_ok(
                #[trigger] tree@.leaves[j],
            ) by {
                assert(tree@.leaves[j] == empty_leaf());
                assert(crate::encoder::chunk_count(0) == 0);
            }
        }
        tree
    }

    /// The number of leaf slots, which is the tree's capacity.
    pub fn leave_num(&self) -> (count: usize)
        requires
            self.wf(),
        ensures
            count == self@.capacity(),
            count == self@.leaves.len(),
    {
        self.leaves.len()
    }

    /// Computes every node hash and the root anew from the leaves.
    pub fn build(&mut self)
        requires
            old(self).wf(),
        ensures
            final(self).wf(),
            final(self)@ == old(self)@.rebuilt(),
    {
        let ghost hashes = leaf_hashes(self@.leaves);
        let mut nodes: Vec<FieldElement> = Vec::new();
        let mut inners: Vec<FieldElement> = Vec::new();
        let mut i: usize = 0;
        while i < self.leaves.len()
            invariant
                self.wf(),
                i <= self.leaves@.len(),
                hashes == leaf_hashes(self@.leaves),
                element_values(nodes@) == hashes.take(i as int),
                element_values(inners@) == hashes.take(i as int),
            decreases self.leaves@.len() - i,
        {
            assert(leaf_ok(self@.leaves[i as int]));
            let ghost nodes_before = element_values(nodes@);
            let ghost inners_before = element_values(inners@);
            let hash = hash_payload(&self.leaves[i].value).unwrap();
            assert(hash@ == hashes[i as int]);
            nodes.push(hash);
            inners.push(hash);
            i += 1;
            assert(element_values(nodes@) =~= nodes_before.push(hash@));
            assert(element_values(inners@) =~= inners_before.push(hash@));
            assert(hashes.take(i as int) =~= hashes.take(i - 1).push(hash@));
        }
        proof {
            assert(hashes.take(i as int) =~= hashes);
            lemma_pow2_pos((self.depth - 1) as nat);
        }
        while nodes.len() > 1
            invariant
                nodes@.len() >= 1,
                node_hashes_of(hashes) == element_values(inners@) + upper_nodes(
                    element_values(nodes@),
                ),
                root_of(hashes) == root_of(element_values(nodes@)),
            decreases nodes@.len(),
        {
            let ghost level = element_values(nodes@);
            let ghost below = element_values(inners@);
            let mut above: Vec<FieldElement> = Vec::new();
            let mut k: usize = 0;
            while k < nodes.len() - 1
                invariant
                    nodes@.len() >= 2,
                    level == element_values(nodes@),
                    k % 2 == 0,
                    k <= nodes@.len(),
                    element_values(above@) == paired(level).take(k as int / 2),
                    element_values(inners@) == below + paired(level).take(k as int / 2),
                decreases nodes@.len() - k,
            {
                let ghost above_before = element_values(above@);
                let ghost inners_before = element_values(inners@);
                let parent = hash_pair(nodes[k], nodes[k + 1]);
                assert(parent@ == paired(level)[k as int / 2]);
                above.push(parent);
                inners.push(parent);
                k += 2;
                assert(element_values(above@) =~= above_before.push(parent@));
                assert(element_values(inners@) =~= inners_before.push(parent@));
                assert(paired(level).take(k as int / 2) =~= paired(level).take(k as int / 2 - 1).push(
                    parent@,
                ));
                assert(below + paired(level).take(k as int / 2) =~= (below + paired(level).take(
                    k as int / 2 - 1,
                )).push(parent@));
            }
            assert(paired(level).take(k as int / 2) =~= paired(level));
            if nodes.len() % 2 != 0 {
                above.push(nodes[nodes.len() - 1]);
            }
            assert(element_values(above@) =~= next_level(level));
            assert(element_values(inners@) + upper_nodes(next_level(level)) =~= below
                + upper_nodes(level));
            nodes = above;
        }
        proof {
            lemma_upper_nodes_len(hashes);
            lemma_pow2_unfold(self.depth as nat);
            assert(element_values(inners@) =~= node_hashes_of(hashes));
        }
        self.inners = inners;
        self.root = nodes[0];
    }

    /// Puts `data` into the slot at `position`. The slots from there on move
    /// one step towards the end and the last slot's content is dropped. With
    /// the last slot taken nothing is put in. Either way all hashes are
    /// computed anew.
    pub fn insert_leaf(&mut self, position: usize, data: Vec<u8>) -> (outcome: Result<
        InsertOutcome,
        MerkleError,
    >)
        requires
            old(self).wf(),
        ensures
            final(self).wf(),
            outcome == old(self)@.insert_outcome(position as int, data@),
            final(self)@ == old(self)@.after_insert(position as int, data@),
    {
        if position >= self.leave_num() {
            return Err(MerkleError::OutOfBounds);
        }
        let last = self.leaves.len() - 1;
        assert(self@.leaves.last() == self.leaves@[last as int]@);
        if !self.leaves[last].is_empty {
            self.build();
            return Ok(InsertOutcome::CapacityExhausted);
        }
        if let Err(e) = bytes_2_blascalar(data.clone()) {
            return Err(e);
        }
        let ghost before = self@.leaves;
        let ghost leaf = occupied_leaf(data@);
        self.leaves.insert(position, Leave { value: data, is_empty: false });
        self.leaves.pop();
        proof {
            assert(self@.leaves =~= shift_insert(before, position as int, leaf));
            assert forall|i: int| 0 <= i < self@.leaves.len() implies leaf_ok(
                #[trigger] self@.leaves[i],
            ) by {
                if i < position {
                    assert(self@.leaves[i] == before[i]);
                } else if i > position {
                    assert(self@.leaves[i] == before[i - 1]);
                }
            }
        }
        self.build();
        Ok(InsertOutcome::Inserted)
    }

    /// The inclusion proof for the leaf at `leaf_index`.
    pub fn generate_proof(&self, leaf_index: usize) -> (outcome: Result<MerkleProof, MerkleError>)
        requires
            self.wf(),
        ensures
            match outcome {
                Ok(made) => self@.proof_outcome(leaf_index as int) == Ok::<
                    ProofView,
                    MerkleError,
                >(made@),
                Err(e) => self@.proof_outcome(leaf_index as int) == Err::<ProofView, MerkleError>(
                    e,
                ),
            },
    {
        if leaf_index >= self.leaves.len() {
            return Err(MerkleError::OutOfBounds);
        }
        if self.depth > 1 && self.inners.len() == 0 {
            return Err(MerkleError::NotBuilt);
        }
        let mut siblings: Vec<FieldElement> = Vec::new();
        let mut index = leaf_index;
        let mut level: usize = 0;
        proof {
            lemma2_to64();
        }
        while level < self.depth - 1
            invariant
                self.wf(),
                self@.depth > 1 ==> self@.node_hashes.len() == pow2(self@.depth) - 1,
                level <= self@.depth - 1,
                index == leaf_index as int / (pow2(level as nat) as int),
                index < pow2((self@.depth - 1 - level) as nat),
                element_values(siblings@) == self@.sibling_path(leaf_index as int).take(
                    level as int,
                ),
            decreases self@.depth - 1 - level,
        {
            let ghost width = pow2((self@.depth - 2 - level) as nat);
            proof {
                lemma_pow2_pos((self@.depth - 2 - level) as nat);
                lemma_pow2_unfold((self@.depth - 1 - level) as nat);
                lemma_pow2_unfold((self@.depth - level) as nat);
                lemma_pow2_unfold((level + 1) as nat);
                lemma_pow2_pos(level as nat);
                lemma_div_denominator(leaf_index as int, pow2(level as nat) as int, 2);
                assert(pow2(level as nat) * 2 == pow2((level + 1) as nat));
            }
            let beside = if index % 2 == 0 {
                index + 1
            } else {
                index - 1
            };
            let offset = self.calc_pos(level);
            let ghost path_before = element_values(siblings@);
            let sibling = self.inners[beside + offset];
            siblings.push(sibling);
            index = index / 2;
            level += 1;
            proof {
                let path = self@.sibling_path(leaf_index as int);
                assert(element_values(siblings@) =~= path_before.push(sibling@));
                assert(path.take(level as int) =~= path.take(level - 1).push(sibling@));
            }
        }
        assert(self@.sibling_path(leaf_index as int).take(level as int)
            =~= self@.sibling_path(leaf_index as int));
        Ok(
            MerkleProof {
                index: leaf_index,
                value: self.leaves[leaf_index].to_string(),
                siblings,
                root: self.root,
                empty: self.leaves[leaf_index].is_empty,
            },
        )
    }

    /// Checks a proof: computes a root from the proof's leaf and siblings and
    /// compares it with the root that the proof claims. Every sibling is
    /// used, whatever the result.
    pub fn verify_proof(&self, merkle_proof: MerkleProof) -> (outcome: Result<bool, MerkleError>)
        ensures
            outcome == verify_outcome(merkle_proof@),
    {
        let start = if merkle_proof.empty {
            FieldElement::zero()
        } else {
            let inputs = match decode(&merkle_proof.value) {
                Ok(bytes) => bytes,
                Err(e) => {
                    return Err(e);
                },
            };
            match hash_payload(&inputs) {
                Ok(hash) => hash,
                Err(e) => {
                    return Err(e);
                },
            }
        };
        assert(start@ == start_hash(merkle_proof@));
        let ghost path = element_values(merkle_proof.siblings@);
        let mut current = start;
        let mut index = merkle_proof.index;
        let mut used: usize = 0;
        assert(path.skip(0) =~= path);
        while used < merkle_proof.siblings.len()
            invariant
                used <= merkle_proof.siblings@.len(),
                path == element_values(merkle_proof.siblings@),
                climb(start@, merkle_proof.index as int, path) == climb(
                    current@,
                    index as int,
                    path.skip(used as int),
                ),
            decreases merkle_proof.siblings@.len() - used,
        {
            let sibling = merkle_proof.siblings[used];
            let ghost rest = path.skip(used as int);
            assert(rest[0] == sibling@);
            assert(rest.drop_first() =~= path.skip(used + 1));
            current = if index % 2 == 0 {
                hash_pair(current, sibling)
            } else {
                hash_pair(sibling, current)
            };
            index = index / 2;
            used += 1;
        }
        Ok(current == merkle_proof.root)
    }

    /// Where level `dep` starts in the flat sequence of node hashes.
    pub fn calc_pos(&self, dep: usize) -> (offset: usize)
        requires
            self.wf(),
            dep <= self@.depth,
        ensures
            offset == level_offset(self@.depth, dep as nat),
    {
        proof {
            lemma_pow2_pos((self.depth - dep) as nat);
            if dep > 0 {
                lemma_pow2_strictly_increases((self.depth - dep) as nat, self.depth as nat);
            }
        }
        power_of_two(self.depth) - power_of_two(self.depth - dep)
    }

    /// The number of levels.
    pub fn depth(&self) -> (depth: usize)
        ensures
            depth == self@.depth,
    {
        self.depth
    }

    /// The root as it was last computed; zero before the first build.
    pub fn root(&self) -> (root: FieldElement)
        ensures
            root@ == self@.root,
    {
        self.root
    }

    /// The leaf slots, in their order.
    pub fn leaves(&self) -> (leaves: &Vec<Leave>)
        ensures
            leaf_views(leaves@) == self@.leaves,
    {
        &self.leaves
    }

    /// All node hashes in one flat sequence, the leaf hashes first.
    pub fn node_hashes(&self) -> (hashes: &Vec<FieldElement>)
        ensures
            element_values(hashes@) == self@.node_hashes,
    {
        &self.inners
    }
}

} // verus!
