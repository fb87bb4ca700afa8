//! Inclusion proofs: what a proof holds and what it means to accept one.

use crate::encoder::{encodable, encoding};
use crate::error::MerkleError;
use crate::field::{element_values, hash_spec, FieldElement};
use crate::hexcode::{hex_bytes, is_hex_text};
use crate::layout::climb;
use vstd::prelude::*;

verus! {

/// What a proof is, as plain values.
pub struct ProofView {
    pub index: nat,
    pub value: Seq<char>,
    pub siblings: Seq<nat>,
    pub root: nat,
    pub empty: bool,
}

/// An inclusion proof for one leaf: the leaf's index, its payload as
/// hexadecimal text, the sibling hashes from the leaf's level upwards, the
/// root that is claimed, and whether the leaf's slot is empty.
#[derive(Clone, Debug)]
pub struct MerkleProof {
    pub index: usize,
    pub value: String,
    pub siblings: Vec<FieldElement>,
    pub root: FieldElement,
    pub empty: bool,
}

impl View for MerkleProof {
    type V = ProofView;

    open spec fn view(&self) -> ProofView {
        ProofView {
            index: self.index as nat,
            value: self.value@,
            siblings: element_values(self.siblings@),
            root: self.root@,
            empty: self.empty,
        }
    }
}

/// The hash from which a proof starts: zero for an empty slot, and the hash
/// of the encoded payload otherwise.
pub open spec fn start_hash(claim: ProofView) -> nat {
    if claim.empty {
        0
    } else {
        hash_spec(encoding(hex_bytes(claim.value)))
    }
}

/// How checking a proof ends. The payload of a slot that is not empty must
/// be hexadecimal text and must encode; then the proof is accepted exactly
/// when climbing from its start hash through all its siblings gives the root
/// it claims.
pub open spec fn verify_outcome(claim: ProofView) -> Result<bool, MerkleError> {
    if !claim.empty && !is_hex_text(claim.value) {
        Err(MerkleError::MalformedHex)
    } else if !claim.empty && !encodable(hex_bytes(claim.value)) {
        Err(MerkleError::InvalidEncoding)
    } else {
        Ok(climb(start_hash(claim), claim.index as int, claim.siblings) == claim.root)
    }
}

} // verus!
