use poseidon_merkle::error::MerkleError;
use poseidon_merkle::field::{poseidon_hash, FieldElement};
use poseidon_merkle::inclusion::MerkleProof;
use poseidon_merkle::tree::{hash_pair, hash_payload, InsertOutcome, MerkleTree};

fn four_leaves() -> MerkleTree {
    let mut tree = MerkleTree::new(3);
    for (position, payload) in [b"a", b"b", b"c"].iter().enumerate() {
        assert_eq!(tree.insert_leaf(position, payload.to_vec()), Ok(InsertOutcome::Inserted));
    }
    tree
}

fn another_element(element: FieldElement) -> FieldElement {
    let mut bytes = element.to_bytes();
    bytes[0] ^= 1;
    match FieldElement::from_bytes(&bytes) {
        Some(other) => other,
        None => {
            bytes[0] ^= 3;
            FieldElement::from_bytes(&bytes).unwrap()
        }
    }
}

#[test]
fn new_tree_is_empty() {
    let tree = MerkleTree::new(4);
    assert_eq!(tree.depth(), 4);
    assert_eq!(tree.leave_num(), 8);
    assert_eq!(tree.leaves().len(), 8);
    assert!(tree.leaves().iter().all(|leaf| leaf.is_empty && leaf.value.is_empty()));
    assert_eq!(tree.node_hashes().len(), 0);
    assert_eq!(tree.root(), FieldElement::zero());
}

#[test]
fn level_offsets() {
    let tree = MerkleTree::new(4);
    assert_eq!(tree.calc_pos(0), 0);
    assert_eq!(tree.calc_pos(1), 8);
    assert_eq!(tree.calc_pos(2), 12);
    assert_eq!(tree.calc_pos(3), 14);
    assert_eq!(tree.calc_pos(4), 15);
}

#[test]
fn build_lays_out_every_level() {
    let tree = four_leaves();
    let a = hash_payload(&b"a".to_vec()).unwrap();
    let b = hash_payload(&b"b".to_vec()).unwrap();
    let c = hash_payload(&b"c".to_vec()).unwrap();
    let empty = hash_payload(&vec![]).unwrap();
    assert_eq!(empty, FieldElement::zero());
    let left = hash_pair(a, b);
    let right = hash_pair(c, empty);
    let root = hash_pair(left, right);
    assert_eq!(*tree.node_hashes(), vec![a, b, c, empty, left, right, root]);
    assert_eq!(tree.root(), root);
    assert_eq!(left, poseidon_hash(&vec![a, b]));
}

#[test]
fn single_leaf_tree() {
    let mut tree = MerkleTree::new(1);
    assert_eq!(tree.leave_num(), 1);
    let fresh = tree.generate_proof(0).unwrap();
    assert!(fresh.siblings.is_empty());
    assert_eq!(tree.verify_proof(fresh), Ok(true));
    assert_eq!(tree.insert_leaf(0, b"only".to_vec()), Ok(InsertOutcome::Inserted));
    assert_eq!(tree.root(), hash_payload(&b"only".to_vec()).unwrap());
    assert_eq!(tree.node_hashes().len(), 1);
    let made = tree.generate_proof(0).unwrap();
    assert_eq!(tree.verify_proof(made), Ok(true));
}

#[test]
fn rebuild_is_deterministic() {
    let first = four_leaves();
    let mut second = four_leaves();
    assert_eq!(first.root(), second.root());
    assert_eq!(first.node_hashes(), second.node_hashes());
    second.build();
    assert_eq!(first.root(), second.root());
    assert_eq!(first.node_hashes(), second.node_hashes());
}

#[test]
fn every_generated_proof_verifies() {
    let mut tree = MerkleTree::new(4);
    for payload in [&b"one"[..], &b"two"[..], &[7u8; 40][..], &b""[..]] {
        assert_eq!(tree.insert_leaf(2, payload.to_vec()), Ok(InsertOutcome::Inserted));
    }
    for index in 0..tree.leave_num() {
        let made = tree.generate_proof(index).unwrap();
        assert_eq!(made.index, index);
        assert_eq!(made.siblings.len(), 3);
        assert_eq!(made.root, tree.root());
        assert_eq!(tree.verify_proof(made), Ok(true));
    }
}

#[test]
fn proof_holds_the_leaf_as_upper_case_hex() {
    let tree = four_leaves();
    let made = tree.generate_proof(1).unwrap();
    assert_eq!(made.value, "62");
    assert!(!made.empty);
    let a = hash_payload(&b"a".to_vec()).unwrap();
    let right = hash_pair(hash_payload(&b"c".to_vec()).unwrap(), FieldElement::zero());
    assert_eq!(made.siblings, vec![a, right]);
}

#[test]
fn empty_leaf_proof_verifies_from_zero() {
    let tree = four_leaves();
    let made = tree.generate_proof(3).unwrap();
    assert!(made.empty);
    assert_eq!(made.value, "");
    assert_eq!(tree.verify_proof(made), Ok(true));
}

#[test]
fn tampered_proofs_are_refused() {
    let tree = four_leaves();
    let made = tree.generate_proof(1).unwrap();

    let mut other_root = made.clone();
    other_root.root = another_element(made.root);
    assert_eq!(tree.verify_proof(other_root), Ok(false));

    for level in 0..made.siblings.len() {
        let mut other_sibling = made.clone();
        other_sibling.siblings[level] = another_element(made.siblings[level]);
        assert_eq!(tree.verify_proof(other_sibling), Ok(false));
    }

    let mut other_value = made.clone();
    other_value.value = String::from("63");
    assert_eq!(tree.verify_proof(other_value), Ok(false));

    let mut other_index = made.clone();
    other_index.index = 0;
    assert_eq!(tree.verify_proof(other_index), Ok(false));

    let mut shorter = made.clone();
    shorter.siblings.pop();
    assert_eq!(tree.verify_proof(shorter), Ok(false));
}

#[test]
fn malformed_proof_values_are_errors() {
    let tree = four_leaves();
    let made = tree.generate_proof(1).unwrap();

    let mut not_hex = made.clone();
    not_hex.value = String::from("6x");
    assert_eq!(tree.verify_proof(not_hex), Err(MerkleError::MalformedHex));

    let mut odd = made.clone();
    odd.value = String::from("623");
    assert_eq!(tree.verify_proof(odd), Err(MerkleError::MalformedHex));

    let mut too_large = made.clone();
    too_large.value = "FF".repeat(32);
    assert_eq!(tree.verify_proof(too_large), Err(MerkleError::InvalidEncoding));

    let mut ignored = made.clone();
    ignored.value = String::from("6x");
    ignored.empty = true;
    assert_eq!(tree.verify_proof(ignored), Ok(false));
}

#[test]
fn inserting_shifts_later_leaves() {
    let mut tree = MerkleTree::new(4);
    for payload in ["leaf1", "leaf2", "leaf3", "leaf4"] {
        assert_eq!(
            tree.insert_leaf(1, payload.as_bytes().to_vec()),
            Ok(InsertOutcome::Inserted)
        );
    }
    let leaves = tree.leaves();
    assert_eq!(leaves.len(), 8);
    assert!(leaves[0].is_empty);
    assert_eq!(leaves[1].value, b"leaf4");
    assert_eq!(leaves[2].value, b"leaf3");
    assert_eq!(leaves[3].value, b"leaf2");
    assert_eq!(leaves[4].value, b"leaf1");
    for index in 1..5 {
        assert!(!leaves[index].is_empty);
    }
    for index in 5..8 {
        assert!(leaves[index].is_empty);
        assert!(leaves[index].value.is_empty());
    }
    let made = tree.generate_proof(1).unwrap();
    assert_eq!(made.value, "6C65616634");
    assert_eq!(tree.verify_proof(made), Ok(true));
}

#[test]
fn full_tree_refuses_inserts() {
    let mut tree = MerkleTree::new(2);
    assert_eq!(tree.insert_leaf(1, b"last".to_vec()), Ok(InsertOutcome::Inserted));
    let root = tree.root();
    let hashes = tree.node_hashes().clone();
    assert_eq!(tree.insert_leaf(0, b"more".to_vec()), Ok(InsertOutcome::CapacityExhausted));
    assert_eq!(tree.insert_leaf(1, vec![0xff; 32]), Ok(InsertOutcome::CapacityExhausted));
    assert!(tree.leaves()[0].is_empty);
    assert!(tree.leaves()[0].value.is_empty());
    assert!(!tree.leaves()[1].is_empty);
    assert_eq!(tree.leaves()[1].value, b"last");
    assert_eq!(tree.root(), root);
    assert_eq!(*tree.node_hashes(), hashes);
}

#[test]
fn insert_drops_the_last_slot() {
    let mut tree = MerkleTree::new(2);
    assert_eq!(tree.insert_leaf(0, b"x".to_vec()), Ok(InsertOutcome::Inserted));
    assert_eq!(tree.insert_leaf(0, b"y".to_vec()), Ok(InsertOutcome::Inserted));
    assert_eq!(tree.leaves()[0].value, b"y");
    assert_eq!(tree.leaves()[1].value, b"x");
    assert_eq!(tree.insert_leaf(0, b"z".to_vec()), Ok(InsertOutcome::CapacityExhausted));
}

#[test]
fn out_of_bounds_is_an_error() {
    let mut tree = four_leaves();
    let root = tree.root();
    assert_eq!(tree.insert_leaf(4, b"d".to_vec()), Err(MerkleError::OutOfBounds));
    assert_eq!(tree.insert_leaf(usize::MAX, b"d".to_vec()), Err(MerkleError::OutOfBounds));
    assert_eq!(tree.root(), root);
    assert!(tree.leaves()[3].is_empty);
    assert_eq!(tree.generate_proof(4).unwrap_err(), MerkleError::OutOfBounds);
    assert_eq!(tree.generate_proof(usize::MAX).unwrap_err(), MerkleError::OutOfBounds);
    assert!(tree.generate_proof(3).is_ok());
}

#[test]
fn payload_that_does_not_encode_is_an_error() {
    let mut tree = four_leaves();
    let root = tree.root();
    assert_eq!(tree.insert_leaf(0, vec![0xff; 32]), Err(MerkleError::InvalidEncoding));
    assert_eq!(tree.root(), root);
    assert_eq!(tree.leaves()[0].value, b"a");
    assert_eq!(tree.insert_leaf(7, vec![0xff; 32]), Err(MerkleError::OutOfBounds));
}

#[test]
fn proof_before_the_first_build_is_an_error() {
    let mut tree = MerkleTree::new(3);
    assert_eq!(tree.generate_proof(0).unwrap_err(), MerkleError::NotBuilt);
    assert_eq!(tree.generate_proof(9).unwrap_err(), MerkleError::OutOfBounds);
    tree.build();
    assert_eq!(tree.node_hashes().len(), 7);
    let made: MerkleProof = tree.generate_proof(0).unwrap();
    assert_eq!(tree.verify_proof(made), Ok(true));
}
