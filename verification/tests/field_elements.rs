use poseidon_merkle::encoder::bytes_2_blascalar;
use poseidon_merkle::error::MerkleError;
use poseidon_merkle::field::{poseidon_hash, FieldElement};

const MODULUS_LE: [u8; 32] = [
    0x01, 0x00, 0x00, 0x00, 0xff, 0xff, 0xff, 0xff, 0xfe, 0x5b, 0xfe, 0xff, 0x02, 0xa4, 0xbd, 0x53,
    0x05, 0xd8, 0xa1, 0x09, 0x08, 0xd8, 0x39, 0x33, 0x48, 0x7d, 0x9d, 0x29, 0x53, 0xa7, 0xed, 0x73,
];

fn element(low: u8) -> FieldElement {
    let mut bytes = [0u8; 32];
    bytes[0] = low;
    FieldElement::from_bytes(&bytes).unwrap()
}

#[test]
fn zero_is_all_zero_bytes() {
    assert_eq!(FieldElement::zero().to_bytes(), [0u8; 32]);
    assert_eq!(FieldElement::zero(), element(0));
}

#[test]
fn bytes_below_the_order_are_accepted() {
    let mut below = MODULUS_LE;
    below[0] = 0x00;
    let made = FieldElement::from_bytes(&below).unwrap();
    assert_eq!(made.to_bytes(), below);
}

#[test]
fn bytes_at_or_above_the_order_are_refused() {
    assert!(FieldElement::from_bytes(&MODULUS_LE).is_none());
    assert!(FieldElement::from_bytes(&[0xff; 32]).is_none());
    let mut above = MODULUS_LE;
    above[0] = 0x02;
    assert!(FieldElement::from_bytes(&above).is_none());
}

#[test]
fn elements_compare_by_value() {
    assert_eq!(element(7), element(7));
    assert_ne!(element(7), element(8));
}

#[test]
fn hash_of_nothing_is_zero() {
    assert_eq!(poseidon_hash(&vec![]), FieldElement::zero());
}

#[test]
fn hash_is_not_its_input() {
    let one = element(1);
    assert_ne!(poseidon_hash(&vec![one]), one);
    assert_ne!(poseidon_hash(&vec![FieldElement::zero()]), FieldElement::zero());
}

#[test]
fn hash_depends_on_order_and_is_repeatable() {
    let a = element(1);
    let b = element(2);
    assert_eq!(poseidon_hash(&vec![a, b]), poseidon_hash(&vec![a, b]));
    assert_ne!(poseidon_hash(&vec![a, b]), poseidon_hash(&vec![b, a]));
}

#[test]
fn empty_payload_has_no_chunk() {
    assert_eq!(bytes_2_blascalar(vec![]).unwrap().len(), 0);
}

#[test]
fn short_payload_is_filled_with_zeros() {
    let encoded = bytes_2_blascalar(vec![5, 6]).unwrap();
    assert_eq!(encoded.len(), 1);
    let mut expected = [0u8; 32];
    expected[0] = 5;
    expected[1] = 6;
    assert_eq!(encoded[0].to_bytes(), expected);
}

#[test]
fn payload_is_cut_every_32_bytes() {
    assert_eq!(bytes_2_blascalar(vec![1; 32]).unwrap().len(), 1);
    let encoded = bytes_2_blascalar(vec![1; 33]).unwrap();
    assert_eq!(encoded.len(), 2);
    assert_eq!(encoded[0].to_bytes(), [1u8; 32]);
    assert_eq!(encoded[1], element(1));
    assert_eq!(bytes_2_blascalar(vec![1; 64]).unwrap().len(), 2);
}

#[test]
fn chunk_above_the_order_is_an_error() {
    assert_eq!(bytes_2_blascalar(vec![0xff; 32]).unwrap_err(), MerkleError::InvalidEncoding);
    let mut payload = vec![0u8; 32];
    payload.extend_from_slice(&MODULUS_LE);
    assert_eq!(bytes_2_blascalar(payload).unwrap_err(), MerkleError::InvalidEncoding);
}
