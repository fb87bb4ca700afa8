use poseidon_merkle::error::MerkleError;
use poseidon_merkle::hexcode::{decode, encode_upper, to_hex_int};

#[test]
fn hex_digit_values() {
    assert_eq!(to_hex_int(b'0'), 0);
    assert_eq!(to_hex_int(b'9'), 9);
    assert_eq!(to_hex_int(b'a'), 10);
    assert_eq!(to_hex_int(b'f'), 15);
    assert_eq!(to_hex_int(b'A'), 10);
    assert_eq!(to_hex_int(b'F'), 15);
}

#[test]
fn upper_case_encoding() {
    assert_eq!(encode_upper(&vec![]), "");
    assert_eq!(encode_upper(&vec![0x00, 0x0f, 0xa5, 0xff]), "000FA5FF");
}

#[test]
fn decoding_reads_both_cases() {
    assert_eq!(decode(&String::from("")), Ok(vec![]));
    assert_eq!(decode(&String::from("0A")), Ok(vec![10]));
    assert_eq!(decode(&String::from("000fA5Ff")), Ok(vec![0x00, 0x0f, 0xa5, 0xff]));
}

#[test]
fn decoding_refuses_odd_length_and_other_characters() {
    assert_eq!(decode(&String::from("123")), Err(MerkleError::MalformedHex));
    assert_eq!(decode(&String::from("0g")), Err(MerkleError::MalformedHex));
    assert_eq!(decode(&String::from("é0")), Err(MerkleError::MalformedHex));
    assert_eq!(decode(&String::from("ab ")), Err(MerkleError::MalformedHex));
}

#[test]
fn decoding_undoes_encoding() {
    let bytes: Vec<u8> = (0..=255).collect();
    assert_eq!(decode(&encode_upper(&bytes)), Ok(bytes));
}
