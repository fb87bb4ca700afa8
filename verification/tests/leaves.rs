use poseidon_merkle::tree::Leave;

#[test]
fn test_hash_2_string() {
    let leaf = Leave {
        value: vec![0u8; 32],
        is_empty: false,
    };
    println!("{} {}", leaf.to_string(), leaf.to_string().len());
    assert_eq!(leaf.to_string(), "0".repeat(64));
    assert_eq!(leaf.to_string().len(), 64);
}
