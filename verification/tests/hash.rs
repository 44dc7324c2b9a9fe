use keyed_store::hash_table::HashTable;

#[test]
fn test_hash() {
    let cases = vec![
        ("a", 0xca2e9442u32),
        ("The quick brown fox jumps over the lazy dog", 0x519e91f5u32),
    ];

    for (input, expected) in cases {
        let hash_value = HashTable::jenkins_one_at_a_time_hash(input.as_bytes());
        assert_eq!(
            expected, hash_value,
            "Hash mismatch: computed {:x}, expected {:x}",
            hash_value, expected
        );
    }
}

#[test]
fn hash_is_deterministic() {
    let a = HashTable::jenkins_one_at_a_time_hash(b"alice");
    let b = HashTable::jenkins_one_at_a_time_hash(b"alice");
    assert_eq!(a, b);
}

#[test]
fn hash_of_empty_input() {
    // With no bytes absorbed the accumulator stays zero and only the
    // finalization mixes, which maps zero to zero.
    assert_eq!(HashTable::jenkins_one_at_a_time_hash(b""), 0);
}
