use nlp::binary_trie::{build_from_json_with_canonical, BinaryTrie, BinaryTrieNode, FileHeader, TrieError};

#[test]
fn test_insert_and_search() {
    let mut trie = BinaryTrie::new();
    trie.insert("hello", 200);
    trie.insert("help", 150);
    trie.insert("world", 100);

    assert!(trie.search_prefix("hel").is_some());
    assert!(trie.search_prefix("xyz").is_none());
}

#[test]
fn test_serialize_deserialize() {
    let mut trie = BinaryTrie::new();
    trie.insert("test", 100);
    trie.insert("testing", 50);
    trie.add_canonical_form("im".to_string(), "I'm".to_string());
    trie.add_canonical_form("dont".to_string(), "don't".to_string());

    let data = trie.serialize().unwrap();
    let loaded = BinaryTrie::deserialize(&data).unwrap();

    assert_eq!(loaded.node_count(), trie.node_count());
    assert_eq!(loaded.canonical_count(), 2);
    assert_eq!(loaded.canonical_forms().get("im"), Some(&"I'm".to_string()));
    assert_eq!(loaded.canonical_forms().get("dont"), Some(&"don't".to_string()));
}

#[test]
fn test_collect_words() {
    let mut trie = BinaryTrie::new();
    trie.insert("hello", 200);
    trie.insert("help", 150);
    trie.insert("helper", 100);

    let idx = trie.search_prefix("hel").unwrap();
    let mut results = Vec::new();
    trie.collect_words(idx, "hel", &mut results, 10);

    assert_eq!(results.len(), 3);
}

#[test]
fn test_build_with_canonical() {
    let json = r#"{"I'm": 200, "don't": 180, "USA": 150, "hello": 100}"#;
    let trie = build_from_json_with_canonical(json).unwrap();

    assert_eq!(trie.canonical_count(), 3);
    assert_eq!(trie.canonical_forms().get("im"), Some(&"I'm".to_string()));
    assert_eq!(trie.canonical_forms().get("dont"), Some(&"don't".to_string()));
    assert_eq!(trie.canonical_forms().get("usa"), Some(&"USA".to_string()));
    assert!(trie.canonical_forms().get("hello").is_none());
}

#[test]
fn insert_then_search_finds_frequency() {
    let mut trie = BinaryTrie::new();
    trie.insert("cat", 42);
    trie.insert("car", 7);
    let idx = trie.search_prefix("cat").unwrap();
    let mut results = Vec::new();
    trie.collect_words(idx, "cat", &mut results, 10);
    assert_eq!(results, vec![("cat".to_string(), 42u8)]);
}

#[test]
fn empty_word_and_zero_frequency_are_ignored() {
    let mut trie = BinaryTrie::new();
    trie.insert("", 10);
    trie.insert("dog", 0);
    assert_eq!(trie.node_count(), 1);
    assert_eq!(trie.word_count(), 0);
}

#[test]
fn collect_words_stops_at_limit_in_depth_first_order() {
    let mut trie = BinaryTrie::new();
    trie.insert("ab", 1);
    trie.insert("abc", 2);
    trie.insert("abd", 3);
    let idx = trie.search_prefix("a").unwrap();
    let mut results = Vec::new();
    trie.collect_words(idx, "a", &mut results, 2);
    assert_eq!(results, vec![("ab".to_string(), 1u8), ("abc".to_string(), 2u8)]);
}

#[test]
fn round_trip_keeps_words_and_checksum() {
    let mut trie = BinaryTrie::new();
    trie.insert("alpha", 10);
    trie.insert("alps", 20);
    let data = trie.serialize().unwrap();
    let loaded = BinaryTrie::deserialize(&data).unwrap();
    assert_eq!(loaded.calculate_checksum(), trie.calculate_checksum());
    assert_eq!(loaded.word_count(), 2);
    assert!(loaded.search_prefix("alps").is_some());
    assert_eq!(&data[0..4], b"FBTD");
    assert_eq!(&data[4..8], &[3, 0, 0, 0]);
}

#[test]
fn checksum_formula() {
    let mut trie = BinaryTrie::new();
    trie.insert("ab", 5);
    // node 1: 'a' (97), node 2: 'b' (98) with frequency 5
    assert_eq!(trie.calculate_checksum(), 97 + 2 * 98 + 5);
}

#[test]
fn deserialize_rejects_bad_input() {
    assert_eq!(BinaryTrie::deserialize(&[0u8; 10]).err(), Some(TrieError::BufferTooSmall));
    let mut data = BinaryTrie::new().serialize().unwrap();
    data[0] = b'X';
    assert_eq!(BinaryTrie::deserialize(&data).err(), Some(TrieError::InvalidMagic));
    let mut data = BinaryTrie::new().serialize().unwrap();
    data[4] = 2;
    assert_eq!(BinaryTrie::deserialize(&data).err(), Some(TrieError::UnsupportedVersion));
    let mut data = BinaryTrie::new().serialize().unwrap();
    data[16] ^= 1;
    assert_eq!(BinaryTrie::deserialize(&data).err(), Some(TrieError::ChecksumMismatch));
    let data = BinaryTrie::new().serialize().unwrap();
    assert_eq!(BinaryTrie::deserialize(&data[..26]).err(), Some(TrieError::DataTooSmall));
}

#[test]
fn build_round_trip_keeps_canonical_forms() {
    let json = r#"{"test":100,"testing":50,"I'm":200,"don't":180}"#;
    let trie = build_from_json_with_canonical(json).unwrap();
    let loaded = BinaryTrie::deserialize(&trie.serialize().unwrap()).unwrap();
    assert_eq!(loaded.canonical_count(), 2);
    assert_eq!(loaded.canonical_forms().get("im"), Some(&"I'm".to_string()));
    assert_eq!(loaded.canonical_forms().get("dont"), Some(&"don't".to_string()));
    assert!(loaded.search_prefix("im").is_some());
    assert!(loaded.search_prefix("testing").is_some());
}

#[test]
fn build_rejects_bad_json_and_large_frequencies() {
    assert!(build_from_json_with_canonical("not json").is_err());
    assert!(build_from_json_with_canonical(r#"{"a": 300}"#).is_err());
}

#[test]
fn node_and_header_encoding() {
    let node = BinaryTrieNode { char_code: 0x0102, frequency: 7, flags: 0, first_child: 3, next_sibling: 0x01020304 };
    let bytes = node.to_bytes();
    assert_eq!(bytes, vec![2, 1, 7, 0, 3, 0, 0, 0, 4, 3, 2, 1]);
    let back = BinaryTrieNode::from_bytes(&bytes);
    assert_eq!(back.next_sibling, 0x01020304);
    let header = FileHeader::new(1, 2, 3, 4);
    let hb = header.to_bytes();
    assert_eq!(hb.len(), 24);
    let parsed = FileHeader::from_bytes(&hb).ok().unwrap();
    assert_eq!(parsed.node_count, 2);
    assert_eq!(parsed.canonical_count, 4);
}
