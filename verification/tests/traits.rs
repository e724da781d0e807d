use hat_trie::HatTrie;

struct NotCloneable;

#[test]
fn test_non_cloneable_values_work() {
    let mut trie = HatTrie::new();

    trie.insert(b"key", NotCloneable);

    assert!(trie.get(b"key").is_some());
}

#[test]
fn test_clone_independence() {
    let mut source = HatTrie::new();
    source.insert(b"key", 1);

    let mut clone = source.clone();
    clone.insert(b"key", 2);

    assert_eq!(source.get(b"key"), Some(&1));
    assert_eq!(clone.get(b"key"), Some(&2));
}

#[test]
fn test_partial_eq_structural_independence() {
    let mut small_buckets = HatTrie::with_threshold(10);
    let mut large_buckets = HatTrie::with_threshold(1024);

    let data = vec![
        ("a", 1),
        ("b", 2),
        ("c", 3),
        ("long_string_to_force_split_in_small_bucket", 4),
    ];

    for (k, v) in &data {
        small_buckets.insert(k.as_bytes(), *v);
        large_buckets.insert(k.as_bytes(), *v);
    }

    // equal despite their different shapes
    assert!(small_buckets.eq(&large_buckets));

    small_buckets.insert(b"d", 5);
    assert!(!small_buckets.eq(&large_buckets));
}

#[test]
fn test_into_iter_move() {
    let mut trie = HatTrie::new();
    trie.insert(b"a", "value_a".to_string());
    trie.insert(b"b", "value_b".to_string());

    let mut it = trie.into_iter();
    let mut collected: Vec<(Vec<u8>, String)> = Vec::new();
    while let Some(e) = it.next() {
        collected.push(e);
    }

    assert_eq!(collected.len(), 2);
    assert_eq!(collected[0].1, "value_a");
}

#[test]
fn test_debug_format() {
    let mut trie = HatTrie::new();
    trie.insert(b"a", 1);
    let debug_str = format!("{:?}", trie);
    // Just verify it doesn't crash and contains struct name
    assert!(debug_str.contains("HatTrie"));
}
