use hat_trie::HatTrie;

fn keys_of(trie: &HatTrie<i32>) -> Vec<String> {
    let mut it = trie.iter();
    let mut keys = Vec::new();
    while let Some((k, _)) = it.next() {
        keys.push(String::from_utf8(k).unwrap());
    }
    keys
}

#[test]
fn test_basic_crud() {
    let mut trie = HatTrie::new();

    assert_eq!(trie.get(b"foo"), None);

    trie.insert(b"foo", 1);
    assert_eq!(trie.get(b"foo"), Some(&1));

    // overwrite
    trie.insert(b"foo", 2);
    assert_eq!(trie.get(b"foo"), Some(&2));
    assert_eq!(trie.len(), 1);

    trie.insert(b"bar", 10);
    assert_eq!(trie.get(b"bar"), Some(&10));
    assert_eq!(trie.get(b"foo"), Some(&2));
    assert_eq!(trie.len(), 2);
}

#[test]
fn test_large_keys_behavior() {
    let threshold = 128;
    let mut trie = HatTrie::with_threshold(threshold);

    let large_key = "a".repeat(threshold * 2);
    trie.insert(large_key.as_bytes(), 999);

    assert_eq!(trie.get(large_key.as_bytes()), Some(&999));
}

#[test]
fn test_scan_prefix() {
    let mut trie = HatTrie::new();
    trie.insert(b"app", 1);
    trie.insert(b"apple", 2);
    trie.insert(b"application", 3);
    trie.insert(b"banana", 4);

    assert_eq!(trie.scan_prefix(b"app").count(), 3);
    assert_eq!(trie.scan_prefix(b"appl").count(), 2);
    assert_eq!(trie.scan_prefix(b"z").count(), 0);
}

#[test]
fn test_longest_common_prefix() {
    let mut trie = HatTrie::new();
    trie.insert(b"http", 1);
    trie.insert(b"http://google", 2);

    let (len, val) = trie.longest_common_prefix(b"http://google.com");
    assert_eq!(len, 13);
    assert_eq!(val, Some(&2));

    let (len, val) = trie.longest_common_prefix(b"http://yahoo.com");
    assert_eq!(len, 4);
    assert_eq!(val, Some(&1));

    let (len, val) = trie.longest_common_prefix(b"ftp://ftp.com");
    assert_eq!(len, 0);
    assert_eq!(val, None);
}

#[test]
fn test_traits() {
    let trie: HatTrie<i32> = HatTrie::from_iter(vec![("a".to_string(), 1), ("b".to_string(), 2)]);

    assert_eq!(*trie.index("a"), 1);
    assert_eq!(*trie.index("b"), 2);
}

#[test]
fn test_forced_burst_consistency() {
    let mut trie = HatTrie::with_threshold(100);

    for i in 0..50 {
        trie.insert(format!("val-{:02}", i).as_bytes(), i);
    }

    for i in 0..50 {
        let key = format!("val-{:02}", i);
        assert_eq!(trie.get(key.as_bytes()), Some(&i), "Failed to retrieve {}", key);
    }

    assert_eq!(trie.len(), 50);
}

#[test]
fn test_deep_recursion_common_prefix() {
    let mut trie = HatTrie::with_threshold(50);

    let items = vec!["aaaaaaaaaa1", "aaaaaaaaaa2", "aaaaaaaaaa3", "aaaaaaaaaa4", "aaaaaaaaaa5"];

    for (i, key) in items.iter().enumerate() {
        trie.insert(key.as_bytes(), i);
    }

    for (i, key) in items.iter().enumerate() {
        assert_eq!(trie.get(key.as_bytes()), Some(&i));
    }
}

#[test]
fn test_sparse_burst_distribution() {
    let mut trie = HatTrie::with_threshold(10);

    trie.insert(b"alpha", 1);
    trie.insert(b"mid", 2);
    trie.insert(b"zoo", 3);
    trie.insert(b"extra1", 9);
    trie.insert(b"extra2", 9);

    assert_eq!(trie.get(b"alpha"), Some(&1));
    assert_eq!(trie.get(b"mid"), Some(&2));
    assert_eq!(trie.get(b"zoo"), Some(&3));
}

#[test]
fn test_lexicographical_iteration_order() {
    let mut trie = HatTrie::new();

    trie.insert(b"zebra", 1);
    trie.insert(b"delta", 2);
    trie.insert(b"alpha", 3);

    assert_eq!(keys_of(&trie), vec!["alpha", "delta", "zebra"]);
}

#[test]
fn test_interleaved_insertion_sorting() {
    let mut trie = HatTrie::new();

    trie.insert(b"banana", 1);
    trie.insert(b"carrot", 2);
    trie.insert(b"apple", 3);

    assert_eq!(keys_of(&trie), vec!["apple", "banana", "carrot"]);
}

#[test]
fn test_binary_safety() {
    let mut trie = HatTrie::new();

    let k1 = vec![65, 0, 66];
    let k2 = vec![65, 0, 67];
    let k3 = vec![255, 254];

    trie.insert(&k1, "k1");
    trie.insert(&k2, "k2");
    trie.insert(&k3, "k3");

    assert_eq!(trie.get(&k1), Some(&"k1"));
    assert_eq!(trie.get(&k2), Some(&"k2"));
    assert_eq!(trie.get(&k3), Some(&"k3"));
}

#[test]
fn test_empty_key() {
    let mut trie = HatTrie::new();
    trie.insert(b"", 1337);

    assert_eq!(trie.get(b""), Some(&1337));
    assert_eq!(trie.get(b"a"), None);

    // the empty key comes first
    trie.insert(b"a", 1);
    let mut it = trie.iter();
    let mut items = Vec::new();
    while let Some(item) = it.next() {
        items.push(item);
    }
    assert_eq!(items[0].1, &1337);
    assert_eq!(items[1].1, &1);
}

#[test]
fn test_prefix_conflicts() {
    let mut trie = HatTrie::new();

    trie.insert(b"testing", 1);
    trie.insert(b"test", 2);
    trie.insert(b"tester", 3);

    assert_eq!(trie.get(b"testing"), Some(&1));
    assert_eq!(trie.get(b"test"), Some(&2));
    assert_eq!(trie.get(b"tester"), Some(&3));

    assert_eq!(keys_of(&trie), vec!["test", "tester", "testing"]);
}

#[test]
fn test_non_copy_values() {
    let mut trie = HatTrie::new();

    trie.insert(b"foo", String::from("bar"));
    trie.insert(b"baz", String::from("qux"));

    let mut trie = HatTrie::with_threshold(10);
    for i in 0..100 {
        trie.insert(format!("{}", i).as_bytes(), vec![i; 10]);
    }

    assert_eq!(trie.get(b"50"), Some(&vec![50; 10]));
}

#[test]
fn test_zst_values() {
    let mut trie = HatTrie::with_threshold(50);

    for i in 0..100 {
        trie.insert(format!("key-{}", i).as_bytes(), ());
    }

    assert_eq!(trie.get(b"key-99"), Some(&()));
}
