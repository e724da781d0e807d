use hat_trie::HatTrie;

#[test]
fn test_remove() {
    let mut trie = HatTrie::new();
    trie.insert(b"apple", 1);
    trie.insert(b"apricot", 2);

    assert_eq!(trie.remove(b"apple"), Some(1));
    assert_eq!(trie.get(b"apple"), None);
    assert_eq!(trie.get(b"apricot"), Some(&2));
    assert_eq!(trie.len(), 1);

    assert_eq!(trie.remove(b"banana"), None);
    assert_eq!(trie.len(), 1);
}

#[test]
fn test_remove_bucket_middle() {
    let mut trie = HatTrie::new();
    trie.insert(b"A-1", 1);
    trie.insert(b"A-2", 2);
    trie.insert(b"A-3", 3);

    assert_eq!(trie.remove(b"A-2"), Some(2));

    assert_eq!(trie.get(b"A-1"), Some(&1));
    assert_eq!(trie.get(b"A-3"), Some(&3));
    assert_eq!(trie.get(b"A-2"), None);

    let mut it = trie.iter();
    let mut items = Vec::new();
    while let Some((k, v)) = it.next() {
        items.push((String::from_utf8(k).unwrap(), *v));
    }
    assert_eq!(items, vec![("A-1".to_string(), 1), ("A-3".to_string(), 3)]);
}

#[test]
fn test_remove_internal_value() {
    let mut trie = HatTrie::new();
    trie.insert(b"apple", 100);
    trie.insert(b"app", 50);

    for i in 0..1000 {
        trie.insert(format!("appendage-{}", i).as_bytes(), i);
    }

    assert_eq!(trie.remove(b"app"), Some(50));

    assert_eq!(trie.get(b"apple"), Some(&100));
    assert_eq!(trie.get(b"app"), None);
}

#[test]
fn test_hollow_tree_cleanup() {
    let mut trie = HatTrie::with_threshold(1024);
    let n = 10_000;

    for i in 0..n {
        trie.insert(format!("key-{}", i).as_bytes(), i);
    }
    assert_eq!(trie.len(), n);

    for i in 0..n {
        assert_eq!(trie.remove(format!("key-{}", i).as_bytes()), Some(i));
    }

    assert_eq!(trie.len(), 0);
    assert!(trie.is_empty());

    assert_eq!(trie.iter().count(), 0);
}

#[test]
fn test_longest_common_prefix_logic() {
    let mut trie = HatTrie::new();

    trie.insert(b"http", 1);
    trie.insert(b"http://google", 2);
    trie.insert(b"http://google.com/maps", 3);

    let (len, val) = trie.longest_common_prefix(b"http");
    assert_eq!(len, 4);
    assert_eq!(val, Some(&1));

    let (len, val) = trie.longest_common_prefix(b"http://google.com/images");
    assert_eq!(len, 13);
    assert_eq!(val, Some(&2));

    let (len, val) = trie.longest_common_prefix(b"http://yahoo.com");
    assert_eq!(len, 4);
    assert_eq!(val, Some(&1));

    let (len, val) = trie.longest_common_prefix(b"ftp://ftp.com");
    assert_eq!(len, 0);
    assert_eq!(val, None);
}

#[test]
fn test_scan_prefix_correctness() {
    let mut trie = HatTrie::new();
    trie.insert(b"foo", 1);
    trie.insert(b"foot", 2);
    trie.insert(b"football", 3);
    trie.insert(b"food", 4);
    trie.insert(b"f", 0);

    let mut it = trie.scan_prefix(b"foot");
    let mut results = Vec::new();
    while let Some((k, _)) = it.next() {
        results.push(String::from_utf8(k).unwrap());
    }

    assert_eq!(results, vec!["foot", "football"]);
}

#[test]
fn test_get_mut() {
    let mut trie = HatTrie::new();
    trie.insert(b"counter", 10);

    if let Some(val) = trie.get_mut(b"counter") {
        *val += 1;
    }

    assert_eq!(trie.get(b"counter"), Some(&11));
}

#[test]
fn test_get_mut_modification() {
    let mut trie = HatTrie::new();
    trie.insert(b"list", vec![1, 2, 3]);

    if let Some(list) = trie.get_mut(b"list") {
        list.push(4);
    }

    assert_eq!(trie.get(b"list"), Some(&vec![1, 2, 3, 4]));
}
