use hat_trie::HatTrie;

#[test]
fn test_deep_recursion_stack() {
    let mut trie = HatTrie::with_threshold(10);

    let mut key = Vec::new();
    for i in 0..500 {
        key.push(0);
        trie.insert(&key, i);
    }

    assert_eq!(trie.len(), 500);
    assert_eq!(trie.get(&vec![0; 500]), Some(&499));

    drop(trie);
}

#[test]
fn test_zst_behavior() {
    let mut trie: HatTrie<()> = HatTrie::with_threshold(50);

    for i in 0..1000 {
        trie.insert(format!("key-{}", i).as_bytes(), ());
    }

    assert_eq!(trie.len(), 1000);
    assert_eq!(trie.get(b"key-999"), Some(&()));
}
