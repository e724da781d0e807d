use hat_trie::{HatTrie, HatTrieIter, KeyBound};

fn keys_in(mut it: HatTrieIter<'_, i32>) -> Vec<Vec<u8>> {
    let mut keys = Vec::new();
    while let Some((k, _)) = it.next() {
        keys.push(k);
    }
    keys
}

#[test]
fn test_range_query_basic() {
    let mut trie = HatTrie::new();
    trie.insert(b"a", 1);
    trie.insert(b"b", 2);
    trie.insert(b"c", 3);
    trie.insert(b"d", 4);

    // "b".."d"
    let res = keys_in(trie.range(KeyBound::Included(b"b"), KeyBound::Excluded(b"d")));
    assert_eq!(res, vec![b"b", b"c"]);

    // "b"..="d"
    let res = keys_in(trie.range(KeyBound::Included(b"b"), KeyBound::Included(b"d")));
    assert_eq!(res, vec![b"b", b"c", b"d"]);

    // "c"..
    let res = keys_in(trie.range(KeyBound::Included(b"c"), KeyBound::Unbounded));
    assert_eq!(res, vec![b"c", b"d"]);
}

#[test]
fn test_range_query_seek_performance() {
    let mut trie = HatTrie::new();
    trie.insert(b"z", 26);
    trie.insert(b"a", 1);

    let mut iter = trie.range(KeyBound::Included(b"m"), KeyBound::Unbounded);
    let (first_key, _) = iter.next().unwrap();
    assert_eq!(first_key, b"z");
}

#[test]
fn test_lower_bound() {
    let mut trie = HatTrie::new();
    trie.insert(b"apple", 1);
    trie.insert(b"apricot", 2);

    assert_eq!(trie.lower_bound(b"app").unwrap().0, b"apple");
    assert_eq!(trie.lower_bound(b"apple").unwrap().0, b"apple");
    assert_eq!(trie.lower_bound(b"applf").unwrap().0, b"apricot");
}

fn fuzzy_keys(trie: &HatTrie<i32>, key: &[u8], max: usize) -> Vec<String> {
    trie.fuzzy_search(key, max).into_iter().map(|(k, _)| String::from_utf8(k).unwrap()).collect()
}

#[test]
fn test_fuzzy_search() {
    let mut trie = HatTrie::new();
    trie.insert(b"apple", 1);
    trie.insert(b"apply", 2);
    trie.insert(b"apricot", 3);
    trie.insert(b"banana", 4);

    let keys = fuzzy_keys(&trie, b"apple", 1);
    assert!(keys.contains(&"apple".to_string()));
    assert!(keys.contains(&"apply".to_string()));
    assert!(!keys.contains(&"apricot".to_string()));
}

#[test]
fn test_range_bucket_crossing() {
    let mut trie = HatTrie::with_threshold(100);

    for i in 0..200 {
        trie.insert(format!("key-{:03}", i).as_bytes(), i);
    }

    let range_start: &[u8] = b"key-050";
    let range_end: &[u8] = b"key-150";

    let count = trie.range(KeyBound::Included(range_start), KeyBound::Excluded(range_end)).count();
    assert_eq!(count, 100);

    let first = trie.range(KeyBound::Included(range_start), KeyBound::Excluded(range_end)).next().unwrap();
    assert_eq!(first.0, b"key-050");
}

#[test]
fn test_range_prefix_trap() {
    let mut trie = HatTrie::new();
    trie.insert(b"app", 1);
    trie.insert(b"apple", 2);
    trie.insert(b"application", 3);

    let res: Vec<String> = keys_in(trie.range(KeyBound::Included(b"apple"), KeyBound::Excluded(b"application")))
        .into_iter()
        .map(|k| String::from_utf8(k).unwrap())
        .collect();
    assert_eq!(res, vec!["apple"]);

    let res: Vec<String> = keys_in(trie.range(KeyBound::Included(b"app"), KeyBound::Excluded(b"apple")))
        .into_iter()
        .map(|k| String::from_utf8(k).unwrap())
        .collect();
    assert_eq!(res, vec!["app"]);
}

#[test]
fn test_lower_upper_bound() {
    let mut trie = HatTrie::new();
    trie.insert(b"apple", 1);
    trie.insert(b"apricot", 2);
    trie.insert(b"banana", 3);

    assert_eq!(trie.lower_bound(b"apple").unwrap().0, b"apple");
    assert_eq!(trie.upper_bound(b"apple").unwrap().0, b"apricot");

    assert_eq!(trie.lower_bound(b"applf").unwrap().0, b"apricot");
    assert_eq!(trie.upper_bound(b"applf").unwrap().0, b"apricot");

    assert!(trie.lower_bound(b"carrot").is_none());
}

#[test]
fn test_cursor_divergence() {
    let mut trie = HatTrie::new();
    trie.insert(b"apple", 1);
    trie.insert(b"banana", 2);

    let res = trie.lower_bound(b"azzz");
    assert_eq!(res.unwrap().0, b"banana");
}

#[test]
fn test_fuzzy_search_basics() {
    let mut trie = HatTrie::new();
    trie.insert(b"apple", 1);
    trie.insert(b"apply", 2);
    trie.insert(b"apricot", 3);
    trie.insert(b"banana", 4);

    let keys = fuzzy_keys(&trie, b"apple", 1);
    assert!(keys.contains(&"apple".to_string()));
    assert!(keys.contains(&"apply".to_string()));
    assert!(!keys.contains(&"apricot".to_string()));
}
