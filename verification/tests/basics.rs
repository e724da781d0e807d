use hat_trie::bucket::Bucket;
use hat_trie::HatTrie;

struct NoDefault {
    _x: i32,
}

#[test]
fn test_no_default_trait_required() {
    let mut trie: HatTrie<NoDefault> = HatTrie::new();

    trie.insert(b"foo", NoDefault { _x: 10 });
    assert!(trie.len() == 1);
}

#[test]
fn test_basic_ops() {
    let mut trie = HatTrie::new();
    trie.insert(b"apple", 1);
    trie.insert(b"apricot", 2);
    trie.insert(b"banana", 3);

    assert_eq!(trie.get(b"apple"), Some(&1));
    assert_eq!(trie.get(b"apricot"), Some(&2));
    assert_eq!(trie.get(b"banana"), Some(&3));
    assert_eq!(trie.get(b"carrot"), None);
}

#[test]
fn test_bursting() {
    let mut trie = HatTrie::new();

    for i in 0..5000 {
        let key = format!("key:{}", i);
        trie.insert(key.as_bytes(), i);
    }

    assert_eq!(trie.get(b"key:100"), Some(&100));
    assert_eq!(trie.get(b"key:4999"), Some(&4999));
}

#[test]
fn test_sorted_bucket_insert() {
    let mut b = Bucket::new();
    b.insert(b"zebra", 1);
    b.insert(b"apple", 2);
    b.insert(b"muffin", 3);

    let mut it = b.iter();
    let mut items = Vec::new();
    while let Some(item) = it.next() {
        items.push(item);
    }
    assert_eq!(items[0].0, b"apple");
    assert_eq!(items[1].0, b"muffin");
    assert_eq!(items[2].0, b"zebra");
}
