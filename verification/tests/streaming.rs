use hat_trie::HatTrie;

fn create_test_trie() -> HatTrie<usize> {
    let mut trie = HatTrie::with_threshold(128);

    trie.insert(b"apple", 1);
    trie.insert(b"app", 2);
    trie.insert(b"apricot", 3);
    trie.insert(b"banana", 4);
    trie.insert(b"bandana", 5);
    trie.insert(b"", 0);

    trie.insert(b"http://google.com", 100);
    trie.insert(b"http://google.com/maps", 101);

    trie
}

fn all_entries(trie: &HatTrie<usize>) -> Vec<(Vec<u8>, usize)> {
    let mut it = trie.iter();
    let mut out = Vec::new();
    while let Some((k, v)) = it.next() {
        out.push((k, *v));
    }
    out
}

#[test]
fn test_streaming_iter_equivalence() {
    let trie = create_test_trie();

    let expected = all_entries(&trie);

    let mut stream_results = Vec::new();
    let mut stream_iter = trie.streaming_iter();
    while let Some(item) = stream_iter.next() {
        stream_results.push((item.key().to_vec(), *item.value()));
    }

    assert_eq!(expected, stream_results);
}

#[test]
fn test_segment_iter_equivalence() {
    let trie = create_test_trie();

    let expected = all_entries(&trie);

    let mut segment_results = Vec::new();
    let mut segment_iter = trie.iter_segments();
    while let Some(item) = segment_iter.next() {
        let segments = item.segments();
        let full_key = [segments.path, segments.suffix].concat();
        segment_results.push((full_key, *item.value()));
    }

    assert_eq!(expected, segment_results);
}

#[test]
fn test_streaming_on_empty() {
    let trie: HatTrie<usize> = HatTrie::new();

    let mut stream_iter = trie.streaming_iter();
    assert!(stream_iter.next().is_none());

    let mut segment_iter = trie.iter_segments();
    assert!(segment_iter.next().is_none());
}

#[test]
fn test_streaming_on_single_item() {
    let mut trie = HatTrie::new();
    trie.insert(b"key", 100);

    let mut stream_iter = trie.streaming_iter();
    let item = stream_iter.next().unwrap();
    assert_eq!(item.key(), b"key");
    assert_eq!(*item.value(), 100);
    assert!(stream_iter.next().is_none());

    let mut segment_iter = trie.iter_segments();
    let item = segment_iter.next().unwrap();
    let segments = item.segments();
    let full_key = [segments.path, segments.suffix].concat();
    assert_eq!(full_key, b"key");
    assert_eq!(*item.value(), 100);
    assert!(segment_iter.next().is_none());
}
