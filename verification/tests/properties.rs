use std::collections::BTreeMap;

use hat_trie::bucket::Bucket;
use hat_trie::fuzzy::FuzzySearcher;
use hat_trie::leaf::ArrayHash;
use hat_trie::{HatTrie, KeyBound, DEFAULT_BURST_THRESHOLD};

fn entries(trie: &HatTrie<u32>) -> Vec<(Vec<u8>, u32)> {
    let mut it = trie.iter();
    let mut out = Vec::new();
    while let Some((k, v)) = it.next() {
        out.push((k, *v));
    }
    out
}

/// A small deterministic generator of byte keys.
struct Lcg(u64);

impl Lcg {
    fn next(&mut self) -> u64 {
        self.0 = self.0.wrapping_mul(6364136223846793005).wrapping_add(1442695040888963407);
        self.0 >> 33
    }

    fn key(&mut self) -> Vec<u8> {
        let len = (self.next() % 12) as usize;
        (0..len).map(|_| b'a' + (self.next() % 4) as u8).collect()
    }
}

#[test]
fn insert_remove_get_agree_with_btreemap() {
    let mut rng = Lcg(7);
    let mut trie = HatTrie::with_threshold(64);
    let mut model = BTreeMap::new();
    for step in 0..3000u32 {
        let k = rng.key();
        match rng.next() % 10 {
            0..=5 => {
                assert_eq!(trie.insert(&k, step), model.insert(k.clone(), step));
            }
            6..=8 => {
                assert_eq!(trie.remove(&k), model.remove(&k));
            }
            _ => {
                assert_eq!(trie.get(&k), model.get(&k));
            }
        }
        assert_eq!(trie.len(), model.len());
    }
    let expected: Vec<(Vec<u8>, u32)> = model.iter().map(|(k, v)| (k.clone(), *v)).collect();
    assert_eq!(entries(&trie), expected);
}

#[test]
fn get_after_insert_leaves_other_keys() {
    let mut trie = HatTrie::new();
    trie.insert(b"one", 1u32);
    trie.insert(b"two", 2);
    assert_eq!(trie.insert(b"one", 10), Some(1));
    assert_eq!(trie.get(b"one"), Some(&10));
    assert_eq!(trie.get(b"two"), Some(&2));
    assert_eq!(trie.len(), 2);
}

#[test]
fn remove_undoes_insert() {
    let mut trie = HatTrie::with_threshold(16);
    for i in 0..40u32 {
        trie.insert(format!("k{}", i).as_bytes(), i);
    }
    let before = entries(&trie);
    assert_eq!(trie.insert(b"fresh", 99), None);
    assert_eq!(trie.len(), 41);
    assert_eq!(trie.remove(b"fresh"), Some(99));
    assert_eq!(trie.len(), 40);
    assert_eq!(entries(&trie), before);
    assert_eq!(trie.remove(b"fresh"), None);
}

#[test]
fn walks_agree() {
    let mut trie = HatTrie::with_threshold(32);
    for i in 0..200u32 {
        trie.insert(format!("w{}", i * 7 % 113).as_bytes(), i);
    }
    let expected = entries(&trie);

    let mut streamed = Vec::new();
    let mut s = trie.streaming_iter();
    while let Some(item) = s.next() {
        streamed.push((item.key().to_vec(), *item.value()));
    }
    assert_eq!(streamed, expected);

    let mut segmented = Vec::new();
    let mut g = trie.iter_segments();
    while let Some(item) = g.next() {
        let seg = item.segments();
        segmented.push(([seg.path, seg.suffix].concat(), *item.value()));
    }
    assert_eq!(segmented, expected);

    let full = {
        let mut it = trie.range(KeyBound::Unbounded, KeyBound::Unbounded);
        let mut out = Vec::new();
        while let Some((k, v)) = it.next() {
            out.push((k, *v));
        }
        out
    };
    assert_eq!(full, expected);

    let all_prefixed = {
        let mut it = trie.scan_prefix(b"");
        let mut out = Vec::new();
        while let Some((k, v)) = it.next() {
            out.push((k, *v));
        }
        out
    };
    assert_eq!(all_prefixed, expected);

    let mut owned = Vec::new();
    let mut it = trie.clone().into_iter();
    while let Some(e) = it.next() {
        owned.push(e);
    }
    assert_eq!(owned, expected);
}

#[test]
fn tries_with_other_thresholds_are_equal() {
    let mut a = HatTrie::with_threshold(8);
    let mut b = HatTrie::with_threshold(4096);
    for i in 0..100u32 {
        a.insert(format!("x{}", i).as_bytes(), i);
        b.insert(format!("x{}", 99 - i).as_bytes(), 99 - i);
    }
    assert!(a.eq(&b));
    assert_eq!(entries(&a), entries(&b));
    b.insert(b"x5", 1000);
    assert!(!a.eq(&b));
}

#[test]
fn segment_paths_follow_the_trie() {
    let mut trie = HatTrie::with_threshold(16);
    for i in 0..60u32 {
        trie.insert(format!("seg/{:02}", i).as_bytes(), i);
    }
    let mut g = trie.iter_segments();
    let mut n = 0;
    while let Some(item) = g.next() {
        let seg = item.segments();
        let key = [seg.path, seg.suffix].concat();
        assert_eq!(key, format!("seg/{:02}", n).into_bytes());
        assert_eq!(*item.value(), n);
        n += 1;
    }
    assert_eq!(n, 60);
}

#[test]
fn bounds_on_and_off_the_keys() {
    let mut trie = HatTrie::new();
    for k in ["b", "d", "f"] {
        trie.insert(k.as_bytes(), 0u32);
    }
    assert_eq!(trie.lower_bound(b"d").unwrap().0, b"d");
    assert_eq!(trie.upper_bound(b"d").unwrap().0, b"f");
    assert_eq!(trie.lower_bound(b"c").unwrap().0, b"d");
    assert_eq!(trie.upper_bound(b"c").unwrap().0, b"d");
    assert_eq!(trie.lower_bound(b"").unwrap().0, b"b");
    assert!(trie.upper_bound(b"f").is_none());
    assert!(trie.lower_bound(b"g").is_none());
}

#[test]
fn range_edges() {
    let mut trie = HatTrie::new();
    for k in ["a", "b", "c"] {
        trie.insert(k.as_bytes(), 0u32);
    }
    assert_eq!(trie.range(KeyBound::Excluded(b"a"), KeyBound::Included(b"c")).count(), 2);
    assert_eq!(trie.range(KeyBound::Included(b"c"), KeyBound::Excluded(b"a")).count(), 0);
    assert_eq!(trie.range(KeyBound::Excluded(b"c"), KeyBound::Unbounded).count(), 0);
    assert_eq!(trie.range(KeyBound::Unbounded, KeyBound::Excluded(b"b")).count(), 1);
}

#[test]
fn longest_prefix_finds_the_empty_key() {
    let mut trie = HatTrie::new();
    trie.insert(b"", 7u32);
    assert_eq!(trie.longest_common_prefix(b"abc"), (0, Some(&7)));
    trie.insert(b"ab", 8);
    assert_eq!(trie.longest_common_prefix(b"abc"), (2, Some(&8)));
    assert_eq!(trie.longest_common_prefix(b"ab"), (2, Some(&8)));
    assert_eq!(trie.longest_common_prefix(b"a"), (0, Some(&7)));
}

#[test]
fn longest_prefix_after_bursts() {
    let mut trie = HatTrie::with_threshold(8);
    trie.insert(b"abcdefgh", 1u32);
    trie.insert(b"abcdefghij", 2);
    trie.insert(b"abcdefghijkl", 3);
    for i in 0..30u32 {
        trie.insert(format!("abcdefgh-{}", i).as_bytes(), 100 + i);
    }
    assert_eq!(trie.longest_common_prefix(b"abcdefghijk"), (10, Some(&2)));
    assert_eq!(trie.longest_common_prefix(b"abcdefghijklmnop"), (12, Some(&3)));
    assert_eq!(trie.longest_common_prefix(b"abcdefg"), (0, None));
}

#[test]
fn fuzzy_distance_zero_is_exact_lookup() {
    let mut trie = HatTrie::with_threshold(8);
    trie.insert(b"abcd1", 1u32);
    trie.insert(b"abcd2", 2);
    trie.insert(b"xyz", 3);
    let found = trie.fuzzy_search(b"abcd1", 0);
    assert_eq!(found.len(), 1);
    assert_eq!(found[0].0, b"abcd1");
    assert_eq!(*found[0].1, 1);
}

#[test]
fn fuzzy_results_are_sorted_and_exact() {
    let mut trie = HatTrie::with_threshold(16);
    let words = ["cat", "cart", "card", "care", "dog", "cot", "at", "scat", "c"];
    for (i, w) in words.iter().enumerate() {
        trie.insert(w.as_bytes(), i as u32);
    }
    let found: Vec<Vec<u8>> = trie.fuzzy_search(b"cat", 1).into_iter().map(|(k, _)| k).collect();
    let expected: Vec<Vec<u8>> =
        ["at", "cart", "cat", "cot", "scat"].iter().map(|w| w.as_bytes().to_vec()).collect();
    assert_eq!(found, expected);
    assert_eq!(trie.fuzzy_search(b"cat", 2).len(), 8);
}

#[test]
fn next_row_of_the_distance_table() {
    let searcher: FuzzySearcher<'_, '_, u32> = FuzzySearcher::new(b"abc", 1);
    assert_eq!(searcher.calculate_next_row(&[0, 1, 2, 3], b'a'), vec![1, 0, 1, 2]);
    assert_eq!(searcher.calculate_next_row(&[1, 0, 1, 2], b'x'), vec![2, 1, 1, 2]);
}

#[test]
fn stats_of_small_tries() {
    let trie: HatTrie<u32> = HatTrie::new();
    let s = trie.stats();
    assert_eq!((s.internal_nodes, s.leaf_nodes, s.total_items, s.max_bucket_size), (0, 1, 0, 0));

    let mut trie = HatTrie::new();
    trie.insert(b"a", 1u32);
    trie.insert(b"b", 2);
    let s = trie.stats();
    assert_eq!((s.internal_nodes, s.leaf_nodes, s.total_items, s.max_bucket_size), (0, 1, 2, 2));

    let mut trie = HatTrie::with_threshold(16);
    for i in 0..100u32 {
        trie.insert(format!("{:03}", i).as_bytes(), i);
    }
    let s = trie.stats();
    assert!(s.internal_nodes > 0);
    assert!(s.leaf_nodes > 1);
    assert_eq!(s.total_items, 100);

    // a value that ends up held at a branching node is counted too
    let mut t = HatTrie::with_threshold(10);
    t.insert(b"abcdef", 1u32);
    assert_eq!(t.stats().total_items, 1);
    assert_eq!(t.stats().total_items, t.len());
}

#[test]
fn get_mut_on_a_missing_key() {
    let mut trie = HatTrie::new();
    trie.insert(b"here", 1u32);
    assert!(trie.get_mut(b"gone").is_none());
    assert_eq!(entries(&trie), vec![(b"here".to_vec(), 1)]);
}

#[test]
fn extend_keeps_the_last_duplicate() {
    let mut trie = HatTrie::new();
    trie.extend(vec![("k".to_string(), 1u32), ("j".to_string(), 2), ("k".to_string(), 3)]);
    assert_eq!(trie.len(), 2);
    assert_eq!(trie.get(b"k"), Some(&3));
    assert_eq!(*trie.index("j"), 2);
}

#[test]
fn default_threshold_and_empty_trie() {
    assert_eq!(DEFAULT_BURST_THRESHOLD, 4096);
    let trie: HatTrie<u32> = HatTrie::default();
    assert!(trie.is_empty());
    assert_eq!(trie.iter().count(), 0);
    assert_eq!(trie.longest_common_prefix(b"x"), (0, None));
    assert!(trie.fuzzy_search(b"x", 3).is_empty());
}

#[test]
fn default_trie_keeps_small_content_in_one_leaf() {
    let mut trie: HatTrie<u32> = HatTrie::new();
    assert_eq!(trie.len(), 0);
    assert!(trie.iter().next().is_none());
    for i in 0..200u32 {
        let key = format!("k{:03}", i);
        trie.insert(key.as_bytes(), i);
    }
    let stats = trie.stats();
    assert_eq!(stats.internal_nodes, 0);
    assert_eq!(stats.leaf_nodes, 1);
    assert_eq!(stats.total_items, 200);
    assert_eq!(trie.get(b"k123"), Some(&123));
}

#[test]
fn root_leaf_bursts_just_past_the_threshold() {
    // each entry takes 1 + 2 + 4 = 7 bytes: four fit in 30, five do not
    let mut trie: HatTrie<u32> = HatTrie::with_threshold(30);
    for (i, k) in [b"aa", b"ab", b"ac", b"ad"].iter().enumerate() {
        trie.insert(&k[..], i as u32);
    }
    trie.insert(b"ab", 9);
    assert_eq!(trie.stats().internal_nodes, 0);
    assert_eq!(trie.stats().leaf_nodes, 1);
    trie.insert(b"ae", 4);
    assert!(trie.stats().internal_nodes >= 1);
    assert_eq!(trie.len(), 5);
    assert_eq!(trie.get(b"ab"), Some(&9));
}

#[test]
fn from_entries_takes_bytes_and_threshold() {
    let pairs = vec![
        (vec![0u8, 255], 1u32),
        (b"abc".to_vec(), 2),
        (vec![0u8, 255], 3),
        (Vec::new(), 4),
    ];
    let trie = HatTrie::from_entries(pairs, 8);
    assert_eq!(trie.len(), 3);
    assert_eq!(trie.burst_threshold(), 8);
    assert_eq!(trie.get(&[0u8, 255]), Some(&3));
    assert_eq!(trie.get(b""), Some(&4));
    assert_eq!(
        entries(&trie),
        vec![(Vec::new(), 4), (vec![0u8, 255], 3), (b"abc".to_vec(), 2)]
    );
}

#[test]
fn keys_longer_than_a_bucket_allows() {
    let mut trie = HatTrie::with_threshold(64);
    let long: Vec<u8> = (0..700u32).map(|i| (i % 251) as u8).collect();
    trie.insert(&long, 1u32);
    trie.insert(&long[..300], 2);
    assert_eq!(trie.get(&long), Some(&1));
    assert_eq!(trie.get(&long[..300]), Some(&2));
    assert_eq!(trie.longest_common_prefix(&long[..500]), (300, Some(&2)));
    assert_eq!(trie.remove(&long), Some(1));
    assert_eq!(trie.len(), 1);
}

#[test]
fn bucket_operations() {
    let mut b = Bucket::new();
    assert!(b.is_empty());
    assert_eq!(b.insert(b"m", 1u32), None);
    assert_eq!(b.insert(b"c", 2), None);
    assert_eq!(b.insert(b"x", 3), None);
    assert_eq!(b.insert(b"c", 4), Some(2));
    assert_eq!(b.len(), 3);
    assert_eq!(b.get(b"c"), Some(&4));
    *b.get_mut(b"m").unwrap() = 10;
    assert_eq!(b.get(b"m"), Some(&10));
    // three one-byte keys, each with its length byte, and three u32 values
    assert_eq!(b.size_in_bytes(), 6 + 3 * 4);

    let mut from = b.iter_from(Some(&b"d"[..]));
    assert_eq!(from.next(), Some((&b"m"[..], &10)));
    assert_eq!(from.next(), Some((&b"x"[..], &3)));
    assert_eq!(from.next(), None);

    assert_eq!(b.remove(b"m"), Some(10));
    assert_eq!(b.remove(b"m"), None);

    let mut d = b.drain();
    assert_eq!(d.next(), Some((b"c".to_vec(), 4)));
    assert_eq!(d.next(), Some((b"x".to_vec(), 3)));
    assert_eq!(d.next(), None);
    assert!(b.is_empty());
}

#[test]
fn array_hash_operations() {
    let mut h = ArrayHash::new();
    for i in 0..500u32 {
        assert_eq!(h.insert(format!("prefix-{}", i).as_bytes(), i), None);
    }
    assert_eq!(h.len(), 500);
    for i in 0..500u32 {
        assert_eq!(h.get(format!("prefix-{}", i).as_bytes()), Some(&i));
    }
    assert_eq!(h.longest_common_prefix_all(), b"prefix-".to_vec());
    assert_eq!(h.remove(b"prefix-7"), Some(7));
    assert_eq!(h.get(b"prefix-7"), None);
    assert_eq!(h.iter().len(), 499);
    let drained = h.drain_all();
    assert_eq!(drained.len(), 499);
    assert!(h.is_empty());
}

fn collect(mut it: hat_trie::HatTrieIter<'_, u32>) -> Vec<(Vec<u8>, u32)> {
    let mut out = Vec::new();
    while let Some((k, v)) = it.next() {
        out.push((k, *v));
    }
    out
}

#[test]
fn seeks_agree_with_btreemap() {
    for threshold in [16usize, 64, 1024] {
        let mut rng = Lcg(threshold as u64 + 3);
        let mut trie = HatTrie::with_threshold(threshold);
        let mut model: BTreeMap<Vec<u8>, u32> = BTreeMap::new();
        for i in 0..400u32 {
            let k = rng.key();
            trie.insert(&k, i);
            model.insert(k, i);
        }
        for _ in 0..60 {
            let a = rng.key();
            let b = rng.key();
            let lower = model.range(a.clone()..).next().map(|(k, v)| (k.clone(), *v));
            assert_eq!(trie.lower_bound(&a).map(|(k, v)| (k, *v)), lower);
            let upper = model
                .range((std::ops::Bound::Excluded(a.clone()), std::ops::Bound::Unbounded))
                .next()
                .map(|(k, v)| (k.clone(), *v));
            assert_eq!(trie.upper_bound(&a).map(|(k, v)| (k, *v)), upper);
            for s in 0..3 {
                for e in 0..3 {
                    let expected: Vec<(Vec<u8>, u32)> = model
                        .iter()
                        .filter(|(k, _)| match s {
                            0 => k.as_slice() >= &a[..],
                            1 => k.as_slice() > &a[..],
                            _ => true,
                        })
                        .filter(|(k, _)| match e {
                            0 => k.as_slice() <= &b[..],
                            1 => k.as_slice() < &b[..],
                            _ => true,
                        })
                        .map(|(k, v)| (k.clone(), *v))
                        .collect();
                    let start = match s {
                        0 => KeyBound::Included(&a[..]),
                        1 => KeyBound::Excluded(&a[..]),
                        _ => KeyBound::Unbounded,
                    };
                    let end = match e {
                        0 => KeyBound::Included(&b[..]),
                        1 => KeyBound::Excluded(&b[..]),
                        _ => KeyBound::Unbounded,
                    };
                    assert_eq!(collect(trie.range(start, end)), expected);
                }
            }
            let p = &a[..a.len().min(2)];
            let expected: Vec<(Vec<u8>, u32)> =
                model.iter().filter(|(k, _)| k.starts_with(p)).map(|(k, v)| (k.clone(), *v)).collect();
            assert_eq!(collect(trie.scan_prefix(p)), expected);
        }
    }
}
