//! Where things sit in a trie, read by walking down it. `descend` follows a
//! byte path from a node: one byte per branching node, a radix node's whole
//! prefix at once. What the segment walk reports as a key's trie path, and
//! what `stats` counts, are stated against it.
use vstd::prelude::*;

use crate::keys::has_prefix;
use crate::node::{node_counts, node_get, node_view, node_wf, path_len, Node};
use crate::HatTrie;

verus! {

/// The subtree reached from `n` by following the bytes of `p`, if the path
/// leads anywhere: a branching node takes one byte and goes to that child, a
/// radix node takes its whole prefix, and a leaf takes nothing more.
pub open spec fn descend<V>(n: Node<V>, p: Seq<u8>) -> Option<Node<V>>
    decreases p.len(),
{
    if p.len() == 0 {
        Some(n)
    } else {
        match n {
            Node::Internal { children, .. } => {
                if (p[0] as int) < children@.len() {
                    match children@[p[0] as int] {
                        Some(c) => descend(c, p.drop_first()),
                        None => None,
                    }
                } else {
                    None
                }
            },
            Node::Radix { prefix, child } => {
                if prefix@.len() > 0 && has_prefix(p, prefix@) {
                    descend(*child, p.skip(prefix@.len() as int))
                } else {
                    None
                }
            },
            Node::Leaf(_) => None,
        }
    }
}

/// Key `k` is held `d` bytes down from `n`: following its first `d` bytes
/// reaches a leaf that holds the rest of the key, or reaches a branching
/// node, with the whole key used up, that holds a value there.
pub open spec fn held_at<V>(n: Node<V>, k: Seq<u8>, d: int) -> bool {
    &&& 0 <= d <= k.len()
    &&& match descend(n, k.take(d)) {
        Some(Node::Leaf(l)) => l@.contains_key(k.skip(d)),
        Some(Node::Internal { value, .. }) => d == k.len() && value is Some,
        _ => false,
    }
}

/// The trie path of a key is where the key is held: for every key of a
/// well-formed subtree, `path_len` is the one number of leading key bytes
/// that the branching and radix nodes above its place take up.
pub proof fn law_path_is_where_key_is_held<V>(n: Node<V>, k: Seq<u8>)
    requires
        node_wf(n),
        node_get(n, k) is Some,
    ensures
        held_at(n, k, path_len(n, k) as int),
        forall|d: int| #[trigger] held_at(n, k, d) ==> d == path_len(n, k),
{
    lemma_path_held(n, k);
    assert forall|d: int| #[trigger] held_at(n, k, d) implies d == path_len(n, k) by {
        lemma_held_unique(n, k, d);
    }
}

proof fn lemma_path_held<V>(n: Node<V>, k: Seq<u8>)
    requires
        node_wf(n),
        node_get(n, k) is Some,
    ensures
        held_at(n, k, path_len(n, k) as int),
    decreases n,
{
    match n {
        Node::Leaf(l) => {
            assert(k.take(0) =~= Seq::<u8>::empty());
            assert(k.skip(0) =~= k);
        },
        Node::Internal { children, value } => {
            if k.len() == 0 {
                assert(k.take(0) =~= Seq::<u8>::empty());
            } else {
                let j = k[0] as int;
                let c = children@[j]->0;
                assert(decreases_to!(children => children@));
                assert(node_wf(c));
                let k1 = k.drop_first();
                lemma_path_held(c, k1);
                let d1 = path_len(c, k1) as int;
                let d = 1 + d1;
                assert(k.take(d).drop_first() =~= k1.take(d1));
                assert(k.take(d)[0] == k[0]);
                assert(k.skip(d) =~= k1.skip(d1));
            }
        },
        Node::Radix { prefix, child } => {
            let q = prefix@;
            let k1 = k.skip(q.len() as int);
            lemma_path_held(*child, k1);
            let d1 = path_len(*child, k1) as int;
            let d = q.len() + d1;
            assert(k.take(d).subrange(0, q.len() as int) =~= k.subrange(0, q.len() as int));
            assert(k.take(d).skip(q.len() as int) =~= k1.take(d1));
            assert(k.skip(d) =~= k1.skip(d1));
        },
    }
}

proof fn lemma_held_unique<V>(n: Node<V>, k: Seq<u8>, d: int)
    requires
        node_wf(n),
        held_at(n, k, d),
    ensures
        d == path_len(n, k),
    decreases n,
{
    if d == 0 {
        assert(k.take(0) =~= Seq::<u8>::empty());
    } else {
        assert(k.take(d).len() > 0);
        match n {
            Node::Leaf(_) => {},
            Node::Internal { children, value } => {
                let j = k[0] as int;
                assert(k.take(d)[0] == k[0]);
                let c = children@[j]->0;
                assert(decreases_to!(children => children@));
                assert(node_wf(c));
                let k1 = k.drop_first();
                assert(k.take(d).drop_first() =~= k1.take(d - 1));
                assert(k.skip(d) =~= k1.skip(d - 1));
                lemma_held_unique(c, k1, d - 1);
            },
            Node::Radix { prefix, child } => {
                let q = prefix@;
                assert(k.take(d).subrange(0, q.len() as int) =~= k.subrange(0, q.len() as int));
                let k1 = k.skip(q.len() as int);
                assert(k.take(d).skip(q.len() as int) =~= k1.take(d - q.len()));
                assert(k.skip(d) =~= k1.skip(d - q.len()));
                lemma_held_unique(*child, k1, d - q.len());
            },
        }
    }
}

/// The paths from `n` that lead to a leaf (`leafy`) or to a branching or
/// radix node (not `leafy`).
pub open spec fn paths_of_kind<V>(n: Node<V>, leafy: bool) -> Set<Seq<u8>> {
    Set::new(
        |p: Seq<u8>|
            match descend(n, p) {
                Some(m) => (m is Leaf) == leafy,
                None => false,
            },
    )
}

/// The number of entries in the leaf that path `p` leads to from `n`.
pub open spec fn leaf_entries_at<V>(n: Node<V>, p: Seq<u8>) -> int {
    match descend(n, p) {
        Some(Node::Leaf(l)) => l@.len() as int,
        _ => 0,
    }
}

/// What the shape counts of a subtree are, read off the places its paths
/// lead to: the number of leaves is the number of paths that end at a leaf,
/// the number of branching and radix nodes the number of paths that end at
/// one of those, and the largest leaf holds as many entries as the fullest
/// leaf that any path reaches (0 when no path reaches a leaf).
pub proof fn law_shape_counts_places<V>(n: Node<V>)
    requires
        node_wf(n),
    ensures
        paths_of_kind(n, true).finite(),
        paths_of_kind(n, false).finite(),
        node_counts(n).leaves == paths_of_kind(n, true).len(),
        node_counts(n).inner == paths_of_kind(n, false).len(),
        forall|p: Seq<u8>|
            #[trigger] paths_of_kind(n, true).contains(p) ==> leaf_entries_at(n, p)
                <= node_counts(n).largest_leaf,
        paths_of_kind(n, true).len() == 0 ==> node_counts(n).largest_leaf == 0,
        paths_of_kind(n, true).len() > 0 ==> exists|p: Seq<u8>|
            #[trigger] paths_of_kind(n, true).contains(p) && leaf_entries_at(n, p)
                == node_counts(n).largest_leaf,
{
    lemma_kind_count(n, true);
    lemma_kind_count(n, false);
    lemma_largest(n);
    if paths_of_kind(n, true).len() > 0 {
        let p = paths_of_kind(n, true).choose();
        assert(paths_of_kind(n, true).contains(p));
    } else {
        assert forall|p: Seq<u8>| !paths_of_kind(n, true).contains(p) by {
            if paths_of_kind(n, true).contains(p) {
                vstd::set_lib::lemma_set_empty_equivalency_len(paths_of_kind(n, true));
            }
        }
    }
}

/// Of the shape counts, the one for the given kind.
pub open spec fn kind_count(c: crate::node::ShapeCounts, leafy: bool) -> int {
    if leafy {
        c.leaves
    } else {
        c.inner
    }
}

/// The paths that start at one of the first `i` children of a branching
/// node and lead to a node of the given kind.
pub open spec fn child_paths_of_kind<V>(cs: Seq<Option<Node<V>>>, i: int, leafy: bool) -> Set<Seq<u8>> {
    Set::new(
        |p: Seq<u8>|
            p.len() > 0 && (p[0] as int) < i && match cs[p[0] as int] {
                Some(c) => paths_of_kind(c, leafy).contains(p.drop_first()),
                None => false,
            },
    )
}

/// Putting `b` in front of every path.
pub open spec fn put_before(b: Seq<u8>) -> spec_fn(Seq<u8>) -> Seq<u8> {
    |p: Seq<u8>| b + p
}

proof fn lemma_put_before(s: Set<Seq<u8>>, b: Seq<u8>)
    requires
        s.finite(),
    ensures
        s.map(put_before(b)).finite(),
        s.map(put_before(b)).len() == s.len(),
        forall|p: Seq<u8>| #[trigger] s.map(put_before(b)).contains(p) <==> (has_prefix(p, b) && s.contains(p.skip(b.len() as int))),
{
    assert(vstd::relations::injective_on(put_before(b), s)) by {
        assert forall|x: Seq<u8>, y: Seq<u8>| s.contains(x) && s.contains(y) && #[trigger] put_before(b)(x)
            == #[trigger] put_before(b)(y) implies x == y by {
            assert(x =~= (b + x).skip(b.len() as int));
            assert(y =~= (b + y).skip(b.len() as int));
        }
    }
    vstd::set_lib::lemma_map_size(s, s.map(put_before(b)), put_before(b));
    assert forall|p: Seq<u8>| #[trigger] s.map(put_before(b)).contains(p) <==> (has_prefix(p, b) && s.contains(p.skip(b.len() as int))) by {
        if s.map(put_before(b)).contains(p) {
            let x = choose|x: Seq<u8>| s.contains(x) && put_before(b)(x) == p;
            assert((b + x).subrange(0, b.len() as int) =~= b);
            assert((b + x).skip(b.len() as int) =~= x);
        }
        if has_prefix(p, b) && s.contains(p.skip(b.len() as int)) {
            assert(p =~= b + p.skip(b.len() as int));
            assert(put_before(b)(p.skip(b.len() as int)) == p);
        }
    }
}

proof fn lemma_kind_count<V>(n: Node<V>, leafy: bool)
    requires
        node_wf(n),
    ensures
        paths_of_kind(n, leafy).finite(),
        paths_of_kind(n, leafy).len() == kind_count(node_counts(n), leafy),
    decreases n, 1int,
{
    let e = Seq::<u8>::empty();
    assert(descend(n, e) == Some(n));
    match n {
        Node::Leaf(_) => {
            assert(paths_of_kind(n, leafy) =~= if leafy {
                Set::<Seq<u8>>::empty().insert(e)
            } else {
                Set::<Seq<u8>>::empty()
            }) by {
                assert forall|p: Seq<u8>| paths_of_kind(n, leafy).contains(p) implies p =~= e by {
                    if p.len() > 0 {
                        assert(descend(n, p) is None);
                    }
                }
            }
        },
        Node::Radix { prefix, child } => {
            let q = prefix@;
            lemma_kind_count(*child, leafy);
            let s = paths_of_kind(*child, leafy);
            lemma_put_before(s, q);
            let img = s.map(put_before(q));
            assert forall|p: Seq<u8>| p.len() > 0 implies #[trigger] paths_of_kind(n, leafy).contains(p) == img.contains(p) by {
                if has_prefix(p, q) {
                    assert(descend(n, p) == descend(*child, p.skip(q.len() as int)));
                }
            }
            assert(!img.contains(e)) by {
                assert(!has_prefix(e, q));
            }
            if leafy {
                assert(paths_of_kind(n, leafy) =~= img) by {
                    assert(!paths_of_kind(n, leafy).contains(e));
                }
            } else {
                assert forall|p: Seq<u8>| p.len() == 0 implies p == e by {
                    assert(p =~= e);
                }
                assert(paths_of_kind(n, leafy).contains(e));
                assert(paths_of_kind(n, leafy) =~= img.insert(e));
            }
        },
        Node::Internal { children, value } => {
            let cs = children@;
            assert(decreases_to!(children => children@));
            lemma_child_kind_count(cs, cs.len() as int, leafy);
            let s = child_paths_of_kind(cs, cs.len() as int, leafy);
            assert forall|p: Seq<u8>| p.len() > 0 implies #[trigger] paths_of_kind(n, leafy).contains(p) == s.contains(p) by {}
            assert(!s.contains(e));
            if leafy {
                assert(paths_of_kind(n, leafy) =~= s) by {
                    assert(!paths_of_kind(n, leafy).contains(e));
                }
            } else {
                assert forall|p: Seq<u8>| p.len() == 0 implies p == e by {
                    assert(p =~= e);
                }
                assert(paths_of_kind(n, leafy).contains(e));
                assert(paths_of_kind(n, leafy) =~= s.insert(e));
            }
        },
    }
}

proof fn lemma_child_kind_count<V>(cs: Seq<Option<Node<V>>>, i: int, leafy: bool)
    requires
        0 <= i <= cs.len() <= 256,
        forall|j: int|
            0 <= j < cs.len() ==> match #[trigger] cs[j] {
                Some(c) => node_wf(c),
                None => true,
            },
    ensures
        child_paths_of_kind(cs, i, leafy).finite(),
        child_paths_of_kind(cs, i, leafy).len() == kind_count(crate::node::children_counts(cs, i), leafy),
    decreases cs, 0int, i,
{
    if i == 0 {
        assert(child_paths_of_kind(cs, i, leafy) =~= Set::<Seq<u8>>::empty());
    } else {
        lemma_child_kind_count(cs, i - 1, leafy);
        let prev = child_paths_of_kind(cs, i - 1, leafy);
        let b = seq![(i - 1) as u8];
        assert(((i - 1) as u8) as int == i - 1);
        match cs[i - 1] {
            Some(c) => {
                assert(node_wf(c));
                lemma_kind_count(c, leafy);
                let s = paths_of_kind(c, leafy);
                lemma_put_before(s, b);
                let img = s.map(put_before(b));
                assert forall|p: Seq<u8>| #[trigger] child_paths_of_kind(cs, i, leafy).contains(p) == (prev.contains(p) || img.contains(p)) by {
                    if p.len() > 0 {
                        assert(p.skip(1) =~= p.drop_first());
                        if has_prefix(p, b) {
                            assert(p[0] == p.subrange(0, 1)[0]);
                        }
                        if p[0] as int == i - 1 {
                            assert(p.subrange(0, 1) =~= b);
                        }
                    }
                }
                assert(child_paths_of_kind(cs, i, leafy) =~= prev + img);
                assert(prev.disjoint(img)) by {
                    assert forall|p: Seq<u8>| prev.contains(p) implies !img.contains(p) by {
                        if img.contains(p) {
                            assert(p[0] == p.subrange(0, 1)[0]);
                        }
                    }
                }
                vstd::set_lib::lemma_set_disjoint_lens(prev, img);
            },
            None => {
                assert(child_paths_of_kind(cs, i, leafy) =~= prev);
            },
        }
    }
}

/// The entries of the leaf that a path leads to from one of the first
/// children of a branching node.
pub open spec fn child_leaf_entries<V>(cs: Seq<Option<Node<V>>>, p: Seq<u8>) -> int {
    match cs[p[0] as int] {
        Some(c) => leaf_entries_at(c, p.drop_first()),
        None => 0,
    }
}

proof fn lemma_largest<V>(n: Node<V>)
    requires
        node_wf(n),
    ensures
        forall|p: Seq<u8>|
            #[trigger] paths_of_kind(n, true).contains(p) ==> leaf_entries_at(n, p)
                <= node_counts(n).largest_leaf,
        node_counts(n).largest_leaf == 0 || exists|p: Seq<u8>|
            #[trigger] paths_of_kind(n, true).contains(p) && leaf_entries_at(n, p)
                == node_counts(n).largest_leaf,
        node_counts(n).largest_leaf >= 0,
    decreases n, 1int,
{
    let e = Seq::<u8>::empty();
    assert(descend(n, e) == Some(n));
    match n {
        Node::Leaf(l) => {
            assert forall|p: Seq<u8>| #[trigger] paths_of_kind(n, true).contains(p) implies leaf_entries_at(n, p)
                <= node_counts(n).largest_leaf by {
                if p.len() > 0 {
                    assert(descend(n, p) is None);
                }
            }
            assert(paths_of_kind(n, true).contains(e));
        },
        Node::Radix { prefix, child } => {
            let q = prefix@;
            lemma_largest(*child);
            assert forall|p: Seq<u8>| #[trigger] paths_of_kind(n, true).contains(p) implies leaf_entries_at(n, p)
                <= node_counts(n).largest_leaf by {
                if p.len() > 0 && has_prefix(p, q) {
                    assert(descend(n, p) == descend(*child, p.skip(q.len() as int)));
                    assert(paths_of_kind(*child, true).contains(p.skip(q.len() as int)));
                }
            }
            if node_counts(*child).largest_leaf != 0 {
                let p1 = choose|p: Seq<u8>|
                    #[trigger] paths_of_kind(*child, true).contains(p) && leaf_entries_at(*child, p)
                        == node_counts(*child).largest_leaf;
                let p = q + p1;
                assert(p.subrange(0, q.len() as int) =~= q);
                assert(p.skip(q.len() as int) =~= p1);
                assert(descend(n, p) == descend(*child, p1));
                assert(paths_of_kind(n, true).contains(p));
            }
        },
        Node::Internal { children, value } => {
            let cs = children@;
            assert(decreases_to!(children => children@));
            lemma_child_largest(cs, cs.len() as int);
            assert forall|p: Seq<u8>| #[trigger] paths_of_kind(n, true).contains(p) implies leaf_entries_at(n, p)
                <= node_counts(n).largest_leaf by {
                assert(p.len() > 0);
                assert(child_paths_of_kind(cs, cs.len() as int, true).contains(p));
            }
            if node_counts(n).largest_leaf != 0 {
                let p = choose|p: Seq<u8>|
                    #[trigger] child_paths_of_kind(cs, cs.len() as int, true).contains(p) && child_leaf_entries(cs, p)
                        == crate::node::children_counts(cs, cs.len() as int).largest_leaf;
                assert(paths_of_kind(n, true).contains(p));
            }
        },
    }
}

proof fn lemma_child_largest<V>(cs: Seq<Option<Node<V>>>, i: int)
    requires
        0 <= i <= cs.len() <= 256,
        forall|j: int|
            0 <= j < cs.len() ==> match #[trigger] cs[j] {
                Some(c) => node_wf(c),
                None => true,
            },
    ensures
        forall|p: Seq<u8>|
            #[trigger] child_paths_of_kind(cs, i, true).contains(p) ==> child_leaf_entries(cs, p)
                <= crate::node::children_counts(cs, i).largest_leaf,
        crate::node::children_counts(cs, i).largest_leaf == 0 || exists|p: Seq<u8>|
            #[trigger] child_paths_of_kind(cs, i, true).contains(p) && child_leaf_entries(cs, p)
                == crate::node::children_counts(cs, i).largest_leaf,
        crate::node::children_counts(cs, i).largest_leaf >= 0,
    decreases cs, 0int, i,
{
    if i > 0 {
        lemma_child_largest(cs, i - 1);
        let b = seq![(i - 1) as u8];
        assert(((i - 1) as u8) as int == i - 1);
        match cs[i - 1] {
            Some(c) => {
                assert(node_wf(c));
                lemma_largest(c);
                assert forall|p: Seq<u8>| #[trigger] child_paths_of_kind(cs, i, true).contains(p) implies child_leaf_entries(cs, p)
                    <= crate::node::children_counts(cs, i).largest_leaf by {
                    if (p[0] as int) < i - 1 {
                        assert(child_paths_of_kind(cs, i - 1, true).contains(p));
                    } else {
                        assert(paths_of_kind(c, true).contains(p.drop_first()));
                    }
                }
                if node_counts(c).largest_leaf != 0 && node_counts(c).largest_leaf >= crate::node::children_counts(cs, i - 1).largest_leaf {
                    let p1 = choose|p: Seq<u8>|
                        #[trigger] paths_of_kind(c, true).contains(p) && leaf_entries_at(c, p)
                            == node_counts(c).largest_leaf;
                    let p = b + p1;
                    assert(p[0] == (i - 1) as u8);
                    assert(p.drop_first() =~= p1);
                    assert(child_paths_of_kind(cs, i, true).contains(p));
                } else if crate::node::children_counts(cs, i - 1).largest_leaf != 0 {
                    let p = choose|p: Seq<u8>|
                        #[trigger] child_paths_of_kind(cs, i - 1, true).contains(p) && child_leaf_entries(cs, p)
                            == crate::node::children_counts(cs, i - 1).largest_leaf;
                    assert(child_paths_of_kind(cs, i, true).contains(p));
                }
            },
            None => {
                assert forall|p: Seq<u8>| #[trigger] child_paths_of_kind(cs, i, true).contains(p) implies child_leaf_entries(cs, p)
                    <= crate::node::children_counts(cs, i).largest_leaf by {
                    assert(child_paths_of_kind(cs, i - 1, true).contains(p));
                }
                if crate::node::children_counts(cs, i - 1).largest_leaf != 0 {
                    let p = choose|p: Seq<u8>|
                        #[trigger] child_paths_of_kind(cs, i - 1, true).contains(p) && child_leaf_entries(cs, p)
                            == crate::node::children_counts(cs, i - 1).largest_leaf;
                    assert(child_paths_of_kind(cs, i, true).contains(p));
                }
            },
        }
    }
}

/// The path segment that `iter_segments` hands out with a key of a trie
/// (`path_of`) is exactly the part of the key that the trie's branching and
/// radix nodes take up on the way down to where the key is held; the rest,
/// the suffix, is what the leaf holds (or nothing, for a key held at a
/// branching node). No other cut of the key has that property.
pub proof fn law_segment_path_is_where_key_is_held<V>(t: HatTrie<V>, k: Seq<u8>)
    requires
        t.wf(),
        t@.contains_key(k),
    ensures
        held_at(t.root_node(), k, t.path_of(k) as int),
        forall|d: int| #[trigger] held_at(t.root_node(), k, d) ==> d == t.path_of(k),
{
    t.lemma_root_node();
    assert(node_view(t.root_node()).contains_key(k));
    law_path_is_where_key_is_held(t.root_node(), k);
}

/// What `stats` reports (through `shape`) counts the trie's nodes as they
/// are reached from the root: the leaves are the places that some path
/// leads to a leaf, the branching and radix nodes the places that some path
/// leads to one of those, and the largest leaf is the fullest leaf reached
/// by any path (0 when there is none).
pub proof fn law_stats_count_places<V>(t: HatTrie<V>)
    requires
        t.wf(),
    ensures
        paths_of_kind(t.root_node(), true).finite(),
        paths_of_kind(t.root_node(), false).finite(),
        t.shape().leaves == paths_of_kind(t.root_node(), true).len(),
        t.shape().inner == paths_of_kind(t.root_node(), false).len(),
        forall|p: Seq<u8>|
            #[trigger] paths_of_kind(t.root_node(), true).contains(p) ==> leaf_entries_at(t.root_node(), p)
                <= t.shape().largest_leaf,
        paths_of_kind(t.root_node(), true).len() == 0 ==> t.shape().largest_leaf == 0,
        paths_of_kind(t.root_node(), true).len() > 0 ==> exists|p: Seq<u8>|
            #[trigger] paths_of_kind(t.root_node(), true).contains(p) && leaf_entries_at(t.root_node(), p)
                == t.shape().largest_leaf,
{
    t.lemma_root_node();
    law_shape_counts_places(t.root_node());
}

} // verus!
