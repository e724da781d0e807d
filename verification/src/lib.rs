//! An ordered map from byte-string keys to values, laid out as a HAT-trie:
//! a radix-compressed trie whose leaves are small hash tables of sorted
//! buckets, which burst into branching nodes once they outgrow a threshold.
use vstd::prelude::*;
use vstd::std_specs::cmp::PartialEqSpec;
use vstd::string::StringSliceAdditionalSpecFns;

pub mod bucket;
pub mod draining;
pub mod entries;
pub mod fuzzy;
pub mod keys;
pub mod laws;
pub mod leaf;
pub mod node;
pub mod pending;
pub mod shape;
pub mod walk;

use crate::bucket::MAX_BUCKET_KEY_LEN;
use crate::entries::{
    lemma_pairs_map_index, lemma_pairs_map_index_nodup, map_bytes, pairs_map,
};
use crate::fuzzy::{close_map, lev, sat, FuzzySearcher};
use crate::keys::{has_prefix, lemma_lex_irreflexive, lex_le, lex_lt, strictly_sorted};
use crate::leaf::{ref_keys, ref_vals, ArrayHash};
use crate::draining::{
    lemma_owned_pop_ordered, lemma_owned_stack_size_nonneg, open_owned_subtree, owned_map, owned_ok, owned_stack_map,
    owned_stack_ok, owned_stack_ordered, owned_stack_size, Owned,
};
use crate::pending::{
    lemma_sorted_keys, lemma_sorted_keys_remove_least, pop_least, seek_map, seek_push, sorted_keys,
    stack_map, stack_ok, stack_ordered, Pending,
};
use crate::node::{
    grown_leaf_rule, leaves_fit, lemma_view_ext, lemma_view_get, node_counts, node_get, node_view, path_len, Node,
    ShapeCounts,
};
use crate::walk::{ekeys, evals, prefix_map};

verus! {

/// The bytes that the entries of `m` take in a single leaf (a length byte,
/// the key and the value per entry), saturating at the largest `usize`.
pub open spec fn leaf_bytes<V>(m: Map<Seq<u8>, V>) -> int {
    sat(map_bytes::<V>(m))
}

/// Default burst threshold: a leaf larger than this many bytes bursts.
pub const DEFAULT_BURST_THRESHOLD: usize = 4096;

impl<V> Default for Node<V> {
    fn default() -> (r: Self)
        ensures
            r.wf(),
            r is Leaf,
            r@ == Map::<Seq<u8>, V>::empty(),
            leaves_fit(r, 0),
    {
        let r = Node::Leaf(ArrayHash::default());
        proof {
            assert(r@ =~= Map::<Seq<u8>, V>::empty());
        }
        r
    }
}

/// Shape counts of a trie: branching and radix nodes, leaves, entries held
/// in leaves, and the size of the largest leaf.
#[derive(Debug, Clone)]
pub struct HatTrieStats {
    pub internal_nodes: usize,
    pub leaf_nodes: usize,
    pub total_items: usize,
    pub max_bucket_size: usize,
}

impl Default for HatTrieStats {
    fn default() -> (r: Self)
        ensures
            r.internal_nodes == 0,
            r.leaf_nodes == 0,
            r.total_items == 0,
            r.max_bucket_size == 0,
    {
        HatTrieStats { internal_nodes: 0, leaf_nodes: 0, total_items: 0, max_bucket_size: 0 }
    }
}

/// An ordered map from byte strings to `V`.
#[derive(Debug)]
pub struct HatTrie<V> {
    root: Node<V>,
    len: usize,
    burst_threshold: usize,
}

impl<V> HatTrie<V> {
    /// The entries held.
    pub closed spec fn view(&self) -> Map<Seq<u8>, V> {
        node_view(self.root)
    }

    /// The burst threshold in bytes.
    pub closed spec fn threshold(&self) -> usize {
        self.burst_threshold
    }

    /// The trie's root node.
    pub closed spec fn root_node(&self) -> Node<V> {
        self.root
    }

    /// The trie's view, shape counts and trie paths are those of its root
    /// node.
    pub proof fn lemma_root_node(&self)
        requires
            self.wf(),
        ensures
            crate::node::node_wf(self.root_node()),
            node_view(self.root_node()) == self@,
            self.shape() == node_counts(self.root_node()),
            forall|k: Seq<u8>| #[trigger] self.path_of(k) == path_len(self.root_node(), k),
    {
    }

    /// The whole trie is one leaf: nothing has burst yet.
    pub closed spec fn root_is_leaf(&self) -> bool {
        self.root is Leaf
    }

    /// Every leaf of the trie takes at most `threshold()` bytes: a leaf that
    /// grows past the threshold is burst.
    pub closed spec fn leaves_within_threshold(&self) -> bool {
        leaves_fit(self.root, self.burst_threshold as int)
    }

    pub closed spec fn wf(&self) -> bool {
        &&& self.root.wf()
        &&& self@.dom().finite()
        &&& self.len == self@.len()
        &&& forall|k: Seq<u8>| #[trigger] self@.contains_key(k) ==> k.len() <= usize::MAX
        &&& self.leaves_within_threshold()
    }

    pub proof fn lemma_wf(&self)
        requires
            self.wf(),
        ensures
            self@.dom().finite(),
            self@.len() <= usize::MAX,
            forall|k: Seq<u8>| #[trigger] self@.contains_key(k) ==> k.len() <= usize::MAX,
            self.leaves_within_threshold(),
    {
    }

    pub fn new() -> (r: Self)
        ensures
            r.wf(),
            r@ == Map::<Seq<u8>, V>::empty(),
            r.root_is_leaf(),
            r.threshold() == DEFAULT_BURST_THRESHOLD,
    {
        Self::default()
    }

    /// An empty trie whose leaves burst once they take more than `bytes`
    /// bytes. Small thresholds give deeper tries with small leaves; large
    /// ones give shallow tries with large leaves.
    pub fn with_threshold(bytes: usize) -> (r: Self)
        ensures
            r.wf(),
            r@ == Map::<Seq<u8>, V>::empty(),
            r.root_is_leaf(),
            r.threshold() == bytes,
    {
        let r = HatTrie { root: Node::default(), len: 0, burst_threshold: bytes };
        proof {
            assert(r@.dom() =~= Set::<Seq<u8>>::empty());
        }
        r
    }

    /// Inserts `value` under `key`; returns the value the key held before.
    pub fn insert(&mut self, key: &[u8], value: V) -> (r: Option<V>)
        requires
            old(self).wf(),
            old(self)@.len() < usize::MAX,
        ensures
            final(self).wf(),
            final(self)@ == old(self)@.insert(key@, value),
            r == old(self)@.get(key@),
            final(self).threshold() == old(self).threshold(),
            old(self).root_is_leaf() && key@.len() <= MAX_BUCKET_KEY_LEN ==> (final(self).root_is_leaf()
                <==> leaf_bytes(final(self)@) <= final(self).threshold()),
            old(self).root_is_leaf() && key@.len() > MAX_BUCKET_KEY_LEN ==> !final(self).root_is_leaf(),
            !old(self).root_is_leaf() ==> !final(self).root_is_leaf(),
    {
        let ghost m = self@;
        let key_len = key.len();
        let result = self.root.insert(key, value, self.burst_threshold);
        proof {
            if old(self).root is Leaf && key@.len() <= MAX_BUCKET_KEY_LEN {
                let l = old(self).root->0;
                assert(grown_leaf_rule(l, key@, value, self.burst_threshold as int, self.root));
                let g = choose|g: ArrayHash<V>|
                    #![trigger g.spec_size()]
                    {
                        &&& g.wf()
                        &&& g@ == l@.insert(key@, value)
                        &&& g.same_hasher(l)
                        &&& g.bucket_count() == if l@.len() > l.bucket_count() * 8 {
                            2 * l.bucket_count()
                        } else {
                            l.bucket_count()
                        }
                        &&& g.spec_size() <= self.burst_threshold ==> self.root == Node::Leaf(g)
                        &&& g.spec_size() > self.burst_threshold ==> self.root !is Leaf
                    };
                g.lemma_size_is_bytes();
                assert(node_view(old(self).root) =~= l@);
                assert(g@ =~= m.insert(key@, value));
            }
        }
        proof {
            assert forall|k: Seq<u8>| #[trigger] node_get(self.root, k) == m.insert(key@, value).get(k) by {}
            lemma_view_ext(self.root, m.insert(key@, value));
            lemma_view_get(old(self).root, key@);
            assert(key@.len() == key_len);
        }
        // only a new key adds to the length
        if result.is_none() {
            self.len = self.len + 1;
        }
        result
    }

    pub fn get(&self, key: &[u8]) -> (r: Option<&V>)
        requires
            self.wf(),
        ensures
            match r {
                Some(v) => self@.contains_key(key@) && self@[key@] == *v,
                None => !self@.contains_key(key@),
            },
    {
        proof {
            lemma_view_get(self.root, key@);
        }
        self.root.get(key)
    }

    /// A mutable reference to the value under `key`. Writing through it
    /// changes that value and nothing else.
    pub fn get_mut(&mut self, key: &[u8]) -> (r: Option<&mut V>)
        requires
            old(self).wf(),
        ensures
            final(self).wf(),
            r.is_some() == old(self)@.contains_key(key@),
            r.is_some() ==> *r.unwrap() == old(self)@[key@] && final(self)@ == old(self)@.insert(
                key@,
                *final(r.unwrap()),
            ),
            r.is_none() ==> final(self)@ == old(self)@,
            final(self).threshold() == old(self).threshold(),
    {
        let ghost fin = *final(self);
        proof {
            lemma_view_get(self.root, key@);
            lemma_view_after_write(self.root, key@);
        }
        let r = self.root.get_mut(key);
        proof {
            crate::node::lemma_same_leaves_fit(old(self).root, fin.root, self.burst_threshold as int);
        }
        r
    }

    /// Removes `key`; returns the value it held.
    pub fn remove(&mut self, key: &[u8]) -> (r: Option<V>)
        requires
            old(self).wf(),
        ensures
            final(self).wf(),
            final(self)@ == old(self)@.remove(key@),
            r == old(self)@.get(key@),
            final(self).threshold() == old(self).threshold(),
    {
        let ghost m = self@;
        let result = self.root.remove(key);
        proof {
            assert(leaves_fit(self.root, self.burst_threshold as int));
            assert forall|k: Seq<u8>| #[trigger] node_get(self.root, k) == m.remove(key@).get(k) by {}
            lemma_view_ext(self.root, m.remove(key@));
            lemma_view_get(old(self).root, key@);
        }
        if result.is_some() {
            self.len = self.len - 1;
        }
        result
    }

    pub fn len(&self) -> (r: usize)
        requires
            self.wf(),
        ensures
            r == self@.len(),
    {
        self.len
    }

    /// The burst threshold in bytes.
    pub fn burst_threshold(&self) -> (r: usize)
        ensures
            r == self.threshold(),
    {
        self.burst_threshold
    }

    pub fn is_empty(&self) -> (r: bool)
        requires
            self.wf(),
        ensures
            r == (self@.len() == 0),
            r == (self@ == Map::<Seq<u8>, V>::empty()),
    {
        proof {
            if self@.len() == 0 {
                vstd::set_lib::lemma_set_empty_equivalency_len(self@.dom());
                assert(self@ =~= Map::<Seq<u8>, V>::empty());
            }
        }
        self.len == 0
    }
}

/// A subtree that differs from `n` at most at `key` holds the map of `n`
/// with `key` written, or the map of `n` itself when `key` stays absent.
proof fn lemma_view_after_write<V>(n: Node<V>, key: Seq<u8>)
    ensures
        forall|n2: Node<V>, v: V|
            #![trigger node_view(n2), node_view(n).insert(key, v)]
            node_get(n2, key) == Some(v) && (forall|k: Seq<u8>|
                k != key ==> node_get(n2, k) == node_get(n, k)) ==> node_view(n2) == node_view(
                n,
            ).insert(key, v),
        forall|n2: Node<V>|
            #![trigger node_view(n2)]
            node_get(n2, key) is None && node_get(n, key) is None && (forall|k: Seq<u8>|
                k != key ==> node_get(n2, k) == node_get(n, k)) ==> node_view(n2) == node_view(n),
        forall|n2: Node<V>|
            #![trigger node_view(n2)]
            (node_get(n2, key) is Some == node_get(n, key) is Some) && (forall|k: Seq<u8>|
                k != key ==> node_get(n2, k) == node_get(n, k)) ==> node_view(n2).dom() == node_view(n).dom(),
{
    assert forall|n2: Node<V>|
        (node_get(n2, key) is Some == node_get(n, key) is Some) && (forall|k: Seq<u8>|
            k != key ==> node_get(n2, k) == node_get(n, k)) implies #[trigger] node_view(n2).dom() == node_view(n).dom() by {
        assert(node_view(n2).dom() =~= node_view(n).dom());
    }
    assert forall|n2: Node<V>, v: V|
        #![trigger node_view(n2), node_view(n).insert(key, v)]
        node_get(n2, key) == Some(v) && (forall|k: Seq<u8>|
            k != key ==> node_get(n2, k) == node_get(n, k)) implies node_view(n2) == node_view(
            n,
        ).insert(key, v) by {
        assert forall|k: Seq<u8>| #[trigger] node_get(n2, k) == node_view(n).insert(key, v).get(k) by {
            lemma_view_get(n, k);
        }
        lemma_view_ext(n2, node_view(n).insert(key, v));
    }
    assert forall|n2: Node<V>|
        node_get(n2, key) is None && node_get(n, key) is None && (forall|k: Seq<u8>|
            k != key ==> node_get(n2, k) == node_get(n, k)) implies #[trigger] node_view(n2) == node_view(n) by {
        assert forall|k: Seq<u8>| #[trigger] node_get(n2, k) == node_view(n).get(k) by {
            lemma_view_get(n, k);
        }
        lemma_view_ext(n2, node_view(n));
    }
}

impl<V: Clone> Clone for HatTrie<V> {
    /// A copy of the trie, independent of it: the same keys, each value
    /// cloned, and the same burst threshold.
    fn clone(&self) -> (r: Self)
        ensures
            r.threshold() == self.threshold(),
            self.wf() ==> r.wf() && r@.dom() == self@.dom() && forall|k: Seq<u8>|
                #[trigger] self@.contains_key(k) ==> cloned::<V>(self@[k], r@[k]),
    {
        let r = HatTrie { root: self.root.clone(), len: self.len, burst_threshold: self.burst_threshold };
        proof {
            if self.wf() {
                crate::node::lemma_same_leaves_fit(self.root, r.root, self.burst_threshold as int);
                assert(r@.dom() =~= self@.dom()) by {
                    assert forall|k: Seq<u8>| #[trigger] r@.contains_key(k) == self@.contains_key(k) by {
                        lemma_view_get(r.root, k);
                        lemma_view_get(self.root, k);
                        assert(node_get(r.root, k) is Some == node_get(self.root, k) is Some);
                    }
                }
                assert forall|k: Seq<u8>| #[trigger] self@.contains_key(k) implies cloned::<V>(self@[k], r@[k]) by {
                    lemma_view_get(r.root, k);
                    lemma_view_get(self.root, k);
                    assert(node_get(self.root, k) is Some);
                }
            }
        }
        r
    }
}

impl<V> Default for HatTrie<V> {
    fn default() -> (r: Self)
        ensures
            r.wf(),
            r@ == Map::<Seq<u8>, V>::empty(),
            r.root_is_leaf(),
            r.threshold() == DEFAULT_BURST_THRESHOLD,
    {
        Self::with_threshold(DEFAULT_BURST_THRESHOLD)
    }
}

/// `k` is not past the end bound of a walk: the end key and whether it
/// is included.
pub open spec fn within_end(k: Seq<u8>, end: Option<(Vec<u8>, bool)>) -> bool {
    match end {
        Some((e, true)) => lex_le(k, e@),
        Some((e, false)) => lex_lt(k, e@),
        None => true,
    }
}

/// A key beyond a key past the end bound is past it too.
proof fn lemma_past_end(k: Seq<u8>, y: Seq<u8>, end: Option<(Vec<u8>, bool)>)
    requires
        !within_end(k, end),
        lex_lt(k, y),
    ensures
        !within_end(y, end),
{
    match end {
        Some((e, incl)) => {
            crate::keys::lemma_lex_total(k, e@);
            crate::keys::lemma_lex_total(y, e@);
            if lex_lt(e@, k) {
                crate::keys::lemma_lex_transitive(e@, k, y);
            }
            crate::keys::lemma_lex_total(e@, y);
        },
        None => {},
    }
}

/// A walk over entries in ascending key order. It keeps a stack of work:
/// subtrees still to be opened, each with its path, and single entries,
/// the smallest keys on top; a step opens subtrees at the top until an
/// entry comes up. It hands out only keys that start with `prefix`, and
/// stops at the first key past `end`.
pub struct HatTrieIter<'a, V> {
    stack: Vec<Pending<'a, V>>,
    prefix: Vec<u8>,
    end: Option<(Vec<u8>, bool)>,
}

impl<'a, V> HatTrieIter<'a, V> {
    /// Whether the walk hands out `k` when it comes to it.
    pub closed spec fn keeps(&self, k: Seq<u8>) -> bool {
        has_prefix(k, self.prefix@) && within_end(k, self.end)
    }

    /// The entries still to come.
    pub closed spec fn rest_map(&self) -> Map<Seq<u8>, V> {
        Map::new(
            |k: Seq<u8>| stack_map(self.stack@).contains_key(k) && self.keeps(k),
            |k: Seq<u8>| stack_map(self.stack@)[k],
        )
    }

    /// Keys still to come, in order.
    pub closed spec fn rest_keys(&self) -> Seq<Seq<u8>> {
        sorted_keys(self.rest_map().dom())
    }

    /// Values still to come, in the order of their keys.
    pub closed spec fn rest_values(&self) -> Seq<V> {
        self.rest_keys().map_values(|k: Seq<u8>| self.rest_map()[k])
    }

    pub closed spec fn wf(&self) -> bool {
        &&& stack_ok(self.stack@)
        &&& self.rest_map().len() <= usize::MAX
    }

    /// What the keys and values still to come are.
    pub proof fn lemma_rest(&self)
        requires
            self.wf(),
        ensures
            strictly_sorted(self.rest_keys()),
            self.rest_keys().len() == self.rest_values().len(),
            pairs_map(self.rest_keys(), self.rest_values()) == self.rest_map(),
            self.rest_keys().len() == self.rest_map().len(),
            self.rest_map().dom().finite(),
    {
        let m = self.rest_map();
        let ks = self.rest_keys();
        let vs = self.rest_values();
        assert(m.dom().subset_of(stack_map(self.stack@).dom()));
        vstd::set_lib::lemma_len_subset(m.dom(), stack_map(self.stack@).dom());
        lemma_sorted_keys(m.dom());
        assert forall|k: Seq<u8>| #[trigger] pairs_map(ks, vs).contains_key(k) == m.contains_key(k) by {}
        assert forall|k: Seq<u8>| #[trigger] pairs_map(ks, vs).contains_key(k) implies pairs_map(ks, vs)[k] == m[k] by {
            let i = choose|i: int| 0 <= i < ks.len() && ks[i] == k;
            lemma_pairs_map_index(ks, vs, i);
        }
        assert(pairs_map(ks, vs) =~= m);
        crate::entries::lemma_pairs_map_len(ks, vs);
    }

    /// A walk over a stack that keeps every key.
    fn unfiltered(stack: Vec<Pending<'a, V>>) -> (r: Self)
        ensures
            r.stack == stack,
            r.end is None,
            r.prefix@ == Seq::<u8>::empty(),
            r.rest_map() == stack_map(stack@),
    {
        let r = HatTrieIter { stack, prefix: Vec::new(), end: None };
        proof {
            assert forall|k: Seq<u8>| has_prefix(k, r.prefix@) by {
                assert(k.subrange(0, 0) =~= r.prefix@);
            }
            assert(r.rest_map() =~= stack_map(stack@));
        }
        r
    }

    /// A walk over the subtree `root` from its top.
    fn over(root: &'a Node<V>) -> (r: Self)
        requires
            root.wf(),
            node_view(*root).dom().finite(),
            node_view(*root).len() <= usize::MAX,
        ensures
            r.wf(),
            r.end is None,
            r.prefix@ == Seq::<u8>::empty(),
            r.rest_map() == node_view(*root),
    {
        let mut stack: Vec<Pending<'a, V>> = Vec::new();
        let path: Vec<u8> = Vec::new();
        proof {
            assert(path@ =~= Seq::<u8>::empty());
        }
        stack.push(Pending::Subtree(root, path));
        proof {
            let s = stack@;
            assert(s.drop_last() =~= Seq::<Pending<'a, V>>::empty());
            assert(stack_map(s.drop_last()) == Map::<Seq<u8>, V>::empty());
            lemma_prefix_map_empty(node_view(*root));
            assert(stack_map(s) =~= node_view(*root));
            assert(stack_ordered(s));
        }
        Self::unfiltered(stack)
    }

    /// A walk over the entries of the subtree `root` from `target` on
    /// (after `target` when `strict`): it goes down along `target` and
    /// keeps only the subtrees on its right.
    fn seek(root: &'a Node<V>, target: &[u8], strict: bool) -> (r: Self)
        requires
            root.wf(),
            node_view(*root).dom().finite(),
            node_view(*root).len() <= usize::MAX,
        ensures
            r.wf(),
            r.end is None,
            r.prefix@ == Seq::<u8>::empty(),
            r.rest_map() == seek_map(node_view(*root), target@, strict),
    {
        let mut stack: Vec<Pending<'a, V>> = Vec::new();
        let path: Vec<u8> = Vec::new();
        proof {
            assert(path@ =~= target@.take(0));
            assert(stack_map(stack@) =~= Map::<Seq<u8>, V>::empty());
            lemma_prefix_map_empty(node_view(*root));
        }
        seek_push(&mut stack, root, target, 0, path, strict);
        let ghost sel = seek_map(node_view(*root), target@, strict);
        proof {
            assert(stack_map(stack@) =~= sel);
            assert(sel.dom().subset_of(node_view(*root).dom()));
            vstd::set_lib::lemma_len_subset(sel.dom(), node_view(*root).dom());
        }
        Self::unfiltered(stack)
    }

    /// A walk with nothing to hand out.
    fn empty() -> (r: Self)
        ensures
            r.wf(),
            r.rest_keys().len() == 0,
            r.rest_values().len() == 0,
    {
        let r = Self::unfiltered(Vec::new());
        proof {
            assert(stack_map(r.stack@) =~= Map::<Seq<u8>, V>::empty());
            assert(r.rest_map() =~= Map::<Seq<u8>, V>::empty());
            assert(stack_ordered(r.stack@));
            r.lemma_rest();
        }
        r
    }

    /// Hands out the next entry.
    pub fn next(&mut self) -> (r: Option<(Vec<u8>, &'a V)>)
        requires
            old(self).wf(),
        ensures
            final(self).wf(),
            old(self).rest_keys().len() == old(self).rest_values().len(),
            match r {
                Some(kv) => old(self).rest_keys().len() > 0 && kv.0@ == old(self).rest_keys()[0]
                    && *kv.1 == old(self).rest_values()[0] && final(self).rest_keys() == old(
                    self,
                ).rest_keys().drop_first() && final(self).rest_values() == old(
                    self,
                ).rest_values().drop_first(),
                None => old(self).rest_keys().len() == 0 && final(self).rest_keys() == old(
                    self,
                ).rest_keys() && final(self).rest_values() == old(self).rest_values(),
            },
    {
        let mut key: Vec<u8> = Vec::new();
        match self.next_into(&mut key) {
            Some(v) => Some((key, v)),
            None => None,
        }
    }

    /// Writes the key of the next entry into `key`, reusing the buffer's
    /// room, and hands out its value.
    fn next_into(&mut self, key: &mut Vec<u8>) -> (r: Option<&'a V>)
        requires
            old(self).wf(),
        ensures
            final(self).wf(),
            old(self).rest_keys().len() == old(self).rest_values().len(),
            match r {
                Some(v) => old(self).rest_keys().len() > 0 && final(key)@ == old(self).rest_keys()[0]
                    && *v == old(self).rest_values()[0] && final(self).rest_keys() == old(
                    self,
                ).rest_keys().drop_first() && final(self).rest_values() == old(
                    self,
                ).rest_values().drop_first(),
                None => old(self).rest_keys().len() == 0 && final(self).rest_keys() == old(
                    self,
                ).rest_keys() && final(self).rest_values() == old(self).rest_values(),
            },
    {
        let ghost m0 = self.rest_map();
        proof {
            self.lemma_rest();
        }
        loop
            invariant
                stack_ok(self.stack@),
                self.prefix == old(self).prefix,
                self.end == old(self).end,
                self.rest_map() == m0,
                m0.len() <= usize::MAX,
                m0.dom().finite(),
                old(self).rest_keys() == sorted_keys(m0.dom()),
                old(self).rest_values() == sorted_keys(m0.dom()).map_values(|k: Seq<u8>| m0[k]),
            decreases stack_map(self.stack@).len(),
        {
            let ghost full = stack_map(self.stack@);
            match pop_least(&mut self.stack, key) {
                None => {
                    proof {
                        assert(self.rest_map() =~= m0);
                        assert(m0 =~= Map::<Seq<u8>, V>::empty());
                        lemma_sorted_keys(m0.dom());
                        if sorted_keys(m0.dom()).len() > 0 {
                            assert(sorted_keys(m0.dom()).contains(sorted_keys(m0.dom())[0]));
                        }
                    }
                    return None;
                },
                Some(v) => {
                    let ghost k = key@;
                    let ghost mr = stack_map(self.stack@);
                    proof {
                        assert(mr.dom() =~= full.dom().remove(k));
                        assert(full.dom().contains(k));
                    }
                    if !crate::keys::starts_with(key.as_slice(), self.prefix.as_slice()) {
                        // not handed out: go on
                        proof {
                            assert(self.rest_map() =~= m0);
                        }
                    } else {
                        let past = match &self.end {
                            Some(e) => match crate::keys::compare_keys(key.as_slice(), e.0.as_slice()) {
                                crate::keys::KeyOrder::Less => false,
                                crate::keys::KeyOrder::Equal => !e.1,
                                crate::keys::KeyOrder::Greater => true,
                            },
                            None => false,
                        };
                        proof {
                            if self.end is Some {
                                let e = self.end->0;
                                crate::keys::lemma_lex_total(k, e.0@);
                            }
                        }
                        if past {
                            // every key still on the stack is past the end too
                            proof {
                                assert(m0 =~= Map::<Seq<u8>, V>::empty()) by {
                                    assert forall|y: Seq<u8>| !#[trigger] m0.contains_key(y) by {
                                        if mr.contains_key(y) {
                                            lemma_past_end(k, y, self.end);
                                        }
                                    }
                                }
                                lemma_sorted_keys(m0.dom());
                                if sorted_keys(m0.dom()).len() > 0 {
                                    assert(sorted_keys(m0.dom()).contains(sorted_keys(m0.dom())[0]));
                                }
                            }
                            self.stack = Vec::new();
                            proof {
                                assert(stack_map(self.stack@) =~= Map::<Seq<u8>, V>::empty());
                                assert(self.rest_map() =~= m0);
                                assert(stack_ordered(self.stack@));
                            }
                            return None;
                        }
                        proof {
                            let nr = self.rest_map();
                            assert(m0.contains_key(k));
                            assert(nr =~= m0.remove(k));
                            assert forall|y: Seq<u8>| m0.contains_key(y) && y != k implies lex_lt(k, y) by {
                                assert(mr.contains_key(y));
                            }
                            lemma_sorted_keys_remove_least(m0.dom(), k);
                            assert(m0.remove(k).dom() =~= m0.dom().remove(k));
                            vstd::set_lib::lemma_len_subset(nr.dom(), m0.dom());
                            let nk = sorted_keys(nr.dom());
                            assert(nk == sorted_keys(m0.dom()).drop_first());
                            assert(nk.map_values(|q: Seq<u8>| nr[q]) =~= sorted_keys(m0.dom()).map_values(
                                |q: Seq<u8>| m0[q],
                            ).drop_first()) by {
                                lemma_sorted_keys(nr.dom());
                                assert forall|t: int| 0 <= t < nk.len() implies #[trigger] nr[nk[t]] == m0[nk[t]] by {
                                    assert(nk.contains(nk[t]));
                                }
                            }
                            assert(m0[k] == *v);
                        }
                        return Some(v);
                    }
                },
            }
        }
    }

    /// Walks to the end, counting the entries.
    pub fn count(self) -> (r: usize)
        requires
            self.wf(),
        ensures
            r == self.rest_keys().len(),
    {
        let ghost total = self.rest_keys().len();
        proof {
            self.lemma_rest();
        }
        let mut it = self;
        let mut n: usize = 0;
        loop
            invariant
                it.wf(),
                n + it.rest_keys().len() == total,
                total == self.rest_keys().len(),
                total <= usize::MAX,
            decreases it.rest_keys().len(),
        {
            proof {
                it.lemma_rest();
            }
            match it.next() {
                Some(_) => {
                    n = n + 1;
                },
                None => {
                    proof {
                        assert(n == total);
                    }
                    return n;
                },
            }
        }
    }
}

proof fn lemma_prefix_map_empty<V>(m: Map<Seq<u8>, V>)
    ensures
        prefix_map(m, Seq::empty()) == m,
        forall|k: Seq<u8>| lex_le(Seq::<u8>::empty(), k),
{
    assert forall|k: Seq<u8>| #[trigger] prefix_map(m, Seq::empty()).contains_key(k) == m.contains_key(k) by {
        assert(k.subrange(0, 0) =~= Seq::<u8>::empty());
        assert(k.skip(0) =~= k);
    }
    assert forall|k: Seq<u8>| #[trigger] prefix_map(m, Seq::empty()).contains_key(k) implies prefix_map(m, Seq::empty())[k] == m[k] by {
        assert(k.skip(0) =~= k);
    }
    assert(prefix_map(m, Seq::empty()) =~= m);
    assert forall|k: Seq<u8>| lex_le(Seq::<u8>::empty(), k) by {
        if k.len() > 0 {
            crate::keys::lemma_lex_proper_prefix(Seq::<u8>::empty(), k);
            assert(Seq::<u8>::empty() + k =~= k);
        } else {
            assert(k =~= Seq::<u8>::empty());
        }
    }
}

impl<V> HatTrie<V> {
    /// An iterator over every entry, in ascending key order.
    pub fn iter(&self) -> (r: HatTrieIter<'_, V>)
        requires
            self.wf(),
        ensures
            r.wf(),
            strictly_sorted(r.rest_keys()),
            r.rest_keys().len() == r.rest_values().len(),
            pairs_map(r.rest_keys(), r.rest_values()) == self@,
    {
        let r = HatTrieIter::over(&self.root);
        proof {
            r.lemma_rest();
        }
        r
    }
}

/// One end of a range of keys.
pub enum KeyBound<'k> {
    Included(&'k [u8]),
    Excluded(&'k [u8]),
    Unbounded,
}

/// `k` is not below the start bound.
pub open spec fn above_start(k: Seq<u8>, b: KeyBound) -> bool {
    match b {
        KeyBound::Included(s) => lex_le(s@, k),
        KeyBound::Excluded(s) => lex_lt(s@, k),
        KeyBound::Unbounded => true,
    }
}

/// `k` is not above the end bound.
pub open spec fn below_end(k: Seq<u8>, b: KeyBound) -> bool {
    match b {
        KeyBound::Included(e) => lex_le(k, e@),
        KeyBound::Excluded(e) => lex_lt(k, e@),
        KeyBound::Unbounded => true,
    }
}

/// `k` is the least key of `m` that is not below `key`.
pub open spec fn is_lower_bound<V>(m: Map<Seq<u8>, V>, key: Seq<u8>, k: Seq<u8>) -> bool {
    &&& m.contains_key(k)
    &&& lex_le(key, k)
    &&& forall|k2: Seq<u8>| #[trigger] m.contains_key(k2) && lex_le(key, k2) ==> lex_le(k, k2)
}

/// `k` is the least key of `m` that is above `key`.
pub open spec fn is_upper_bound<V>(m: Map<Seq<u8>, V>, key: Seq<u8>, k: Seq<u8>) -> bool {
    &&& m.contains_key(k)
    &&& lex_lt(key, k)
    &&& forall|k2: Seq<u8>| #[trigger] m.contains_key(k2) && lex_lt(key, k2) ==> lex_le(k, k2)
}

impl<V> HatTrie<V> {
    /// The first entry of a seek from `key` (after `key` when `strict`).
    fn first_from(&self, key: &[u8], strict: bool) -> (r: Option<(Vec<u8>, &V)>)
        requires
            self.wf(),
        ensures
            match r {
                Some(kv) => self@.contains_key(kv.0@) && self@[kv.0@] == *kv.1 && crate::pending::from_target(
                    kv.0@,
                    key@,
                    strict,
                ) && forall|k2: Seq<u8>| #[trigger] self@.contains_key(k2) && crate::pending::from_target(
                    k2,
                    key@,
                    strict,
                ) ==> lex_le(kv.0@, k2),
                None => forall|k2: Seq<u8>| #[trigger] self@.contains_key(k2) ==> !crate::pending::from_target(
                    k2,
                    key@,
                    strict,
                ),
            },
    {
        proof {
            self.lemma_wf();
        }
        let mut it = HatTrieIter::seek(&self.root, key, strict);
        let ghost sel = seek_map(self@, key@, strict);
        let ghost ks = it.rest_keys();
        let ghost vs = it.rest_values();
        proof {
            it.lemma_rest();
        }
        let r = it.next();
        proof {
            assert forall|k2: Seq<u8>| #[trigger] self@.contains_key(k2) && crate::pending::from_target(k2, key@, strict)
                implies ks.len() > 0 && lex_le(ks[0], k2) by {
                assert(sel.contains_key(k2));
                assert(pairs_map(ks, vs).contains_key(k2));
                let i = choose|i: int| 0 <= i < ks.len() && ks[i] == k2;
                if i > 0 {
                    assert(lex_lt(ks[0], ks[i]));
                }
            }
            if ks.len() > 0 {
                lemma_pairs_map_index(ks, vs, 0);
            }
        }
        r
    }

    /// The first entry whose key is not below `key`.
    pub fn lower_bound(&self, key: &[u8]) -> (r: Option<(Vec<u8>, &V)>)
        requires
            self.wf(),
        ensures
            match r {
                Some(kv) => is_lower_bound(self@, key@, kv.0@) && self@[kv.0@] == *kv.1,
                None => forall|k2: Seq<u8>| #[trigger] self@.contains_key(k2) ==> lex_lt(k2, key@),
            },
    {
        let r = self.first_from(key, false);
        proof {
            if r is None {
                assert forall|k2: Seq<u8>| #[trigger] self@.contains_key(k2) implies lex_lt(k2, key@) by {
                    crate::keys::lemma_lex_total(k2, key@);
                }
            }
        }
        r
    }

    /// The first entry whose key is above `key`.
    pub fn upper_bound(&self, key: &[u8]) -> (r: Option<(Vec<u8>, &V)>)
        requires
            self.wf(),
        ensures
            match r {
                Some(kv) => is_upper_bound(self@, key@, kv.0@) && self@[kv.0@] == *kv.1,
                None => forall|k2: Seq<u8>| #[trigger] self@.contains_key(k2) ==> lex_le(k2, key@),
            },
    {
        let r = self.first_from(key, true);
        proof {
            if r is None {
                assert forall|k2: Seq<u8>| #[trigger] self@.contains_key(k2) implies lex_le(k2, key@) by {
                    crate::keys::lemma_lex_total(k2, key@);
                }
            }
        }
        r
    }

    /// The entries whose keys lie between the two bounds, in order. The
    /// walk goes down to the start bound first, and stops at the first key
    /// past the end bound.
    pub fn range(&self, start: KeyBound, end: KeyBound) -> (r: HatTrieIter<'_, V>)
        requires
            self.wf(),
        ensures
            r.wf(),
            strictly_sorted(r.rest_keys()),
            r.rest_keys().len() == r.rest_values().len(),
            pairs_map(r.rest_keys(), r.rest_values()) == self@.restrict(
                Set::new(|k: Seq<u8>| above_start(k, start) && below_end(k, end)),
            ),
    {
        proof {
            self.lemma_wf();
        }
        let ghost m = self@;
        let walk = match start {
            KeyBound::Included(s) => HatTrieIter::seek(&self.root, s, false),
            KeyBound::Excluded(s) => HatTrieIter::seek(&self.root, s, true),
            KeyBound::Unbounded => HatTrieIter::over(&self.root),
        };
        let ghost from = walk.rest_map();
        proof {
            assert forall|k: Seq<u8>| #[trigger] from.contains_key(k) == (m.contains_key(k) && above_start(k, start))
                && (from.contains_key(k) ==> from[k] == m[k]) by {}
        }
        let stop = match end {
            KeyBound::Included(e) => Some((vstd::slice::slice_to_vec(e), true)),
            KeyBound::Excluded(e) => Some((vstd::slice::slice_to_vec(e), false)),
            KeyBound::Unbounded => None,
        };
        let r = HatTrieIter { stack: walk.stack, prefix: walk.prefix, end: stop };
        proof {
            assert forall|k: Seq<u8>| #[trigger] within_end(k, stop) == below_end(k, end) by {}
            let sel = m.restrict(Set::new(|k: Seq<u8>| above_start(k, start) && below_end(k, end)));
            assert(r.rest_map() =~= sel) by {
                assert forall|k: Seq<u8>| #[trigger] r.rest_map().contains_key(k) == sel.contains_key(k) by {
                    assert(k.subrange(0, 0) =~= walk.prefix@);
                    assert(has_prefix(k, walk.prefix@));
                    assert(walk.keeps(k));
                    assert(from.contains_key(k) == stack_map(walk.stack@).contains_key(k));
                    assert(r.keeps(k) == below_end(k, end));
                    assert(r.rest_map().contains_key(k) == (stack_map(walk.stack@).contains_key(k) && below_end(k, end)));
                }
                assert forall|k: Seq<u8>| #[trigger] r.rest_map().contains_key(k) implies r.rest_map()[k] == sel[k] by {
                    assert(k.subrange(0, 0) =~= walk.prefix@);
                    assert(walk.keeps(k));
                    assert(from.contains_key(k));
                    assert(from[k] == stack_map(walk.stack@)[k]);
                }
            }
            assert(r.rest_map().dom().subset_of(m.dom()));
            vstd::set_lib::lemma_len_subset(r.rest_map().dom(), m.dom());
            r.lemma_rest();
        }
        r
    }
}

impl<V> HatTrie<V> {
    /// The entries whose keys start with `prefix`, in order. Goes down to
    /// the subtree of the prefix first.
    pub fn scan_prefix(&self, prefix: &[u8]) -> (r: HatTrieIter<'_, V>)
        requires
            self.wf(),
        ensures
            r.wf(),
            strictly_sorted(r.rest_keys()),
            r.rest_keys().len() == r.rest_values().len(),
            pairs_map(r.rest_keys(), r.rest_values()) == self@.restrict(
                Set::new(|k: Seq<u8>| has_prefix(k, prefix@)),
            ),
    {
        let ghost m = self@;
        let ghost sel = m.restrict(Set::new(|k: Seq<u8>| has_prefix(k, prefix@)));
        let p = prefix;
        let mut node: &Node<V> = &self.root;
        let mut depth: usize = 0;
        // whether the path of the prefix exists
        let mut found = true;
        proof {
            lemma_prefix_map_empty(m);
            assert(p@.take(0) =~= Seq::<u8>::empty());
        }
        // 1. go down to the node of the prefix
        while depth < p.len()
            invariant_except_break
                found,
            invariant
                m == self@,
                self.wf(),
                node.wf(),
                depth <= p@.len(),
                forall|k: Seq<u8>| #[trigger] prefix_map(node_view(*node), p@.take(depth as int)).contains_key(k) ==> m.contains_key(k)
                    && m[k] == prefix_map(node_view(*node), p@.take(depth as int))[k],
                forall|k: Seq<u8>| #[trigger] m.contains_key(k) && has_prefix(k, p@) ==> prefix_map(node_view(*node), p@.take(depth as int)).contains_key(k),
            ensures
                !found ==> forall|k: Seq<u8>| #[trigger] m.contains_key(k) ==> !has_prefix(k, p@),
                depth <= p@.len(),
                node.wf(),
                forall|k: Seq<u8>| #[trigger] prefix_map(node_view(*node), p@.take(depth as int)).contains_key(k) ==> m.contains_key(k)
                    && m[k] == prefix_map(node_view(*node), p@.take(depth as int))[k],
                forall|k: Seq<u8>| #[trigger] m.contains_key(k) && has_prefix(k, p@) ==> prefix_map(node_view(*node), p@.take(depth as int)).contains_key(k),
            decreases p@.len() - depth,
        {
            let ghost path = p@.take(depth as int);
            let ghost s0 = prefix_map(node_view(*node), path);
            match node {
                Node::Internal { children, .. } => {
                    let b = p[depth];
                    match &children[b as usize] {
                        Some(child) => {
                            proof {
                                let pb = p@.take(depth + 1);
                                assert(pb =~= path.push(b));
                                assert forall|k: Seq<u8>| #[trigger] prefix_map(node_view(*child), pb).contains_key(k) implies s0.contains_key(k)
                                    && s0[k] == prefix_map(node_view(*child), pb)[k] by {
                                    assert(pb.subrange(0, path.len() as int) =~= path);
                                    crate::keys::lemma_prefix_of_prefix(k, path, pb);
                                    assert(k.subrange(0, pb.len() as int)[depth as int] == b);
                                    crate::walk::lemma_internal_prefix_map(*node, path, k);
                                }
                                assert forall|k: Seq<u8>| #[trigger] m.contains_key(k) && has_prefix(k, p@) implies prefix_map(node_view(*child), pb).contains_key(k) by {
                                    assert(s0.contains_key(k));
                                    crate::walk::lemma_internal_prefix_map(*node, path, k);
                                    assert(has_prefix(k, pb)) by {
                                        assert(p@.subrange(0, pb.len() as int) =~= pb);
                                        crate::keys::lemma_prefix_of_prefix(k, pb, p@);
                                    }
                                    assert(k.subrange(0, p@.len() as int)[depth as int] == p@[depth as int]);
                                    assert(k != path);
                                }
                            }
                            node = child;
                            depth = depth + 1;
                        },
                        None => {
                            proof {
                                assert forall|k: Seq<u8>| #[trigger] m.contains_key(k) implies !has_prefix(k, p@) by {
                                    if has_prefix(k, p@) {
                                        crate::walk::lemma_internal_prefix_map(*node, path, k);
                                        assert(k.subrange(0, p@.len() as int)[depth as int] == p@[depth as int]);
                                        assert(s0.contains_key(k));
                                    }
                                }
                            }
                            found = false;
                            break;
                        },
                    }
                },
                Node::Radix { prefix: r_prefix, child } => {
                    let suffix = vstd::slice::slice_subrange(p, depth, p.len());
                    let common = crate::keys::common_prefix_len(suffix, r_prefix.as_slice());
                    proof {
                        crate::keys::lemma_lcp_props(suffix@, r_prefix@);
                        crate::walk::lemma_radix_prefix_map(*node, path);
                        assert(suffix@ =~= p@.skip(depth as int));
                    }
                    if common == suffix.len() {
                        // the rest of the prefix lies inside this node's prefix
                        break;
                    } else if common == r_prefix.len() {
                        proof {
                            assert(path + r_prefix@ =~= p@.take(depth + r_prefix@.len()));
                        }
                        node = child;
                        depth = depth + r_prefix.len();
                    } else {
                        proof {
                            let q = path + r_prefix@;
                            assert forall|k: Seq<u8>| #[trigger] m.contains_key(k) implies !has_prefix(k, p@) by {
                                if has_prefix(k, p@) {
                                    assert(s0.contains_key(k));
                                    assert(has_prefix(k, q));
                                    let c = depth + common;
                                    assert(k.subrange(0, q.len() as int)[c] == q[c]);
                                    assert(k.subrange(0, p@.len() as int)[c] == p@[c]);
                                    assert(q[c] == r_prefix@[common as int]);
                                    assert(p@[c] == suffix@[common as int]);
                                }
                            }
                        }
                        found = false;
                        break;
                    }
                },
                Node::Leaf(_) => {
                    break;
                },
            }
        }
        // 2. every entry below that node, then keep those under the prefix
        if !found {
            let r = HatTrieIter::empty();
            proof {
                assert(sel =~= Map::<Seq<u8>, V>::empty());
                assert(r.rest_keys() =~= Seq::<Seq<u8>>::empty());
                assert(pairs_map(r.rest_keys(), r.rest_values()) =~= Map::<Seq<u8>, V>::empty());
            }
            return r;
        }
        // 2. every entry below that node, of which those under the prefix
        // are handed out
        let path = vstd::slice::slice_to_vec(vstd::slice::slice_subrange(p, 0, depth));
        let ghost sub = prefix_map(node_view(*node), p@.take(depth as int));
        let mut stack: Vec<Pending<'_, V>> = Vec::new();
        proof {
            assert(path@ =~= p@.take(depth as int));
        }
        let ghost e = Pending::Subtree(node, path);
        stack.push(Pending::Subtree(node, path));
        let r = HatTrieIter { stack, prefix: vstd::slice::slice_to_vec(p), end: None };
        proof {
            let st = r.stack@;
            assert(st.drop_last() =~= Seq::<Pending<'_, V>>::empty());
            assert(stack_map(st.drop_last()) == Map::<Seq<u8>, V>::empty());
            assert(st.last() == e);
            assert(stack_map(st) =~= sub);
            assert(stack_ordered(st));
            assert(sub.dom().subset_of(m.dom()));
            vstd::set_lib::lemma_len_subset(sub.dom(), m.dom());
            assert(r.rest_map() =~= sel);
            vstd::set_lib::lemma_len_subset(sel.dom(), m.dom());
            self.lemma_wf();
            r.lemma_rest();
        }
        r
    }
}


/// `key`'s first `n` bytes form the longest prefix of `key` stored in `m`.
pub open spec fn is_longest_stored_prefix<V>(m: Map<Seq<u8>, V>, key: Seq<u8>, n: int) -> bool {
    &&& 0 <= n <= key.len()
    &&& m.contains_key(key.take(n))
    &&& forall|j: int| n < j <= key.len() ==> !m.contains_key(#[trigger] key.take(j))
}

/// No prefix of `key`, `key` itself and the empty key included, is stored in `m`.
pub open spec fn no_stored_prefix<V>(m: Map<Seq<u8>, V>, key: Seq<u8>) -> bool {
    forall|j: int| 0 <= j <= key.len() ==> !m.contains_key(#[trigger] key.take(j))
}

/// The longest key of a leaf that `s` starts with, as its length and value.
fn leaf_longest_match<'a, V>(leaf: &'a ArrayHash<V>, s: &[u8]) -> (r: Option<(usize, &'a V)>)
    requires
        leaf.wf(),
    ensures
        match r {
            Some(p) => is_longest_stored_prefix(leaf@, s@, p.0 as int) && leaf@[s@.take(p.0 as int)]
                == *p.1,
            None => no_stored_prefix(leaf@, s@),
        },
{
    let items = leaf.iter();
    let ghost ks = ref_keys(items@);
    let ghost vs = ref_vals(items@);
    let mut best: Option<(usize, &'a V)> = None;
    let mut i: usize = 0;
    while i < items.len()
        invariant
            ks == ref_keys(items@),
            vs == ref_vals(items@),
            ks.no_duplicates(),
            ks.len() == vs.len(),
            ks.len() == items@.len(),
            i <= items@.len(),
            match best {
                Some(p) => p.0 <= s@.len() && exists|t: int|
                    0 <= t < i && ks[t] == s@.take(p.0 as int) && vs[t] == *p.1,
                None => true,
            },
            forall|t: int|
                0 <= t < i && has_prefix(s@, #[trigger] ks[t]) ==> best is Some && ks[t].len()
                    <= best.unwrap().0,
        decreases items@.len() - i,
    {
        let (k, v) = items[i];
        proof {
            assert(ks[i as int] == k@);
            assert(vs[i as int] == *v);
        }
        if crate::keys::starts_with(s, k) {
            let better = match best {
                Some(p) => k.len() > p.0,
                None => true,
            };
            if better {
                proof {
                    assert(s@.take(k@.len() as int) =~= k@);
                }
                best = Some((k.len(), v));
            }
        }
        i = i + 1;
    }
    proof {
        let m = leaf@;
        assert(pairs_map(ks, vs) == m);
        match best {
            Some(p) => {
                let t = choose|t: int| 0 <= t < i && ks[t] == s@.take(p.0 as int) && vs[t] == *p.1;
                lemma_pairs_map_index_nodup(ks, vs, t);
                assert forall|j: int| p.0 < j <= s@.len() implies !m.contains_key(#[trigger] s@.take(j)) by {
                    if m.contains_key(s@.take(j)) {
                        let u = choose|u: int| 0 <= u < ks.len() && ks[u] == s@.take(j);
                        assert(has_prefix(s@, ks[u]));
                    }
                }
            },
            None => {
                assert forall|j: int| 0 <= j <= s@.len() implies !m.contains_key(#[trigger] s@.take(j)) by {
                    if m.contains_key(s@.take(j)) {
                        let u = choose|u: int| 0 <= u < ks.len() && ks[u] == s@.take(j);
                        assert(has_prefix(s@, ks[u]));
                    }
                }
            },
        }
    }
    best
}


impl<V> HatTrie<V> {
    /// The value of the longest stored key that `key` starts with, and that
    /// key's length; `(0, None)` when no prefix of `key` is stored.
    pub fn longest_common_prefix(&self, key: &[u8]) -> (r: (usize, Option<&V>))
        requires
            self.wf(),
        ensures
            match r.1 {
                Some(v) => is_longest_stored_prefix(self@, key@, r.0 as int) && self@[key@.take(
                    r.0 as int,
                )] == *v,
                None => r.0 == 0 && no_stored_prefix(self@, key@),
            },
    {
        let ghost m = self@;
        let mut node: &Node<V> = &self.root;
        let mut depth: usize = 0;
        let mut best_len: usize = 0;
        let mut best: Option<&V> = None;
        proof {
            assert forall|j: int| 0 <= j <= key@.len() implies m.get(#[trigger] key@.take(j))
                == node_get(*node, key@.subrange(0, j)) by {
                lemma_view_get(self.root, key@.take(j));
            }
        }
        loop
            invariant
                m == self@,
                node.wf(),
                depth <= key@.len(),
                forall|j: int|
                    depth <= j <= key@.len() ==> m.get(#[trigger] key@.take(j)) == node_get(
                        *node,
                        key@.subrange(depth as int, j),
                    ),
                best_len <= depth,
                best is Some ==> m.contains_key(key@.take(best_len as int)) && m[key@.take(
                    best_len as int,
                )] == *best->0,
                best is None ==> best_len == 0,
                forall|j: int|
                    (if best is Some {
                        best_len < j
                    } else {
                        0 <= j
                    }) && j < depth ==> !m.contains_key(#[trigger] key@.take(j)),
            decreases key@.len() - depth,
        {
            let ghost d = depth as int;
            match node {
                Node::Internal { children, value } => {
                    proof {
                        assert(key@.subrange(d, d) =~= Seq::<u8>::empty());
                        assert(m.get(key@.take(d)) == node_get(*node, key@.subrange(d, d)));
                    }
                    if let Some(v) = value {
                        best_len = depth;
                        best = Some(v);
                    }
                    if depth == key.len() {
                        return (best_len, best);
                    }
                    match &children[key[depth] as usize] {
                        Some(child) => {
                            proof {
                                assert forall|j: int| d + 1 <= j <= key@.len() implies m.get(
                                    #[trigger] key@.take(j),
                                ) == node_get(*child, key@.subrange(d + 1, j)) by {
                                    assert(key@.subrange(d, j).drop_first() =~= key@.subrange(d + 1, j));
                                    assert(key@.subrange(d, j)[0] == key@[d]);
                                }
                            }
                            node = child;
                            depth = depth + 1;
                        },
                        None => {
                            proof {
                                assert forall|j: int| d < j <= key@.len() implies !m.contains_key(
                                    #[trigger] key@.take(j),
                                ) by {
                                    assert(key@.subrange(d, j)[0] == key@[d]);
                                }
                            }
                            return (best_len, best);
                        },
                    }
                },
                Node::Radix { prefix, child } => {
                    let suffix = vstd::slice::slice_subrange(key, depth, key.len());
                    let common = crate::keys::common_prefix_len(suffix, prefix.as_slice());
                    proof {
                        crate::keys::lemma_lcp_props(suffix@, prefix@);
                        assert(suffix@ =~= key@.subrange(d, key@.len() as int));
                    }
                    if common == prefix.len() {
                        let ghost pl = prefix@.len() as int;
                        proof {
                            assert forall|j: int| d <= j < d + pl implies !m.contains_key(
                                #[trigger] key@.take(j),
                            ) by {
                                assert(!has_prefix(key@.subrange(d, j), prefix@));
                            }
                            assert forall|j: int| d + pl <= j <= key@.len() implies m.get(
                                #[trigger] key@.take(j),
                            ) == node_get(**child, key@.subrange(d + pl, j)) by {
                                assert(key@.subrange(d, j).subrange(0, pl) =~= prefix@);
                                assert(key@.subrange(d, j).skip(pl) =~= key@.subrange(d + pl, j));
                            }
                        }
                        node = child;
                        depth = depth + prefix.len();
                    } else {
                        proof {
                            assert forall|j: int| d <= j <= key@.len() implies !m.contains_key(
                                #[trigger] key@.take(j),
                            ) by {
                                if has_prefix(key@.subrange(d, j), prefix@) {
                                    let c = common as int;
                                    assert(key@.subrange(d, j).subrange(0, prefix@.len() as int)[c]
                                        == prefix@[c]);
                                    assert(suffix@[c] == key@.subrange(d, j)[c]);
                                }
                            }
                        }
                        return (best_len, best);
                    }
                },
                Node::Leaf(leaf) => {
                    let suffix = vstd::slice::slice_subrange(key, depth, key.len());
                    proof {
                        assert(suffix@ =~= key@.subrange(d, key@.len() as int));
                        assert forall|j: int| d <= j <= key@.len() implies #[trigger] key@.subrange(d, j)
                            == suffix@.take(j - d) by {
                            assert(key@.subrange(d, j) =~= suffix@.take(j - d));
                        }
                    }
                    match leaf_longest_match(leaf, suffix) {
                        Some(p) => {
                            proof {
                                let n = p.0 as int;
                                assert(m.get(key@.take(d + n)) == node_get(*node, key@.subrange(d, d + n)));
                                assert(key@.subrange(d, d + n) == suffix@.take(n));
                                assert forall|j: int| d + n < j <= key@.len() implies !m.contains_key(
                                    #[trigger] key@.take(j),
                                ) by {
                                    assert(key@.subrange(d, j) == suffix@.take(j - d));
                                }
                            }
                            return (depth + p.0, Some(p.1));
                        },
                        None => {
                            proof {
                                assert forall|j: int| d <= j <= key@.len() implies !m.contains_key(
                                    #[trigger] key@.take(j),
                                ) by {
                                    assert(key@.subrange(d, j) == suffix@.take(j - d));
                                }
                            }
                            return (best_len, best);
                        },
                    }
                },
            }
        }
    }
}


impl<V> HatTrie<V> {
    /// Every entry whose key is within Levenshtein distance `max_dist` of
    /// `key`, in ascending key order.
    pub fn fuzzy_search(&self, key: &[u8], max_dist: usize) -> (r: Vec<(Vec<u8>, &V)>)
        requires
            self.wf(),
            key@.len() < usize::MAX,
        ensures
            strictly_sorted(ekeys(r@)),
            pairs_map(ekeys(r@), evals(r@)) == self@.restrict(
                Set::new(|k: Seq<u8>| lev(k, key@) <= max_dist),
            ),
    {
        let searcher = FuzzySearcher::new(key, max_dist);
        let r = searcher.search(&self.root);
        proof {
            let c = close_map(self@, key@, max_dist as int);
            let e = self@.restrict(Set::new(|k: Seq<u8>| lev(k, key@) <= max_dist));
            assert forall|k: Seq<u8>| #[trigger] c.contains_key(k) == e.contains_key(k) by {
                if self@.contains_key(k) {
                    crate::fuzzy::lemma_within_exact(k, key@, max_dist as int);
                }
            }
            assert(c =~= e);
        }
        r
    }
}


impl<V> HatTrie<V> {
    /// The shape counts of the trie's nodes.
    pub closed spec fn shape(&self) -> ShapeCounts {
        node_counts(self.root)
    }

    /// Counts of branching and radix nodes and of leaves (sums saturate at
    /// the largest `usize`), the total number of entries stored, and the
    /// size of the largest leaf.
    pub fn stats(&self) -> (r: HatTrieStats)
        requires
            self.wf(),
        ensures
            r.internal_nodes == sat(self.shape().inner),
            r.leaf_nodes == sat(self.shape().leaves),
            r.total_items == self@.len(),
            r.max_bucket_size == self.shape().largest_leaf,
            self.root_is_leaf() ==> r.internal_nodes == 0 && r.leaf_nodes == 1,
    {
        let mut stats = HatTrieStats::default();
        self.root.collect_stats(&mut stats);
        proof {
            crate::node::lemma_counts_nonneg(self.root);
            self.lemma_wf();
            crate::node::lemma_entries_len(self.root);
        }
        stats
    }
}


/// The entries of a trie, taken out of it in key order. Like [`HatTrieIter`]
/// it keeps a stack of work, but the work owns the subtrees and entries it
/// stands for: a step takes a subtree apart, or hands out an entry.
pub struct HatTrieIntoIter<V> {
    stack: Vec<Owned<V>>,
}

impl<V> HatTrieIntoIter<V> {
    /// The entries still to come.
    pub closed spec fn rest_map(&self) -> Map<Seq<u8>, V> {
        owned_stack_map(self.stack@)
    }

    /// Keys still to come, in order.
    pub closed spec fn rest_keys(&self) -> Seq<Seq<u8>> {
        sorted_keys(owned_stack_map(self.stack@).dom())
    }

    /// Values still to come, in the order of their keys.
    pub closed spec fn rest_values(&self) -> Seq<V> {
        self.rest_keys().map_values(|k: Seq<u8>| owned_stack_map(self.stack@)[k])
    }

    pub closed spec fn wf(&self) -> bool {
        &&& owned_stack_ok(self.stack@)
        &&& owned_stack_map(self.stack@).len() <= usize::MAX
    }

    /// What the keys and values still to come are.
    pub proof fn lemma_rest(&self)
        requires
            self.wf(),
        ensures
            strictly_sorted(self.rest_keys()),
            self.rest_keys().len() == self.rest_values().len(),
            pairs_map(self.rest_keys(), self.rest_values()) == self.rest_map(),
            self.rest_keys().len() == self.rest_map().len(),
            self.rest_map().dom().finite(),
    {
        let m = owned_stack_map(self.stack@);
        let ks = self.rest_keys();
        let vs = self.rest_values();
        lemma_sorted_keys(m.dom());
        assert forall|k: Seq<u8>| #[trigger] pairs_map(ks, vs).contains_key(k) == m.contains_key(k) by {}
        assert forall|k: Seq<u8>| #[trigger] pairs_map(ks, vs).contains_key(k) implies pairs_map(ks, vs)[k] == m[k] by {
            let i = choose|i: int| 0 <= i < ks.len() && ks[i] == k;
            lemma_pairs_map_index(ks, vs, i);
        }
        assert(pairs_map(ks, vs) =~= m);
        crate::entries::lemma_pairs_map_len(ks, vs);
    }

    /// Hands out the next entry.
    pub fn next(&mut self) -> (r: Option<(Vec<u8>, V)>)
        requires
            old(self).wf(),
        ensures
            final(self).wf(),
            old(self).rest_keys().len() == old(self).rest_values().len(),
            match r {
                Some(kv) => old(self).rest_keys().len() > 0 && kv.0@ == old(self).rest_keys()[0]
                    && kv.1 == old(self).rest_values()[0] && final(self).rest_keys() == old(
                    self,
                ).rest_keys().drop_first() && final(self).rest_values() == old(
                    self,
                ).rest_values().drop_first(),
                None => old(self).rest_keys().len() == 0 && final(self).rest_keys() == old(
                    self,
                ).rest_keys() && final(self).rest_values() == old(self).rest_values(),
            },
    {
        let ghost m0 = owned_stack_map(self.stack@);
        proof {
            self.lemma_rest();
        }
        loop
            invariant
                owned_stack_ok(self.stack@),
                owned_stack_map(self.stack@) == m0,
                m0.len() <= usize::MAX,
                m0.dom().finite(),
                old(self).rest_keys() == sorted_keys(m0.dom()),
                old(self).rest_values() == sorted_keys(m0.dom()).map_values(|k: Seq<u8>| m0[k]),
            decreases owned_stack_size(self.stack@),
        {
            let ghost s = self.stack@;
            proof {
                lemma_owned_stack_size_nonneg(s);
            }
            match self.stack.pop() {
                None => {
                    proof {
                        assert(s.len() == 0);
                        assert(m0 =~= Map::<Seq<u8>, V>::empty());
                        lemma_sorted_keys(m0.dom());
                        if sorted_keys(m0.dom()).len() > 0 {
                            assert(sorted_keys(m0.dom()).contains(sorted_keys(m0.dom())[0]));
                        }
                    }
                    return None;
                },
                Some(Owned::Entry(k, v)) => {
                    proof {
                        let rest = self.stack@;
                        assert(rest =~= s.drop_last());
                        assert(s.last() == Owned::Entry(k, v));
                        lemma_owned_pop_ordered(s);
                        let mr = owned_stack_map(rest);
                        assert(m0 == mr.union_prefer_right(map![k@ => v]));
                        assert(!mr.contains_key(k@)) by {
                            if mr.contains_key(k@) {
                                assert(owned_map(s.last()).contains_key(k@));
                                lemma_lex_irreflexive(k@);
                            }
                        }
                        assert(mr =~= m0.remove(k@));
                        assert forall|y: Seq<u8>| m0.contains_key(y) && y != k@ implies lex_lt(k@, y) by {
                            assert(mr.contains_key(y));
                            assert(owned_map(s.last()).contains_key(k@));
                        }
                        lemma_sorted_keys_remove_least(m0.dom(), k@);
                        assert(m0.remove(k@).dom() =~= m0.dom().remove(k@));
                        vstd::set_lib::lemma_len_subset(mr.dom(), m0.dom());
                        assert forall|t: int| 0 <= t < rest.len() implies owned_ok(#[trigger] rest[t]) by {
                            assert(rest[t] == s[t]);
                        }
                        let nk = sorted_keys(mr.dom());
                        assert(nk == sorted_keys(m0.dom()).drop_first());
                        assert(nk.map_values(|q: Seq<u8>| mr[q]) =~= sorted_keys(m0.dom()).map_values(
                            |q: Seq<u8>| m0[q],
                        ).drop_first()) by {
                            lemma_sorted_keys(mr.dom());
                            assert forall|t: int| 0 <= t < nk.len() implies #[trigger] mr[nk[t]] == m0[nk[t]] by {
                                assert(nk.contains(nk[t]));
                            }
                        }
                        assert(m0[k@] == v);
                    }
                    return Some((k, v));
                },
                Some(Owned::Subtree(n, p)) => {
                    proof {
                        assert(s =~= self.stack@.push(Owned::Subtree(n, p)));
                    }
                    open_owned_subtree(&mut self.stack, n, p);
                    proof {
                        lemma_owned_stack_size_nonneg(self.stack@);
                    }
                },
            }
        }
    }
}

impl<V> HatTrie<V> {
    /// Takes every entry out of the trie, in ascending key order.
    pub fn into_iter(self) -> (r: HatTrieIntoIter<V>)
        requires
            self.wf(),
        ensures
            r.wf(),
            strictly_sorted(r.rest_keys()),
            r.rest_keys().len() == r.rest_values().len(),
            pairs_map(r.rest_keys(), r.rest_values()) == self@,
    {
        proof {
            self.lemma_wf();
        }
        let ghost m = self@;
        let mut stack: Vec<Owned<V>> = Vec::new();
        let path: Vec<u8> = Vec::new();
        proof {
            assert(path@ =~= Seq::<u8>::empty());
        }
        stack.push(Owned::Subtree(self.root, path));
        let r = HatTrieIntoIter { stack };
        proof {
            let s = r.stack@;
            assert(s.drop_last() =~= Seq::<Owned<V>>::empty());
            assert(owned_stack_map(s.drop_last()) == Map::<Seq<u8>, V>::empty());
            lemma_prefix_map_empty(m);
            assert(owned_stack_map(s) =~= m);
            assert(owned_stack_ordered(s));
            r.lemma_rest();
        }
        r
    }
}

/// A walk over the entries in key order that hands out each key in a buffer
/// of its own, reused from one entry to the next.
pub struct HatTrieStreamingIter<'a, V> {
    inner: HatTrieIter<'a, V>,
    key_buffer: Vec<u8>,
    current_value: Option<&'a V>,
}

/// The entry a streaming walk is at; it borrows the walk until the next step.
pub struct StreamItem<'iter, 'a, V> {
    iter: &'iter HatTrieStreamingIter<'a, V>,
}

impl<'iter, 'a, V> StreamItem<'iter, 'a, V> {
    /// The key of the entry.
    pub closed spec fn key_view(&self) -> Seq<u8> {
        self.iter.key_buffer@
    }

    /// An item is only made for an entry, which has a value.
    #[verifier::type_invariant]
    spec fn has_value(&self) -> bool {
        self.iter.current_value is Some
    }

    /// The value of the entry.
    pub closed spec fn value_view(&self) -> V {
        *self.iter.current_value->0
    }

    /// The key of the entry, as a slice of the walk's buffer.
    pub fn key(&self) -> (r: &'iter [u8])
        ensures
            r@ == self.key_view(),
    {
        self.iter.key_buffer.as_slice()
    }

    /// The value of the entry.
    pub fn value(&self) -> (r: &'a V)
        ensures
            *r == self.value_view(),
    {
        proof {
            use_type_invariant(self);
        }
        self.iter.current_value.unwrap()
    }
}

impl<'a, V> HatTrieStreamingIter<'a, V> {
    /// Keys still to come, in order.
    pub closed spec fn rest_keys(&self) -> Seq<Seq<u8>> {
        self.inner.rest_keys()
    }

    /// Values still to come, in the order of their keys.
    pub closed spec fn rest_values(&self) -> Seq<V> {
        self.inner.rest_values()
    }

    pub closed spec fn wf(&self) -> bool {
        self.inner.wf()
    }

    /// Moves to the next entry and hands it out.
    pub fn next(&mut self) -> (r: Option<StreamItem<'_, 'a, V>>)
        requires
            old(self).wf(),
        ensures
            final(self).wf(),
            old(self).rest_keys().len() == old(self).rest_values().len(),
            match r {
                Some(item) => old(self).rest_keys().len() > 0 && item.key_view()
                    == old(self).rest_keys()[0] && item.value_view() == old(self).rest_values()[0]
                    && final(self).rest_keys() == old(self).rest_keys().drop_first()
                    && final(self).rest_values() == old(self).rest_values().drop_first(),
                None => old(self).rest_keys().len() == 0 && final(self).rest_keys() == old(
                    self,
                ).rest_keys() && final(self).rest_values() == old(self).rest_values(),
            },
    {
        match self.inner.next_into(&mut self.key_buffer) {
            Some(v) => {
                self.current_value = Some(v);
                Some(StreamItem { iter: self })
            },
            None => None,
        }
    }
}

impl<V> HatTrie<V> {
    /// A streaming walk over every entry, in ascending key order.
    pub fn streaming_iter(&self) -> (r: HatTrieStreamingIter<'_, V>)
        requires
            self.wf(),
        ensures
            r.wf(),
            strictly_sorted(r.rest_keys()),
            r.rest_keys().len() == r.rest_values().len(),
            pairs_map(r.rest_keys(), r.rest_values()) == self@,
    {
        HatTrieStreamingIter { inner: self.iter(), key_buffer: Vec::new(), current_value: None }
    }
}


/// A key in two parts: the path through the trie's branching and radix
/// nodes, and the rest, held where the walk ends (in a leaf, or empty).
#[derive(Debug, PartialEq, Eq)]
pub struct KeySegments<'a> {
    pub path: &'a [u8],
    pub suffix: &'a [u8],
}

/// A walk over the entries in key order that hands out each key split into
/// its trie path and its rest.
pub struct SegmentIter<'a, V> {
    root: &'a Node<V>,
    inner: HatTrieIter<'a, V>,
    key_buffer: Vec<u8>,
    prefix_buffer: Vec<u8>,
    suffix_buffer: Vec<u8>,
    current_value: Option<&'a V>,
}

/// The entry a segment walk is at; it borrows the walk until the next step.
pub struct SegmentItem<'iter, 'a, V> {
    iter: &'iter SegmentIter<'a, V>,
}

impl<'iter, 'a, V> SegmentItem<'iter, 'a, V> {
    /// An item is only made for an entry, which has a value.
    #[verifier::type_invariant]
    spec fn has_value(&self) -> bool {
        self.iter.current_value is Some
    }

    /// The trie path of the entry's key.
    pub closed spec fn path_view(&self) -> Seq<u8> {
        self.iter.prefix_buffer@
    }

    /// The rest of the entry's key.
    pub closed spec fn suffix_view(&self) -> Seq<u8> {
        self.iter.suffix_buffer@
    }

    /// The value of the entry.
    pub closed spec fn value_view(&self) -> V {
        *self.iter.current_value->0
    }

    /// The two parts of the entry's key.
    pub fn segments(&self) -> (r: KeySegments<'_>)
        ensures
            r.path@ == self.path_view(),
            r.suffix@ == self.suffix_view(),
    {
        KeySegments {
            path: self.iter.prefix_buffer.as_slice(),
            suffix: self.iter.suffix_buffer.as_slice(),
        }
    }

    /// The value of the entry.
    pub fn value(&self) -> (r: &'a V)
        ensures
            *r == self.value_view(),
    {
        proof {
            use_type_invariant(self);
        }
        self.iter.current_value.unwrap()
    }
}

impl<'a, V> SegmentIter<'a, V> {
    /// Keys still to come, in order.
    pub closed spec fn rest_keys(&self) -> Seq<Seq<u8>> {
        self.inner.rest_keys()
    }

    /// Values still to come, in the order of their keys.
    pub closed spec fn rest_values(&self) -> Seq<V> {
        self.inner.rest_values()
    }

    /// The length of the trie path of `k`.
    pub closed spec fn split_of(&self, k: Seq<u8>) -> nat {
        path_len(*self.root, k)
    }

    pub closed spec fn wf(&self) -> bool {
        self.root.wf() && self.inner.wf()
    }

    /// Moves to the next entry and hands it out.
    pub fn next(&mut self) -> (r: Option<SegmentItem<'_, 'a, V>>)
        requires
            old(self).wf(),
        ensures
            final(self).wf(),
            forall|k: Seq<u8>| #[trigger] final(self).split_of(k) == old(self).split_of(k),
            old(self).rest_keys().len() == old(self).rest_values().len(),
            match r {
                Some(item) => old(self).rest_keys().len() > 0 && item.path_view()
                    + item.suffix_view() == old(self).rest_keys()[0] && item.path_view().len()
                    == old(self).split_of(old(self).rest_keys()[0]) && item.value_view() == old(
                    self,
                ).rest_values()[0] && final(self).rest_keys() == old(self).rest_keys().drop_first()
                    && final(self).rest_values() == old(self).rest_values().drop_first(),
                None => old(self).rest_keys().len() == 0 && final(self).rest_keys() == old(
                    self,
                ).rest_keys() && final(self).rest_values() == old(self).rest_values(),
            },
    {
        match self.inner.next_into(&mut self.key_buffer) {
            Some(v) => {
                let key = self.key_buffer.as_slice();
                let d = self.root.path_len_of(key);
                self.prefix_buffer.clear();
                crate::walk::append_bytes(&mut self.prefix_buffer, vstd::slice::slice_subrange(key, 0, d));
                self.suffix_buffer.clear();
                crate::walk::append_bytes(
                    &mut self.suffix_buffer,
                    vstd::slice::slice_subrange(key, d, key.len()),
                );
                self.current_value = Some(v);
                proof {
                    assert(self.prefix_buffer@ + self.suffix_buffer@ =~= self.key_buffer@);
                }
                Some(SegmentItem { iter: self })
            },
            None => None,
        }
    }
}

impl<V> HatTrie<V> {
    /// A segment walk over every entry, in ascending key order.
    pub fn iter_segments(&self) -> (r: SegmentIter<'_, V>)
        requires
            self.wf(),
        ensures
            r.wf(),
            strictly_sorted(r.rest_keys()),
            r.rest_keys().len() == r.rest_values().len(),
            pairs_map(r.rest_keys(), r.rest_values()) == self@,
            forall|k: Seq<u8>| #[trigger] r.split_of(k) == self.path_of(k),
    {
        SegmentIter {
            root: &self.root,
            inner: self.iter(),
            key_buffer: Vec::new(),
            prefix_buffer: Vec::new(),
            suffix_buffer: Vec::new(),
            current_value: None,
        }
    }

    /// The length of the trie path of `k`: the bytes taken up by branching
    /// and radix nodes on the way to where `k` is held.
    pub closed spec fn path_of(&self, k: Seq<u8>) -> nat {
        path_len(self.root, k)
    }
}


impl<V: PartialEq> HatTrie<V> {
    /// Whether two tries hold the same keys with equal values, whatever
    /// their thresholds and shapes.
    pub fn eq(&self, other: &Self) -> (r: bool)
        requires
            self.wf(),
            other.wf(),
        ensures
            V::obeys_eq_spec() ==> (r <==> (self@.dom() == other@.dom() && forall|k: Seq<u8>|
                #[trigger] self@.contains_key(k) ==> self@[k].eq_spec(&other@[k]))),
    {
        if self.len() != other.len() {
            return false;
        }
        // walk both in key order, side by side
        let mut wa = self.iter();
        let mut wb = other.iter();
        let ghost ka = wa.rest_keys();
        let ghost va = wa.rest_values();
        let ghost kb = wb.rest_keys();
        let ghost vb = wb.rest_values();
        let ghost mut i: int = 0;
        proof {
            self.lemma_wf();
            other.lemma_wf();
            crate::entries::lemma_pairs_map_len(ka, va);
            crate::entries::lemma_pairs_map_len(kb, vb);
            assert(ka.skip(0) =~= ka);
            assert(va.skip(0) =~= va);
            assert(kb.skip(0) =~= kb);
            assert(vb.skip(0) =~= vb);
        }
        loop
            invariant
                wa.wf(),
                wb.wf(),
                strictly_sorted(ka),
                strictly_sorted(kb),
                ka.len() == va.len(),
                kb.len() == vb.len(),
                pairs_map(ka, va) == self@,
                pairs_map(kb, vb) == other@,
                ka.len() == kb.len(),
                0 <= i <= ka.len(),
                wa.rest_keys() == ka.skip(i),
                wa.rest_values() == va.skip(i),
                wb.rest_keys() == kb.skip(i),
                wb.rest_values() == vb.skip(i),
                forall|j: int| 0 <= j < i ==> #[trigger] ka[j] == kb[j],
                V::obeys_eq_spec() ==> forall|j: int| 0 <= j < i ==> (#[trigger] va[j]).eq_spec(&vb[j]),
            ensures
                i == ka.len(),
            decreases ka.len() - i,
        {
            let x = wa.next();
            let y = wb.next();
            match x {
                None => {
                    break;
                },
                Some(ea) => {
                    let eb = match y {
                        Some(eb) => eb,
                        None => {
                            proof {
                                assert(false);
                            }
                            return false;
                        },
                    };
                    proof {
                        assert(ea.0@ == ka[i]);
                        assert(eb.0@ == kb[i]);
                        assert(*ea.1 == va[i]);
                        assert(*eb.1 == vb[i]);
                    }
                    match crate::keys::compare_keys(ea.0.as_slice(), eb.0.as_slice()) {
                        crate::keys::KeyOrder::Equal => {},
                        _ => {
                            proof {
                                // the key lists differ, so the key sets do
                                if self@.dom() == other@.dom() {
                                    assert forall|k: Seq<u8>| ka.contains(k) <==> kb.contains(k) by {
                                        assert(self@.contains_key(k) == ka.contains(k));
                                        assert(other@.contains_key(k) == kb.contains(k));
                                    }
                                    crate::entries::lemma_sorted_same_elements(ka, kb);
                                }
                            }
                            return false;
                        },
                    }
                    if !ea.1.eq(eb.1) {
                        proof {
                            if V::obeys_eq_spec() && self@.dom() == other@.dom() {
                                let k = ka[i];
                                lemma_pairs_map_index(ka, va, i);
                                lemma_pairs_map_index(kb, vb, i);
                                assert(self@.contains_key(k));
                                assert(!self@[k].eq_spec(&other@[k]));
                            }
                        }
                        return false;
                    }
                    proof {
                        assert(ka.skip(i).drop_first() =~= ka.skip(i + 1));
                        assert(va.skip(i).drop_first() =~= va.skip(i + 1));
                        assert(kb.skip(i).drop_first() =~= kb.skip(i + 1));
                        assert(vb.skip(i).drop_first() =~= vb.skip(i + 1));
                        i = i + 1;
                    }
                },
            }
        }
        proof {
            assert(i == ka.len());
            assert(ka =~= kb);
            assert(self@.dom() =~= other@.dom()) by {
                assert forall|k: Seq<u8>| self@.contains_key(k) == other@.contains_key(k) by {}
            }
            if V::obeys_eq_spec() {
                assert forall|k: Seq<u8>| #[trigger] self@.contains_key(k) implies self@[k].eq_spec(&other@[k]) by {
                    let j = choose|j: int| 0 <= j < ka.len() && ka[j] == k;
                    lemma_pairs_map_index(ka, va, j);
                    lemma_pairs_map_index(kb, vb, j);
                }
            }
        }
        true
    }
}


/// The bytes of a string, as a key.
pub open spec fn str_key(s: String) -> Seq<u8> {
    vstd::utf8::encode_utf8(s@)
}

/// `m` after inserting each of `items` in turn.
pub open spec fn inserted_all<V>(m: Map<Seq<u8>, V>, items: Seq<(String, V)>) -> Map<Seq<u8>, V>
    decreases items.len(),
{
    if items.len() == 0 {
        m
    } else {
        inserted_all(m, items.drop_last()).insert(str_key(items.last().0), items.last().1)
    }
}

proof fn lemma_inserted_all_len<V>(m: Map<Seq<u8>, V>, items: Seq<(String, V)>)
    requires
        m.dom().finite(),
    ensures
        inserted_all(m, items).dom().finite(),
        inserted_all(m, items).len() <= m.len() + items.len(),
    decreases items.len(),
{
    if items.len() > 0 {
        lemma_inserted_all_len(m, items.drop_last());
    }
}

/// The map after inserting each byte-string keyed pair of `items` in turn.
pub open spec fn inserted_entries<V>(m: Map<Seq<u8>, V>, items: Seq<(Vec<u8>, V)>) -> Map<Seq<u8>, V>
    decreases items.len(),
{
    if items.len() == 0 {
        m
    } else {
        inserted_entries(m, items.drop_last()).insert(items.last().0@, items.last().1)
    }
}

proof fn lemma_inserted_entries_len<V>(m: Map<Seq<u8>, V>, items: Seq<(Vec<u8>, V)>)
    requires
        m.dom().finite(),
    ensures
        inserted_entries(m, items).dom().finite(),
        inserted_entries(m, items).len() <= m.len() + items.len(),
    decreases items.len(),
{
    if items.len() > 0 {
        lemma_inserted_entries_len(m, items.drop_last());
    }
}

impl<V> HatTrie<V> {
    /// Inserts each `(key, value)` pair in turn; a later pair wins over an
    /// earlier one with the same key.
    pub fn extend(&mut self, items: Vec<(String, V)>)
        requires
            old(self).wf(),
            old(self)@.len() + items@.len() < usize::MAX,
        ensures
            final(self).wf(),
            final(self)@ == inserted_all(old(self)@, items@),
            final(self).threshold() == old(self).threshold(),
    {
        let ghost m0 = self@;
        let ghost all = items@;
        // reverse, so that popping yields the items in order
        let mut items = items;
        let mut pending: Vec<(String, V)> = Vec::new();
        while items.len() > 0
            invariant
                items@ + pending@.reverse() == all,
            decreases items@.len(),
        {
            let e = items.pop().unwrap();
            proof {
                assert(pending@.push(e).reverse() =~= seq![e] + pending@.reverse());
            }
            pending.push(e);
            proof {
                assert(items@ + pending@.reverse() =~= all);
            }
        }
        proof {
            assert(items@ + pending@.reverse() =~= pending@.reverse());
            assert(all.take(0) =~= Seq::<(String, V)>::empty());
        }
        let ghost mut done: int = 0;
        while pending.len() > 0
            invariant
                self.wf(),
                self.threshold() == old(self).threshold(),
                m0 == old(self)@,
                m0.dom().finite(),
                m0.len() + all.len() < usize::MAX,
                0 <= done <= all.len(),
                pending@.reverse() == all.skip(done),
                self@ == inserted_all(m0, all.take(done)),
            decreases pending@.len(),
        {
            let ghost before = pending@;
            let (k, v) = pending.pop().unwrap();
            proof {
                assert(before =~= pending@.push((k, v)));
                assert(before.reverse() =~= seq![(k, v)] + pending@.reverse());
                assert(all.skip(done)[0] == (k, v));
                lemma_inserted_all_len(m0, all.take(done));
                assert(all.take(done + 1).drop_last() =~= all.take(done));
                assert(all.take(done + 1).last() == (k, v));
                assert(pending@.reverse() =~= before.reverse().drop_first());
                assert(all.skip(done).drop_first() =~= all.skip(done + 1));
            }
            self.insert(k.as_str().as_bytes(), v);
            proof {
                assert(pending@.reverse() =~= all.skip(done + 1));
                done = done + 1;
            }
        }
        proof {
            assert(all.take(done) =~= all);
        }
    }

    /// A trie with burst threshold `threshold` holding the byte-string keyed
    /// `(key, value)` pairs, inserted in turn; a later pair wins over an
    /// earlier one with the same key.
    pub fn from_entries(entries: Vec<(Vec<u8>, V)>, threshold: usize) -> (r: Self)
        requires
            entries@.len() < usize::MAX,
        ensures
            r.wf(),
            r@ == inserted_entries(Map::empty(), entries@),
            r.threshold() == threshold,
    {
        let mut trie = HatTrie::with_threshold(threshold);
        let ghost all = entries@;
        let mut items = entries;
        let mut pending: Vec<(Vec<u8>, V)> = Vec::new();
        while items.len() > 0
            invariant
                items@ + pending@.reverse() == all,
            decreases items@.len(),
        {
            let e = items.pop().unwrap();
            proof {
                assert(pending@.push(e).reverse() =~= seq![e] + pending@.reverse());
            }
            pending.push(e);
            proof {
                assert(items@ + pending@.reverse() =~= all);
            }
        }
        proof {
            assert(items@ + pending@.reverse() =~= pending@.reverse());
            assert(all.take(0) =~= Seq::<(Vec<u8>, V)>::empty());
            assert(trie@.dom() =~= Set::<Seq<u8>>::empty());
        }
        let ghost mut done: int = 0;
        while pending.len() > 0
            invariant
                trie.wf(),
                trie.threshold() == threshold,
                all.len() < usize::MAX,
                0 <= done <= all.len(),
                pending@.reverse() == all.skip(done),
                trie@ == inserted_entries(Map::empty(), all.take(done)),
            decreases pending@.len(),
        {
            let ghost before = pending@;
            let (k, v) = pending.pop().unwrap();
            proof {
                assert(before =~= pending@.push((k, v)));
                assert(before.reverse() =~= seq![(k, v)] + pending@.reverse());
                assert(all.skip(done)[0] == (k, v));
                lemma_inserted_entries_len(Map::empty(), all.take(done));
                assert(all.take(done + 1).drop_last() =~= all.take(done));
                assert(all.take(done + 1).last() == (k, v));
                assert(pending@.reverse() =~= before.reverse().drop_first());
                assert(all.skip(done).drop_first() =~= all.skip(done + 1));
            }
            trie.insert(k.as_slice(), v);
            proof {
                assert(pending@.reverse() =~= all.skip(done + 1));
                done = done + 1;
            }
        }
        proof {
            assert(all.take(done) =~= all);
        }
        trie
    }

    /// A trie with the default threshold holding the `(key, value)` pairs;
    /// a later pair wins over an earlier one with the same key.
    pub fn from_iter(items: Vec<(String, V)>) -> (r: Self)
        requires
            items@.len() < usize::MAX,
        ensures
            r.wf(),
            r@ == inserted_all(Map::empty(), items@),
            r.threshold() == DEFAULT_BURST_THRESHOLD,
    {
        let mut trie = HatTrie::new();
        proof {
            assert(trie@.len() == 0) by {
                assert(trie@.dom() =~= Set::<Seq<u8>>::empty());
            }
        }
        trie.extend(items);
        trie
    }

    /// The value under the bytes of `key`, which must be present.
    pub fn index(&self, key: &str) -> (r: &V)
        requires
            self.wf(),
            self@.contains_key(key.spec_bytes()),
        ensures
            *r == self@[key.spec_bytes()],
    {
        self.get(key.as_bytes()).unwrap()
    }
}

} // verus!
