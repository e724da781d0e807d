//! The trie itself: branching nodes with 256 children, radix nodes that
//! collapse a shared prefix, and hash-table leaves that burst into
//! branching nodes when they grow past a threshold.
use vstd::prelude::*;
use vstd::slice::{slice_subrange, slice_to_vec};

use crate::bucket::MAX_BUCKET_KEY_LEN;
use crate::keys::{common_prefix_len, has_prefix, lemma_lcp_props, starts_with};
use crate::entries::{lemma_pairs_map_index_nodup, lemma_pairs_map_skip, pairs_map};
use crate::fuzzy::sat;
use crate::leaf::{pair_keys, pair_vals, ArrayHash};
use crate::HatTrieStats;

verus! {

#[derive(Debug)]
pub enum Node<V> {
    /// Branches on the next byte; `value` belongs to the key ending here.
    Internal { children: Vec<Option<Node<V>>>, value: Option<V> },
    /// Every key below starts with `prefix`, which is never empty.
    Radix { prefix: Vec<u8>, child: Box<Node<V>> },
    /// A hash table of the remaining key suffixes.
    Leaf(ArrayHash<V>),
}

/// The value stored under `k` in the subtree `n`.
pub open spec fn node_get<V>(n: Node<V>, k: Seq<u8>) -> Option<V>
    decreases n,
{
    match n {
        Node::Internal { children, value } => {
            if k.len() == 0 {
                value
            } else if (k[0] as int) < children@.len() {
                match children@[k[0] as int] {
                    Some(c) => {
                        proof {
                            assert(decreases_to!(children => children@));
                        }
                        node_get(c, k.drop_first())
                    },
                    None => None,
                }
            } else {
                None
            }
        },
        Node::Radix { prefix, child } => {
            if has_prefix(k, prefix@) {
                node_get(*child, k.skip(prefix@.len() as int))
            } else {
                None
            }
        },
        Node::Leaf(l) => l@.get(k),
    }
}

/// The map a subtree holds.
pub open spec fn node_view<V>(n: Node<V>) -> Map<Seq<u8>, V> {
    Map::new(|k: Seq<u8>| node_get(n, k) is Some, |k: Seq<u8>| node_get(n, k)->0)
}

/// Structural well-formedness of a subtree.
pub open spec fn node_wf<V>(n: Node<V>) -> bool
    decreases n,
{
    match n {
        Node::Internal { children, value } => {
            &&& children@.len() == 256
            &&& forall|i: int|
                0 <= i < 256 ==> match #[trigger] children@[i] {
                    Some(c) => {
                        proof {
                            assert(decreases_to!(children => children@));
                        }
                        node_wf(c)
                    },
                    None => true,
                }
        },
        Node::Radix { prefix, child } => prefix@.len() > 0 && node_wf(*child),
        Node::Leaf(l) => l.wf(),
    }
}

/// All keys of `n` are at most `bound` bytes long.
pub open spec fn keys_bounded<V>(n: Node<V>, bound: int) -> bool {
    forall|k: Seq<u8>| #[trigger] node_get(n, k) is Some ==> k.len() <= bound
}

/// Every leaf of the subtree takes at most `t` bytes: a leaf that grows
/// past the burst threshold is burst.
pub open spec fn leaves_fit<V>(n: Node<V>, t: int) -> bool
    decreases n,
{
    match n {
        Node::Internal { children, .. } => forall|i: int|
            0 <= i < children@.len() ==> match #[trigger] children@[i] {
                Some(c) => {
                    proof {
                        assert(decreases_to!(children => children@));
                    }
                    leaves_fit(c, t)
                },
                None => true,
            },
        Node::Radix { child, .. } => leaves_fit(*child, t),
        Node::Leaf(l) => l.spec_size() <= t,
    }
}

/// Two subtrees of the same shape whose leaves take the same room.
pub open spec fn same_leaves<V>(a: Node<V>, b: Node<V>) -> bool
    decreases a,
{
    match (a, b) {
        (Node::Internal { children: ca, .. }, Node::Internal { children: cb, .. }) => {
            &&& ca@.len() == cb@.len()
            &&& forall|i: int|
                0 <= i < ca@.len() ==> match (#[trigger] ca@[i], cb@[i]) {
                    (Some(x), Some(y)) => {
                        proof {
                            assert(decreases_to!(ca => ca@));
                        }
                        same_leaves(x, y)
                    },
                    (None, None) => true,
                    _ => false,
                }
        },
        (Node::Radix { child: x, .. }, Node::Radix { child: y, .. }) => same_leaves(*x, *y),
        (Node::Leaf(x), Node::Leaf(y)) => x.spec_size() == y.spec_size(),
        _ => false,
    }
}

/// A subtree has the same leaves as itself.
pub proof fn lemma_same_leaves_refl<V>(a: Node<V>)
    ensures
        same_leaves(a, a),
    decreases a,
{
    match a {
        Node::Internal { children, .. } => {
            assert forall|i: int| 0 <= i < children@.len() implies match (#[trigger] children@[i], children@[i]) {
                (Some(x), Some(y)) => same_leaves(x, y),
                (None, None) => true,
                _ => false,
            } by {
                match children@[i] {
                    Some(x) => {
                        assert(decreases_to!(children => children@));
                        lemma_same_leaves_refl(x);
                    },
                    None => {},
                }
            }
        },
        Node::Radix { child, .. } => {
            lemma_same_leaves_refl(*child);
        },
        Node::Leaf(_) => {},
    }
}

/// Subtrees whose leaves take the same room fit the same bounds.
pub proof fn lemma_same_leaves_fit<V>(a: Node<V>, b: Node<V>, t: int)
    requires
        same_leaves(a, b),
        leaves_fit(a, t),
    ensures
        leaves_fit(b, t),
    decreases a,
{
    match (a, b) {
        (Node::Internal { children: ca, .. }, Node::Internal { children: cb, .. }) => {
            assert forall|i: int| 0 <= i < cb@.len() implies match #[trigger] cb@[i] {
                Some(y) => leaves_fit(y, t),
                None => true,
            } by {
                assert(match (ca@[i], cb@[i]) {
                    (Some(x), Some(y)) => same_leaves(x, y),
                    (None, None) => true,
                    _ => false,
                });
                assert(match ca@[i] {
                    Some(x) => leaves_fit(x, t),
                    None => true,
                });
                match (ca@[i], cb@[i]) {
                    (Some(x), Some(y)) => {
                        assert(decreases_to!(ca => ca@));
                        lemma_same_leaves_fit(x, y, t);
                    },
                    _ => {},
                }
            }
        },
        (Node::Radix { child: x, .. }, Node::Radix { child: y, .. }) => {
            lemma_same_leaves_fit(*x, *y, t);
        },
        _ => {},
    }
}

/// The burst rule for a leaf `l` that takes in `key`: the table with the key
/// added (same hasher, its bucket count doubled when it held more than
/// eight entries per bucket) stays as the leaf `r` when it takes at most
/// `t` bytes, and is burst into a branching subtree otherwise.
pub open spec fn grown_leaf_rule<V>(l: ArrayHash<V>, key: Seq<u8>, val: V, t: int, r: Node<V>) -> bool {
    exists|g: ArrayHash<V>|
        #![trigger g.spec_size()]
        {
            &&& g.wf()
            &&& g@ == l@.insert(key, val)
            &&& g.same_hasher(l)
            &&& g.bucket_count() == if l@.len() > l.bucket_count() * 8 {
                2 * l.bucket_count()
            } else {
                l.bucket_count()
            }
            &&& g.spec_size() <= t ==> r == Node::Leaf(g)
            &&& g.spec_size() > t ==> r !is Leaf
        }
}

/// Used to order the recursion of `insert` and `burst`.
pub open spec fn node_rank<V>(n: Node<V>) -> int {
    match n {
        Node::Internal { .. } => 0,
        Node::Radix { .. } => 1,
        Node::Leaf(_) => 2,
    }
}

pub proof fn lemma_view_get<V>(n: Node<V>, k: Seq<u8>)
    ensures
        node_view(n).get(k) == node_get(n, k),
        node_view(n).contains_key(k) == node_get(n, k) is Some,
{
}

/// Two subtrees that agree on every key hold the same map.
pub proof fn lemma_view_ext<V>(a: Node<V>, m: Map<Seq<u8>, V>)
    requires
        forall|k: Seq<u8>| #[trigger] node_get(a, k) == m.get(k),
    ensures
        node_view(a) == m,
{
    assert forall|k: Seq<u8>| #[trigger] node_view(a).contains_key(k) == m.contains_key(k) by {
        assert(node_get(a, k) == m.get(k));
    }
    assert forall|k: Seq<u8>| #[trigger] node_view(a).contains_key(k) implies node_view(a)[k]
        == m[k] by {
        assert(node_get(a, k) == m.get(k));
    }
    assert(node_view(a) =~= m);
}

/// A subtree reached through prefix `p` holds no more keys than its parent.
pub proof fn lemma_sub_view<V>(parent: Map<Seq<u8>, V>, child: Map<Seq<u8>, V>, p: Seq<u8>)
    requires
        parent.dom().finite(),
        forall|k: Seq<u8>| #[trigger] child.contains_key(k) ==> parent.contains_key(p + k),
    ensures
        child.dom().finite(),
        child.len() <= parent.len(),
{
    let x = parent.dom().filter(
        |k: Seq<u8>| has_prefix(k, p) && child.contains_key(k.skip(p.len() as int)),
    );
    let f = |k: Seq<u8>| k.skip(p.len() as int);
    assert(x.subset_of(parent.dom()));
    vstd::set_lib::lemma_len_subset(x, parent.dom());
    assert forall|c: Seq<u8>| #[trigger] x.map(f).contains(c) == child.contains_key(c) by {
        if child.contains_key(c) {
            assert((p + c).skip(p.len() as int) =~= c);
            assert((p + c).subrange(0, p.len() as int) =~= p);
            assert(x.contains(p + c));
            assert(f(p + c) == c);
        }
    }
    assert(x.map(f) =~= child.dom());
    vstd::set_lib::lemma_map_size_bound(x, child.dom(), f);
}

/// Replacing the child on the first byte of `key` by one that differs from
/// it only at the rest of `key` changes the branching node only at `key`.
proof fn lemma_replace_child<V>(n: Node<V>, key: Seq<u8>)
    requires
        n is Internal,
        n->children@.len() == 256,
        key.len() > 0,
        n->children@[key[0] as int] is Some,
    ensures
        forall|n2: Node<V>, k: Seq<u8>|
            #![trigger node_get(n2, k)]
            n2 is Internal && n2->value == n->value && n2->children@.len() == 256 && (forall|i: int|
                0 <= i < 256 && i != key[0] ==> n2->children@[i] == n->children@[i])
                && n2->children@[key[0] as int] is Some && (forall|k2: Seq<u8>|
                k2 != key.drop_first() ==> node_get(n2->children@[key[0] as int]->0, k2) == node_get(
                    n->children@[key[0] as int]->0,
                    k2,
                )) && k != key ==> node_get(n2, k) == node_get(n, k),
{
    assert forall|n2: Node<V>, k: Seq<u8>|
        n2 is Internal && n2->value == n->value && n2->children@.len() == 256 && (forall|i: int|
            0 <= i < 256 && i != key[0] ==> n2->children@[i] == n->children@[i])
            && n2->children@[key[0] as int] is Some && (forall|k2: Seq<u8>|
            k2 != key.drop_first() ==> node_get(n2->children@[key[0] as int]->0, k2) == node_get(
                n->children@[key[0] as int]->0,
                k2,
            )) && k != key implies #[trigger] node_get(n2, k) == node_get(n, k) by {
        if k.len() > 0 {
            if k[0] == key[0] {
                if k.drop_first() == key.drop_first() {
                    assert forall|i: int| 0 < i < k.len() implies k[i] == key[i] by {
                        assert(k[i] == k.drop_first()[i - 1]);
                        assert(key[i] == key.drop_first()[i - 1]);
                    }
                    assert(k =~= key);
                }
                assert(node_get(n2->children@[key[0] as int]->0, k.drop_first()) == node_get(
                    n->children@[key[0] as int]->0,
                    k.drop_first(),
                ));
            } else {
                assert(n2->children@[k[0] as int] == n->children@[k[0] as int]);
            }
        }
    }
}

/// Replacing the child of a radix node by one that differs from it only at
/// the rest of `key` changes the radix node only at `key`.
proof fn lemma_replace_radix_child<V>(n: Node<V>, key: Seq<u8>)
    requires
        n is Radix,
        has_prefix(key, n->prefix@),
    ensures
        forall|n2: Node<V>, k: Seq<u8>|
            #![trigger node_get(n2, k)]
            n2 is Radix && n2->prefix@ == n->prefix@ && (forall|k2: Seq<u8>|
                k2 != key.skip(n->prefix@.len() as int) ==> node_get(*n2->child, k2) == node_get(
                    *n->child,
                    k2,
                )) && k != key ==> node_get(n2, k) == node_get(n, k),
{
    let p = n->prefix@;
    assert forall|n2: Node<V>, k: Seq<u8>|
        n2 is Radix && n2->prefix@ == p && (forall|k2: Seq<u8>|
            k2 != key.skip(p.len() as int) ==> node_get(*n2->child, k2) == node_get(*n->child, k2))
            && k != key implies #[trigger] node_get(n2, k) == node_get(n, k) by {
        if has_prefix(k, p) {
            if k.skip(p.len() as int) == key.skip(p.len() as int) {
                assert(k =~= k.subrange(0, p.len() as int) + k.skip(p.len() as int));
                assert(key =~= key.subrange(0, p.len() as int) + key.skip(p.len() as int));
            }
            assert(node_get(*n2->child, k.skip(p.len() as int)) == node_get(*n->child, k.skip(p.len() as int)));
        }
    }
}

impl<V> Node<V> {
    pub open spec fn view(&self) -> Map<Seq<u8>, V> {
        node_view(*self)
    }

    pub open spec fn wf(&self) -> bool {
        node_wf(*self)
    }

    pub fn is_empty_leaf(&self) -> (r: bool)
        requires
            self.wf(),
        ensures
            r == (self is Leaf && self@.len() == 0),
            r ==> self@ == Map::<Seq<u8>, V>::empty(),
    {
        match self {
            Node::Leaf(b) => {
                let r = b.is_empty();
                proof {
                    b.lemma_wf();
                    if r {
                        assert(b@.dom() =~= Set::<Seq<u8>>::empty()) by {
                            vstd::set_lib::lemma_set_empty_equivalency_len(b@.dom());
                        }
                    }
                    assert(b@ =~= self@) by {
                        assert forall|k: Seq<u8>| #[trigger] self@.contains_key(k) == b@.contains_key(k) by {}
                    }
                }
                r
            },
            _ => false,
        }
    }

    pub fn get(&self, key: &[u8]) -> (r: Option<&V>)
        requires
            self.wf(),
        ensures
            match r {
                Some(v) => node_get(*self, key@) == Some(*v),
                None => node_get(*self, key@) is None,
            },
        decreases self,
    {
        match self {
            Node::Internal { children, value } => {
                if key.len() == 0 {
                    return value.as_ref();
                }
                let idx = key[0] as usize;
                match &children[idx] {
                    Some(child) => {
                        let rest = slice_subrange(key, 1, key.len());
                        proof {
                            assert(rest@ =~= key@.drop_first());
                            assert(decreases_to!(children => children@));
                        }
                        child.get(rest)
                    },
                    None => None,
                }
            },
            Node::Radix { prefix, child } => {
                if starts_with(key, prefix.as_slice()) {
                    let rest = slice_subrange(key, prefix.len(), key.len());
                    proof {
                        assert(rest@ =~= key@.skip(prefix@.len() as int));
                    }
                    child.get(rest)
                } else {
                    None
                }
            },
            Node::Leaf(leaf) => leaf.get(key),
        }
    }

    /// A mutable reference to the value under `key`; what is written
    /// through it becomes the value of `key`, and nothing else changes.
    pub fn get_mut(&mut self, key: &[u8]) -> (r: Option<&mut V>)
        requires
            old(self).wf(),
        ensures
            final(self).wf(),
            r.is_some() == (node_get(*old(self), key@) is Some),
            r.is_some() ==> Some(*r.unwrap()) == node_get(*old(self), key@),
            node_get(*final(self), key@) == if r.is_some() {
                Some(*final(r.unwrap()))
            } else {
                None
            },
            forall|k: Seq<u8>|
                #![trigger node_get(*final(self), k)]
                k != key@ ==> node_get(*final(self), k) == node_get(*old(self), k),
            node_rank(*final(self)) == node_rank(*old(self)),
            same_leaves(*old(self), *final(self)),
        decreases *old(self),
    {
        proof {
            assert forall|k: Seq<u8>| #[trigger] k.len() == 0 && key@.len() == 0 implies k == key@ by {
                assert(k =~= key@);
            }
        }
        proof {
            lemma_same_leaves_refl(*old(self));
        }
        let missing = match &*self {
            Node::Internal { children, .. } => key.len() > 0 && children[key[0] as usize].is_none(),
            _ => false,
        };
        if missing {
            return None;
        }
        match self {
            Node::Internal { children, value } => {
                if key.len() == 0 {
                    return value.as_mut();
                }
                let idx = key[0] as usize;
                let rest = slice_subrange(key, 1, key.len());
                proof {
                    assert(rest@ =~= key@.drop_first());
                    assert(decreases_to!(*old(self) => children@));
                    assert forall|k: Seq<u8>|
                        k.len() > 0 && k[0] == key@[0] && #[trigger] k.drop_first() == rest@ implies k == key@ by {
                        assert forall|i: int| 0 < i < k.len() implies k[i] == key@[i] by {
                            assert(k[i] == k.drop_first()[i - 1]);
                            assert(key@[i] == key@.drop_first()[i - 1]);
                        }
                        assert(k =~= key@);
                    }
                }
                proof {
                    lemma_replace_child(*old(self), key@);
                }
                let child = children[idx].as_mut().unwrap();
                child.get_mut(rest)
            },
            Node::Radix { prefix, child } => {
                if starts_with(key, prefix.as_slice()) {
                    let rest = slice_subrange(key, prefix.len(), key.len());
                    proof {
                        assert(rest@ =~= key@.skip(prefix@.len() as int));
                        assert forall|k: Seq<u8>|
                            has_prefix(k, prefix@) && #[trigger] k.skip(prefix@.len() as int) == rest@ implies k == key@ by {
                            assert(k =~= k.subrange(0, prefix@.len() as int) + k.skip(prefix@.len() as int));
                            assert(key@ =~= key@.subrange(0, prefix@.len() as int) + key@.skip(prefix@.len() as int));
                            assert(k.subrange(0, prefix@.len() as int) == key@.subrange(0, prefix@.len() as int));
                        }
                        lemma_replace_radix_child(*old(self), key@);
                    }
                    child.get_mut(rest)
                } else {
                    None
                }
            },
            Node::Leaf(leaf) => leaf.get_mut(key),
        }
    }

    pub fn remove(&mut self, key: &[u8]) -> (r: Option<V>)
        requires
            old(self).wf(),
        ensures
            final(self).wf(),
            r == node_get(*old(self), key@),
            forall|k: Seq<u8>|
                #![trigger node_get(*final(self), k)]
                node_get(*final(self), k) == if k == key@ {
                    None
                } else {
                    node_get(*old(self), k)
                },
            node_rank(*final(self)) == node_rank(*old(self)),
            forall|t: int| leaves_fit(*old(self), t) ==> #[trigger] leaves_fit(*final(self), t),
    {
        let mut node = placeholder();
        std::mem::swap(self, &mut node);
        let (n, r) = remove_in(node, key);
        *self = n;
        r
    }
}

pub proof fn lemma_first_rest_eq(a: Seq<u8>, b: Seq<u8>)
    requires
        a.len() > 0,
        b.len() > 0,
        a[0] == b[0],
    ensures
        (a.drop_first() == b.drop_first()) == (a == b),
{
    if a.drop_first() == b.drop_first() {
        assert(a.drop_first().len() == b.drop_first().len());
        assert(a.len() == b.len());
        assert forall|i: int| 0 <= i < a.len() implies a[i] == b[i] by {
            if i > 0 {
                assert(a[i] == a.drop_first()[i - 1]);
                assert(b[i] == b.drop_first()[i - 1]);
            }
        }
        assert(a =~= b);
    }
}

/// A key below the shared part of a split radix prefix continues it exactly
/// when its first byte is the branch byte and the rest continues `rem`.
pub proof fn lemma_split_prefix(s: Seq<u8>, b: u8, rem: Seq<u8>, k: Seq<u8>)
    requires
        k.len() > 0,
        k[0] == b,
    ensures
        has_prefix(s + k, s + (seq![b] + rem)) == has_prefix(k.drop_first(), rem),
        has_prefix(k.drop_first(), rem) ==> (s + k).skip((s + (seq![b] + rem)).len() as int)
            == k.drop_first().skip(rem.len() as int),
{
    let pp = s + (seq![b] + rem);
    let sk = s + k;
    let kd = k.drop_first();
    if has_prefix(kd, rem) {
        assert(sk.subrange(0, pp.len() as int) =~= pp) by {
            assert forall|j: int| 0 <= j < pp.len() implies sk.subrange(0, pp.len() as int)[j]
                == pp[j] by {
                if j > s.len() {
                    assert(sk[j] == k[j - s.len()]);
                    assert(k[j - s.len()] == kd[j - s.len() - 1]);
                    assert(kd[j - s.len() - 1] == kd.subrange(0, rem.len() as int)[j - s.len() - 1]);
                }
            }
        }
        assert(sk.skip(pp.len() as int) =~= kd.skip(rem.len() as int));
    }
    if has_prefix(sk, pp) {
        assert(kd.subrange(0, rem.len() as int) =~= rem) by {
            assert forall|j: int| 0 <= j < rem.len() implies kd.subrange(0, rem.len() as int)[j]
                == rem[j] by {
                assert(sk.subrange(0, pp.len() as int)[s.len() + 1 + j] == pp[s.len() + 1 + j]);
                assert(sk[s.len() + 1 + j] == kd[j]);
            }
        }
    }
}

pub proof fn lemma_split_prefix_neg(s: Seq<u8>, b: u8, rem: Seq<u8>, k: Seq<u8>)
    requires
        k.len() == 0 || k[0] != b,
    ensures
        !has_prefix(s + k, s + (seq![b] + rem)),
{
    let pp = s + (seq![b] + rem);
    if has_prefix(s + k, pp) {
        assert((s + k).subrange(0, pp.len() as int)[s.len() as int] == pp[s.len() as int]);
        assert((s + k)[s.len() as int] == k[0]);
    }
}

/// A node that allocates nothing, to stand in while a node is taken out.
fn placeholder<V>() -> (r: Node<V>)
    ensures
        r is Internal,
{
    Node::Internal { children: Vec::new(), value: None }
}

/// Removes `key` from the subtree `node`, returning the new subtree and the
/// value removed.
fn remove_in<V>(node: Node<V>, key: &[u8]) -> (r: (Node<V>, Option<V>))
    requires
        node_wf(node),
    ensures
        node_wf(r.0),
        r.1 == node_get(node, key@),
        forall|k: Seq<u8>|
            #![trigger node_get(r.0, k)]
            node_get(r.0, k) == if k == key@ {
                None
            } else {
                node_get(node, k)
            },
        node_rank(r.0) == node_rank(node),
        forall|t: int| leaves_fit(node, t) ==> #[trigger] leaves_fit(r.0, t),
    decreases node,
{
    match node {
        Node::Internal { mut children, mut value } => {
            if key.len() == 0 {
                let r = value.take();
                let n = Node::Internal { children, value };
                proof {
                    assert forall|k: Seq<u8>| #![trigger node_get(n, k)] node_get(n, k) == if k
                        == key@ {
                        None
                    } else {
                        node_get(node, k)
                    } by {
                        if k.len() == 0 {
                            assert(k =~= key@);
                        }
                    }
                    assert forall|t: int| leaves_fit(node, t) implies #[trigger] leaves_fit(n, t) by {
                        assert forall|i: int| 0 <= i < children@.len() implies match #[trigger] children@[i] {
                            Some(cc) => leaves_fit(cc, t),
                            None => true,
                        } by {
                            assert(children@[i] == node->children@[i]);
                        }
                    }
                }
                return (n, r);
            }
            let idx = key[0] as usize;
            let ghost orig = children@;
            let mut slot: Option<Node<V>> = None;
            std::mem::swap(&mut children[idx], &mut slot);
            match slot {
                Some(child) => {
                    let rest = slice_subrange(key, 1, key.len());
                    proof {
                        assert(rest@ =~= key@.drop_first());
                        assert(orig[idx as int] == Some(child));
                        assert(decreases_to!(node => orig));
                    }
                    let (child, result) = remove_in(child, rest);
                    // prune a leaf that became empty
                    if !child.is_empty_leaf() {
                        children.set(idx, Some(child));
                    } else {
                        proof {
                            assert forall|k: Seq<u8>| node_get(child, k) is None by {
                                lemma_view_get(child, k);
                            }
                        }
                    }
                    let n = Node::Internal { children, value };
                    proof {
                        assert forall|k: Seq<u8>| #![trigger node_get(n, k)] node_get(n, k) == if k
                            == key@ {
                            None
                        } else {
                            node_get(node, k)
                        } by {
                            if k.len() > 0 && k[0] == idx {
                                assert(children@[idx as int] == Some(child) || (children@[idx as int] is None && node_get(child, k.drop_first()) is None));
                                lemma_first_rest_eq(k, key@);
                            } else if k.len() > 0 {
                                assert(children@[k[0] as int] == orig[k[0] as int]);
                            }
                        }
                        assert forall|t: int| leaves_fit(node, t) implies #[trigger] leaves_fit(n, t) by {
                            assert(match orig[idx as int] {
                                Some(c0) => leaves_fit(c0, t),
                                None => true,
                            });
                            assert forall|i: int| 0 <= i < children@.len() implies match #[trigger] children@[i] {
                                Some(cc) => leaves_fit(cc, t),
                                None => true,
                            } by {
                                if i != idx {
                                    assert(children@[i] == orig[i]);
                                    assert(match orig[i] {
                                        Some(c0) => leaves_fit(c0, t),
                                        None => true,
                                    });
                                } else {
                                    assert(children@[idx as int] == Some(child) || children@[idx as int] is None);
                                    if children@[idx as int] is Some {
                                        assert(leaves_fit(child, t));
                                    }
                                }
                            }
                        }
                    }
                    (n, result)
                },
                None => {
                    proof {
                        assert(children@ =~= orig);
                    }
                    let n = Node::Internal { children, value };
                    proof {
                        assert forall|t: int| leaves_fit(node, t) implies #[trigger] leaves_fit(n, t) by {
                            assert forall|i: int| 0 <= i < children@.len() implies match #[trigger] children@[i] {
                                Some(cc) => leaves_fit(cc, t),
                                None => true,
                            } by {
                                assert(children@[i] == orig[i]);
                            }
                        }
                    }
                    (n, None)
                },
            }
        },
        Node::Radix { prefix, child } => {
            if starts_with(key, prefix.as_slice()) {
                let rest = slice_subrange(key, prefix.len(), key.len());
                proof {
                    assert(rest@ =~= key@.skip(prefix@.len() as int));
                }
                let (c, res) = remove_in(*child, rest);
                let n = Node::Radix { prefix, child: Box::new(c) };
                proof {
                    assert forall|k: Seq<u8>| #![trigger node_get(n, k)] node_get(n, k) == if k
                        == key@ {
                        None
                    } else {
                        node_get(node, k)
                    } by {
                        assert(has_prefix(key@, prefix@));
                        if has_prefix(k, prefix@) {
                            crate::keys::lemma_has_prefix_split(k, prefix@);
                            crate::keys::lemma_has_prefix_split(key@, prefix@);
                            assert(node_get(n, k) == node_get(c, k.skip(prefix@.len() as int)));
                            assert(node_get(node, k) == node_get(*child, k.skip(prefix@.len() as int)));
                            if k.skip(prefix@.len() as int) == key@.skip(prefix@.len() as int) {
                                assert(k == key@);
                            }
                        } else {
                            assert(k != key@);
                        }
                    }
                    assert forall|t: int| leaves_fit(node, t) implies #[trigger] leaves_fit(n, t) by {
                        assert(leaves_fit(*child, t));
                        assert(leaves_fit(c, t));
                    }
                }
                (n, res)
            } else {
                let n = Node::Radix { prefix, child };
                proof {
                    assert forall|t: int| leaves_fit(node, t) implies #[trigger] leaves_fit(n, t) by {}
                }
                (n, None)
            }
        },
        Node::Leaf(mut bucket) => {
            let r = bucket.remove(key);
            let n = Node::Leaf(bucket);
            proof {
                assert forall|t: int| leaves_fit(node, t) implies #[trigger] leaves_fit(n, t) by {}
            }
            (n, r)
        },
    }
}

/// Some length bounds every key of a finite set.
pub proof fn lemma_finite_keys_bounded(s: Set<Seq<u8>>) -> (b: int)
    requires
        s.finite(),
    ensures
        b >= 0,
        forall|k: Seq<u8>| #[trigger] s.contains(k) ==> k.len() <= b,
    decreases s.len(),
{
    if s.len() == 0 {
        assert forall|k: Seq<u8>| #[trigger] s.contains(k) implies k.len() <= 0 by {
            vstd::set_lib::lemma_set_empty_equivalency_len(s);
        }
        0
    } else {
        let x = s.choose();
        vstd::set_lib::lemma_set_empty_equivalency_len(s);
        let b0 = lemma_finite_keys_bounded(s.remove(x));
        let b = if b0 > x.len() {
            b0
        } else {
            x.len() as int
        };
        assert forall|k: Seq<u8>| #[trigger] s.contains(k) implies k.len() <= b by {
            if k != x {
                assert(s.remove(x).contains(k));
            }
        }
        b
    }
}

/// Inserts `key` with `val` into the subtree `node`; returns the new subtree
/// and the value the key held before. `bound` bounds every key length that
/// the insertion meets.
fn insert_in<V>(node: Node<V>, key: &[u8], val: V, threshold: usize, Ghost(bound): Ghost<int>) -> (r:
    (Node<V>, Option<V>))
    requires
        node_wf(node),
        keys_bounded(node, bound),
        key@.len() <= bound,
        node_view(node).dom().finite(),
        node_view(node).len() < usize::MAX,
    ensures
        node_wf(r.0),
        r.1 == node_get(node, key@),
        forall|k: Seq<u8>|
            #![trigger node_get(r.0, k)]
            node_get(r.0, k) == if k == key@ {
                Some(val)
            } else {
                node_get(node, k)
            },
        node is Internal ==> r.0 is Internal,
        leaves_fit(node, threshold as int) ==> leaves_fit(r.0, threshold as int),
        node !is Leaf ==> r.0 !is Leaf,
        node is Leaf && key@.len() > MAX_BUCKET_KEY_LEN ==> r.0 !is Leaf,
        node is Leaf && key@.len() <= MAX_BUCKET_KEY_LEN ==> grown_leaf_rule(node->0, key@, val, threshold as int, r.0),
    decreases bound, node_rank(node),
{
    match node {
        Node::Internal { mut children, mut value } => {
            if key.len() == 0 {
                let mut previous = Some(val);
                std::mem::swap(&mut value, &mut previous);
                let n = Node::Internal { children, value };
                proof {
                    assert forall|k: Seq<u8>| #![trigger node_get(n, k)] node_get(n, k) == if k
                        == key@ {
                        Some(val)
                    } else {
                        node_get(node, k)
                    } by {
                        if k.len() == 0 {
                            assert(k =~= key@);
                        }
                    }
                    if leaves_fit(node, threshold as int) {
                        assert forall|i: int| 0 <= i < children@.len() implies match #[trigger] children@[i] {
                            Some(cc) => leaves_fit(cc, threshold as int),
                            None => true,
                        } by {
                            assert(children@[i] == node->children@[i]);
                        }
                    }
                }
                return (n, previous);
            }
            let idx = key[0] as usize;
            let ghost orig = children@;
            let mut slot: Option<Node<V>> = None;
            std::mem::swap(&mut children[idx], &mut slot);
            // a missing child starts as an empty leaf
            let child = match slot {
                Some(c) => c,
                None => Node::Leaf(ArrayHash::new()),
            };
            let rest = slice_subrange(key, 1, key.len());
            let ghost p = seq![key@[0]];
            proof {
                assert forall|x: Seq<u8>| #[trigger] node_get(child, x) == (match orig[idx as int] {
                    Some(c0) => node_get(c0, x),
                    None => None,
                }) by {}
                assert(rest@ =~= key@.drop_first());
                assert(decreases_to!(node => orig));
                assert forall|k: Seq<u8>| #[trigger] node_get(child, k) is Some implies node_get(
                    node,
                    p + k,
                ) == node_get(child, k) by {
                    assert((p + k).drop_first() =~= k);
                    assert((p + k)[0] == key@[0]);
                }
                assert forall|k: Seq<u8>| #[trigger] node_get(child, k) is Some implies k.len()
                    <= bound - 1 by {
                    assert(node_get(node, p + k) is Some);
                }
                assert forall|k: Seq<u8>| #[trigger] node_view(child).contains_key(k) implies node_view(
                    node,
                ).contains_key(p + k) by {
                    assert(node_get(node, p + k) is Some);
                }
                lemma_sub_view(node_view(node), node_view(child), p);
                if leaves_fit(node, threshold as int) {
                    assert(match orig[idx as int] {
                        Some(c0) => leaves_fit(c0, threshold as int),
                        None => true,
                    });
                }
            }
            let (new_child, r) = insert_in(child, rest, val, threshold, Ghost(bound - 1));
            children.set(idx, Some(new_child));
            let n = Node::Internal { children, value };
            proof {
                if leaves_fit(node, threshold as int) {
                    assert forall|i: int| 0 <= i < children@.len() implies match #[trigger] children@[i] {
                        Some(cc) => leaves_fit(cc, threshold as int),
                        None => true,
                    } by {
                        if i != idx {
                            assert(children@[i] == orig[i]);
                            assert(match orig[i] {
                                Some(c0) => leaves_fit(c0, threshold as int),
                                None => true,
                            });
                        }
                    }
                }
                assert(r == node_get(node, key@));
                assert forall|k: Seq<u8>| #![trigger node_get(n, k)] node_get(n, k) == if k
                    == key@ {
                    Some(val)
                } else {
                    node_get(node, k)
                } by {
                    if k.len() > 0 && k[0] == idx {
                        lemma_first_rest_eq(k, key@);
                        assert(children@[idx as int] == Some(new_child));
                        assert(node_get(n, k) == node_get(new_child, k.drop_first()));
                        assert(node_get(node, k) == node_get(child, k.drop_first()));
                    } else if k.len() > 0 {
                        assert(children@[k[0] as int] == orig[k[0] as int]);
                    }
                }
            }
            (n, r)
        },
        Node::Radix { prefix, child } => {
            let common_len = common_prefix_len(prefix.as_slice(), key);
            proof {
                lemma_lcp_props(prefix@, key@);
            }
            if common_len == prefix.len() {
                // the whole prefix matches: go down
                let rest = slice_subrange(key, common_len, key.len());
                let ghost p = prefix@;
                proof {
                    assert(rest@ =~= key@.skip(p.len() as int));
                    assert(key@.subrange(0, p.len() as int) =~= p);
                    assert forall|k: Seq<u8>| #[trigger] node_get(*child, k) is Some implies node_get(
                        node,
                        p + k,
                    ) == node_get(*child, k) by {
                        crate::keys::lemma_has_prefix_append(p, k);
                    }
                    assert forall|k: Seq<u8>| #[trigger] node_get(*child, k) is Some implies k.len()
                        <= bound - p.len() by {
                        assert(node_get(node, p + k) is Some);
                    }
                    assert forall|k: Seq<u8>| #[trigger] node_view(*child).contains_key(k) implies node_view(
                        node,
                    ).contains_key(p + k) by {
                        assert(node_get(node, p + k) is Some);
                    }
                    lemma_sub_view(node_view(node), node_view(*child), p);
                }
                let (c2, r) = insert_in(*child, rest, val, threshold, Ghost(bound - common_len));
                let n = Node::Radix { prefix, child: Box::new(c2) };
                proof {
                    assert forall|k: Seq<u8>| #![trigger node_get(n, k)] node_get(n, k) == if k
                        == key@ {
                        Some(val)
                    } else {
                        node_get(node, k)
                    } by {
                        crate::keys::lemma_has_prefix_split(key@, p);
                        if has_prefix(k, p) {
                            crate::keys::lemma_has_prefix_split(k, p);
                            assert(node_get(n, k) == node_get(c2, k.skip(p.len() as int)));
                            assert(node_get(node, k) == node_get(*child, k.skip(p.len() as int)));
                            if k.skip(p.len() as int) == key@.skip(p.len() as int) {
                                assert(k == key@);
                            }
                            if k == key@ {
                                assert(k.skip(p.len() as int) == rest@);
                            }
                        } else {
                            assert(k != key@);
                        }
                    }
                }
                return (n, r);
            }
            // Partial match: split the radix node into
            //   Radix(shared part) -> Internal
            //     [first differing byte of the old prefix] -> Radix(rest of old prefix) -> old child
            //     [first differing byte of the key] -> the new key
            let ghost c = common_len as int;
            let ghost pp = prefix@;
            let prefix_remainder = slice_to_vec(slice_subrange(
                prefix.as_slice(),
                common_len + 1,
                prefix.len(),
            ));
            let branch_char_old = prefix[common_len];
            let ghost rem = prefix_remainder@;
            let ghost old_child = *child;
            let path_continuation = if prefix_remainder.len() == 0 {
                *child
            } else {
                Node::Radix { prefix: prefix_remainder, child }
            };
            let mut children = empty_children_array();
            children.set(branch_char_old as usize, Some(path_continuation));
            let new_internal = Node::Internal { children, value: None };
            let new_key_suffix = slice_subrange(key, common_len, key.len());
            let ghost shared = pp.take(c);
            proof {
                assert(new_key_suffix@ =~= key@.skip(c));
                assert(pp =~= shared + (seq![branch_char_old] + rem));
                // the split node holds exactly what the radix node held
                assert forall|k: Seq<u8>| #[trigger] node_get(new_internal, k) == node_get(
                    node,
                    shared + k,
                ) by {
                    if k.len() > 0 && k[0] == branch_char_old {
                        lemma_split_prefix(shared, branch_char_old, rem, k);
                        assert(new_internal->children@[branch_char_old as int] == Some(path_continuation));
                        assert(node_get(new_internal, k) == node_get(path_continuation, k.drop_first()));
                        if rem.len() == 0 {
                            assert(k.drop_first().skip(0) =~= k.drop_first());
                            assert(has_prefix(k.drop_first(), rem)) by {
                                assert(k.drop_first().subrange(0, 0) =~= rem);
                            }
                        }
                    } else {
                        lemma_split_prefix_neg(shared, branch_char_old, rem, k);
                        if k.len() > 0 {
                            assert(new_internal->children@[k[0] as int] is None);
                        }
                    }
                }
                assert(key@.subrange(0, c) =~= shared) by {
                    assert forall|j: int| 0 <= j < c implies key@[j] == shared[j] by {}
                }
                assert forall|k: Seq<u8>| !has_prefix(k, shared) implies #[trigger] node_get(node, k)
                    is None by {
                    if has_prefix(k, pp) {
                        assert(k.subrange(0, c) =~= shared) by {
                            assert forall|j: int| 0 <= j < c implies k[j] == shared[j] by {
                                assert(k[j] == k.subrange(0, pp.len() as int)[j]);
                            }
                        }
                    }
                }
                assert(node_wf(new_internal)) by {
                    assert forall|i: int| 0 <= i < 256 implies match #[trigger] new_internal->children@[i] {
                        Some(cc) => node_wf(cc),
                        None => true,
                    } by {}
                }
                if leaves_fit(node, threshold as int) {
                    assert(leaves_fit(path_continuation, threshold as int));
                    assert forall|i: int| 0 <= i < new_internal->children@.len() implies match #[trigger] new_internal->children@[i] {
                        Some(cc) => leaves_fit(cc, threshold as int),
                        None => true,
                    } by {}
                    assert(leaves_fit(new_internal, threshold as int));
                }
                assert forall|k: Seq<u8>| #[trigger] node_get(new_internal, k) is Some implies k.len()
                    <= bound - c by {
                    assert(node_get(node, shared + k) is Some);
                }
                assert forall|k: Seq<u8>| #[trigger] node_view(new_internal).contains_key(k) implies node_view(
                    node,
                ).contains_key(shared + k) by {
                    assert(node_get(new_internal, k) == node_get(node, shared + k));
                }
                lemma_sub_view(node_view(node), node_view(new_internal), shared);
                crate::keys::lemma_has_prefix_split(key@, shared);
                assert(node_get(new_internal, key@.skip(c)) == node_get(node, key@));
            }
            let (ni, res) = insert_in(new_internal, new_key_suffix, val, threshold, Ghost(bound - c));
            if common_len > 0 {
                let shared_prefix = slice_to_vec(slice_subrange(prefix.as_slice(), 0, common_len));
                let n = Node::Radix { prefix: shared_prefix, child: Box::new(ni) };
                proof {
                    assert(shared_prefix@ =~= shared);
                    assert forall|k: Seq<u8>| #![trigger node_get(n, k)] node_get(n, k) == if k
                        == key@ {
                        Some(val)
                    } else {
                        node_get(node, k)
                    } by {
                        assert(has_prefix(key@, shared));
                        assert(shared.len() == c);
                        if has_prefix(k, shared) {
                            crate::keys::lemma_has_prefix_split(k, shared);
                            assert(node_get(n, k) == node_get(ni, k.skip(c)));
                            assert(node_get(new_internal, k.skip(c)) == node_get(node, shared + k.skip(c)));
                            assert(shared + k.skip(c) == k);
                            if k.skip(c) == key@.skip(c) {
                                assert(k == key@);
                            }
                            if k == key@ {
                                assert(k.skip(c) == new_key_suffix@);
                            }
                        } else {
                            assert(k != key@);
                            assert(node_get(node, k) is None);
                        }
                    }
                }
                (n, res)
            } else {
                proof {
                    assert(shared =~= Seq::<u8>::empty());
                    assert forall|k: Seq<u8>| #![trigger node_get(ni, k)] node_get(ni, k) == if k
                        == key@ {
                        Some(val)
                    } else {
                        node_get(node, k)
                    } by {
                        assert(shared + k =~= k);
                        assert(k.skip(0) =~= k);
                        assert(key@.skip(0) =~= key@);
                    }
                }
                (ni, res)
            }
        },
        Node::Leaf(mut bucket) => {
            if key.len() > MAX_BUCKET_KEY_LEN {
                // The key is too long for a bucket: burst to consume its
                // prefix, then insert into the new branching node.
                proof {
                    assert forall|k: Seq<u8>| #[trigger] bucket@.contains_key(k) implies k.len()
                        <= bound by {
                        assert(node_get(node, k) is Some);
                    }
                }
                let n = burst_leaf(bucket, threshold, Ghost(bound));
                proof {
                    assert forall|k: Seq<u8>| #[trigger] node_get(n, k) is Some implies k.len()
                        <= bound by {
                        assert(node_get(node, k) == node_get(n, k));
                    }
                    assert forall|k: Seq<u8>| #[trigger] node_get(n, k) == node_view(node).get(k) by {
                        lemma_view_get(node, k);
                    }
                    lemma_view_ext(n, node_view(node));
                }
                return insert_in(n, key, val, threshold, Ghost(bound));
            }
            proof {
                assert(node_view(node) =~= bucket@);
            }
            let ghost l0 = bucket;
            let result = bucket.insert(key, val);
            let ghost g = bucket;
            // burst once the leaf takes more bytes than the threshold
            if bucket.size_in_bytes() > threshold {
                proof {
                    assert forall|k: Seq<u8>| #[trigger] bucket@.contains_key(k) implies k.len()
                        <= bound by {
                        if k != key@ {
                            assert(node_get(node, k) is Some);
                        }
                    }
                }
                let n = burst_leaf(bucket, threshold, Ghost(bound));
                proof {
                    assert(node->0 == l0);
                    assert(g.spec_size() > threshold);
                }
                return (n, result);
            }
            proof {
                assert(node->0 == l0);
                assert(g.spec_size() <= threshold);
            }
            (Node::Leaf(bucket), result)
        },
    }
}

/// Turns a leaf into a branching node (under a radix node holding the
/// leaf's longest common key prefix, when there is one), distributing the
/// leaf's entries.
fn burst_leaf<V>(leaf: ArrayHash<V>, threshold: usize, Ghost(bound): Ghost<int>) -> (r: Node<V>)
    requires
        leaf.wf(),
        bound >= 0,
        forall|k: Seq<u8>| #[trigger] leaf@.contains_key(k) ==> k.len() <= bound,
    ensures
        node_wf(r),
        node_rank(r) < 2,
        forall|k: Seq<u8>| #![trigger node_get(r, k)] node_get(r, k) == leaf@.get(k),
        leaves_fit(r, threshold as int),
    decreases bound, 1int,
{
    let mut leaf = leaf;
    let ghost m = leaf@;
    proof {
        leaf.lemma_wf();
    }
    // 1. the longest common prefix of all keys in the leaf
    let lcp = leaf.longest_common_prefix_all();
    let ghost l = lcp@.len() as int;
    // 2. the branching node
    let mut internal: Node<V> = Node::Internal { children: empty_children_array(), value: None };
    // 3. redistribute, stripping the common prefix
    let mut items = leaf.drain_all();
    let ghost iks = pair_keys(items@);
    let ghost ivs = pair_vals(items@);
    let ghost sks = iks.map_values(|k: Seq<u8>| k.skip(l));
    let n = items.len();
    proof {
        if m.len() > 0 {
            let k0 = m.dom().choose();
            vstd::set_lib::lemma_set_empty_equivalency_len(m.dom());
            assert(m.dom().contains(k0));
            assert(has_prefix(k0, lcp@));
        }
        assert forall|i: int| 0 <= i < iks.len() implies has_prefix(#[trigger] iks[i], lcp@) && iks[i].len() <= bound by {
            lemma_pairs_map_index_nodup(iks, ivs, i);
            assert(m.contains_key(iks[i]));
        }
        assert(sks.no_duplicates()) by {
            assert forall|a: int, b: int| 0 <= a < sks.len() && 0 <= b < sks.len() && a != b implies sks[a]
                != sks[b] by {
                crate::keys::lemma_has_prefix_split(iks[a], lcp@);
                crate::keys::lemma_has_prefix_split(iks[b], lcp@);
                assert(iks[a] != iks[b]);
            }
        }
        assert(sks.skip(n as int) =~= Seq::<Seq<u8>>::empty());
        assert(ivs.skip(n as int) =~= Seq::<V>::empty());
        assert forall|k: Seq<u8>| #[trigger] node_get(internal, k) == pairs_map(
            sks.skip(n as int),
            ivs.skip(n as int),
        ).get(k) by {}
        assert(node_wf(internal)) by {
            assert forall|i: int| 0 <= i < 256 implies match #[trigger] internal->children@[i] {
                Some(cc) => node_wf(cc),
                None => true,
            } by {}
        }
        assert(leaves_fit(internal, threshold as int)) by {
            assert forall|i: int| 0 <= i < internal->children@.len() implies match #[trigger] internal->children@[i] {
                Some(cc) => leaves_fit(cc, threshold as int),
                None => true,
            } by {}
        }
    }
    let mut j: usize = 0;
    while j < n
        invariant
            n == iks.len(),
            iks.len() == ivs.len(),
            sks.len() == iks.len(),
            sks == iks.map_values(|k: Seq<u8>| k.skip(l)),
            sks.no_duplicates(),
            l == lcp@.len(),
            0 <= l <= bound,
            forall|i: int| 0 <= i < iks.len() ==> has_prefix(#[trigger] iks[i], lcp@),
            forall|i: int| 0 <= i < iks.len() ==> (#[trigger] iks[i]).len() <= bound,
            j <= n,
            items@.len() == n - j,
            pair_keys(items@) == iks.take(n - j),
            pair_vals(items@) == ivs.take(n - j),
            node_wf(internal),
            internal is Internal,
            leaves_fit(internal, threshold as int),
            forall|k: Seq<u8>|
                #![trigger node_get(internal, k)]
                node_get(internal, k) == pairs_map(sks.skip(n - j), ivs.skip(n - j)).get(k),
        decreases n - j,
    {
        let ghost old_items = items@;
        let (key, val) = items.pop().unwrap();
        let ghost i = (n - j - 1) as int;
        proof {
            assert(old_items[i] == (key, val));
            assert(pair_keys(old_items)[i] == key@);
            assert(pair_vals(old_items)[i] == val);
            assert(iks.take(n - j)[i] == iks[i]);
            assert(ivs.take(n - j)[i] == ivs[i]);
            assert(items@ =~= old_items.subrange(0, i));
            assert(pair_keys(items@) =~= iks.take(i));
            assert(pair_vals(items@) =~= ivs.take(i));
        }
        let suffix = slice_subrange(key.as_slice(), lcp.len(), key.len());
        proof {
            assert(suffix@ =~= sks[i]);
            lemma_pairs_map_skip(sks, ivs, i);
            let pm = pairs_map(sks.skip(i + 1), ivs.skip(i + 1));
            crate::entries::lemma_pairs_map_finite(sks.skip(i + 1), ivs.skip(i + 1));
            crate::entries::lemma_pairs_map_len_nodup(sks.skip(i + 1), ivs.skip(i + 1));
            lemma_view_ext(internal, pm);
            assert forall|k: Seq<u8>| #[trigger] node_get(internal, k) is Some implies k.len() <= bound - l by {
                let rest = sks.skip(i + 1);
                assert(pm.contains_key(k));
                let t = choose|t: int| 0 <= t < rest.len() && rest[t] == k;
                assert(sks[t + i + 1] == k);
                crate::keys::lemma_has_prefix_split(iks[t + i + 1], lcp@);
            }
        }
        let (ni, _) = insert_in(internal, suffix, val, threshold, Ghost(bound - l));
        internal = ni;
        j = j + 1;
    }
    proof {
        assert(sks.skip(0) =~= sks);
        assert(ivs.skip(0) =~= ivs);
        assert forall|k: Seq<u8>| has_prefix(k, lcp@) implies #[trigger] pairs_map(sks, ivs).get(
            k.skip(l),
        ) == m.get(k) by {
            crate::keys::lemma_has_prefix_split(k, lcp@);
            if m.contains_key(k) {
                let t = choose|t: int| 0 <= t < iks.len() && iks[t] == k;
                lemma_pairs_map_index_nodup(iks, ivs, t);
                lemma_pairs_map_index_nodup(sks, ivs, t);
            }
            if pairs_map(sks, ivs).contains_key(k.skip(l)) {
                let t = choose|t: int| 0 <= t < sks.len() && sks[t] == k.skip(l);
                crate::keys::lemma_has_prefix_split(iks[t], lcp@);
                assert(iks[t] == k);
                lemma_pairs_map_index_nodup(iks, ivs, t);
                lemma_pairs_map_index_nodup(sks, ivs, t);
            }
        }
    }
    // 4. reassemble
    if lcp.len() > 0 {
        let r = Node::Radix { prefix: lcp, child: Box::new(internal) };
        proof {
            assert forall|k: Seq<u8>| #![trigger node_get(r, k)] node_get(r, k) == m.get(k) by {
                if !has_prefix(k, lcp@) {
                    assert(!m.contains_key(k));
                } else {
                    assert(node_get(r, k) == node_get(internal, k.skip(l)));
                    assert(node_get(internal, k.skip(l)) == pairs_map(sks, ivs).get(k.skip(l)));
                }
            }
        }
        r
    } else {
        proof {
            assert forall|k: Seq<u8>| #![trigger node_get(internal, k)] node_get(internal, k) == m.get(k) by {
                assert(k.subrange(0, 0) =~= lcp@);
                assert(k.skip(0) =~= k);
            }
        }
        internal
    }
}

impl<V> Node<V> {
    pub fn insert(&mut self, key: &[u8], val: V, threshold: usize) -> (r: Option<V>)
        requires
            old(self).wf(),
            old(self)@.dom().finite(),
            old(self)@.len() < usize::MAX,
        ensures
            final(self).wf(),
            leaves_fit(*old(self), threshold as int) ==> leaves_fit(*final(self), threshold as int),
            *old(self) !is Leaf ==> *final(self) !is Leaf,
            *old(self) is Leaf && key@.len() > MAX_BUCKET_KEY_LEN ==> *final(self) !is Leaf,
            *old(self) is Leaf && key@.len() <= MAX_BUCKET_KEY_LEN ==> grown_leaf_rule(
                old(self)->0,
                key@,
                val,
                threshold as int,
                *final(self),
            ),
            r == node_get(*old(self), key@),
            forall|k: Seq<u8>|
                #![trigger node_get(*final(self), k)]
                node_get(*final(self), k) == if k == key@ {
                    Some(val)
                } else {
                    node_get(*old(self), k)
                },
    {
        let ghost b0 = lemma_finite_keys_bounded(self@.dom());
        let ghost bound = if b0 > key@.len() {
            b0
        } else {
            key@.len() as int
        };
        proof {
            assert forall|k: Seq<u8>| #[trigger] node_get(*self, k) is Some implies k.len() <= bound by {
                assert(self@.dom().contains(k));
            }
        }
        let mut node = placeholder();
        std::mem::swap(self, &mut node);
        let (n, r) = insert_in(node, key, val, threshold, Ghost(bound));
        *self = n;
        r
    }
}

/// A fresh row of 256 empty child slots.
fn empty_children_array<V>() -> (r: Vec<Option<Node<V>>>)
    ensures
        r@.len() == 256,
        forall|i: int| 0 <= i < 256 ==> r@[i] is None,
{
    let mut vec: Vec<Option<Node<V>>> = Vec::with_capacity(256);
    let mut i: usize = 0;
    while i < 256
        invariant
            i <= 256,
            vec@.len() == i,
            forall|j: int| 0 <= j < i ==> vec@[j] is None,
        decreases 256 - i,
    {
        vec.push(None);
        i = i + 1;
    }
    vec
}


/// Shape counts of a subtree: branching and radix nodes, leaves, entries
/// held (in leaves and at branching nodes), and the largest leaf.
pub struct ShapeCounts {
    pub inner: int,
    pub leaves: int,
    pub entries: int,
    pub largest_leaf: int,
}

pub open spec fn zero_counts() -> ShapeCounts {
    ShapeCounts { inner: 0, leaves: 0, entries: 0, largest_leaf: 0 }
}

pub open spec fn max_int(a: int, b: int) -> int {
    if a >= b {
        a
    } else {
        b
    }
}

/// Counts of two disjoint parts taken together.
pub open spec fn add_counts(a: ShapeCounts, b: ShapeCounts) -> ShapeCounts {
    ShapeCounts {
        inner: a.inner + b.inner,
        leaves: a.leaves + b.leaves,
        entries: a.entries + b.entries,
        largest_leaf: max_int(a.largest_leaf, b.largest_leaf),
    }
}

/// The shape counts of a subtree.
pub open spec fn node_counts<V>(n: Node<V>) -> ShapeCounts
    decreases n, 1int,
{
    match n {
        Node::Internal { children, value } => {
            proof {
                assert(decreases_to!(children => children@));
            }
            add_counts(
                ShapeCounts {
                    inner: 1,
                    leaves: 0,
                    entries: if value is Some {
                        1
                    } else {
                        0
                    },
                    largest_leaf: 0,
                },
                children_counts(children@, children@.len() as int),
            )
        },
        Node::Radix { child, .. } => add_counts(
            ShapeCounts { inner: 1, leaves: 0, entries: 0, largest_leaf: 0 },
            node_counts(*child),
        ),
        Node::Leaf(l) => ShapeCounts {
            inner: 0,
            leaves: 1,
            entries: l@.len() as int,
            largest_leaf: l@.len() as int,
        },
    }
}

/// The shape counts of the first `i` children of a branching node.
pub open spec fn children_counts<V>(cs: Seq<Option<Node<V>>>, i: int) -> ShapeCounts
    decreases cs, 0int, i,
{
    if i <= 0 || i > cs.len() {
        zero_counts()
    } else {
        add_counts(
            children_counts(cs, i - 1),
            match cs[i - 1] {
                Some(c) => node_counts(c),
                None => zero_counts(),
            },
        )
    }
}

/// Putting `p` in front of every key of a finite set keeps its size.
pub proof fn lemma_prefixed_len(s: Set<Seq<u8>>, p: Seq<u8>)
    requires
        s.finite(),
    ensures
        s.map(|k: Seq<u8>| p + k).finite(),
        s.map(|k: Seq<u8>| p + k).len() == s.len(),
{
    let f = |k: Seq<u8>| p + k;
    assert(vstd::relations::injective_on(f, s)) by {
        assert forall|a: Seq<u8>, b: Seq<u8>| s.contains(a) && s.contains(b) && #[trigger] f(a) == #[trigger] f(
            b,
        ) implies a == b by {
            assert(a =~= f(a).skip(p.len() as int));
            assert(b =~= f(b).skip(p.len() as int));
        }
    }
    vstd::set_lib::lemma_map_size(s, s.map(f), f);
}

/// The keys of a branching node that end at it or go on below a byte less
/// than `i`.
pub open spec fn branch_part<V>(n: Node<V>, i: int) -> Set<Seq<u8>> {
    node_view(n).dom().filter(|k: Seq<u8>| k.len() == 0 || (k[0] as int) < i)
}

/// The keys below the first `i` children of a branching node, and the one
/// at the node itself, number as many as the entries those parts count.
proof fn lemma_branch_part_len<V>(n: Node<V>, i: int)
    requires
        n is Internal,
        node_wf(n),
        node_view(n).dom().finite(),
        0 <= i <= 256,
        forall|j: int|
            0 <= j < 256 && (#[trigger] n->children@[j]) is Some ==> node_view(n->children@[j]->0).dom().finite()
                && node_counts(n->children@[j]->0).entries == node_view(n->children@[j]->0).len(),
    ensures
        branch_part(n, i).finite(),
        branch_part(n, i).len() == (if n->value is Some {
            1int
        } else {
            0int
        }) + children_counts(n->children@, i).entries,
    decreases i,
{
    let part = branch_part(n, i);
    assert(part.subset_of(node_view(n).dom()));
    vstd::set_lib::lemma_len_subset(part, node_view(n).dom());
    if i == 0 {
        let e = Seq::<u8>::empty();
        lemma_view_get(n, e);
        if n->value is Some {
            assert(part =~= set![e]) by {
                assert forall|k: Seq<u8>| #[trigger] part.contains(k) implies k == e by {
                    assert(k =~= e);
                }
            }
        } else {
            assert(part =~= Set::<Seq<u8>>::empty()) by {
                assert forall|k: Seq<u8>| !#[trigger] part.contains(k) by {
                    if part.contains(k) {
                        assert(k =~= e);
                    }
                }
            }
        }
    } else {
        lemma_branch_part_len(n, i - 1);
        let prev = branch_part(n, i - 1);
        let b = (i - 1) as u8;
        let bs = seq![b];
        let d = node_view(n).dom().filter(|k: Seq<u8>| k.len() > 0 && k[0] == b);
        assert(part =~= prev + d);
        assert(prev.disjoint(d));
        assert(d.subset_of(node_view(n).dom()));
        vstd::set_lib::lemma_len_subset(d, node_view(n).dom());
        vstd::set_lib::lemma_set_disjoint_lens(prev, d);
        lemma_children_counts_nonneg(n->children@, i - 1);
        match n->children@[i - 1] {
            Some(c) => {
                let f = |k: Seq<u8>| bs + k;
                assert(d =~= node_view(c).dom().map(f)) by {
                    assert forall|k: Seq<u8>| #[trigger] d.contains(k) implies node_view(c).dom().map(f).contains(k) by {
                        lemma_view_get(n, k);
                        lemma_view_get(c, k.drop_first());
                        assert(k =~= bs + k.drop_first());
                        assert(f(k.drop_first()) == k);
                    }
                    assert forall|k: Seq<u8>| #[trigger] node_view(c).dom().map(f).contains(k) implies d.contains(k) by {
                        let k2 = choose|k2: Seq<u8>| node_view(c).dom().contains(k2) && f(k2) == k;
                        assert((bs + k2).drop_first() =~= k2);
                        lemma_view_get(n, bs + k2);
                        lemma_view_get(c, k2);
                    }
                }
                lemma_prefixed_len(node_view(c).dom(), bs);
            },
            None => {
                assert(d =~= Set::<Seq<u8>>::empty()) by {
                    assert forall|k: Seq<u8>| !#[trigger] d.contains(k) by {
                        if d.contains(k) {
                            lemma_view_get(n, k);
                        }
                    }
                }
            },
        }
    }
}

/// The entries a subtree's shape counts are all the entries it holds.
pub proof fn lemma_entries_len<V>(n: Node<V>)
    requires
        node_wf(n),
        node_view(n).dom().finite(),
    ensures
        node_counts(n).entries == node_view(n).len(),
    decreases n, 1int,
{
    match n {
        Node::Leaf(l) => {
            assert(node_view(n) =~= l@);
        },
        Node::Radix { prefix, child } => {
            let c = *child;
            let p = prefix@;
            let f = |k: Seq<u8>| p + k;
            assert forall|k: Seq<u8>| #[trigger] node_view(c).contains_key(k) implies node_view(n).contains_key(
                p + k,
            ) by {
                lemma_view_get(n, p + k);
                lemma_view_get(c, k);
                crate::keys::lemma_has_prefix_append(p, k);
                assert((p + k).skip(p.len() as int) =~= k);
            }
            lemma_sub_view(node_view(n), node_view(c), p);
            lemma_entries_len(c);
            assert(node_view(n).dom() =~= node_view(c).dom().map(f)) by {
                assert forall|k: Seq<u8>| #[trigger] node_view(n).dom().contains(k) implies node_view(c).dom().map(
                    f,
                ).contains(k) by {
                    lemma_view_get(n, k);
                    lemma_view_get(c, k.skip(p.len() as int));
                    crate::keys::lemma_has_prefix_split(k, p);
                    assert(k.subrange(p.len() as int, k.len() as int) =~= k.skip(p.len() as int));
                    assert(f(k.skip(p.len() as int)) == k);
                }
            }
            lemma_prefixed_len(node_view(c).dom(), p);
        },
        Node::Internal { children, value } => {
            assert(decreases_to!(children => children@));
            assert forall|j: int|
                0 <= j < 256 && (#[trigger] n->children@[j]) is Some implies node_view(n->children@[j]->0).dom().finite()
                    && node_counts(n->children@[j]->0).entries == node_view(n->children@[j]->0).len() by {
                let c = children@[j]->0;
                let bs = seq![j as u8];
                assert(match children@[j] {
                    Some(cc) => node_wf(cc),
                    None => true,
                });
                assert forall|k: Seq<u8>| #[trigger] node_view(c).contains_key(k) implies node_view(n).contains_key(
                    bs + k,
                ) by {
                    assert((bs + k).drop_first() =~= k);
                    lemma_view_get(n, bs + k);
                    lemma_view_get(c, k);
                }
                lemma_sub_view(node_view(n), node_view(c), bs);
                lemma_entries_len(c);
            }
            lemma_branch_part_len(n, 256);
            assert(branch_part(n, 256) =~= node_view(n).dom()) by {
                assert forall|k: Seq<u8>| #[trigger] node_view(n).dom().contains(k) implies branch_part(n, 256).contains(k) by {
                    if k.len() > 0 {
                        assert((k[0] as int) < 256);
                    }
                }
            }
        },
    }
}

/// `stats` after adding the counts `c`, each sum saturated at the largest
/// `usize`.
pub open spec fn stats_added(old_stats: HatTrieStats, c: ShapeCounts, new_stats: HatTrieStats) -> bool {
    &&& new_stats.internal_nodes == sat(old_stats.internal_nodes + c.inner)
    &&& new_stats.leaf_nodes == sat(old_stats.leaf_nodes + c.leaves)
    &&& new_stats.total_items == sat(old_stats.total_items + c.entries)
    &&& new_stats.max_bucket_size == max_int(old_stats.max_bucket_size as int, c.largest_leaf)
}

pub proof fn lemma_counts_nonneg<V>(n: Node<V>)
    ensures
        node_counts(n).inner >= 0,
        node_counts(n).leaves >= 0,
        node_counts(n).entries >= 0,
        node_counts(n).largest_leaf >= 0,
    decreases n, 1int,
{
    match n {
        Node::Internal { children, .. } => {
            assert(decreases_to!(children => children@));
            lemma_children_counts_nonneg(children@, children@.len() as int);
        },
        Node::Radix { child, .. } => {
            lemma_counts_nonneg(*child);
        },
        Node::Leaf(_) => {},
    }
}

pub proof fn lemma_children_counts_nonneg<V>(cs: Seq<Option<Node<V>>>, i: int)
    ensures
        children_counts(cs, i).inner >= 0,
        children_counts(cs, i).leaves >= 0,
        children_counts(cs, i).entries >= 0,
        children_counts(cs, i).largest_leaf >= 0,
    decreases cs, 0int, i,
{
    if i > 0 && i <= cs.len() {
        lemma_children_counts_nonneg(cs, i - 1);
        match cs[i - 1] {
            Some(c) => lemma_counts_nonneg(c),
            None => {},
        }
    }
}

impl<V> Node<V> {
    /// Adds the shape counts of this subtree to `stats`.
    pub fn collect_stats(&self, stats: &mut HatTrieStats)
        requires
            self.wf(),
        ensures
            stats_added(*old(stats), node_counts(*self), *final(stats)),
        decreases self,
    {
        proof {
            lemma_counts_nonneg(*self);
        }
        match self {
            Node::Internal { children, value } => {
                let ghost s0 = *stats;
                stats.internal_nodes = stats.internal_nodes.saturating_add(1);
                // the entry held at the branching node itself
                if value.is_some() {
                    stats.total_items = stats.total_items.saturating_add(1);
                }
                let ghost s1 = *stats;
                let ghost own: int = if value is Some {
                    1
                } else {
                    0
                };
                let mut b: usize = 0;
                proof {
                    assert(decreases_to!(self => children@));
                }
                while b < 256
                    invariant
                        self.wf(),
                        *self is Internal,
                        children == self->children,
                        children@.len() == 256,
                        b <= 256,
                        s1.internal_nodes == sat(s0.internal_nodes + 1),
                        s1.total_items == sat(s0.total_items + own),
                        s1.leaf_nodes == s0.leaf_nodes,
                        s1.max_bucket_size == s0.max_bucket_size,
                        own == (if self->value is Some {
                            1int
                        } else {
                            0int
                        }),
                        stats_added(s1, children_counts(children@, b as int), *stats),
                    decreases 256 - b,
                {
                    proof {
                        lemma_children_counts_nonneg(children@, b as int);
                    }
                    match &children[b] {
                        Some(child) => {
                            proof {
                                lemma_counts_nonneg(*child);
                            }
                            child.collect_stats(stats);
                        },
                        None => {},
                    }
                    b = b + 1;
                }
                proof {
                    let cc = children_counts(children@, 256);
                    lemma_children_counts_nonneg(children@, 256);
                    assert(sat(sat(s0.internal_nodes + 1) + cc.inner) == sat(s0.internal_nodes + 1 + cc.inner));
                    assert(sat(sat(s0.total_items + own) + cc.entries) == sat(s0.total_items + own + cc.entries));
                }
            },
            Node::Radix { child, .. } => {
                let ghost s0 = *stats;
                stats.internal_nodes = stats.internal_nodes.saturating_add(1);
                child.collect_stats(stats);
                proof {
                    lemma_counts_nonneg(**child);
                    let ci = node_counts(**child).inner;
                    assert(sat(sat(s0.internal_nodes + 1) + ci) == sat(s0.internal_nodes + 1 + ci));
                }
            },
            Node::Leaf(bucket) => {
                let n = bucket.len();
                stats.leaf_nodes = stats.leaf_nodes.saturating_add(1);
                stats.total_items = stats.total_items.saturating_add(n);
                if n > stats.max_bucket_size {
                    stats.max_bucket_size = n;
                }
            },
        }
    }
}


/// How many leading bytes of `k` the branching and radix nodes take up on
/// the way down to the leaf, or the branching node, where `k` is held.
pub open spec fn path_len<V>(n: Node<V>, k: Seq<u8>) -> nat
    decreases n,
{
    match n {
        Node::Internal { children, .. } => {
            if k.len() == 0 {
                0
            } else if (k[0] as int) < children@.len() {
                match children@[k[0] as int] {
                    Some(c) => {
                        proof {
                            assert(decreases_to!(children => children@));
                        }
                        1 + path_len(c, k.drop_first())
                    },
                    None => 0,
                }
            } else {
                0
            }
        },
        Node::Radix { prefix, child } => {
            if has_prefix(k, prefix@) {
                prefix@.len() + path_len(*child, k.skip(prefix@.len() as int))
            } else {
                0
            }
        },
        Node::Leaf(_) => 0,
    }
}

impl<V> Node<V> {
    /// The length of the path, through branching and radix nodes, to where
    /// `key` is held.
    pub fn path_len_of(&self, key: &[u8]) -> (r: usize)
        requires
            self.wf(),
        ensures
            r == path_len(*self, key@),
            r <= key@.len(),
        decreases self,
    {
        match self {
            Node::Internal { children, .. } => {
                if key.len() == 0 {
                    return 0;
                }
                match &children[key[0] as usize] {
                    Some(child) => {
                        let rest = slice_subrange(key, 1, key.len());
                        proof {
                            assert(rest@ =~= key@.drop_first());
                            assert(decreases_to!(children => children@));
                        }
                        1 + child.path_len_of(rest)
                    },
                    None => 0,
                }
            },
            Node::Radix { prefix, child } => {
                if starts_with(key, prefix.as_slice()) {
                    let rest = slice_subrange(key, prefix.len(), key.len());
                    proof {
                        assert(rest@ =~= key@.skip(prefix@.len() as int));
                    }
                    prefix.len() + child.path_len_of(rest)
                } else {
                    0
                }
            },
            Node::Leaf(_) => 0,
        }
    }
}


/// `b` is a clone of the subtree `a`: when `a` is well formed, so is `b`,
/// and it holds the keys of `a`, each with a clone of `a`'s value.
pub open spec fn clone_of<V: Clone>(a: Node<V>, b: Node<V>) -> bool {
    node_wf(a) ==> {
        &&& node_wf(b)
        &&& same_leaves(a, b)
        &&& forall|k: Seq<u8>| #[trigger] node_get(b, k) is Some == node_get(a, k) is Some
        &&& forall|k: Seq<u8>| #[trigger] node_get(a, k) is Some ==> cloned::<V>(node_get(a, k)->0, node_get(b, k)->0)
    }
}

/// A child slot and its copy: both empty, or the copy is a clone.
pub open spec fn slot_clone_of<V: Clone>(a: Option<Node<V>>, b: Option<Node<V>>) -> bool {
    match (a, b) {
        (Some(x), Some(y)) => clone_of(x, y),
        (None, None) => true,
        _ => false,
    }
}

impl<V: Clone> Clone for Node<V> {
    /// A copy of the subtree, node by node.
    fn clone(&self) -> (r: Self)
        ensures
            clone_of(*self, r),
        decreases self,
    {
        match self {
            Node::Internal { children, value } => {
                let mut copies: Vec<Option<Node<V>>> = Vec::new();
                let mut i: usize = 0;
                proof {
                    assert(decreases_to!(self => children@));
                }
                while i < children.len()
                    invariant
                        i <= children@.len(),
                        *self is Internal,
                        children == self->children,
                        copies@.len() == i,
                        forall|j: int| 0 <= j < i ==> slot_clone_of(children@[j], #[trigger] copies@[j]),
                    decreases children@.len() - i,
                {
                    let copy = match &children[i] {
                        Some(c) => Some(c.clone()),
                        None => None,
                    };
                    copies.push(copy);
                    i = i + 1;
                }
                let value_copy = match value {
                    Some(v) => Some(v.clone()),
                    None => None,
                };
                let r = Node::Internal { children: copies, value: value_copy };
                proof {
                    if node_wf(*self) {
                        assert forall|j: int| 0 <= j < 256 implies match #[trigger] copies@[j] {
                            Some(c) => node_wf(c),
                            None => true,
                        } by {
                            assert(slot_clone_of(children@[j], copies@[j]));
                            assert(match children@[j] {
                                Some(c) => node_wf(c),
                                None => true,
                            });
                        }
                        assert forall|j: int| 0 <= j < children@.len() implies match (#[trigger] children@[j], copies@[j]) {
                            (Some(x), Some(y)) => same_leaves(x, y),
                            (None, None) => true,
                            _ => false,
                        } by {
                            assert(slot_clone_of(children@[j], copies@[j]));
                            assert(match children@[j] {
                                Some(c) => node_wf(c),
                                None => true,
                            });
                        }
                        assert forall|k: Seq<u8>| #[trigger] node_get(r, k) is Some == node_get(*self, k) is Some && (node_get(
                            *self,
                            k,
                        ) is Some ==> cloned::<V>(node_get(*self, k)->0, node_get(r, k)->0)) by {
                            if k.len() > 0 && (k[0] as int) < 256 {
                                let j = k[0] as int;
                                assert(slot_clone_of(children@[j], copies@[j]));
                                assert(match children@[j] {
                                    Some(c) => node_wf(c),
                                    None => true,
                                });
                                match children@[j] {
                                    Some(c) => {
                                        let d = copies@[j]->0;
                                        assert(node_get(d, k.drop_first()) is Some == node_get(c, k.drop_first()) is Some);
                                    },
                                    None => {},
                                }
                            }
                        }
                    }
                }
                r
            },
            Node::Radix { prefix, child } => {
                let copy = (**child).clone();
                let r = Node::Radix { prefix: crate::walk::copy_bytes(prefix.as_slice()), child: Box::new(copy) };
                proof {
                    if node_wf(*self) {
                        assert forall|k: Seq<u8>| #[trigger] node_get(r, k) is Some == node_get(*self, k) is Some && (node_get(
                            *self,
                            k,
                        ) is Some ==> cloned::<V>(node_get(*self, k)->0, node_get(r, k)->0)) by {
                            if has_prefix(k, prefix@) {
                                assert(node_get(copy, k.skip(prefix@.len() as int)) is Some == node_get(
                                    **child,
                                    k.skip(prefix@.len() as int),
                                ) is Some);
                            }
                        }
                    }
                }
                r
            },
            Node::Leaf(leaf) => {
                let r = Node::Leaf(leaf.clone());
                proof {
                    if node_wf(*self) {
                        assert forall|k: Seq<u8>| #[trigger] node_get(r, k) is Some == node_get(*self, k) is Some by {
                            assert(r->0@.dom().contains(k) == leaf@.dom().contains(k));
                        }
                    }
                }
                r
            },
        }
    }
}

} // verus!
