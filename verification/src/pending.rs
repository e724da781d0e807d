//! The work left in a walk in key order: a stack of subtrees still to be
//! walked, each with the path that reaches it, of single entries, and of
//! leaves whose sorted entries are handed out one by one. The top of the
//! stack holds the smallest keys, so the next entry of the walk is found by
//! opening subtrees at the top until an entry comes up. A seek to a start
//! key fills the stack with only the parts on the right of the key.
use vstd::prelude::*;

use crate::keys::{
    has_prefix, lemma_lex_irreflexive, lemma_lex_total, lemma_lex_transitive, lemma_sorted_push,
    lex_le, lex_lt, strictly_sorted,
};
use crate::entries::pairs_map;
use crate::leaf::{ref_keys, ref_vals, ArrayHash};
use crate::node::{children_counts, lemma_children_counts_nonneg, lemma_counts_nonneg, node_counts, node_view, node_wf, Node};
use crate::walk::{
    append_bytes, below_branch, concat_bytes, copy_bytes, lemma_below_branch_lt, lemma_internal_prefix_map,
    lemma_leaf_walk_setup, lemma_radix_prefix_map, prefix_map, sorted_items,
};

verus! {

/// A piece of pending work: a subtree reached through a path, an entry, or
/// the entries of a leaf reached through a path, as suffixes sorted by key,
/// from a position on.
pub enum Pending<'a, V> {
    Subtree(&'a Node<V>, Vec<u8>),
    Entry(Vec<u8>, &'a V),
    Leaf(Vec<u8>, Vec<(&'a [u8], &'a V)>, usize),
}

/// The entries of the sorted suffixes `items` from position `i` on, under
/// the path `p`.
pub open spec fn leaf_rest<'a, V>(p: Seq<u8>, items: Seq<(&'a [u8], &'a V)>, i: int) -> Map<Seq<u8>, V> {
    prefix_map(pairs_map(ref_keys(items).skip(i), ref_vals(items).skip(i)), p)
}

/// The entries a piece of work stands for.
pub open spec fn pending_map<'a, V>(p: Pending<'a, V>) -> Map<Seq<u8>, V> {
    match p {
        Pending::Subtree(n, path) => prefix_map(node_view(*n), path@),
        Pending::Entry(k, v) => map![k@ => *v],
        Pending::Leaf(path, items, i) => leaf_rest(path@, items@, i as int),
    }
}

/// The number of trie nodes a piece of work still has to open.
pub open spec fn pending_size<'a, V>(p: Pending<'a, V>) -> int {
    match p {
        Pending::Subtree(n, _) => node_counts(*n).inner + node_counts(*n).leaves,
        Pending::Entry(..) => 0,
        Pending::Leaf(..) => 0,
    }
}

pub open spec fn pending_ok<'a, V>(p: Pending<'a, V>) -> bool {
    match p {
        Pending::Subtree(n, _) => node_wf(*n),
        Pending::Entry(..) => true,
        Pending::Leaf(_, items, i) => strictly_sorted(ref_keys(items@)) && i < items@.len(),
    }
}

/// The entries a stack of work stands for.
pub open spec fn stack_map<'a, V>(s: Seq<Pending<'a, V>>) -> Map<Seq<u8>, V>
    decreases s.len(),
{
    if s.len() == 0 {
        Map::empty()
    } else {
        stack_map(s.drop_last()).union_prefer_right(pending_map(s.last()))
    }
}

/// The number of trie nodes a stack of work still has to open.
pub open spec fn stack_size<'a, V>(s: Seq<Pending<'a, V>>) -> int
    decreases s.len(),
{
    if s.len() == 0 {
        0
    } else {
        stack_size(s.drop_last()) + pending_size(s.last())
    }
}

/// Every key of a higher piece of work comes before every key of a lower one.
pub open spec fn stack_ordered<'a, V>(s: Seq<Pending<'a, V>>) -> bool {
    forall|i: int, j: int, x: Seq<u8>, y: Seq<u8>|
        0 <= i < j < s.len() && #[trigger] pending_map(s[j]).contains_key(x)
            && #[trigger] pending_map(s[i]).contains_key(y) ==> lex_lt(x, y)
}

/// Every piece of a stack is well formed, and the stack is ordered.
pub open spec fn stack_sound<'a, V>(s: Seq<Pending<'a, V>>) -> bool {
    &&& forall|i: int| 0 <= i < s.len() ==> pending_ok(#[trigger] s[i])
    &&& stack_ordered(s)
}

/// A stack of work that a walk can go on from.
pub open spec fn stack_ok<'a, V>(s: Seq<Pending<'a, V>>) -> bool {
    &&& stack_sound(s)
    &&& stack_map(s).dom().finite()
}

/// The keys of a finite set, in ascending order.
pub open spec fn sorted_keys(s: Set<Seq<u8>>) -> Seq<Seq<u8>> {
    choose|ks: Seq<Seq<u8>>| strictly_sorted(ks) && forall|k: Seq<u8>| ks.contains(k) <==> s.contains(k)
}

/// A key is in the map of a stack exactly when it is in the map of one of
/// its pieces, and then it has that piece's value.
pub proof fn lemma_stack_map_contains<'a, V>(s: Seq<Pending<'a, V>>, k: Seq<u8>)
    requires
        stack_ordered(s),
    ensures
        stack_map(s).contains_key(k) <==> exists|i: int|
            0 <= i < s.len() && #[trigger] pending_map(s[i]).contains_key(k),
        forall|i: int|
            0 <= i < s.len() && #[trigger] pending_map(s[i]).contains_key(k) ==> stack_map(s)[k]
                == pending_map(s[i])[k],
    decreases s.len(),
{
    if s.len() > 0 {
        let t = s.drop_last();
        assert(stack_ordered(t)) by {
            assert forall|i: int, j: int, x: Seq<u8>, y: Seq<u8>|
                0 <= i < j < t.len() && #[trigger] pending_map(t[j]).contains_key(x)
                    && #[trigger] pending_map(t[i]).contains_key(y) implies lex_lt(x, y) by {
                assert(pending_map(s[j]).contains_key(x));
                assert(pending_map(s[i]).contains_key(y));
            }
        }
        lemma_stack_map_contains(t, k);
        assert forall|i: int| 0 <= i < s.len() && #[trigger] pending_map(s[i]).contains_key(k) implies stack_map(s).contains_key(k) by {
            if i < s.len() - 1 {
                assert(t[i] == s[i]);
                assert(pending_map(t[i]).contains_key(k));
            }
        }
        if stack_map(s).contains_key(k) {
            if pending_map(s.last()).contains_key(k) {
                assert(pending_map(s[s.len() - 1]).contains_key(k));
            } else {
                let i = choose|i: int| 0 <= i < t.len() && #[trigger] pending_map(t[i]).contains_key(k);
                assert(pending_map(s[i]).contains_key(k));
            }
        }
        assert forall|i: int|
            0 <= i < s.len() && #[trigger] pending_map(s[i]).contains_key(k) implies stack_map(s)[k]
                == pending_map(s[i])[k] by {
            if i < s.len() - 1 {
                assert(pending_map(t[i]).contains_key(k));
                if pending_map(s.last()).contains_key(k) {
                    assert(pending_map(s[s.len() - 1]).contains_key(k));
                    assert(lex_lt(k, k));
                    lemma_lex_irreflexive(k);
                }
            }
        }
    }
}

/// Pushing work whose keys come before all keys of the stack keeps it
/// ordered.
pub proof fn lemma_push_ordered<'a, V>(s: Seq<Pending<'a, V>>, p: Pending<'a, V>)
    requires
        stack_ordered(s),
        forall|x: Seq<u8>, y: Seq<u8>|
            #[trigger] pending_map(p).contains_key(x) && #[trigger] stack_map(s).contains_key(y) ==> lex_lt(x, y),
    ensures
        stack_ordered(s.push(p)),
{
    let n = s.push(p);
    assert forall|i: int, j: int, x: Seq<u8>, y: Seq<u8>|
        0 <= i < j < n.len() && #[trigger] pending_map(n[j]).contains_key(x)
            && #[trigger] pending_map(n[i]).contains_key(y) implies lex_lt(x, y) by {
        assert(n[i] == s[i]);
        if j == s.len() {
            lemma_stack_map_contains(s, y);
            assert(stack_map(s).contains_key(y));
        } else {
            assert(n[j] == s[j]);
        }
    }
}

/// Popping keeps a stack ordered.
pub proof fn lemma_pop_ordered<'a, V>(s: Seq<Pending<'a, V>>)
    requires
        stack_ordered(s),
        s.len() > 0,
    ensures
        stack_ordered(s.drop_last()),
        forall|x: Seq<u8>, y: Seq<u8>|
            #[trigger] pending_map(s.last()).contains_key(x) && #[trigger] stack_map(s.drop_last()).contains_key(y)
                ==> lex_lt(x, y),
{
    let t = s.drop_last();
    assert forall|i: int, j: int, x: Seq<u8>, y: Seq<u8>|
        0 <= i < j < t.len() && #[trigger] pending_map(t[j]).contains_key(x)
            && #[trigger] pending_map(t[i]).contains_key(y) implies lex_lt(x, y) by {
        assert(pending_map(s[j]).contains_key(x));
        assert(pending_map(s[i]).contains_key(y));
    }
    assert forall|x: Seq<u8>, y: Seq<u8>|
        #[trigger] pending_map(s.last()).contains_key(x) && #[trigger] stack_map(t).contains_key(y) implies lex_lt(x, y) by {
        lemma_stack_map_contains(t, y);
        let i = choose|i: int| 0 <= i < t.len() && #[trigger] pending_map(t[i]).contains_key(y);
        assert(pending_map(s[i]).contains_key(y));
        assert(pending_map(s[s.len() - 1]).contains_key(x));
    }
}

/// A finite nonempty set of keys has a largest key.
proof fn lemma_largest_key(s: Set<Seq<u8>>) -> (m: Seq<u8>)
    requires
        s.finite(),
        s.len() > 0,
    ensures
        s.contains(m),
        forall|k: Seq<u8>| s.contains(k) && k != m ==> lex_lt(k, m),
    decreases s.len(),
{
    let x = s.choose();
    let r = s.remove(x);
    if r.len() == 0 {
        assert forall|k: Seq<u8>| s.contains(k) && k != x implies lex_lt(k, x) by {
            assert(r.contains(k));
        }
        x
    } else {
        let m2 = lemma_largest_key(r);
        lemma_lex_total(x, m2);
        if lex_lt(x, m2) {
            assert forall|k: Seq<u8>| s.contains(k) && k != m2 implies lex_lt(k, m2) by {
                if k != x {
                    assert(r.contains(k));
                }
            }
            m2
        } else {
            assert forall|k: Seq<u8>| s.contains(k) && k != x implies lex_lt(k, x) by {
                assert(r.contains(k));
                if k != m2 {
                    lemma_lex_transitive(k, m2, x);
                }
            }
            x
        }
    }
}

/// A finite set of keys can be listed in ascending order.
proof fn lemma_sorted_listing(s: Set<Seq<u8>>) -> (ks: Seq<Seq<u8>>)
    requires
        s.finite(),
    ensures
        strictly_sorted(ks),
        forall|k: Seq<u8>| ks.contains(k) <==> s.contains(k),
    decreases s.len(),
{
    if s.len() == 0 {
        assert forall|k: Seq<u8>| !s.contains(k) by {
            if s.contains(k) {
                assert(s.remove(k).len() < s.len());
            }
        }
        Seq::empty()
    } else {
        let m = lemma_largest_key(s);
        let r = s.remove(m);
        let ks2 = lemma_sorted_listing(r);
        if ks2.len() > 0 {
            assert(ks2.contains(ks2.last()));
        }
        lemma_sorted_push(ks2, m);
        let ks = ks2.push(m);
        assert forall|k: Seq<u8>| ks.contains(k) <==> s.contains(k) by {
            if ks.contains(k) && k != m {
                let i = choose|i: int| 0 <= i < ks.len() && ks[i] == k;
                assert(ks2[i] == k);
            }
            if s.contains(k) && k != m {
                assert(r.contains(k));
                let i = choose|i: int| 0 <= i < ks2.len() && ks2[i] == k;
                assert(ks[i] == k);
            }
            if k == m {
                assert(ks[ks.len() - 1] == m);
            }
        }
        ks
    }
}

/// What `sorted_keys` lists.
pub proof fn lemma_sorted_keys(s: Set<Seq<u8>>)
    requires
        s.finite(),
    ensures
        strictly_sorted(sorted_keys(s)),
        forall|k: Seq<u8>| sorted_keys(s).contains(k) <==> s.contains(k),
{
    let ks = lemma_sorted_listing(s);
    assert(strictly_sorted(ks) && forall|k: Seq<u8>| ks.contains(k) <==> s.contains(k));
}

/// Taking the smallest key out of a set takes the first key out of its
/// listing.
pub proof fn lemma_sorted_keys_remove_least(s: Set<Seq<u8>>, k: Seq<u8>)
    requires
        s.finite(),
        s.contains(k),
        forall|y: Seq<u8>| s.contains(y) && y != k ==> lex_lt(k, y),
    ensures
        sorted_keys(s).len() > 0,
        sorted_keys(s)[0] == k,
        sorted_keys(s.remove(k)) == sorted_keys(s).drop_first(),
{
    let ks = sorted_keys(s);
    lemma_sorted_keys(s);
    lemma_sorted_keys(s.remove(k));
    assert(ks.contains(k));
    let i = choose|i: int| 0 <= i < ks.len() && ks[i] == k;
    if i > 0 {
        assert(lex_lt(ks[0], ks[i]));
        assert(ks.contains(ks[0]));
        assert(lex_lt(k, ks[0]));
        lemma_lex_transitive(k, ks[0], k);
        lemma_lex_irreflexive(k);
    }
    let rest = ks.drop_first();
    assert(strictly_sorted(rest)) by {
        assert forall|a: int, b: int| 0 <= a < b < rest.len() implies lex_lt(#[trigger] rest[a], #[trigger] rest[b]) by {
            assert(rest[a] == ks[a + 1]);
            assert(rest[b] == ks[b + 1]);
        }
    }
    assert forall|y: Seq<u8>| rest.contains(y) <==> sorted_keys(s.remove(k)).contains(y) by {
        if rest.contains(y) {
            let a = choose|a: int| 0 <= a < rest.len() && rest[a] == y;
            assert(ks[a + 1] == y);
            assert(ks.contains(y));
            if y == k {
                assert(lex_lt(ks[0], ks[a + 1]));
                lemma_lex_irreflexive(k);
            }
        }
        if s.remove(k).contains(y) {
            assert(ks.contains(y));
            let a = choose|a: int| 0 <= a < ks.len() && ks[a] == y;
            assert(a != 0);
            assert(rest[a - 1] == y);
        }
    }
    crate::entries::lemma_sorted_same_elements(rest, sorted_keys(s.remove(k)));
}

/// The position of the first suffix in a sorted list that is not below
/// `bound` (above it when `strict`).
fn first_kept<'a, V>(items: &Vec<(&'a [u8], &'a V)>, bound: &[u8], strict: bool) -> (start: usize)
    requires
        strictly_sorted(ref_keys(items@)),
    ensures
        start <= items@.len(),
        forall|u: int| 0 <= u < start ==> !from_target(#[trigger] ref_keys(items@)[u], bound@, strict),
        forall|u: int| start <= u < items@.len() ==> from_target(#[trigger] ref_keys(items@)[u], bound@, strict),
{
    let ghost ks = ref_keys(items@);
    let mut start: usize = 0;
    while start < items.len()
        invariant
            ks == ref_keys(items@),
            ks.len() == items@.len(),
            start <= ks.len(),
            forall|u: int| 0 <= u < start ==> !from_target(#[trigger] ks[u], bound@, strict),
        ensures
            start <= ks.len(),
            forall|u: int| 0 <= u < start ==> !from_target(#[trigger] ks[u], bound@, strict),
            start < ks.len() ==> from_target(ks[start as int], bound@, strict),
        decreases ks.len() - start,
    {
        let below = match crate::keys::compare_keys(items[start].0, bound) {
            crate::keys::KeyOrder::Less => true,
            crate::keys::KeyOrder::Equal => strict,
            crate::keys::KeyOrder::Greater => false,
        };
        proof {
            assert(items@[start as int].0@ == ks[start as int]);
            lemma_lex_total(ks[start as int], bound@);
        }
        if !below {
            break;
        }
        start = start + 1;
    }
    proof {
        assert forall|u: int| start <= u < ks.len() implies from_target(#[trigger] ks[u], bound@, strict) by {
            if u > start {
                assert(lex_lt(ks[start as int], ks[u]));
                lemma_lex_total(bound@, ks[start as int]);
                if ks[start as int] != bound@ {
                    lemma_lex_transitive(bound@, ks[start as int], ks[u]);
                }
            }
        }
    }
    start
}

/// Which entries of a leaf seen from path `p` are kept by a seek to
/// `p + bound`: those of the sorted suffixes from position `start` on.
proof fn lemma_kept_suffixes<V>(
    lm: Map<Seq<u8>, V>,
    ks: Seq<Seq<u8>>,
    vs: Seq<V>,
    p: Seq<u8>,
    bound: Seq<u8>,
    strict: bool,
    start: int,
)
    requires
        strictly_sorted(ks),
        ks.len() == vs.len(),
        pairs_map(ks, vs) == lm,
        0 <= start <= ks.len(),
        forall|u: int| 0 <= u < start ==> !from_target(#[trigger] ks[u], bound, strict),
        forall|u: int| start <= u < ks.len() ==> from_target(#[trigger] ks[u], bound, strict),
    ensures
        forall|u: int| 0 <= u < ks.len() ==> (#[trigger] seek_map(prefix_map(lm, p), p + bound, strict).contains_key(p + ks[u]) <==> u >= start),
        forall|k: Seq<u8>| #[trigger] seek_map(prefix_map(lm, p), p + bound, strict).contains_key(k) ==> exists|u: int| start <= u < ks.len() && k == p + ks[u],
{
    let m = prefix_map(lm, p);
    let sel = seek_map(m, p + bound, strict);
    lemma_leaf_walk_setup(lm, ks, vs, p);
    assert forall|u: int| 0 <= u < ks.len() implies (#[trigger] sel.contains_key(p + ks[u]) <==> u >= start) by {
        crate::keys::lemma_lex_append(p, bound, ks[u]);
        if p + ks[u] == p + bound {
            assert(ks[u] =~= (p + ks[u]).skip(p.len() as int));
            assert(bound =~= (p + bound).skip(p.len() as int));
        }
    }
    assert forall|k: Seq<u8>| #[trigger] sel.contains_key(k) implies exists|u: int| start <= u < ks.len() && k == p + ks[u] by {
        let u = choose|u: int| 0 <= u < ks.len() && k == p + ks[u];
        assert(sel.contains_key(p + ks[u]));
    }
}

/// Pushes the entries of a leaf reached through `path` whose suffixes are
/// not below `bound` (above it when `strict`), the smallest key on top;
/// their keys all come before the keys already on the stack.
fn push_leaf<'a, V>(
    stack: &mut Vec<Pending<'a, V>>,
    leaf: &'a ArrayHash<V>,
    path: &Vec<u8>,
    bound: &[u8],
    strict: bool,
)
    requires
        leaf.wf(),
        stack_sound(old(stack)@),
        forall|x: Seq<u8>, y: Seq<u8>|
            #[trigger] prefix_map(leaf@, path@).contains_key(x) && #[trigger] stack_map(old(stack)@).contains_key(y)
                ==> lex_lt(x, y),
    ensures
        forall|i: int| 0 <= i < final(stack)@.len() ==> pending_ok(#[trigger] final(stack)@[i]),
        stack_ordered(final(stack)@),
        stack_map(final(stack)@) == stack_map(old(stack)@).union_prefer_right(
            seek_map(prefix_map(leaf@, path@), path@ + bound@, strict),
        ),
        stack_size(final(stack)@) == stack_size(old(stack)@),
{
    let ghost base = stack@;
    let ghost p = path@;
    let ghost m = prefix_map(leaf@, p);
    let items = sorted_items(leaf);
    let ghost ks = ref_keys(items@);
    let ghost vs = ref_vals(items@);
    let ghost t = p + bound@;
    let ghost sel = seek_map(m, t, strict);
    proof {
        lemma_leaf_walk_setup(leaf@, ks, vs, p);
    }
    let start = first_kept(&items, bound, strict);
    proof {
        lemma_kept_suffixes(leaf@, ks, vs, p, bound@, strict, start as int);
        lemma_leaf_rest(p, items@, start as int);
        assert(leaf_rest(p, items@, start as int) =~= sel) by {
            assert forall|k: Seq<u8>| #[trigger] leaf_rest(p, items@, start as int).contains_key(k) == sel.contains_key(k) by {
                if sel.contains_key(k) {
                    let u = choose|u: int| start <= u < ks.len() && k == p + ks[u];
                    assert(leaf_rest(p, items@, start as int).contains_key(p + ks[u]));
                }
                if leaf_rest(p, items@, start as int).contains_key(k) {
                    let u = choose|u: int| start <= u < ks.len() && k == p + #[trigger] ks[u];
                    assert(sel.contains_key(p + ks[u]));
                }
            }
            assert forall|k: Seq<u8>| #[trigger] sel.contains_key(k) implies leaf_rest(p, items@, start as int)[k] == sel[k] by {
                let u = choose|u: int| start <= u < ks.len() && k == p + ks[u];
                assert(leaf_rest(p, items@, start as int)[p + ks[u]] == vs[u]);
            }
        }
    }
    if start < items.len() {
        let copy = copy_bytes(path.as_slice());
        let ghost e = Pending::Leaf(copy, items, start);
        proof {
            assert(pending_map(e) == sel);
            assert forall|x: Seq<u8>, y: Seq<u8>|
                #[trigger] pending_map(e).contains_key(x) && #[trigger] stack_map(base).contains_key(y) implies lex_lt(x, y) by {
                assert(m.contains_key(x));
            }
            lemma_push_ordered(base, e);
        }
        stack.push(Pending::Leaf(copy, items, start));
        proof {
            let s1 = stack@;
            assert(s1.drop_last() =~= base);
            assert(s1.last() == e);
            assert forall|u: int| 0 <= u < s1.len() implies pending_ok(#[trigger] s1[u]) by {
                if u < base.len() {
                    assert(s1[u] == base[u]);
                }
            }
        }
    } else {
        proof {
            assert(sel =~= Map::<Seq<u8>, V>::empty()) by {
                assert forall|k: Seq<u8>| !#[trigger] sel.contains_key(k) by {
                    if sel.contains_key(k) {
                        let u = choose|u: int| start <= u < ks.len() && k == p + ks[u];
                    }
                }
            }
            assert(stack_map(base).union_prefer_right(sel) =~= stack_map(base));
        }
    }
}

/// Where the entries of a leaf frame are: the suffixes from position `i`
/// on, each under the path.
pub proof fn lemma_leaf_rest<'a, V>(p: Seq<u8>, items: Seq<(&'a [u8], &'a V)>, i: int)
    requires
        strictly_sorted(ref_keys(items)),
        0 <= i <= items.len(),
    ensures
        forall|u: int|
            i <= u < items.len() ==> leaf_rest(p, items, i).contains_key(p + #[trigger] ref_keys(items)[u])
                && leaf_rest(p, items, i)[p + ref_keys(items)[u]] == ref_vals(items)[u],
        forall|k: Seq<u8>| #[trigger] leaf_rest(p, items, i).contains_key(k) ==> exists|u: int|
            i <= u < items.len() && k == p + #[trigger] ref_keys(items)[u],
{
    let ks = ref_keys(items);
    let vs = ref_vals(items);
    let rk = ks.skip(i);
    let rv = vs.skip(i);
    assert(strictly_sorted(rk)) by {
        assert forall|a: int, b: int| 0 <= a < b < rk.len() implies lex_lt(#[trigger] rk[a], #[trigger] rk[b]) by {
            assert(rk[a] == ks[i + a]);
            assert(rk[b] == ks[i + b]);
        }
    }
    lemma_leaf_walk_setup(pairs_map(rk, rv), rk, rv, p);
    assert forall|u: int| i <= u < items.len() implies leaf_rest(p, items, i).contains_key(p + #[trigger] ks[u])
        && leaf_rest(p, items, i)[p + ks[u]] == vs[u] by {
        assert(rk[u - i] == ks[u]);
        assert(rv[u - i] == vs[u]);
    }
    assert forall|k: Seq<u8>| #[trigger] leaf_rest(p, items, i).contains_key(k) implies exists|u: int|
        i <= u < items.len() && k == p + #[trigger] ks[u] by {
        let t = choose|t: int| 0 <= t < rk.len() && k == p + rk[t];
        assert(rk[t] == ks[i + t]);
    }
}

/// Taking the first entry off a leaf frame leaves the frame from the next
/// position on, whose keys all come after the one taken.
pub proof fn lemma_leaf_rest_step<'a, V>(p: Seq<u8>, items: Seq<(&'a [u8], &'a V)>, i: int)
    requires
        strictly_sorted(ref_keys(items)),
        0 <= i < items.len(),
    ensures
        leaf_rest(p, items, i) == leaf_rest(p, items, i + 1).insert(p + ref_keys(items)[i], ref_vals(items)[i]),
        forall|y: Seq<u8>| #[trigger] leaf_rest(p, items, i + 1).contains_key(y) ==> lex_lt(p + ref_keys(items)[i], y),
{
    let ks = ref_keys(items);
    let vs = ref_vals(items);
    let k0 = p + ks[i];
    lemma_leaf_rest(p, items, i);
    lemma_leaf_rest(p, items, i + 1);
    assert forall|y: Seq<u8>| #[trigger] leaf_rest(p, items, i + 1).contains_key(y) implies lex_lt(k0, y) by {
        let u = choose|u: int| i + 1 <= u < items.len() && y == p + #[trigger] ks[u];
        assert(lex_lt(ks[i], ks[u]));
        crate::keys::lemma_lex_append(p, ks[i], ks[u]);
    }
    let a = leaf_rest(p, items, i);
    let b = leaf_rest(p, items, i + 1).insert(k0, vs[i]);
    assert forall|k: Seq<u8>| #[trigger] a.contains_key(k) == b.contains_key(k) by {
        if a.contains_key(k) {
            let u = choose|u: int| i <= u < items.len() && k == p + #[trigger] ks[u];
            if u > i {
                assert(leaf_rest(p, items, i + 1).contains_key(p + ks[u]));
            }
        }
        if leaf_rest(p, items, i + 1).contains_key(k) {
            let u = choose|u: int| i + 1 <= u < items.len() && k == p + #[trigger] ks[u];
            assert(a.contains_key(p + ks[u]));
        }
    }
    assert forall|k: Seq<u8>| #[trigger] a.contains_key(k) implies a[k] == b[k] by {
        let u = choose|u: int| i <= u < items.len() && k == p + #[trigger] ks[u];
        if u > i {
            assert(leaf_rest(p, items, i + 1)[p + ks[u]] == vs[u]);
            if k == k0 {
                assert(lex_lt(ks[i], ks[u]));
                crate::keys::lemma_lex_append(p, ks[i], ks[u]);
                lemma_lex_irreflexive(k);
            }
        }
    }
    assert(a =~= b);
}

/// `k` is not below `t`, or is above it when `strict`.
pub open spec fn from_target(k: Seq<u8>, t: Seq<u8>, strict: bool) -> bool {
    if strict {
        lex_lt(t, k)
    } else {
        lex_le(t, k)
    }
}

/// The entries of `m` from `t` on (after `t` when `strict`).
pub open spec fn seek_map<V>(m: Map<Seq<u8>, V>, t: Seq<u8>, strict: bool) -> Map<Seq<u8>, V> {
    Map::new(|k: Seq<u8>| m.contains_key(k) && from_target(k, t, strict), |k: Seq<u8>| m[k])
}

/// The entries of `m` below the path `p` whose next byte is at least `b`.
pub open spec fn branches_from<V>(m: Map<Seq<u8>, V>, p: Seq<u8>, b: int) -> Map<Seq<u8>, V> {
    Map::new(
        |k: Seq<u8>| m.contains_key(k) && has_prefix(k, p) && k.len() > p.len() && k[p.len() as int] >= b,
        |k: Seq<u8>| m[k],
    )
}

/// The number of trie nodes under the first `i` children.
pub open spec fn children_size<V>(cs: Seq<Option<Node<V>>>, i: int) -> int {
    children_counts(cs, i).inner + children_counts(cs, i).leaves
}

/// Pushes the children of a branching node reached through `path` on the
/// bytes from `from` on, the child on the smallest byte on top; their keys
/// all come before the keys already on the stack.
fn push_branches<'a, V>(stack: &mut Vec<Pending<'a, V>>, node: &'a Node<V>, path: &Vec<u8>, from: usize)
    requires
        node_wf(*node),
        *node is Internal,
        from <= 256,
        stack_sound(old(stack)@),
        forall|x: Seq<u8>, y: Seq<u8>|
            #[trigger] prefix_map(node_view(*node), path@).contains_key(x) && #[trigger] stack_map(old(stack)@).contains_key(y)
                ==> lex_lt(x, y),
    ensures
        forall|i: int| 0 <= i < final(stack)@.len() ==> pending_ok(#[trigger] final(stack)@[i]),
        stack_ordered(final(stack)@),
        stack_map(final(stack)@) == stack_map(old(stack)@).union_prefer_right(
            branches_from(prefix_map(node_view(*node), path@), path@, from as int),
        ),
        stack_size(final(stack)@) == stack_size(old(stack)@) + children_size(node->children@, 256)
            - children_size(node->children@, from as int),
{
    let ghost base = stack@;
    let ghost p = path@;
    let ghost m = prefix_map(node_view(*node), p);
    let children = match node {
        Node::Internal { children, .. } => children,
        _ => {
            proof {
                assert(false);
            }
            return;
        },
    };
    let mut b: usize = 256;
    proof {
        assert(branches_from(m, p, 256) =~= Map::<Seq<u8>, V>::empty()) by {
            assert forall|k: Seq<u8>| !#[trigger] branches_from(m, p, 256).contains_key(k) by {}
        }
        assert(stack_map(base).union_prefer_right(branches_from(m, p, 256)) =~= stack_map(base));
    }
    while b > from
        invariant
            node_wf(*node),
            *node is Internal,
            from <= b,
            children == node->children,
            children@.len() == 256,
            path@ == p,
            m == prefix_map(node_view(*node), p),
            stack_sound(base),
            forall|x: Seq<u8>, y: Seq<u8>|
                #[trigger] m.contains_key(x) && #[trigger] stack_map(base).contains_key(y) ==> lex_lt(x, y),
            b <= 256,
            forall|t: int| 0 <= t < stack@.len() ==> pending_ok(#[trigger] stack@[t]),
            stack_ordered(stack@),
            stack_map(stack@) == stack_map(base).union_prefer_right(branches_from(m, p, b as int)),
            stack_size(stack@) == stack_size(base) + children_size(children@, 256) - children_size(children@, b as int),
        decreases b,
    {
        b = b - 1;
        let ghost s0 = stack@;
        let ghost up = branches_from(m, p, b + 1);
        let ghost now = branches_from(m, p, b as int);
        proof {
            assert(children_counts(children@, b + 1) == crate::node::add_counts(
                children_counts(children@, b as int),
                match children@[b as int] {
                    Some(c) => node_counts(c),
                    None => crate::node::zero_counts(),
                },
            ));
        }
        match &children[b] {
            Some(child) => {
                let child_path = {
                    let mut cp = copy_bytes(path.as_slice());
                    cp.push(b as u8);
                    cp
                };
                let ghost pb = p.push(b as u8);
                let ghost mc = prefix_map(node_view(*child), pb);
                let ghost e = Pending::Subtree(child, child_path);
                proof {
                    assert(child_path@ == pb);
                    assert(pending_map(e) == mc);
                    assert forall|k: Seq<u8>| #[trigger] mc.contains_key(k) implies m.contains_key(k) && m[k] == mc[k]
                        && has_prefix(k, p) && k.len() > p.len() && k[p.len() as int] == b by {
                        assert(has_prefix(k, pb));
                        assert(k.subrange(0, pb.len() as int)[p.len() as int] == b as u8);
                        assert(has_prefix(k, p)) by {
                            assert(k.subrange(0, p.len() as int) =~= p) by {
                                assert forall|j: int| 0 <= j < p.len() implies k.subrange(0, p.len() as int)[j] == p[j] by {
                                    assert(k.subrange(0, pb.len() as int)[j] == pb[j]);
                                }
                            }
                        }
                        lemma_internal_prefix_map(*node, p, k);
                        assert(k != p);
                    }
                    assert forall|k: Seq<u8>| #[trigger] m.contains_key(k) && has_prefix(k, p) && k.len() > p.len() && k[p.len() as int] == b
                        implies mc.contains_key(k) by {
                        lemma_internal_prefix_map(*node, p, k);
                        assert(has_prefix(k, pb)) by {
                            assert(k.subrange(0, pb.len() as int) =~= pb) by {
                                assert forall|j: int| 0 <= j < pb.len() implies k.subrange(0, pb.len() as int)[j] == pb[j] by {
                                    if j < p.len() {
                                        assert(k.subrange(0, p.len() as int)[j] == k[j]);
                                    }
                                }
                            }
                        }
                        assert(k != p);
                    }
                    assert forall|x: Seq<u8>, y: Seq<u8>|
                        #[trigger] pending_map(e).contains_key(x) && #[trigger] stack_map(s0).contains_key(y) implies lex_lt(x, y) by {
                        assert(mc.contains_key(x));
                        if stack_map(base).contains_key(y) {
                            assert(m.contains_key(x));
                        } else {
                            assert(up.contains_key(y));
                            assert(below_branch(x, p, b + 1));
                            lemma_below_branch_lt(x, y, p, b + 1);
                        }
                    }
                    lemma_push_ordered(s0, e);
                    lemma_counts_nonneg(*child);
                }
                stack.push(Pending::Subtree(child, child_path));
                proof {
                    let s1 = stack@;
                    assert(s1.drop_last() =~= s0);
                    assert(s1.last() == e);
                    assert forall|t: int| 0 <= t < s1.len() implies pending_ok(#[trigger] s1[t]) by {
                        if t < s0.len() {
                            assert(s1[t] == s0[t]);
                        } else {
                            assert(decreases_to!(*node => children@));
                        }
                    }
                    assert(stack_map(s1) =~= stack_map(base).union_prefer_right(now)) by {
                        assert forall|k: Seq<u8>| #[trigger] stack_map(s1).contains_key(k) <==> stack_map(base).union_prefer_right(now).contains_key(k) by {
                            if now.contains_key(k) && !up.contains_key(k) {
                                assert(k[p.len() as int] == b);
                                assert(mc.contains_key(k));
                            }
                        }
                        assert forall|k: Seq<u8>| #[trigger] stack_map(s1).contains_key(k) implies stack_map(s1)[k] == stack_map(base).union_prefer_right(now)[k] by {
                            if mc.contains_key(k) {
                                assert(now.contains_key(k));
                            }
                        }
                    }
                }
            },
            None => {
                proof {
                    assert(now =~= up) by {
                        assert forall|k: Seq<u8>| #[trigger] now.contains_key(k) implies up.contains_key(k) by {
                            if k[p.len() as int] == b {
                                lemma_internal_prefix_map(*node, p, k);
                                assert(k != p);
                            }
                        }
                    }
                }
            },
        }
    }
}

/// Opens the subtree `node`, reached through `path`, that was on top of
/// the stack: puts back its own entry and its children, or its leaf
/// entries, so that the smallest key is on top.
pub fn open_subtree<'a, V>(stack: &mut Vec<Pending<'a, V>>, node: &'a Node<V>, path: Vec<u8>)
    requires
        stack_ok(old(stack)@.push(Pending::Subtree(node, path))),
    ensures
        stack_ok(final(stack)@),
        stack_map(final(stack)@) == stack_map(old(stack)@.push(Pending::Subtree(node, path))),
        stack_size(final(stack)@) < stack_size(old(stack)@.push(Pending::Subtree(node, path))),
{
    let ghost base = stack@;
    let ghost full = base.push(Pending::Subtree(node, path));
    let ghost p = path@;
    let ghost m = prefix_map(node_view(*node), p);
    proof {
        lemma_pop_ordered(full);
        assert(full.drop_last() =~= base);
        assert(full.last() == Pending::Subtree(node, path));
        assert(pending_ok(full[full.len() - 1]));
        assert(node_wf(*node));
        assert forall|t: int| 0 <= t < base.len() implies pending_ok(#[trigger] base[t]) by {
            assert(full[t] == base[t]);
        }
        assert(stack_map(full) == stack_map(base).union_prefer_right(m));
        vstd::set_lib::lemma_len_subset(stack_map(base).dom(), stack_map(full).dom());
        assert(stack_ok(base));
        lemma_counts_nonneg(*node);
    }
    match node {
        Node::Internal { children, value } => {
            push_branches(stack, node, &path, 0);
            let ghost s0 = stack@;
            let ghost up = branches_from(m, p, 0);
            proof {
                lemma_children_counts_nonneg(children@, 256);
                assert(forall|k: Seq<u8>| #[trigger] m.contains_key(k) ==> has_prefix(k, p));
            }
            match value {
                Some(v) => {
                    let ghost e = Pending::Entry(path, v);
                    proof {
                        lemma_internal_prefix_map(*node, p, p);
                        assert(p.subrange(0, p.len() as int) =~= p);
                        assert(pending_map(e) =~= map![p => *v]);
                        assert forall|x: Seq<u8>, y: Seq<u8>|
                            #[trigger] pending_map(e).contains_key(x) && #[trigger] stack_map(s0).contains_key(y) implies lex_lt(x, y) by {
                            assert(x == p);
                            if stack_map(base).contains_key(y) {
                                assert(m.contains_key(p));
                            } else {
                                assert(up.contains_key(y));
                                crate::keys::lemma_has_prefix_split(y, p);
                                crate::keys::lemma_lex_proper_prefix(p, y.subrange(p.len() as int, y.len() as int));
                            }
                        }
                        lemma_push_ordered(s0, e);
                    }
                    stack.push(Pending::Entry(path, v));
                    proof {
                        let s1 = stack@;
                        assert(s1.drop_last() =~= s0);
                        assert(s1.last() == e);
                        assert forall|t: int| 0 <= t < s1.len() implies pending_ok(#[trigger] s1[t]) by {
                            if t < s0.len() {
                                assert(s1[t] == s0[t]);
                            }
                        }
                        assert(stack_map(s1) =~= stack_map(full)) by {
                            assert forall|k: Seq<u8>| #[trigger] stack_map(s1).contains_key(k) <==> stack_map(full).contains_key(k) by {
                                if m.contains_key(k) && k != p {
                                    lemma_internal_prefix_map(*node, p, k);
                                    assert(up.contains_key(k));
                                }
                            }
                            assert forall|k: Seq<u8>| #[trigger] stack_map(s1).contains_key(k) implies stack_map(s1)[k] == stack_map(full)[k] by {
                                if m.contains_key(k) && k != p {
                                    assert(up.contains_key(k));
                                }
                            }
                        }
                    }
                },
                None => {
                    proof {
                        assert(stack_map(s0) =~= stack_map(full)) by {
                            assert forall|k: Seq<u8>| #[trigger] stack_map(s0).contains_key(k) <==> stack_map(full).contains_key(k) by {
                                if m.contains_key(k) {
                                    lemma_internal_prefix_map(*node, p, k);
                                    assert(k != p);
                                    assert(up.contains_key(k));
                                }
                            }
                        }
                    }
                },
            }
        },
        Node::Radix { prefix, child } => {
            let child_path = concat_bytes(path.as_slice(), prefix.as_slice());
            let ghost e = Pending::Subtree(&**child, child_path);
            proof {
                lemma_radix_prefix_map(*node, p);
                assert(pending_map(e) == m);
                lemma_push_ordered(base, e);
                lemma_counts_nonneg(**child);
            }
            stack.push(Pending::Subtree(&**child, child_path));
            proof {
                let s1 = stack@;
                assert(s1.drop_last() =~= base);
                assert(s1.last() == e);
                assert forall|t: int| 0 <= t < s1.len() implies pending_ok(#[trigger] s1[t]) by {
                    if t < base.len() {
                        assert(s1[t] == base[t]);
                    }
                }
            }
        },
        Node::Leaf(leaf) => {
            let none: Vec<u8> = Vec::new();
            proof {
                assert(node_view(*node) =~= leaf@);
                assert(p + none@ =~= p);
                assert(seek_map(m, p, false) =~= m) by {
                    assert forall|k: Seq<u8>| #[trigger] m.contains_key(k) implies lex_le(p, k) by {
                        crate::keys::lemma_prefix_le(k, p);
                    }
                }
            }
            push_leaf(stack, leaf, &path, none.as_slice(), false);
        },
    }
}

/// Pushes the entries of the subtree `node`, reached through `path` (the
/// first `depth` bytes of `target`), that are not below `target` (that are
/// above it when `strict`). Goes down along `target`, pushing on the way
/// the branches to its right, so that the smallest key ends on top; the
/// keys pushed all come before the keys already on the stack.
pub fn seek_push<'a, V>(
    stack: &mut Vec<Pending<'a, V>>,
    node: &'a Node<V>,
    target: &[u8],
    depth: usize,
    path: Vec<u8>,
    strict: bool,
)
    requires
        node_wf(*node),
        depth <= target@.len(),
        path@ == target@.take(depth as int),
        stack_sound(old(stack)@),
        forall|x: Seq<u8>, y: Seq<u8>|
            #[trigger] prefix_map(node_view(*node), path@).contains_key(x) && #[trigger] stack_map(old(stack)@).contains_key(y)
                ==> lex_lt(x, y),
    ensures
        forall|i: int| 0 <= i < final(stack)@.len() ==> pending_ok(#[trigger] final(stack)@[i]),
        stack_ordered(final(stack)@),
        stack_map(final(stack)@) == stack_map(old(stack)@).union_prefer_right(
            seek_map(prefix_map(node_view(*node), path@), target@, strict),
        ),
    decreases *node,
{
    let ghost base = stack@;
    let ghost p = path@;
    let ghost t = target@;
    let ghost m = prefix_map(node_view(*node), p);
    let ghost sel = seek_map(m, t, strict);
    proof {
        assert(has_prefix(t, p)) by {
            assert(t.subrange(0, p.len() as int) =~= p);
        }
        if depth == t.len() {
            assert(p =~= t);
        }
        assert(forall|k: Seq<u8>| #[trigger] m.contains_key(k) ==> has_prefix(k, p));
    }
    match node {
        Node::Internal { children, .. } => {
            if depth == target.len() {
                if strict {
                    // every entry but the one at the path itself
                    push_branches(stack, node, &path, 0);
                    proof {
                        assert(branches_from(m, p, 0) =~= sel) by {
                            assert forall|k: Seq<u8>| #[trigger] sel.contains_key(k) implies branches_from(m, p, 0).contains_key(k) by {
                                lemma_internal_prefix_map(*node, p, k);
                                lemma_lex_irreflexive(k);
                            }
                            assert forall|k: Seq<u8>| #[trigger] branches_from(m, p, 0).contains_key(k) implies sel.contains_key(k) by {
                                crate::keys::lemma_has_prefix_split(k, p);
                                crate::keys::lemma_lex_proper_prefix(p, k.subrange(p.len() as int, k.len() as int));
                            }
                        }
                    }
                } else {
                    let ghost e = Pending::Subtree(node, path);
                    proof {
                        assert(sel =~= m) by {
                            assert forall|k: Seq<u8>| #[trigger] m.contains_key(k) implies lex_le(t, k) by {
                                crate::keys::lemma_prefix_le(k, p);
                            }
                        }
                        lemma_push_ordered(base, e);
                    }
                    stack.push(Pending::Subtree(node, path));
                    proof {
                        let s1 = stack@;
                        assert(s1.drop_last() =~= base);
                        assert(s1.last() == e);
                        assert forall|u: int| 0 <= u < s1.len() implies pending_ok(#[trigger] s1[u]) by {
                            if u < base.len() {
                                assert(s1[u] == base[u]);
                            }
                        }
                    }
                }
                return;
            }
            let next = target[depth];
            let ghost pn = p.push(next);
            proof {
                assert(pn =~= t.take(depth as int + 1));
                // a kept key branches off at or above the target's next byte
                assert forall|k: Seq<u8>| #[trigger] m.contains_key(k) && lex_le(t, k) implies has_prefix(k, p)
                    && k.len() > p.len() && k[p.len() as int] >= next by {
                    lemma_internal_prefix_map(*node, p, k);
                    if k == p {
                        crate::keys::lemma_has_prefix_split(t, p);
                        crate::keys::lemma_lex_proper_prefix(p, t.subrange(p.len() as int, t.len() as int));
                        lemma_lex_total(t, p);
                    }
                    if k.len() > p.len() && has_prefix(k, p) && k[p.len() as int] < next {
                        assert forall|j: int| 0 <= j < p.len() implies k[j] == t[j] by {
                            assert(k.subrange(0, p.len() as int)[j] == k[j]);
                            assert(t.subrange(0, p.len() as int)[j] == t[j]);
                        }
                        crate::keys::lemma_lcp_unique(k, t, p.len() as int);
                        lemma_lex_total(k, t);
                    }
                }
                // a key that branches off above the target's next byte is kept
                assert forall|k: Seq<u8>| #[trigger] m.contains_key(k) && has_prefix(k, p) && k.len() > p.len()
                    && k[p.len() as int] > next implies lex_lt(t, k) by {
                    assert forall|j: int| 0 <= j < p.len() implies k[j] == t[j] by {
                        assert(k.subrange(0, p.len() as int)[j] == k[j]);
                        assert(t.subrange(0, p.len() as int)[j] == t[j]);
                    }
                    crate::keys::lemma_lcp_unique(t, k, p.len() as int);
                }
            }
            push_branches(stack, node, &path, next as usize + 1);
            let ghost s0 = stack@;
            let ghost right = branches_from(m, p, next + 1);
            proof {
                assert forall|k: Seq<u8>| #[trigger] right.contains_key(k) implies sel.contains_key(k) && sel[k] == right[k] by {
                    assert(lex_lt(t, k));
                }
            }
            match &children[next as usize] {
                Some(child) => {
                    let ghost mc = prefix_map(node_view(*child), pn);
                    let child_path = {
                        let mut cp = copy_bytes(path.as_slice());
                        cp.push(next);
                        cp
                    };
                    proof {
                        assert(decreases_to!(*node => children@));
                        assert(child_path@ == pn);
                        assert(node_wf(*child)) by {
                            assert(match children@[next as int] {
                                Some(c) => node_wf(c),
                                None => true,
                            });
                        }
                        assert forall|k: Seq<u8>| #[trigger] mc.contains_key(k) implies m.contains_key(k) && m[k] == mc[k]
                            && k.len() > p.len() && has_prefix(k, p) && k[p.len() as int] == next by {
                            assert(k.subrange(0, pn.len() as int)[p.len() as int] == next);
                            assert(has_prefix(k, p)) by {
                                assert(k.subrange(0, p.len() as int) =~= p) by {
                                    assert forall|j: int| 0 <= j < p.len() implies k.subrange(0, p.len() as int)[j] == p[j] by {
                                        assert(k.subrange(0, pn.len() as int)[j] == pn[j]);
                                    }
                                }
                            }
                            lemma_internal_prefix_map(*node, p, k);
                        }
                        assert forall|k: Seq<u8>| #[trigger] m.contains_key(k) && has_prefix(k, p) && k.len() > p.len()
                            && k[p.len() as int] == next implies mc.contains_key(k) by {
                            lemma_internal_prefix_map(*node, p, k);
                            assert(has_prefix(k, pn)) by {
                                assert(k.subrange(0, pn.len() as int) =~= pn) by {
                                    assert forall|j: int| 0 <= j < pn.len() implies k.subrange(0, pn.len() as int)[j] == pn[j] by {
                                        if j < p.len() {
                                            assert(k.subrange(0, p.len() as int)[j] == k[j]);
                                        }
                                    }
                                }
                            }
                            assert(k != p);
                        }
                        assert forall|x: Seq<u8>, y: Seq<u8>|
                            #[trigger] mc.contains_key(x) && #[trigger] stack_map(s0).contains_key(y) implies lex_lt(x, y) by {
                            assert(m.contains_key(x));
                            if !stack_map(base).contains_key(y) {
                                assert(right.contains_key(y));
                                assert(below_branch(x, p, next + 1));
                                lemma_below_branch_lt(x, y, p, next + 1);
                            }
                        }
                    }
                    seek_push(stack, child, target, depth + 1, child_path, strict);
                    proof {
                        let s1 = stack@;
                        let sc = seek_map(mc, t, strict);
                        assert(stack_map(s1) =~= stack_map(base).union_prefer_right(sel)) by {
                            assert forall|k: Seq<u8>| #[trigger] sel.contains_key(k) implies right.contains_key(k) || sc.contains_key(k) by {
                                if !right.contains_key(k) {
                                    assert(k[p.len() as int] == next);
                                    assert(mc.contains_key(k));
                                }
                            }
                            assert forall|k: Seq<u8>| #[trigger] sc.contains_key(k) implies sel.contains_key(k) && sel[k] == sc[k] by {
                                assert(mc.contains_key(k));
                            }
                            assert forall|k: Seq<u8>| #[trigger] stack_map(s1).contains_key(k) <==> stack_map(base).union_prefer_right(sel).contains_key(k) by {}
                            assert forall|k: Seq<u8>| #[trigger] stack_map(s1).contains_key(k) implies stack_map(s1)[k] == stack_map(base).union_prefer_right(sel)[k] by {
                                if sc.contains_key(k) {
                                    assert(sel.contains_key(k));
                                } else if right.contains_key(k) {
                                    assert(sel.contains_key(k));
                                }
                            }
                        }
                    }
                },
                None => {
                    proof {
                        assert(right =~= sel) by {
                            assert forall|k: Seq<u8>| #[trigger] sel.contains_key(k) implies right.contains_key(k) by {
                                lemma_internal_prefix_map(*node, p, k);
                            }
                        }
                    }
                },
            }
        },
        Node::Radix { prefix: rp, child } => {
            let rest = vstd::slice::slice_subrange(target, depth, target.len());
            let common = crate::keys::common_prefix_len(rp.as_slice(), rest);
            let ghost q = p + rp@;
            proof {
                lemma_radix_prefix_map(*node, p);
                crate::keys::lemma_lcp_props(rp@, rest@);
                assert(rest@ =~= t.skip(depth as int));
                crate::keys::lemma_has_prefix_split(t, p);
                assert forall|k: Seq<u8>| #[trigger] m.contains_key(k) implies has_prefix(k, q) by {}
            }
            if common == rp.len() {
                let child_path = concat_bytes(path.as_slice(), rp.as_slice());
                proof {
                    assert(q =~= t.take(depth + rp@.len())) by {
                        assert forall|j: int| 0 <= j < q.len() implies q[j] == t.take(depth + rp@.len())[j] by {
                            if j >= p.len() {
                                assert(rp@[j - p.len()] == rest@[j - p.len()]);
                            }
                        }
                    }
                }
                seek_push(stack, child, target, depth + rp.len(), child_path, strict);
                return;
            }
            // the target leaves the radix prefix at `common`
            let take_all = if common < rest.len() {
                rp[common] > rest[common]
            } else {
                true
            };
            proof {
                let c = common as int;
                assert forall|j: int| 0 <= j < p.len() + c implies q[j] == t[j] by {
                    if j >= p.len() {
                        assert(rp@[j - p.len()] == rest@[j - p.len()]);
                    }
                }
                if take_all {
                    assert(sel =~= m) by {
                        assert forall|k: Seq<u8>| #[trigger] m.contains_key(k) implies lex_lt(t, k) by {
                            assert forall|j: int| 0 <= j < p.len() + c implies t[j] == k[j] by {
                                assert(k.subrange(0, q.len() as int)[j] == q[j]);
                            }
                            assert(k[p.len() + c] == q[p.len() + c]) by {
                                assert(k.subrange(0, q.len() as int)[p.len() + c] == q[p.len() + c]);
                            }
                            crate::keys::lemma_lcp_unique(t, k, p.len() + c);
                        }
                    }
                } else {
                    assert(sel =~= Map::<Seq<u8>, V>::empty()) by {
                        assert forall|k: Seq<u8>| #[trigger] m.contains_key(k) implies !lex_le(t, k) by {
                            assert forall|j: int| 0 <= j < p.len() + c implies k[j] == t[j] by {
                                assert(k.subrange(0, q.len() as int)[j] == q[j]);
                            }
                            assert(k[p.len() + c] == q[p.len() + c]) by {
                                assert(k.subrange(0, q.len() as int)[p.len() + c] == q[p.len() + c]);
                            }
                            assert(t[p.len() + c] == rest@[c]);
                            crate::keys::lemma_lcp_unique(k, t, p.len() + c);
                            lemma_lex_total(k, t);
                        }
                    }
                }
            }
            if take_all {
                let ghost e = Pending::Subtree(node, path);
                proof {
                    lemma_push_ordered(base, e);
                }
                stack.push(Pending::Subtree(node, path));
                proof {
                    let s1 = stack@;
                    assert(s1.drop_last() =~= base);
                    assert(s1.last() == e);
                    assert forall|u: int| 0 <= u < s1.len() implies pending_ok(#[trigger] s1[u]) by {
                        if u < base.len() {
                            assert(s1[u] == base[u]);
                        }
                    }
                }
            } else {
                proof {
                    assert(stack_map(base).union_prefer_right(sel) =~= stack_map(base));
                }
            }
        },
        Node::Leaf(leaf) => {
            let rest = vstd::slice::slice_subrange(target, depth, target.len());
            proof {
                assert(node_view(*node) =~= leaf@);
                assert(rest@ =~= t.skip(depth as int));
                crate::keys::lemma_has_prefix_split(t, p);
                assert(p + rest@ =~= t);
            }
            push_leaf(stack, leaf, &path, rest, strict);
        },
    }
}

/// Takes the entry with the smallest key off the stack: opens subtrees at
/// the top until an entry comes up, writes its key into `key` (reusing the
/// buffer's room) and hands out its value.
pub fn pop_least<'a, V>(stack: &mut Vec<Pending<'a, V>>, key: &mut Vec<u8>) -> (r: Option<&'a V>)
    requires
        stack_ok(old(stack)@),
    ensures
        stack_ok(final(stack)@),
        match r {
            Some(v) => stack_map(old(stack)@) == stack_map(final(stack)@).insert(final(key)@, *v)
                && !stack_map(final(stack)@).contains_key(final(key)@) && forall|y: Seq<u8>|
                #[trigger] stack_map(final(stack)@).contains_key(y) ==> lex_lt(final(key)@, y),
            None => stack_map(old(stack)@) == Map::<Seq<u8>, V>::empty() && stack_map(final(stack)@)
                == stack_map(old(stack)@),
        },
{
    let ghost m0 = stack_map(stack@);
    loop
        invariant
            stack_ok(stack@),
            stack_map(stack@) == m0,
            m0 == stack_map(old(stack)@),
        decreases stack_size(stack@),
    {
        let ghost s = stack@;
        proof {
            lemma_stack_size_nonneg(s);
        }
        match stack.pop() {
            None => {
                proof {
                    assert(s.len() == 0);
                    assert(stack@ =~= s);
                    assert(m0 =~= Map::<Seq<u8>, V>::empty());
                }
                return None;
            },
            Some(Pending::Entry(k, v)) => {
                proof {
                    let rest = stack@;
                    assert(rest =~= s.drop_last());
                    assert(s.last() == Pending::Entry(k, v));
                    lemma_pop_ordered(s);
                    let mr = stack_map(rest);
                    assert(m0 == mr.union_prefer_right(map![k@ => *v]));
                    assert(!mr.contains_key(k@)) by {
                        if mr.contains_key(k@) {
                            assert(pending_map(s.last()).contains_key(k@));
                            lemma_lex_irreflexive(k@);
                        }
                    }
                    assert(m0 =~= mr.insert(k@, *v));
                    assert forall|y: Seq<u8>| #[trigger] mr.contains_key(y) implies lex_lt(k@, y) by {
                        assert(pending_map(s.last()).contains_key(k@));
                    }
                    vstd::set_lib::lemma_len_subset(mr.dom(), m0.dom());
                    assert forall|t: int| 0 <= t < rest.len() implies pending_ok(#[trigger] rest[t]) by {
                        assert(rest[t] == s[t]);
                    }
                }
                key.clear();
                append_bytes(key, k.as_slice());
                proof {
                    assert(key@ =~= k@);
                }
                return Some(v);
            },
            Some(Pending::Leaf(p, items, i)) => {
                let ghost rest = stack@;
                let ghost ks = ref_keys(items@);
                let ghost vs = ref_vals(items@);
                proof {
                    assert(s.last() == Pending::Leaf(p, items, i));
                    assert(pending_ok(s[s.len() - 1]));
                }
                let item = items[i];
                key.clear();
                append_bytes(key, p.as_slice());
                append_bytes(key, item.0);
                let ghost k0 = p@ + ks[i as int];
                proof {
                    assert(rest =~= s.drop_last());
                    assert(s.last() == Pending::Leaf(p, items, i));
                    assert(pending_ok(s[s.len() - 1]));
                    lemma_pop_ordered(s);
                    assert(key@ =~= k0);
                    assert(item.0@ == ks[i as int]);
                    assert(*item.1 == vs[i as int]);
                    lemma_leaf_rest_step(p@, items@, i as int);
                    assert forall|t: int| 0 <= t < rest.len() implies pending_ok(#[trigger] rest[t]) by {
                        assert(rest[t] == s[t]);
                    }
                    let mr = stack_map(rest);
                    assert(!mr.contains_key(k0)) by {
                        if mr.contains_key(k0) {
                            assert(pending_map(s.last()).contains_key(k0));
                            lemma_lex_irreflexive(k0);
                        }
                    }
                }
                if i < items.len() - 1 {
                    let ghost e = Pending::Leaf(p, items, (i + 1) as usize);
                    proof {
                        assert forall|x: Seq<u8>, y: Seq<u8>|
                            #[trigger] pending_map(e).contains_key(x) && #[trigger] stack_map(rest).contains_key(y) implies lex_lt(x, y) by {
                            assert(pending_map(s.last()).contains_key(x));
                        }
                        lemma_push_ordered(rest, e);
                    }
                    stack.push(Pending::Leaf(p, items, i + 1));
                    proof {
                        let s1 = stack@;
                        assert(s1.drop_last() =~= rest);
                        assert(s1.last() == e);
                        assert forall|t: int| 0 <= t < s1.len() implies pending_ok(#[trigger] s1[t]) by {
                            if t < rest.len() {
                                assert(s1[t] == rest[t]);
                            }
                        }
                        let mr = stack_map(rest);
                        let lr = leaf_rest(p@, items@, i + 1);
                        assert(stack_map(s1) == mr.union_prefer_right(lr));
                        assert(m0 =~= stack_map(s1).insert(k0, vs[i as int]));
                        assert forall|y: Seq<u8>| #[trigger] stack_map(s1).contains_key(y) implies lex_lt(k0, y) by {
                            if mr.contains_key(y) {
                                assert(pending_map(s.last()).contains_key(k0));
                            }
                        }
                        vstd::set_lib::lemma_len_subset(stack_map(s1).dom(), m0.dom());
                    }
                } else {
                    proof {
                        let mr = stack_map(rest);
                        assert(leaf_rest(p@, items@, i + 1) =~= Map::<Seq<u8>, V>::empty()) by {
                            assert forall|k: Seq<u8>| !#[trigger] leaf_rest(p@, items@, i + 1).contains_key(k) by {
                                lemma_leaf_rest(p@, items@, i + 1);
                            }
                        }
                        assert(m0 =~= mr.insert(k0, vs[i as int]));
                        assert forall|y: Seq<u8>| #[trigger] mr.contains_key(y) implies lex_lt(k0, y) by {
                            assert(pending_map(s.last()).contains_key(k0));
                        }
                        vstd::set_lib::lemma_len_subset(mr.dom(), m0.dom());
                    }
                }
                return Some(item.1);
            },
            Some(Pending::Subtree(n, p)) => {
                proof {
                    assert(s =~= stack@.push(Pending::Subtree(n, p)));
                }
                open_subtree(stack, n, p);
                proof {
                    lemma_stack_size_nonneg(stack@);
                }
            },
        }
    }
}

/// The count of nodes still to open is never negative.
pub proof fn lemma_stack_size_nonneg<'a, V>(s: Seq<Pending<'a, V>>)
    ensures
        stack_size(s) >= 0,
    decreases s.len(),
{
    if s.len() > 0 {
        lemma_stack_size_nonneg(s.drop_last());
        match s.last() {
            Pending::Subtree(n, _) => lemma_counts_nonneg(*n),
            Pending::Entry(..) => {},
            Pending::Leaf(..) => {},
        }
    }
}

} // verus!
