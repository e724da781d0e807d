//! The work left in a walk that takes the entries out of a trie in key
//! order: a stack of owned subtrees still to be opened, each with the path
//! that reaches it, and of owned entries; the smallest keys are on top.
use vstd::prelude::*;

use crate::entries::{lemma_pairs_map_insert, lemma_pairs_map_skip, lemma_sorted_insert, pairs_map};
use crate::keys::{
    compare_keys, has_prefix, lemma_lex_irreflexive, lemma_lex_total, lemma_lex_transitive, lex_lt,
    strictly_sorted, KeyOrder,
};
use crate::leaf::{pair_keys, pair_vals};
use crate::node::{children_counts, lemma_children_counts_nonneg, lemma_counts_nonneg, node_counts, node_view, node_wf, Node};
use crate::pending::{branches_from, children_size};
use crate::walk::{
    below_branch, concat_bytes, copy_bytes, lemma_below_branch_lt, lemma_internal_prefix_map,
    lemma_leaf_walk_setup, lemma_radix_prefix_map, prefix_map,
};

verus! {

/// A piece of pending work that owns what it stands for.
pub enum Owned<V> {
    Subtree(Node<V>, Vec<u8>),
    Entry(Vec<u8>, V),
}

/// The entries a piece of work stands for.
pub open spec fn owned_map<V>(p: Owned<V>) -> Map<Seq<u8>, V> {
    match p {
        Owned::Subtree(n, path) => prefix_map(node_view(n), path@),
        Owned::Entry(k, v) => map![k@ => v],
    }
}

/// The number of trie nodes a piece of work still has to open.
pub open spec fn owned_size<V>(p: Owned<V>) -> int {
    match p {
        Owned::Subtree(n, _) => node_counts(n).inner + node_counts(n).leaves,
        Owned::Entry(..) => 0,
    }
}

pub open spec fn owned_ok<V>(p: Owned<V>) -> bool {
    match p {
        Owned::Subtree(n, _) => node_wf(n),
        Owned::Entry(..) => true,
    }
}

/// The entries a stack of work stands for.
pub open spec fn owned_stack_map<V>(s: Seq<Owned<V>>) -> Map<Seq<u8>, V>
    decreases s.len(),
{
    if s.len() == 0 {
        Map::empty()
    } else {
        owned_stack_map(s.drop_last()).union_prefer_right(owned_map(s.last()))
    }
}

/// The number of trie nodes a stack of work still has to open.
pub open spec fn owned_stack_size<V>(s: Seq<Owned<V>>) -> int
    decreases s.len(),
{
    if s.len() == 0 {
        0
    } else {
        owned_stack_size(s.drop_last()) + owned_size(s.last())
    }
}

/// Every key of a higher piece of work comes before every key of a lower one.
pub open spec fn owned_stack_ordered<V>(s: Seq<Owned<V>>) -> bool {
    forall|i: int, j: int, x: Seq<u8>, y: Seq<u8>|
        0 <= i < j < s.len() && #[trigger] owned_map(s[j]).contains_key(x)
            && #[trigger] owned_map(s[i]).contains_key(y) ==> lex_lt(x, y)
}

/// A stack of work that a walk can go on from.
pub open spec fn owned_stack_ok<V>(s: Seq<Owned<V>>) -> bool {
    &&& forall|i: int| 0 <= i < s.len() ==> owned_ok(#[trigger] s[i])
    &&& owned_stack_ordered(s)
    &&& owned_stack_map(s).dom().finite()
}

/// A key is in the map of a stack exactly when it is in the map of one of
/// its pieces, and then it has that piece's value.
pub proof fn lemma_owned_stack_map_contains<V>(s: Seq<Owned<V>>, k: Seq<u8>)
    requires
        owned_stack_ordered(s),
    ensures
        owned_stack_map(s).contains_key(k) <==> exists|i: int|
            0 <= i < s.len() && #[trigger] owned_map(s[i]).contains_key(k),
        forall|i: int|
            0 <= i < s.len() && #[trigger] owned_map(s[i]).contains_key(k) ==> owned_stack_map(s)[k]
                == owned_map(s[i])[k],
    decreases s.len(),
{
    if s.len() > 0 {
        let t = s.drop_last();
        assert(owned_stack_ordered(t)) by {
            assert forall|i: int, j: int, x: Seq<u8>, y: Seq<u8>|
                0 <= i < j < t.len() && #[trigger] owned_map(t[j]).contains_key(x)
                    && #[trigger] owned_map(t[i]).contains_key(y) implies lex_lt(x, y) by {
                assert(owned_map(s[j]).contains_key(x));
                assert(owned_map(s[i]).contains_key(y));
            }
        }
        lemma_owned_stack_map_contains(t, k);
        assert forall|i: int| 0 <= i < s.len() && #[trigger] owned_map(s[i]).contains_key(k) implies owned_stack_map(s).contains_key(k) by {
            if i < s.len() - 1 {
                assert(t[i] == s[i]);
                assert(owned_map(t[i]).contains_key(k));
            }
        }
        if owned_stack_map(s).contains_key(k) {
            if owned_map(s.last()).contains_key(k) {
                assert(owned_map(s[s.len() - 1]).contains_key(k));
            } else {
                let i = choose|i: int| 0 <= i < t.len() && #[trigger] owned_map(t[i]).contains_key(k);
                assert(owned_map(s[i]).contains_key(k));
            }
        }
        assert forall|i: int|
            0 <= i < s.len() && #[trigger] owned_map(s[i]).contains_key(k) implies owned_stack_map(s)[k]
                == owned_map(s[i])[k] by {
            if i < s.len() - 1 {
                assert(owned_map(t[i]).contains_key(k));
                if owned_map(s.last()).contains_key(k) {
                    assert(owned_map(s[s.len() - 1]).contains_key(k));
                    assert(lex_lt(k, k));
                    lemma_lex_irreflexive(k);
                }
            }
        }
    }
}

/// Pushing work whose keys come before all keys of the stack keeps it
/// ordered.
pub proof fn lemma_owned_push_ordered<V>(s: Seq<Owned<V>>, p: Owned<V>)
    requires
        owned_stack_ordered(s),
        forall|x: Seq<u8>, y: Seq<u8>|
            #[trigger] owned_map(p).contains_key(x) && #[trigger] owned_stack_map(s).contains_key(y) ==> lex_lt(x, y),
    ensures
        owned_stack_ordered(s.push(p)),
{
    let n = s.push(p);
    assert forall|i: int, j: int, x: Seq<u8>, y: Seq<u8>|
        0 <= i < j < n.len() && #[trigger] owned_map(n[j]).contains_key(x)
            && #[trigger] owned_map(n[i]).contains_key(y) implies lex_lt(x, y) by {
        assert(n[i] == s[i]);
        if j == s.len() {
            lemma_owned_stack_map_contains(s, y);
            assert(owned_stack_map(s).contains_key(y));
        } else {
            assert(n[j] == s[j]);
        }
    }
}

/// Popping keeps a stack ordered, and the popped work comes first.
pub proof fn lemma_owned_pop_ordered<V>(s: Seq<Owned<V>>)
    requires
        owned_stack_ordered(s),
        s.len() > 0,
    ensures
        owned_stack_ordered(s.drop_last()),
        forall|x: Seq<u8>, y: Seq<u8>|
            #[trigger] owned_map(s.last()).contains_key(x) && #[trigger] owned_stack_map(s.drop_last()).contains_key(y)
                ==> lex_lt(x, y),
{
    let t = s.drop_last();
    assert forall|i: int, j: int, x: Seq<u8>, y: Seq<u8>|
        0 <= i < j < t.len() && #[trigger] owned_map(t[j]).contains_key(x)
            && #[trigger] owned_map(t[i]).contains_key(y) implies lex_lt(x, y) by {
        assert(owned_map(s[j]).contains_key(x));
        assert(owned_map(s[i]).contains_key(y));
    }
    assert forall|x: Seq<u8>, y: Seq<u8>|
        #[trigger] owned_map(s.last()).contains_key(x) && #[trigger] owned_stack_map(t).contains_key(y) implies lex_lt(x, y) by {
        lemma_owned_stack_map_contains(t, y);
        let i = choose|i: int| 0 <= i < t.len() && #[trigger] owned_map(t[i]).contains_key(y);
        assert(owned_map(s[i]).contains_key(y));
        assert(owned_map(s[s.len() - 1]).contains_key(x));
    }
}

/// The count of nodes still to open is never negative.
pub proof fn lemma_owned_stack_size_nonneg<V>(s: Seq<Owned<V>>)
    ensures
        owned_stack_size(s) >= 0,
    decreases s.len(),
{
    if s.len() > 0 {
        lemma_owned_stack_size_nonneg(s.drop_last());
        match s.last() {
            Owned::Subtree(n, _) => crate::node::lemma_counts_nonneg(n),
            Owned::Entry(..) => {},
        }
    }
}

/// Sorts owned entries with distinct keys by key.
pub fn sort_entries<V>(entries: Vec<(Vec<u8>, V)>) -> (r: Vec<(Vec<u8>, V)>)
    requires
        pair_keys(entries@).no_duplicates(),
    ensures
        strictly_sorted(pair_keys(r@)),
        pair_keys(r@).len() == pair_vals(r@).len(),
        pairs_map(pair_keys(r@), pair_vals(r@)) == pairs_map(pair_keys(entries@), pair_vals(entries@)),
{
    let ghost es = entries@;
    let ghost ks = pair_keys(es);
    let ghost vs = pair_vals(es);
    let mut src = entries;
    let mut out: Vec<(Vec<u8>, V)> = Vec::new();
    proof {
        assert(src@ =~= es.take(es.len() as int));
        assert(pair_keys(out@) =~= Seq::<Seq<u8>>::empty());
        assert(pair_vals(out@) =~= Seq::<V>::empty());
        assert(pairs_map(ks.skip(es.len() as int), vs.skip(es.len() as int)) =~= pairs_map(
            Seq::<Seq<u8>>::empty(),
            Seq::<V>::empty(),
        ));
        assert(pairs_map(pair_keys(out@), pair_vals(out@)) =~= pairs_map(Seq::<Seq<u8>>::empty(), Seq::<V>::empty()));
    }
    while src.len() > 0
        invariant
            ks == pair_keys(es),
            vs == pair_vals(es),
            ks.no_duplicates(),
            ks.len() == vs.len(),
            src@.len() <= es.len(),
            src@ == es.take(src@.len() as int),
            strictly_sorted(pair_keys(out@)),
            pair_keys(out@).len() == pair_vals(out@).len(),
            pairs_map(pair_keys(out@), pair_vals(out@)) == pairs_map(
                ks.skip(src@.len() as int),
                vs.skip(src@.len() as int),
            ),
            forall|t: int| 0 <= t < out@.len() ==> ks.skip(src@.len() as int).contains(#[trigger] pair_keys(out@)[t]),
        decreases src@.len(),
    {
        let ghost n = src@.len() as int;
        let item = src.pop().unwrap();
        let ghost ok = pair_keys(out@);
        let ghost ov = pair_vals(out@);
        proof {
            assert(es[n - 1] == item);
            assert(ks[n - 1] == item.0@);
            assert(vs[n - 1] == item.1);
            assert(src@ =~= es.take(n - 1));
        }
        // position: the first stored key above the new one
        let mut pos: usize = 0;
        while pos < out.len()
            invariant
                out@.len() == ok.len(),
                ok == pair_keys(out@),
                pos <= out@.len(),
                forall|t: int| 0 <= t < pos ==> lex_lt(#[trigger] ok[t], item.0@),
            ensures
                pos <= out@.len(),
                forall|t: int| 0 <= t < pos ==> lex_lt(#[trigger] ok[t], item.0@),
                pos < out@.len() ==> !lex_lt(ok[pos as int], item.0@),
            decreases out@.len() - pos,
        {
            match compare_keys(out[pos].0.as_slice(), item.0.as_slice()) {
                KeyOrder::Less => {
                    pos = pos + 1;
                },
                _ => {
                    break;
                },
            }
        }
        proof {
            // the new key is not among those already placed
            assert forall|t: int| 0 <= t < ok.len() implies ok[t] != item.0@ by {
                assert(ks.skip(n).contains(ok[t]));
                let u = choose|u: int| 0 <= u < ks.skip(n).len() && ks.skip(n)[u] == ok[t];
                assert(ks[n + u] == ok[t]);
            }
            if pos < ok.len() {
                lemma_lex_total(ok[pos as int], item.0@);
            }
            assert forall|t: int| pos <= t < ok.len() implies lex_lt(item.0@, #[trigger] ok[t]) by {
                lemma_lex_total(ok[pos as int], item.0@);
                if t > pos {
                    lemma_lex_transitive(item.0@, ok[pos as int], ok[t]);
                }
            }
            lemma_sorted_insert(ok, pos as int, item.0@);
            lemma_pairs_map_insert(ok, ov, pos as int, item.0@, item.1);
            lemma_pairs_map_skip(ks, vs, n - 1);
        }
        let ghost key = item.0@;
        let ghost val = item.1;
        out.insert(pos, item);
        proof {
            assert(pair_keys(out@) =~= ok.insert(pos as int, key));
            assert(pair_vals(out@) =~= ov.insert(pos as int, val));
            assert forall|t: int| 0 <= t < out@.len() implies ks.skip(n - 1).contains(#[trigger] pair_keys(out@)[t]) by {
                if t == pos {
                    assert(ks.skip(n - 1)[0] == key);
                } else {
                    let t0 = if t < pos { t } else { t - 1 };
                    assert(pair_keys(out@)[t] == ok[t0]);
                    let u = choose|u: int| 0 <= u < ks.skip(n).len() && ks.skip(n)[u] == ok[t0];
                    assert(ks.skip(n - 1)[u + 1] == ok[t0]);
                }
            }
        }
    }
    proof {
        assert(ks.skip(0) =~= ks);
        assert(vs.skip(0) =~= vs);
    }
    out
}

/// Pushes the entries of a drained leaf reached through `path`, given as
/// suffixes sorted by key, the smallest on top; their keys all come before
/// the keys already on the stack.
fn push_owned_leaf<V>(
    stack: &mut Vec<Owned<V>>,
    items: Vec<(Vec<u8>, V)>,
    Ghost(lm): Ghost<Map<Seq<u8>, V>>,
    path: &Vec<u8>,
)
    requires
        strictly_sorted(pair_keys(items@)),
        pair_keys(items@).len() == pair_vals(items@).len(),
        pairs_map(pair_keys(items@), pair_vals(items@)) == lm,
        owned_stack_ok(old(stack)@),
        forall|x: Seq<u8>, y: Seq<u8>|
            #[trigger] prefix_map(lm, path@).contains_key(x) && #[trigger] owned_stack_map(old(stack)@).contains_key(y)
                ==> lex_lt(x, y),
    ensures
        forall|i: int| 0 <= i < final(stack)@.len() ==> owned_ok(#[trigger] final(stack)@[i]),
        owned_stack_ordered(final(stack)@),
        owned_stack_map(final(stack)@) == owned_stack_map(old(stack)@).union_prefer_right(prefix_map(lm, path@)),
        owned_stack_size(final(stack)@) == owned_stack_size(old(stack)@),
{
    let ghost base = stack@;
    let ghost p = path@;
    let ghost m = prefix_map(lm, p);
    let ghost es = items@;
    let ghost ks = pair_keys(es);
    let ghost vs = pair_vals(es);
    proof {
        lemma_leaf_walk_setup(lm, ks, vs, p);
    }
    let mut items = items;
    let mut i: usize = items.len();
    while i > 0
        invariant
            ks == pair_keys(es),
            vs == pair_vals(es),
            strictly_sorted(ks),
            ks.len() == vs.len(),
            ks.len() == es.len(),
            path@ == p,
            m == prefix_map(lm, p),
            forall|u: int| 0 <= u < ks.len() ==> m.contains_key(p + #[trigger] ks[u]) && m[p + ks[u]] == vs[u],
            forall|x: Seq<u8>, y: Seq<u8>|
                #[trigger] m.contains_key(x) && #[trigger] owned_stack_map(base).contains_key(y) ==> lex_lt(x, y),
            owned_stack_ok(base),
            i <= ks.len(),
            items@ == es.take(i as int),
            forall|t: int| 0 <= t < stack@.len() ==> owned_ok(#[trigger] stack@[t]),
            owned_stack_ordered(stack@),
            forall|k: Seq<u8>|
                #[trigger] owned_stack_map(stack@).contains_key(k) <==> owned_stack_map(base).contains_key(k)
                    || exists|j: int| i <= j < ks.len() && k == p + #[trigger] ks[j],
            forall|k: Seq<u8>| #[trigger] owned_stack_map(base).contains_key(k) ==> owned_stack_map(stack@)[k] == owned_stack_map(base)[k],
            forall|j: int| i <= j < ks.len() ==> owned_stack_map(stack@)[p + #[trigger] ks[j]] == vs[j],
            forall|x: Seq<u8>| #[trigger] owned_stack_map(stack@).contains_key(x) && !owned_stack_map(base).contains_key(x)
                ==> exists|j: int| i <= j < ks.len() && x == p + #[trigger] ks[j],
            owned_stack_size(stack@) == owned_stack_size(base),
        decreases i,
    {
        i = i - 1;
        let item = items.pop().unwrap();
        proof {
            assert(es[i as int] == item);
            assert(items@ =~= es.take(i as int));
        }
        let key = concat_bytes(path.as_slice(), item.0.as_slice());
        let ghost s0 = stack@;
        let ghost e = Owned::Entry(key, item.1);
        proof {
            assert(item.0@ == ks[i as int]);
            assert(item.1 == vs[i as int]);
            assert(owned_map(e) =~= map![p + ks[i as int] => vs[i as int]]);
            assert forall|x: Seq<u8>, y: Seq<u8>|
                #[trigger] owned_map(e).contains_key(x) && #[trigger] owned_stack_map(s0).contains_key(y) implies lex_lt(x, y) by {
                assert(x == p + ks[i as int]);
                if owned_stack_map(base).contains_key(y) {
                    assert(m.contains_key(p + ks[i as int]));
                } else {
                    let j = choose|j: int| i + 1 <= j < ks.len() && y == p + #[trigger] ks[j];
                    assert(lex_lt(ks[i as int], ks[j]));
                    crate::keys::lemma_lex_append(p, ks[i as int], ks[j]);
                }
            }
            lemma_owned_push_ordered(s0, e);
        }
        stack.push(Owned::Entry(key, item.1));
        proof {
            let s1 = stack@;
            assert(s1 == s0.push(e));
            assert(s1.drop_last() =~= s0);
            assert(s1.last() == e);
            assert(owned_stack_map(s1) == owned_stack_map(s0).union_prefer_right(owned_map(e)));
            assert(owned_stack_size(s1) == owned_stack_size(s0));
            assert forall|t: int| 0 <= t < s1.len() implies owned_ok(#[trigger] s1[t]) by {
                if t < s0.len() {
                    assert(s1[t] == s0[t]);
                }
            }
            let k0 = p + ks[i as int];
            assert forall|k: Seq<u8>|
                #[trigger] owned_stack_map(s1).contains_key(k) <==> owned_stack_map(base).contains_key(k)
                    || exists|j: int| i <= j < ks.len() && k == p + #[trigger] ks[j] by {
                if exists|j: int| i <= j < ks.len() && k == p + #[trigger] ks[j] {
                    let j = choose|j: int| i <= j < ks.len() && k == p + #[trigger] ks[j];
                    if j > i {
                        assert(exists|j2: int| i + 1 <= j2 < ks.len() && k == p + #[trigger] ks[j2]);
                    }
                }
                if owned_stack_map(s0).contains_key(k) && !owned_stack_map(base).contains_key(k) {
                    let j = choose|j: int| i + 1 <= j < ks.len() && k == p + #[trigger] ks[j];
                    assert(i <= j);
                }
                if k == k0 {
                    assert(i <= i < ks.len() && k == p + ks[i as int]);
                }
            }
            assert forall|k: Seq<u8>| #[trigger] owned_stack_map(base).contains_key(k) implies owned_stack_map(s1)[k] == owned_stack_map(base)[k] by {
                if k == k0 {
                    assert(m.contains_key(k0));
                    lemma_lex_irreflexive(k);
                }
            }
            assert forall|j: int| i <= j < ks.len() implies owned_stack_map(s1)[p + #[trigger] ks[j]] == vs[j] by {
                if j > i {
                    if p + ks[j] == k0 {
                        assert(lex_lt(ks[i as int], ks[j]));
                        crate::keys::lemma_lex_append(p, ks[i as int], ks[j]);
                        lemma_lex_irreflexive(k0);
                    }
                }
            }
            assert forall|x: Seq<u8>| #[trigger] owned_stack_map(s1).contains_key(x) && !owned_stack_map(base).contains_key(x)
                implies exists|j: int| i <= j < ks.len() && x == p + #[trigger] ks[j] by {
                if x == k0 {
                    assert(i <= i < ks.len() && x == p + ks[i as int]);
                } else {
                    let j = choose|j: int| i + 1 <= j < ks.len() && x == p + #[trigger] ks[j];
                    assert(i <= j);
                }
            }
        }
    }
    proof {
        let s1 = stack@;
        assert(owned_stack_map(s1) =~= owned_stack_map(base).union_prefer_right(m)) by {
            assert forall|k: Seq<u8>| #[trigger] owned_stack_map(s1).contains_key(k) <==> owned_stack_map(base).union_prefer_right(m).contains_key(k) by {
                if m.contains_key(k) {
                    let u = choose|u: int| 0 <= u < ks.len() && k == p + ks[u];
                    assert(k == p + ks[u]);
                }
            }
            assert forall|k: Seq<u8>| #[trigger] owned_stack_map(s1).contains_key(k) implies owned_stack_map(s1)[k] == owned_stack_map(base).union_prefer_right(m)[k] by {
                if m.contains_key(k) {
                    let u = choose|u: int| 0 <= u < ks.len() && k == p + ks[u];
                    assert(owned_stack_map(s1)[p + ks[u]] == vs[u]);
                    if owned_stack_map(base).contains_key(k) {
                        assert(lex_lt(k, k));
                        lemma_lex_irreflexive(k);
                    }
                }
            }
        }
    }
}

/// Pushes the children of a branching node `n` reached through `path`,
/// taken out of `children` from the last, so that the child on the
/// smallest byte ends on top; their keys all come before the keys already
/// on the stack.
fn push_owned_branches<V>(
    stack: &mut Vec<Owned<V>>,
    children: Vec<Option<Node<V>>>,
    Ghost(n): Ghost<Node<V>>,
    path: &Vec<u8>,
)
    requires
        node_wf(n),
        n is Internal,
        children@ == n->children@,
        owned_stack_ok(old(stack)@),
        forall|x: Seq<u8>, y: Seq<u8>|
            #[trigger] prefix_map(node_view(n), path@).contains_key(x) && #[trigger] owned_stack_map(old(stack)@).contains_key(y)
                ==> lex_lt(x, y),
    ensures
        forall|i: int| 0 <= i < final(stack)@.len() ==> owned_ok(#[trigger] final(stack)@[i]),
        owned_stack_ordered(final(stack)@),
        owned_stack_map(final(stack)@) == owned_stack_map(old(stack)@).union_prefer_right(
            branches_from(prefix_map(node_view(n), path@), path@, 0),
        ),
        owned_stack_size(final(stack)@) == owned_stack_size(old(stack)@) + children_size(n->children@, 256),
{
    let ghost base = stack@;
    let ghost p = path@;
    let ghost m = prefix_map(node_view(n), p);
    let ghost cs = n->children@;
    let mut children = children;
    let mut b: usize = 256;
    proof {
        assert(branches_from(m, p, 256) =~= Map::<Seq<u8>, V>::empty()) by {
            assert forall|k: Seq<u8>| !#[trigger] branches_from(m, p, 256).contains_key(k) by {}
        }
        assert(owned_stack_map(base).union_prefer_right(branches_from(m, p, 256)) =~= owned_stack_map(base));
        assert(children@ =~= cs.take(256));
    }
    while b > 0
        invariant
            node_wf(n),
            n is Internal,
            cs == n->children@,
            cs.len() == 256,
            children@ == cs.take(b as int),
            path@ == p,
            m == prefix_map(node_view(n), p),
            owned_stack_ok(base),
            forall|x: Seq<u8>, y: Seq<u8>|
                #[trigger] m.contains_key(x) && #[trigger] owned_stack_map(base).contains_key(y) ==> lex_lt(x, y),
            b <= 256,
            forall|t: int| 0 <= t < stack@.len() ==> owned_ok(#[trigger] stack@[t]),
            owned_stack_ordered(stack@),
            owned_stack_map(stack@) == owned_stack_map(base).union_prefer_right(branches_from(m, p, b as int)),
            owned_stack_size(stack@) == owned_stack_size(base) + children_size(cs, 256) - children_size(cs, b as int),
        decreases b,
    {
        b = b - 1;
        let ghost s0 = stack@;
        let ghost up = branches_from(m, p, b + 1);
        let ghost now = branches_from(m, p, b as int);
        let slot = children.pop().unwrap();
        proof {
            assert(slot == cs[b as int]);
            assert(children@ =~= cs.take(b as int));
            assert(children_counts(cs, b + 1) == crate::node::add_counts(
                children_counts(cs, b as int),
                match cs[b as int] {
                    Some(c) => node_counts(c),
                    None => crate::node::zero_counts(),
                },
            ));
        }
        match slot {
            Some(child) => {
                let child_path = {
                    let mut cp = copy_bytes(path.as_slice());
                    cp.push(b as u8);
                    cp
                };
                let ghost pb = p.push(b as u8);
                let ghost mc = prefix_map(node_view(child), pb);
                let ghost e = Owned::Subtree(child, child_path);
                proof {
                    assert(child_path@ == pb);
                    assert(owned_map(e) == mc);
                    assert(node_wf(child)) by {
                        assert(match cs[b as int] {
                            Some(c) => node_wf(c),
                            None => true,
                        });
                    }
                    assert forall|k: Seq<u8>| #[trigger] mc.contains_key(k) implies m.contains_key(k) && m[k] == mc[k]
                        && has_prefix(k, p) && k.len() > p.len() && k[p.len() as int] == b by {
                        assert(has_prefix(k, pb));
                        assert(k.subrange(0, pb.len() as int)[p.len() as int] == b as u8);
                        assert(has_prefix(k, p)) by {
                            assert(k.subrange(0, p.len() as int) =~= p) by {
                                assert forall|j: int| 0 <= j < p.len() implies k.subrange(0, p.len() as int)[j] == p[j] by {
                                    assert(k.subrange(0, pb.len() as int)[j] == pb[j]);
                                }
                            }
                        }
                        lemma_internal_prefix_map(n, p, k);
                        assert(k != p);
                    }
                    assert forall|k: Seq<u8>| #[trigger] m.contains_key(k) && has_prefix(k, p) && k.len() > p.len() && k[p.len() as int] == b
                        implies mc.contains_key(k) by {
                        lemma_internal_prefix_map(n, p, k);
                        assert(has_prefix(k, pb)) by {
                            assert(k.subrange(0, pb.len() as int) =~= pb) by {
                                assert forall|j: int| 0 <= j < pb.len() implies k.subrange(0, pb.len() as int)[j] == pb[j] by {
                                    if j < p.len() {
                                        assert(k.subrange(0, p.len() as int)[j] == k[j]);
                                    }
                                }
                            }
                        }
                        assert(k != p);
                    }
                    assert forall|x: Seq<u8>, y: Seq<u8>|
                        #[trigger] owned_map(e).contains_key(x) && #[trigger] owned_stack_map(s0).contains_key(y) implies lex_lt(x, y) by {
                        assert(mc.contains_key(x));
                        if owned_stack_map(base).contains_key(y) {
                            assert(m.contains_key(x));
                        } else {
                            assert(up.contains_key(y));
                            assert(below_branch(x, p, b + 1));
                            lemma_below_branch_lt(x, y, p, b + 1);
                        }
                    }
                    lemma_owned_push_ordered(s0, e);
                    lemma_counts_nonneg(child);
                }
                stack.push(Owned::Subtree(child, child_path));
                proof {
                    let s1 = stack@;
                    assert(s1.drop_last() =~= s0);
                    assert(s1.last() == e);
                    assert forall|t: int| 0 <= t < s1.len() implies owned_ok(#[trigger] s1[t]) by {
                        if t < s0.len() {
                            assert(s1[t] == s0[t]);
                        }
                    }
                    assert(owned_stack_map(s1) =~= owned_stack_map(base).union_prefer_right(now)) by {
                        assert forall|k: Seq<u8>| #[trigger] owned_stack_map(s1).contains_key(k) <==> owned_stack_map(base).union_prefer_right(now).contains_key(k) by {
                            if now.contains_key(k) && !up.contains_key(k) {
                                assert(k[p.len() as int] == b);
                                assert(mc.contains_key(k));
                            }
                        }
                        assert forall|k: Seq<u8>| #[trigger] owned_stack_map(s1).contains_key(k) implies owned_stack_map(s1)[k] == owned_stack_map(base).union_prefer_right(now)[k] by {
                            if mc.contains_key(k) {
                                assert(now.contains_key(k));
                            }
                        }
                    }
                }
            },
            None => {
                proof {
                    assert(now =~= up) by {
                        assert forall|k: Seq<u8>| #[trigger] now.contains_key(k) implies up.contains_key(k) by {
                            if k[p.len() as int] == b {
                                lemma_internal_prefix_map(n, p, k);
                                assert(k != p);
                            }
                        }
                    }
                }
            },
        }
    }
}

/// Opens the subtree `node`, reached through `path`, that was on top of
/// the stack: puts back its own entry and its children, or its leaf
/// entries drained and sorted, so that the smallest key is on top.
pub fn open_owned_subtree<V>(stack: &mut Vec<Owned<V>>, node: Node<V>, path: Vec<u8>)
    requires
        owned_stack_ok(old(stack)@.push(Owned::Subtree(node, path))),
    ensures
        owned_stack_ok(final(stack)@),
        owned_stack_map(final(stack)@) == owned_stack_map(old(stack)@.push(Owned::Subtree(node, path))),
        owned_stack_size(final(stack)@) < owned_stack_size(old(stack)@.push(Owned::Subtree(node, path))),
{
    let ghost base = stack@;
    let ghost n = node;
    let ghost full = base.push(Owned::Subtree(node, path));
    let ghost p = path@;
    let ghost m = prefix_map(node_view(n), p);
    proof {
        lemma_owned_pop_ordered(full);
        assert(full.drop_last() =~= base);
        assert(full.last() == Owned::Subtree(node, path));
        assert(owned_ok(full[full.len() - 1]));
        assert(node_wf(n));
        assert forall|t: int| 0 <= t < base.len() implies owned_ok(#[trigger] base[t]) by {
            assert(full[t] == base[t]);
        }
        assert(owned_stack_map(full) == owned_stack_map(base).union_prefer_right(m));
        vstd::set_lib::lemma_len_subset(owned_stack_map(base).dom(), owned_stack_map(full).dom());
        assert(owned_stack_ok(base));
        lemma_counts_nonneg(n);
    }
    match node {
        Node::Internal { children, value } => {
            proof {
                lemma_children_counts_nonneg(children@, 256);
            }
            push_owned_branches(stack, children, Ghost(n), &path);
            let ghost s0 = stack@;
            let ghost up = branches_from(m, p, 0);
            proof {
                assert(forall|k: Seq<u8>| #[trigger] m.contains_key(k) ==> has_prefix(k, p));
            }
            match value {
                Some(v) => {
                    let ghost e = Owned::Entry(path, v);
                    proof {
                        lemma_internal_prefix_map(n, p, p);
                        assert(p.subrange(0, p.len() as int) =~= p);
                        assert(owned_map(e) =~= map![p => v]);
                        assert forall|x: Seq<u8>, y: Seq<u8>|
                            #[trigger] owned_map(e).contains_key(x) && #[trigger] owned_stack_map(s0).contains_key(y) implies lex_lt(x, y) by {
                            assert(x == p);
                            if owned_stack_map(base).contains_key(y) {
                                assert(m.contains_key(p));
                            } else {
                                assert(up.contains_key(y));
                                crate::keys::lemma_has_prefix_split(y, p);
                                crate::keys::lemma_lex_proper_prefix(p, y.subrange(p.len() as int, y.len() as int));
                            }
                        }
                        lemma_owned_push_ordered(s0, e);
                    }
                    stack.push(Owned::Entry(path, v));
                    proof {
                        let s1 = stack@;
                        assert(s1.drop_last() =~= s0);
                        assert(s1.last() == e);
                        assert forall|t: int| 0 <= t < s1.len() implies owned_ok(#[trigger] s1[t]) by {
                            if t < s0.len() {
                                assert(s1[t] == s0[t]);
                            }
                        }
                        assert(owned_stack_map(s1) =~= owned_stack_map(full)) by {
                            assert forall|k: Seq<u8>| #[trigger] owned_stack_map(s1).contains_key(k) <==> owned_stack_map(full).contains_key(k) by {
                                if m.contains_key(k) && k != p {
                                    lemma_internal_prefix_map(n, p, k);
                                    assert(up.contains_key(k));
                                }
                            }
                            assert forall|k: Seq<u8>| #[trigger] owned_stack_map(s1).contains_key(k) implies owned_stack_map(s1)[k] == owned_stack_map(full)[k] by {
                                if m.contains_key(k) && k != p {
                                    assert(up.contains_key(k));
                                }
                            }
                        }
                    }
                },
                None => {
                    proof {
                        assert(owned_stack_map(s0) =~= owned_stack_map(full)) by {
                            assert forall|k: Seq<u8>| #[trigger] owned_stack_map(s0).contains_key(k) <==> owned_stack_map(full).contains_key(k) by {
                                if m.contains_key(k) {
                                    lemma_internal_prefix_map(n, p, k);
                                    assert(k != p);
                                    assert(up.contains_key(k));
                                }
                            }
                        }
                    }
                },
            }
        },
        Node::Radix { prefix, child } => {
            let child_path = concat_bytes(path.as_slice(), prefix.as_slice());
            let inner: Node<V> = *child;
            let ghost e = Owned::Subtree(inner, child_path);
            proof {
                lemma_radix_prefix_map(n, p);
                assert(owned_map(e) == m);
                lemma_owned_push_ordered(base, e);
                lemma_counts_nonneg(inner);
            }
            stack.push(Owned::Subtree(inner, child_path));
            proof {
                let s1 = stack@;
                assert(s1.drop_last() =~= base);
                assert(s1.last() == e);
                assert forall|t: int| 0 <= t < s1.len() implies owned_ok(#[trigger] s1[t]) by {
                    if t < base.len() {
                        assert(s1[t] == base[t]);
                    }
                }
            }
        },
        Node::Leaf(leaf) => {
            let mut leaf = leaf;
            let ghost lm = leaf@;
            proof {
                assert(node_view(n) =~= lm);
            }
            let drained = leaf.drain_all();
            let sorted = sort_entries(drained);
            push_owned_leaf(stack, sorted, Ghost(lm), &path);
        },
    }
}

} // verus!
