//! What a subtree holds when it is seen from the path that reaches it, how
//! the entries of a branching or radix node split among its children, and
//! the contract of a walk that gathers entries in ascending key order.
use vstd::prelude::*;

use crate::entries::{
    lemma_pairs_map_index, lemma_pairs_map_insert, lemma_sorted_insert, pairs_map,
};
use crate::keys::{
    compare_keys, has_prefix, lemma_has_prefix_append, lemma_has_prefix_split,
    lemma_lcp_unique, lemma_lex_proper_prefix, lemma_lex_total, lemma_lex_transitive, lex_le, lex_lt,
    strictly_sorted, KeyOrder,
};
use crate::leaf::{ref_keys, ref_vals, ArrayHash};
use crate::node::{lemma_view_get, node_view, node_wf, Node};

verus! {

/// The entries of `m` moved under the path `p`.
pub open spec fn prefix_map<V>(m: Map<Seq<u8>, V>, p: Seq<u8>) -> Map<Seq<u8>, V> {
    Map::new(
        |k: Seq<u8>| has_prefix(k, p) && m.contains_key(k.skip(p.len() as int)),
        |k: Seq<u8>| m[k.skip(p.len() as int)],
    )
}

/// Keys of a list of gathered entries.
pub open spec fn ekeys<'a, V>(s: Seq<(Vec<u8>, &'a V)>) -> Seq<Seq<u8>> {
    s.map_values(|e: (Vec<u8>, &'a V)| e.0@)
}

/// Values of a list of gathered entries.
pub open spec fn evals<'a, V>(s: Seq<(Vec<u8>, &'a V)>) -> Seq<V> {
    s.map_values(|e: (Vec<u8>, &'a V)| *e.1)
}

/// What a walk may assume of the list it appends to: it is sorted, and
/// everything in it comes before every key to be added.
pub open spec fn walk_pre<'a, V>(m: Map<Seq<u8>, V>, lo: Seq<u8>, before: Seq<(Vec<u8>, &'a V)>) -> bool {
    &&& strictly_sorted(ekeys(before))
    &&& forall|i: int, k: Seq<u8>|
        0 <= i < before.len() && #[trigger] m.contains_key(k) && lex_le(lo, k) ==> lex_lt(
            #[trigger] ekeys(before)[i],
            k,
        )
}

/// What a walk appends: the entries of `m` not below `lo`, ascending, each
/// with its value.
pub open spec fn walk_post<'a, V>(
    m: Map<Seq<u8>, V>,
    lo: Seq<u8>,
    before: Seq<(Vec<u8>, &'a V)>,
    after: Seq<(Vec<u8>, &'a V)>,
) -> bool {
    &&& after.len() >= before.len()
    &&& after.take(before.len() as int) == before
    &&& strictly_sorted(ekeys(after))
    &&& forall|i: int|
        before.len() <= i < after.len() ==> m.contains_key(#[trigger] ekeys(after)[i]) && m[ekeys(
            after,
        )[i]] == evals(after)[i] && lex_le(lo, ekeys(after)[i])
    &&& forall|k: Seq<u8>| #[trigger] m.contains_key(k) && lex_le(lo, k) ==> ekeys(after).contains(k)
}

/// Copies `a + b` into a new vector.
pub fn concat_bytes(a: &[u8], b: &[u8]) -> (r: Vec<u8>)
    ensures
        r@ == a@ + b@,
{
    let mut out: Vec<u8> = Vec::new();
    let mut i: usize = 0;
    while i < a.len()
        invariant
            i <= a@.len(),
            out@ == a@.take(i as int),
        decreases a@.len() - i,
    {
        out.push(a[i]);
        i = i + 1;
        assert(out@ =~= a@.take(i as int));
    }
    let mut j: usize = 0;
    while j < b.len()
        invariant
            j <= b@.len(),
            out@ == a@ + b@.take(j as int),
        decreases b@.len() - j,
    {
        out.push(b[j]);
        j = j + 1;
        assert(out@ =~= a@ + b@.take(j as int));
    }
    assert(a@.take(a@.len() as int) =~= a@);
    assert(b@.take(b@.len() as int) =~= b@);
    out
}

/// The entries of a leaf, sorted by key.
pub fn sorted_items<'a, V>(leaf: &'a ArrayHash<V>) -> (r: Vec<(&'a [u8], &'a V)>)
    requires
        leaf.wf(),
    ensures
        strictly_sorted(ref_keys(r@)),
        ref_keys(r@).len() == ref_vals(r@).len(),
        pairs_map(ref_keys(r@), ref_vals(r@)) == leaf@,
{
    let items = leaf.iter();
    let ghost iks = ref_keys(items@);
    let ghost ivs = ref_vals(items@);
    let mut out: Vec<(&'a [u8], &'a V)> = Vec::new();
    let mut i: usize = 0;
    proof {
        assert(ref_keys(out@) =~= Seq::<Seq<u8>>::empty());
        assert(ref_vals(out@) =~= Seq::<V>::empty());
        assert(iks.take(0) =~= Seq::<Seq<u8>>::empty());
        assert(ivs.take(0) =~= Seq::<V>::empty());
    }
    while i < items.len()
        invariant
            iks == ref_keys(items@),
            ivs == ref_vals(items@),
            iks.no_duplicates(),
            iks.len() == ivs.len(),
            pairs_map(iks, ivs) == leaf@,
            i <= items@.len(),
            strictly_sorted(ref_keys(out@)),
            ref_keys(out@).len() == ref_vals(out@).len(),
            out@.len() == i,
            pairs_map(ref_keys(out@), ref_vals(out@)) == pairs_map(iks.take(i as int), ivs.take(i as int)),
            forall|t: int| 0 <= t < out@.len() ==> iks.take(i as int).contains(#[trigger] ref_keys(out@)[t]),
        decreases items@.len() - i,
    {
        let item = items[i];
        let ghost ok = ref_keys(out@);
        let ghost ov = ref_vals(out@);
        // position: the first stored key above the new one
        let mut pos: usize = 0;
        while pos < out.len()
            invariant
                out@.len() == ok.len(),
                ok == ref_keys(out@),
                pos <= out@.len(),
                forall|t: int| 0 <= t < pos ==> lex_lt(#[trigger] ok[t], item.0@),
            ensures
                pos <= out@.len(),
                forall|t: int| 0 <= t < pos ==> lex_lt(#[trigger] ok[t], item.0@),
                pos < out@.len() ==> !lex_lt(ok[pos as int], item.0@),
            decreases out@.len() - pos,
        {
            match compare_keys(out[pos].0, item.0) {
                KeyOrder::Less => {
                    pos = pos + 1;
                },
                _ => {
                    break;
                },
            }
        }
        proof {
            assert(item.0@ == iks[i as int]);
            assert(*item.1 == ivs[i as int]);
            // the new key is not among those already placed
            assert forall|t: int| 0 <= t < ok.len() implies ok[t] != item.0@ by {
                assert(iks.take(i as int).contains(ok[t]));
                let u = choose|u: int| 0 <= u < i && iks.take(i as int)[u] == ok[t];
                assert(iks[u] == ok[t]);
            }
            if pos < ok.len() {
                lemma_lex_total(ok[pos as int], item.0@);
            }
            assert forall|t: int| pos <= t < ok.len() implies lex_lt(item.0@, #[trigger] ok[t]) by {
                lemma_lex_total(ok[pos as int], item.0@);
                if t > pos {
                    lemma_lex_transitive(item.0@, ok[pos as int], ok[t]);
                }
            }
            lemma_sorted_insert(ok, pos as int, item.0@);
            lemma_pairs_map_insert(ok, ov, pos as int, item.0@, *item.1);
        }
        out.insert(pos, item);
        proof {
            assert(ref_keys(out@) =~= ok.insert(pos as int, item.0@));
            assert(ref_vals(out@) =~= ov.insert(pos as int, *item.1));
            assert(iks.take(i as int + 1) =~= iks.take(i as int).push(iks[i as int]));
            assert(ivs.take(i as int + 1) =~= ivs.take(i as int).push(ivs[i as int]));
            crate::entries::lemma_pairs_map_push_nodup(iks.take(i as int), ivs.take(i as int), iks[i as int], ivs[i as int]);
            assert forall|t: int| 0 <= t < out@.len() implies iks.take(i as int + 1).contains(#[trigger] ref_keys(out@)[t]) by {
                if t == pos {
                    assert(iks.take(i as int + 1)[i as int] == item.0@);
                } else {
                    let t0 = if t < pos { t } else { t - 1 };
                    assert(ref_keys(out@)[t] == ok[t0]);
                    let u = choose|u: int| 0 <= u < i && iks.take(i as int)[u] == ok[t0];
                    assert(iks.take(i as int + 1)[u] == ok[t0]);
                }
            }
        }
        i = i + 1;
    }
    proof {
        assert(iks.take(i as int) =~= iks);
        assert(ivs.take(i as int) =~= ivs);
    }
    out
}

/// `k` lies under `p`, at `p` itself or in a branch below byte `b`.
pub open spec fn below_branch(k: Seq<u8>, p: Seq<u8>, b: int) -> bool {
    has_prefix(k, p) && (k.len() == p.len() || (k[p.len() as int] as int) < b)
}

/// A key under `p` at or below branch `b` comes before every key under
/// `p + [c]` for a byte `c >= b`.
pub proof fn lemma_below_branch_lt(a: Seq<u8>, c: Seq<u8>, p: Seq<u8>, b: int)
    requires
        below_branch(a, p, b),
        has_prefix(c, p),
        c.len() > p.len(),
        c[p.len() as int] >= b,
    ensures
        lex_lt(a, c),
{
    if a.len() == p.len() {
        assert(a =~= p) by {
            assert forall|j: int| 0 <= j < a.len() implies a[j] == p[j] by {
                assert(a.subrange(0, p.len() as int)[j] == a[j]);
            }
        }
        lemma_has_prefix_split(c, p);
        lemma_lex_proper_prefix(p, c.skip(p.len() as int));
    } else {
        assert forall|j: int| 0 <= j < p.len() implies a[j] == c[j] by {
            assert(a.subrange(0, p.len() as int)[j] == a[j]);
            assert(c.subrange(0, p.len() as int)[j] == c[j]);
        }
        lemma_lcp_unique(a, c, p.len() as int);
    }
}

/// The entries of a branching node seen from path `p`: the node's value at
/// `p`, otherwise the entries of the child picked by the next byte.
pub proof fn lemma_internal_prefix_map<V>(n: Node<V>, p: Seq<u8>, k: Seq<u8>)
    requires
        n is Internal,
        node_wf(n),
    ensures
        prefix_map(node_view(n), p).get(k) == if k == p {
            n->value
        } else if has_prefix(k, p) && k.len() > p.len() {
            match n->children@[k[p.len() as int] as int] {
                Some(c) => prefix_map(node_view(c), p.push(k[p.len() as int])).get(k),
                None => None,
            }
        } else {
            None
        },
{
    let m = prefix_map(node_view(n), p);
    lemma_view_get(n, k.skip(p.len() as int));
    if k == p {
        assert(k.subrange(0, p.len() as int) =~= p);
        assert(k.skip(p.len() as int) =~= Seq::<u8>::empty());
    } else if has_prefix(k, p) && k.len() > p.len() {
        let b = k[p.len() as int];
        let rest = k.skip(p.len() as int);
        assert(rest[0] == b);
        match n->children@[b as int] {
            Some(c) => {
                let pb = p.push(b);
                assert(rest.drop_first() =~= k.skip(pb.len() as int));
                lemma_view_get(c, k.skip(pb.len() as int));
                assert(has_prefix(k, pb)) by {
                    assert(k.subrange(0, pb.len() as int) =~= pb) by {
                        assert forall|j: int| 0 <= j < pb.len() implies k.subrange(0, pb.len() as int)[j] == pb[j] by {
                            if j < p.len() {
                                assert(k.subrange(0, p.len() as int)[j] == k[j]);
                            }
                        }
                    }
                }
            },
            None => {},
        }
    } else {
        if has_prefix(k, p) {
            assert(k =~= p) by {
                assert forall|j: int| 0 <= j < k.len() implies k[j] == p[j] by {
                    assert(k.subrange(0, p.len() as int)[j] == k[j]);
                }
            }
        }
    }
}

/// Seen from any path, a radix node holds what its child holds one prefix
/// further down.
pub proof fn lemma_radix_prefix_map<V>(n: Node<V>, p: Seq<u8>)
    requires
        n is Radix,
    ensures
        prefix_map(node_view(n), p) == prefix_map(node_view(*n->child), p + n->prefix@),
{
    let rp = n->prefix@;
    let c = *n->child;
    let q = p + rp;
    assert forall|k: Seq<u8>| #[trigger] prefix_map(node_view(n), p).get(k) == prefix_map(node_view(c), q).get(k) by {
        lemma_view_get(n, k.skip(p.len() as int));
        lemma_view_get(c, k.skip(q.len() as int));
        if has_prefix(k, q) {
            assert(has_prefix(k, p)) by {
                assert(k.subrange(0, p.len() as int) =~= p) by {
                    assert forall|j: int| 0 <= j < p.len() implies k.subrange(0, p.len() as int)[j] == p[j] by {
                        assert(k.subrange(0, q.len() as int)[j] == q[j]);
                    }
                }
            }
            assert(has_prefix(k.skip(p.len() as int), rp)) by {
                assert(k.skip(p.len() as int).subrange(0, rp.len() as int) =~= rp) by {
                    assert forall|j: int| 0 <= j < rp.len() implies k.skip(p.len() as int).subrange(0, rp.len() as int)[j] == rp[j] by {
                        assert(k.subrange(0, q.len() as int)[p.len() + j] == q[p.len() + j]);
                    }
                }
            }
            assert(k.skip(p.len() as int).skip(rp.len() as int) =~= k.skip(q.len() as int));
        } else if has_prefix(k, p) && has_prefix(k.skip(p.len() as int), rp) {
            assert(k.subrange(0, q.len() as int) =~= q) by {
                assert forall|j: int| 0 <= j < q.len() implies k.subrange(0, q.len() as int)[j] == q[j] by {
                    if j < p.len() {
                        assert(k.subrange(0, p.len() as int)[j] == p[j]);
                    } else {
                        assert(k.skip(p.len() as int).subrange(0, rp.len() as int)[j - p.len()] == rp[j - p.len()]);
                    }
                }
            }
        }
    }
    assert(prefix_map(node_view(n), p) =~= prefix_map(node_view(c), q)) by {
        assert forall|k: Seq<u8>| #[trigger] prefix_map(node_view(n), p).contains_key(k) == prefix_map(node_view(c), q).contains_key(k) by {
            assert(prefix_map(node_view(n), p).get(k) == prefix_map(node_view(c), q).get(k));
        }
        assert forall|k: Seq<u8>| #[trigger] prefix_map(node_view(n), p).contains_key(k) implies prefix_map(node_view(n), p)[k] == prefix_map(node_view(c), q)[k] by {
            assert(prefix_map(node_view(n), p).get(k) == prefix_map(node_view(c), q).get(k));
        }
    }
}

/// Appends the bytes of `s` to `buf`, reusing its room.
pub fn append_bytes(buf: &mut Vec<u8>, s: &[u8])
    ensures
        final(buf)@ == old(buf)@ + s@,
{
    let ghost start = buf@;
    let mut j: usize = 0;
    while j < s.len()
        invariant
            j <= s@.len(),
            buf@ == start + s@.take(j as int),
        decreases s@.len() - j,
    {
        buf.push(s[j]);
        j = j + 1;
        proof {
            assert(buf@ =~= start + s@.take(j as int));
        }
    }
    proof {
        assert(s@.take(s@.len() as int) =~= s@);
    }
}

/// Copies a byte slice into a new vector.
pub fn copy_bytes(a: &[u8]) -> (r: Vec<u8>)
    ensures
        r@ == a@,
{
    vstd::slice::slice_to_vec(a)
}

/// Where the entries of a leaf, listed by sorted suffix, are when the leaf
/// is seen from path `p`; none of them is below `p`.
pub proof fn lemma_leaf_walk_setup<V>(lm: Map<Seq<u8>, V>, ks: Seq<Seq<u8>>, vs: Seq<V>, p: Seq<u8>)
    requires
        strictly_sorted(ks),
        ks.len() == vs.len(),
        pairs_map(ks, vs) == lm,
    ensures
        forall|t: int| 0 <= t < ks.len() ==> lex_le(p, p + #[trigger] ks[t]),
        forall|t: int| 0 <= t < ks.len() ==> prefix_map(lm, p).contains_key(p + #[trigger] ks[t]) && prefix_map(lm, p)[p + ks[t]] == vs[t],
        forall|k: Seq<u8>| #[trigger] prefix_map(lm, p).contains_key(k) ==> exists|t: int| 0 <= t < ks.len() && k == p + ks[t],
{
    let m = prefix_map(lm, p);
    assert forall|t: int| 0 <= t < ks.len() implies lex_le(p, p + #[trigger] ks[t]) by {
        if ks[t].len() > 0 {
            lemma_lex_proper_prefix(p, ks[t]);
        } else {
            assert(p + ks[t] =~= p);
        }
    }
    assert forall|t: int| 0 <= t < ks.len() implies m.contains_key(p + #[trigger] ks[t]) && m[p + ks[t]] == vs[t] by {
        lemma_has_prefix_append(p, ks[t]);
        lemma_pairs_map_index(ks, vs, t);
    }
    assert forall|k: Seq<u8>| #[trigger] m.contains_key(k) implies exists|t: int| 0 <= t < ks.len() && k == p + ks[t] by {
        lemma_has_prefix_split(k, p);
        let x = k.skip(p.len() as int);
        assert(pairs_map(ks, vs).contains_key(x));
        let t = choose|t: int| 0 <= t < ks.len() && ks[t] == x;
        assert(k == p + ks[t]);
    }
}

/// Moving the lower bound changes nothing when it keeps the same keys.
pub proof fn lemma_walk_lo_change<'a, V>(
    m: Map<Seq<u8>, V>,
    lo1: Seq<u8>,
    lo2: Seq<u8>,
    before: Seq<(Vec<u8>, &'a V)>,
    after: Seq<(Vec<u8>, &'a V)>,
)
    requires
        forall|k: Seq<u8>| #[trigger] m.contains_key(k) ==> (lex_le(lo1, k) <==> lex_le(lo2, k)),
    ensures
        walk_pre(m, lo1, before) == walk_pre(m, lo2, before),
        walk_post(m, lo1, before, after) == walk_post(m, lo2, before, after),
{
    if walk_post(m, lo1, before, after) {
        assert forall|i: int| before.len() <= i < after.len() implies lex_le(lo2, #[trigger] ekeys(after)[i]) by {
            assert(m.contains_key(ekeys(after)[i]));
        }
    }
    if walk_post(m, lo2, before, after) {
        assert forall|i: int| before.len() <= i < after.len() implies lex_le(lo1, #[trigger] ekeys(after)[i]) by {
            assert(m.contains_key(ekeys(after)[i]));
        }
    }
}

/// A walk that may add nothing: every key it could add is below `lo`.
pub proof fn lemma_walk_nothing<'a, V>(
    m: Map<Seq<u8>, V>,
    lo: Seq<u8>,
    before: Seq<(Vec<u8>, &'a V)>,
)
    requires
        walk_pre(m, lo, before),
        forall|k: Seq<u8>| #[trigger] m.contains_key(k) ==> !lex_le(lo, k),
    ensures
        walk_post(m, lo, before, before),
{
    assert(before.take(before.len() as int) =~= before);
}

} // verus!
