//! Sequences of keys paired with values, and the maps they denote.
use vstd::prelude::*;

use crate::keys::{lemma_lex_irreflexive, lex_lt, strictly_sorted};

verus! {

/// The map whose entries are `(ks[i], vs[i])`.
pub open spec fn pairs_map<V>(ks: Seq<Seq<u8>>, vs: Seq<V>) -> Map<Seq<u8>, V> {
    Map::new(|k: Seq<u8>| ks.contains(k), |k: Seq<u8>| vs[ks.index_of(k)])
}

pub proof fn lemma_sorted_unique(ks: Seq<Seq<u8>>, i: int, j: int)
    requires
        strictly_sorted(ks),
        0 <= i < ks.len(),
        0 <= j < ks.len(),
        ks[i] == ks[j],
    ensures
        i == j,
{
    if i < j {
        lemma_lex_irreflexive(ks[i]);
    } else if j < i {
        lemma_lex_irreflexive(ks[i]);
    }
}

pub proof fn lemma_pairs_map_index<V>(ks: Seq<Seq<u8>>, vs: Seq<V>, i: int)
    requires
        strictly_sorted(ks),
        ks.len() == vs.len(),
        0 <= i < ks.len(),
    ensures
        pairs_map(ks, vs).contains_key(ks[i]),
        pairs_map(ks, vs)[ks[i]] == vs[i],
{
    assert(ks.contains(ks[i]));
    let j = ks.index_of(ks[i]);
    lemma_sorted_unique(ks, i, j);
}

pub proof fn lemma_sorted_no_duplicates(ks: Seq<Seq<u8>>)
    requires
        strictly_sorted(ks),
    ensures
        ks.no_duplicates(),
{
    assert forall|i: int, j: int| 0 <= i < ks.len() && 0 <= j < ks.len() && i != j implies ks[i]
        != ks[j] by {
        if ks[i] == ks[j] {
            lemma_sorted_unique(ks, i, j);
        }
    }
}

pub proof fn lemma_pairs_map_index_nodup<V>(ks: Seq<Seq<u8>>, vs: Seq<V>, i: int)
    requires
        ks.no_duplicates(),
        ks.len() == vs.len(),
        0 <= i < ks.len(),
    ensures
        pairs_map(ks, vs).contains_key(ks[i]),
        pairs_map(ks, vs)[ks[i]] == vs[i],
{
    assert(ks.contains(ks[i]));
}

/// Joining two key lists with no key in common joins their maps.
pub proof fn lemma_pairs_map_concat<V>(ka: Seq<Seq<u8>>, va: Seq<V>, kb: Seq<Seq<u8>>, vb: Seq<V>)
    requires
        ka.no_duplicates(),
        kb.no_duplicates(),
        ka.len() == va.len(),
        kb.len() == vb.len(),
        forall|i: int, j: int| 0 <= i < ka.len() && 0 <= j < kb.len() ==> ka[i] != kb[j],
    ensures
        (ka + kb).no_duplicates(),
        forall|k: Seq<u8>|
            #![trigger pairs_map(ka + kb, va + vb).contains_key(k)]
            pairs_map(ka + kb, va + vb).contains_key(k) == (pairs_map(ka, va).contains_key(k)
                || pairs_map(kb, vb).contains_key(k)),
        forall|k: Seq<u8>|
            #![trigger pairs_map(ka + kb, va + vb)[k]]
            pairs_map(ka, va).contains_key(k) ==> pairs_map(ka + kb, va + vb)[k] == pairs_map(
                ka,
                va,
            )[k],
        forall|k: Seq<u8>|
            #![trigger pairs_map(ka + kb, va + vb)[k]]
            pairs_map(kb, vb).contains_key(k) ==> pairs_map(ka + kb, va + vb)[k] == pairs_map(
                kb,
                vb,
            )[k],
{
    let k2 = ka + kb;
    let v2 = va + vb;
    assert forall|i: int, j: int| 0 <= i < k2.len() && 0 <= j < k2.len() && i != j implies k2[i]
        != k2[j] by {
        if i < ka.len() && j >= ka.len() {
            assert(k2[j] == kb[j - ka.len()]);
        } else if j < ka.len() && i >= ka.len() {
            assert(k2[i] == kb[i - ka.len()]);
        } else if i >= ka.len() && j >= ka.len() {
            assert(k2[i] == kb[i - ka.len()]);
            assert(k2[j] == kb[j - ka.len()]);
        }
    }
    assert forall|k: Seq<u8>| #![trigger pairs_map(ka + kb, va + vb).contains_key(k)]
        pairs_map(ka + kb, va + vb).contains_key(k) == (pairs_map(ka, va).contains_key(k)
            || pairs_map(kb, vb).contains_key(k)) by {
        if k2.contains(k) {
            let i = choose|i: int| 0 <= i < k2.len() && k2[i] == k;
            if i >= ka.len() {
                assert(kb[i - ka.len()] == k);
            }
        }
        if kb.contains(k) {
            let i = choose|i: int| 0 <= i < kb.len() && kb[i] == k;
            assert(k2[i + ka.len()] == k);
        }
        if ka.contains(k) {
            let i = choose|i: int| 0 <= i < ka.len() && ka[i] == k;
            assert(k2[i] == k);
        }
    }
    assert forall|k: Seq<u8>| #![trigger pairs_map(ka + kb, va + vb)[k]]
        pairs_map(ka, va).contains_key(k) implies pairs_map(ka + kb, va + vb)[k] == pairs_map(ka, va)[k] by {
        let i = choose|i: int| 0 <= i < ka.len() && ka[i] == k;
        lemma_pairs_map_index_nodup(ka, va, i);
        assert(k2[i] == k);
        lemma_pairs_map_index_nodup(k2, v2, i);
    }
    assert forall|k: Seq<u8>| #![trigger pairs_map(ka + kb, va + vb)[k]]
        pairs_map(kb, vb).contains_key(k) implies pairs_map(ka + kb, va + vb)[k] == pairs_map(kb, vb)[k] by {
        let i = choose|i: int| 0 <= i < kb.len() && kb[i] == k;
        lemma_pairs_map_index_nodup(kb, vb, i);
        assert(k2[i + ka.len()] == k);
        assert(v2[i + ka.len()] == vb[i]);
        lemma_pairs_map_index_nodup(k2, v2, i + ka.len());
    }
}

/// Peeling the first remaining entry off a suffix of the list.
pub proof fn lemma_pairs_map_skip<V>(ks: Seq<Seq<u8>>, vs: Seq<V>, i: int)
    requires
        ks.no_duplicates(),
        ks.len() == vs.len(),
        0 <= i < ks.len(),
    ensures
        pairs_map(ks.skip(i), vs.skip(i)) == pairs_map(ks.skip(i + 1), vs.skip(i + 1)).insert(
            ks[i],
            vs[i],
        ),
        !pairs_map(ks.skip(i + 1), vs.skip(i + 1)).contains_key(ks[i]),
        ks.skip(i).no_duplicates(),
{
    let s0 = ks.skip(i);
    let w0 = vs.skip(i);
    let s1 = ks.skip(i + 1);
    let w1 = vs.skip(i + 1);
    assert(s0.no_duplicates()) by {
        assert forall|a: int, b: int| 0 <= a < s0.len() && 0 <= b < s0.len() && a != b implies s0[a]
            != s0[b] by {
            assert(s0[a] == ks[a + i]);
            assert(s0[b] == ks[b + i]);
        }
    }
    assert(s1.no_duplicates()) by {
        assert forall|a: int, b: int| 0 <= a < s1.len() && 0 <= b < s1.len() && a != b implies s1[a]
            != s1[b] by {
            assert(s1[a] == ks[a + i + 1]);
            assert(s1[b] == ks[b + i + 1]);
        }
    }
    assert(!s1.contains(ks[i])) by {
        if s1.contains(ks[i]) {
            let t = choose|t: int| 0 <= t < s1.len() && s1[t] == ks[i];
            assert(ks[t + i + 1] == ks[i]);
        }
    }
    assert forall|kk: Seq<u8>| #[trigger] pairs_map(s0, w0).contains_key(kk) implies pairs_map(
        s0,
        w0,
    )[kk] == pairs_map(s1, w1).insert(ks[i], vs[i])[kk] by {
        let t = choose|t: int| 0 <= t < s0.len() && s0[t] == kk;
        lemma_pairs_map_index_nodup(s0, w0, t);
        if t > 0 {
            assert(s1[t - 1] == kk);
            lemma_pairs_map_index_nodup(s1, w1, t - 1);
        }
    }
    assert forall|kk: Seq<u8>| #[trigger] pairs_map(s1, w1).contains_key(kk) implies pairs_map(
        s0,
        w0,
    ).contains_key(kk) by {
        let t = choose|t: int| 0 <= t < s1.len() && s1[t] == kk;
        assert(s0[t + 1] == kk);
    }
    assert(s0[0] == ks[i]);
    assert(w0[0] == vs[i]);
    assert forall|kk: Seq<u8>| #[trigger] pairs_map(s0, w0).contains_key(kk) == pairs_map(s1, w1).insert(
        ks[i],
        vs[i],
    ).contains_key(kk) by {
        if s0.contains(kk) && kk != ks[i] {
            let t = choose|t: int| 0 <= t < s0.len() && s0[t] == kk;
            assert(t > 0);
            assert(s1[t - 1] == kk);
        }
        if kk == ks[i] {
            assert(s0[0] == kk);
        }
    }
    assert(pairs_map(s0, w0) =~= pairs_map(s1, w1).insert(ks[i], vs[i]));
}

/// Appending an entry whose key is new.
pub proof fn lemma_pairs_map_push_nodup<V>(ks: Seq<Seq<u8>>, vs: Seq<V>, k: Seq<u8>, v: V)
    requires
        ks.push(k).no_duplicates(),
        ks.len() == vs.len(),
    ensures
        pairs_map(ks.push(k), vs.push(v)) == pairs_map(ks, vs).insert(k, v),
        ks.no_duplicates(),
{
    let nk = ks.push(k);
    let nv = vs.push(v);
    assert forall|a: int, b: int| 0 <= a < ks.len() && 0 <= b < ks.len() && a != b implies ks[a]
        != ks[b] by {
        assert(nk[a] == ks[a]);
        assert(nk[b] == ks[b]);
    }
    assert forall|kk: Seq<u8>| #[trigger] pairs_map(nk, nv).contains_key(kk) == pairs_map(ks, vs).insert(
        k,
        v,
    ).contains_key(kk) by {
        if nk.contains(kk) && kk != k {
            let t = choose|t: int| 0 <= t < nk.len() && nk[t] == kk;
            assert(ks[t] == kk);
        }
        if ks.contains(kk) {
            let t = choose|t: int| 0 <= t < ks.len() && ks[t] == kk;
            assert(nk[t] == kk);
        }
        if kk == k {
            assert(nk[ks.len() as int] == k);
        }
    }
    assert forall|kk: Seq<u8>| #[trigger] pairs_map(nk, nv).contains_key(kk) implies pairs_map(nk, nv)[kk]
        == pairs_map(ks, vs).insert(k, v)[kk] by {
        let t = choose|t: int| 0 <= t < nk.len() && nk[t] == kk;
        lemma_pairs_map_index_nodup(nk, nv, t);
        if t < ks.len() {
            lemma_pairs_map_index_nodup(ks, vs, t);
            if kk == k {
                assert(nk[ks.len() as int] == k);
            }
        }
    }
    assert(pairs_map(nk, nv) =~= pairs_map(ks, vs).insert(k, v));
}

pub proof fn lemma_pairs_map_finite<V>(ks: Seq<Seq<u8>>, vs: Seq<V>)
    ensures
        pairs_map(ks, vs).dom() == ks.to_set(),
        pairs_map(ks, vs).dom().finite(),
{
    assert(pairs_map(ks, vs).dom() =~= ks.to_set());
    vstd::seq_lib::seq_to_set_is_finite(ks);
}

pub proof fn lemma_pairs_map_len<V>(ks: Seq<Seq<u8>>, vs: Seq<V>)
    requires
        strictly_sorted(ks),
    ensures
        pairs_map(ks, vs).dom().finite(),
        pairs_map(ks, vs).len() == ks.len(),
{
    lemma_pairs_map_finite(ks, vs);
    assert forall|i: int, j: int| 0 <= i < ks.len() && 0 <= j < ks.len() && i != j implies ks[i]
        != ks[j] by {
        if ks[i] == ks[j] {
            lemma_sorted_unique(ks, i, j);
        }
    }
    assert(ks.no_duplicates());
    ks.unique_seq_to_set();
}

pub proof fn lemma_pairs_map_len_nodup<V>(ks: Seq<Seq<u8>>, vs: Seq<V>)
    requires
        ks.no_duplicates(),
    ensures
        pairs_map(ks, vs).dom().finite(),
        pairs_map(ks, vs).len() == ks.len(),
{
    lemma_pairs_map_finite(ks, vs);
    ks.unique_seq_to_set();
}

pub proof fn lemma_pairs_map_empty<V>()
    ensures
        pairs_map(Seq::<Seq<u8>>::empty(), Seq::<V>::empty()) == Map::<Seq<u8>, V>::empty(),
{
    assert(pairs_map(Seq::<Seq<u8>>::empty(), Seq::<V>::empty()) =~= Map::<Seq<u8>, V>::empty());
}

/// Inserting a key at its sorted place keeps the sequence strictly sorted.
pub proof fn lemma_sorted_insert(ks: Seq<Seq<u8>>, p: int, k: Seq<u8>)
    requires
        strictly_sorted(ks),
        0 <= p <= ks.len(),
        forall|j: int| 0 <= j < p ==> lex_lt(#[trigger] ks[j], k),
        forall|j: int| p <= j < ks.len() ==> lex_lt(k, #[trigger] ks[j]),
    ensures
        strictly_sorted(ks.insert(p, k)),
{
    let n = ks.insert(p, k);
    assert forall|i: int, j: int| 0 <= i < j < n.len() implies lex_lt(#[trigger] n[i], #[trigger] n[j]) by {
        if i < p && j < p {
        } else if i < p && j == p {
        } else if i < p && j > p {
            assert(n[j] == ks[j - 1]);
        } else if i == p {
            assert(n[j] == ks[j - 1]);
        } else {
            assert(n[i] == ks[i - 1]);
            assert(n[j] == ks[j - 1]);
        }
    }
}

pub proof fn lemma_sorted_remove(ks: Seq<Seq<u8>>, p: int)
    requires
        strictly_sorted(ks),
        0 <= p < ks.len(),
    ensures
        strictly_sorted(ks.remove(p)),
{
    let n = ks.remove(p);
    assert forall|i: int, j: int| 0 <= i < j < n.len() implies lex_lt(#[trigger] n[i], #[trigger] n[j]) by {
        let a = if i < p { i } else { i + 1 };
        let b = if j < p { j } else { j + 1 };
        assert(n[i] == ks[a]);
        assert(n[j] == ks[b]);
    }
}

pub proof fn lemma_pairs_map_insert<V>(ks: Seq<Seq<u8>>, vs: Seq<V>, p: int, k: Seq<u8>, v: V)
    requires
        ks.len() == vs.len(),
        0 <= p <= ks.len(),
        strictly_sorted(ks.insert(p, k)),
    ensures
        pairs_map(ks.insert(p, k), vs.insert(p, v)) == pairs_map(ks, vs).insert(k, v),
        !pairs_map(ks, vs).contains_key(k),
{
    let nk = ks.insert(p, k);
    let nv = vs.insert(p, v);
    let old_m = pairs_map(ks, vs);
    let new_m = pairs_map(nk, nv);
    assert(strictly_sorted(ks)) by {
        assert forall|i: int, j: int| 0 <= i < j < ks.len() implies lex_lt(#[trigger] ks[i], #[trigger] ks[j]) by {
            let a = if i < p { i } else { i + 1 };
            let b = if j < p { j } else { j + 1 };
            assert(nk[a] == ks[i]);
            assert(nk[b] == ks[j]);
        }
    }
    assert forall|j: int| 0 <= j < ks.len() implies ks[j] != k by {
        let a = if j < p { j } else { j + 1 };
        assert(nk[a] == ks[j]);
        assert(nk[p] == k);
        if ks[j] == k {
            lemma_sorted_unique(nk, a, p);
        }
    }
    assert forall|key: Seq<u8>| new_m.contains_key(key) == old_m.insert(k, v).contains_key(key) by {
        if nk.contains(key) {
            let i = choose|i: int| 0 <= i < nk.len() && nk[i] == key;
            if i != p {
                let a = if i < p { i } else { i - 1 };
                assert(ks[a] == key);
            }
        }
        if ks.contains(key) {
            let i = choose|i: int| 0 <= i < ks.len() && ks[i] == key;
            let a = if i < p { i } else { i + 1 };
            assert(nk[a] == key);
        }
        if key == k {
            assert(nk[p] == k);
        }
    }
    assert forall|key: Seq<u8>| #[trigger] new_m.contains_key(key) implies new_m[key] == old_m.insert(
        k,
        v,
    )[key] by {
        let i = choose|i: int| 0 <= i < nk.len() && nk[i] == key;
        lemma_pairs_map_index(nk, nv, i);
        if i == p {
        } else {
            let a = if i < p { i } else { i - 1 };
            assert(ks[a] == key);
            assert(nv[i] == vs[a]);
            lemma_pairs_map_index(ks, vs, a);
        }
    }
    assert(new_m =~= old_m.insert(k, v));
}

pub proof fn lemma_pairs_map_update<V>(ks: Seq<Seq<u8>>, vs: Seq<V>, i: int, v: V)
    requires
        ks.len() == vs.len(),
        0 <= i < ks.len(),
        strictly_sorted(ks),
    ensures
        pairs_map(ks, vs.update(i, v)) == pairs_map(ks, vs).insert(ks[i], v),
{
    let old_m = pairs_map(ks, vs);
    let new_m = pairs_map(ks, vs.update(i, v));
    assert forall|key: Seq<u8>| #[trigger] new_m.contains_key(key) implies new_m[key] == old_m.insert(
        ks[i],
        v,
    )[key] by {
        let j = choose|j: int| 0 <= j < ks.len() && ks[j] == key;
        lemma_pairs_map_index(ks, vs.update(i, v), j);
        lemma_pairs_map_index(ks, vs, j);
        if j != i && key == ks[i] {
            lemma_sorted_unique(ks, i, j);
        }
    }
    assert(new_m =~= old_m.insert(ks[i], v));
}

pub proof fn lemma_pairs_map_remove<V>(ks: Seq<Seq<u8>>, vs: Seq<V>, i: int)
    requires
        ks.len() == vs.len(),
        0 <= i < ks.len(),
        strictly_sorted(ks),
    ensures
        pairs_map(ks.remove(i), vs.remove(i)) == pairs_map(ks, vs).remove(ks[i]),
{
    let nk = ks.remove(i);
    let nv = vs.remove(i);
    let old_m = pairs_map(ks, vs);
    let new_m = pairs_map(nk, nv);
    lemma_sorted_remove(ks, i);
    assert forall|key: Seq<u8>| new_m.contains_key(key) == old_m.remove(ks[i]).contains_key(key) by {
        if nk.contains(key) {
            let j = choose|j: int| 0 <= j < nk.len() && nk[j] == key;
            let a = if j < i { j } else { j + 1 };
            assert(ks[a] == key);
            if key == ks[i] {
                lemma_sorted_unique(ks, a, i);
            }
        }
        if ks.contains(key) && key != ks[i] {
            let j = choose|j: int| 0 <= j < ks.len() && ks[j] == key;
            let a = if j < i { j } else { j - 1 };
            assert(nk[a] == key);
        }
    }
    assert forall|key: Seq<u8>| #[trigger] new_m.contains_key(key) implies new_m[key] == old_m.remove(
        ks[i],
    )[key] by {
        let j = choose|j: int| 0 <= j < nk.len() && nk[j] == key;
        lemma_pairs_map_index(nk, nv, j);
        let a = if j < i { j } else { j + 1 };
        assert(ks[a] == key);
        lemma_pairs_map_index(ks, vs, a);
    }
    assert(new_m =~= old_m.remove(ks[i]));
}


/// Two strictly sorted key sequences with the same elements are equal.
pub proof fn lemma_sorted_same_elements(a: Seq<Seq<u8>>, b: Seq<Seq<u8>>)
    requires
        strictly_sorted(a),
        strictly_sorted(b),
        forall|k: Seq<u8>| a.contains(k) <==> b.contains(k),
    ensures
        a == b,
    decreases a.len(),
{
    if a.len() == 0 {
        if b.len() > 0 {
            assert(b.contains(b[0]));
        }
        assert(a =~= b);
    } else if b.len() == 0 {
        assert(a.contains(a[0]));
    } else {
        assert(a.contains(a[0]));
        assert(b.contains(b[0]));
        let j = choose|j: int| 0 <= j < b.len() && b[j] == a[0];
        let i = choose|i: int| 0 <= i < a.len() && a[i] == b[0];
        if j > 0 {
            assert(lex_lt(b[0], b[j]));
            if i > 0 {
                assert(lex_lt(a[0], a[i]));
                crate::keys::lemma_lex_transitive(a[0], a[i], a[0]);
                crate::keys::lemma_lex_irreflexive(a[0]);
            } else {
                crate::keys::lemma_lex_irreflexive(a[0]);
            }
        }
        assert(a[0] == b[0]);
        let a1 = a.drop_first();
        let b1 = b.drop_first();
        assert forall|k: Seq<u8>| a1.contains(k) <==> b1.contains(k) by {
            if a1.contains(k) {
                let u = choose|u: int| 0 <= u < a1.len() && a1[u] == k;
                assert(a[u + 1] == k);
                assert(lex_lt(a[0], a[u + 1]));
                assert(b.contains(k));
                let w = choose|w: int| 0 <= w < b.len() && b[w] == k;
                if w == 0 {
                    crate::keys::lemma_lex_irreflexive(k);
                }
                assert(b1[w - 1] == k);
            }
            if b1.contains(k) {
                let u = choose|u: int| 0 <= u < b1.len() && b1[u] == k;
                assert(b[u + 1] == k);
                assert(lex_lt(b[0], b[u + 1]));
                assert(a.contains(k));
                let w = choose|w: int| 0 <= w < a.len() && a[w] == k;
                if w == 0 {
                    crate::keys::lemma_lex_irreflexive(k);
                }
                assert(a1[w - 1] == k);
            }
        }
        assert(strictly_sorted(a1));
        assert(strictly_sorted(b1));
        lemma_sorted_same_elements(a1, b1);
        assert(a =~= seq![a[0]] + a1);
        assert(b =~= seq![b[0]] + b1);
    }
}

/// The room one entry takes in a leaf: a length byte, the key's bytes and
/// the value.
pub open spec fn entry_bytes<V>(k: Seq<u8>) -> int {
    (1 + k.len() + vstd::layout::size_of::<V>()) as int
}

/// Adds one key's entry room to a running total.
pub open spec fn add_entry_bytes<V>() -> spec_fn(int, Seq<u8>) -> int {
    |acc: int, k: Seq<u8>| acc + entry_bytes::<V>(k)
}

/// The room the entries of a set of keys take together.
pub open spec fn keys_bytes<V>(s: Set<Seq<u8>>) -> int {
    s.fold(0int, add_entry_bytes::<V>())
}

/// The room the entries of a map take together in one leaf.
pub open spec fn map_bytes<V>(m: Map<Seq<u8>, V>) -> int {
    keys_bytes::<V>(m.dom())
}

/// The room a list of keys' entries take, in order.
pub open spec fn seq_bytes<V>(ks: Seq<Seq<u8>>) -> int
    decreases ks.len(),
{
    if ks.len() == 0 {
        0
    } else {
        seq_bytes::<V>(ks.drop_last()) + entry_bytes::<V>(ks.last())
    }
}

proof fn lemma_add_entry_bytes_commutative<V>()
    ensures
        vstd::set::fold::is_fun_commutative(add_entry_bytes::<V>()),
{
}

/// No keys take no room.
pub proof fn lemma_keys_bytes_empty<V>()
    ensures
        keys_bytes::<V>(Set::empty()) == 0,
{
    vstd::set::fold::lemma_fold_empty(0int, add_entry_bytes::<V>());
}

/// A new key adds its entry's room.
pub proof fn lemma_keys_bytes_insert<V>(s: Set<Seq<u8>>, k: Seq<u8>)
    requires
        s.finite(),
        !s.contains(k),
    ensures
        keys_bytes::<V>(s.insert(k)) == keys_bytes::<V>(s) + entry_bytes::<V>(k),
{
    lemma_add_entry_bytes_commutative::<V>();
    vstd::set::fold::lemma_fold_insert(s, 0int, add_entry_bytes::<V>(), k);
}

/// The room of two sets of keys that share none is the sum of their rooms.
pub proof fn lemma_keys_bytes_union<V>(a: Set<Seq<u8>>, b: Set<Seq<u8>>)
    requires
        a.finite(),
        b.finite(),
        a.disjoint(b),
    ensures
        keys_bytes::<V>(a.union(b)) == keys_bytes::<V>(a) + keys_bytes::<V>(b),
    decreases b.len(),
{
    if b.len() == 0 {
        assert(b =~= Set::<Seq<u8>>::empty());
        assert(a.union(b) =~= a);
        lemma_keys_bytes_empty::<V>();
    } else {
        let x = b.choose();
        assert(b.contains(x));
        let b1 = b.remove(x);
        lemma_keys_bytes_union::<V>(a, b1);
        assert(a.union(b) =~= a.union(b1).insert(x));
        assert(b =~= b1.insert(x));
        lemma_keys_bytes_insert::<V>(a.union(b1), x);
        lemma_keys_bytes_insert::<V>(b1, x);
    }
}

/// A list of distinct keys takes the room of the set of its keys.
pub proof fn lemma_seq_bytes_set<V>(ks: Seq<Seq<u8>>)
    requires
        ks.no_duplicates(),
    ensures
        seq_bytes::<V>(ks) == keys_bytes::<V>(ks.to_set()),
    decreases ks.len(),
{
    broadcast use vstd::seq_lib::seq_to_set_is_finite;

    if ks.len() == 0 {
        assert(ks.to_set() =~= Set::<Seq<u8>>::empty());
        lemma_keys_bytes_empty::<V>();
    } else {
        let init = ks.drop_last();
        assert(init.no_duplicates());
        lemma_seq_bytes_set::<V>(init);
        assert(ks.to_set() =~= init.to_set().insert(ks.last())) by {
            assert(ks =~= init.push(ks.last()));
        }
        assert(!init.to_set().contains(ks.last())) by {
            if init.contains(ks.last()) {
                let j = init.index_of(ks.last());
                assert(ks[j] == ks[ks.len() - 1]);
            }
        }
        lemma_keys_bytes_insert::<V>(init.to_set(), ks.last());
    }
}

/// Inserting into a map adds the room of a new key's entry; replacing a
/// value takes no more room. An empty map takes none.
pub proof fn law_map_bytes_insert<V>(m: Map<Seq<u8>, V>, k: Seq<u8>, v: V)
    requires
        m.dom().finite(),
    ensures
        map_bytes(m.insert(k, v)) == map_bytes(m) + if m.contains_key(k) {
            0
        } else {
            entry_bytes::<V>(k)
        },
        map_bytes(Map::<Seq<u8>, V>::empty()) == 0,
{
    lemma_keys_bytes_empty::<V>();
    assert(Map::<Seq<u8>, V>::empty().dom() =~= Set::<Seq<u8>>::empty());
    if m.contains_key(k) {
        assert(m.insert(k, v).dom() =~= m.dom());
    } else {
        assert(m.insert(k, v).dom() =~= m.dom().insert(k));
        lemma_keys_bytes_insert::<V>(m.dom(), k);
    }
}

} // verus!
