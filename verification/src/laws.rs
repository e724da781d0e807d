//! Properties of the map operations that relate several calls. Each is
//! stated over the views that the operations' contracts use: `insert`,
//! `remove` and `get` act on `HatTrie::view` as `Map::insert`, `Map::remove`
//! and `Map::get` do, and the walks hand out strictly sorted key lists whose
//! entries form the map they walk.
use vstd::prelude::*;

use crate::bucket::MAX_BUCKET_KEY_LEN;
use crate::entries::{law_map_bytes_insert, lemma_pairs_map_index, lemma_sorted_same_elements, pairs_map};
use crate::fuzzy::{lev, min3, subst_cost};
use crate::keys::{has_prefix, lemma_lex_irreflexive, lex_le, lex_lt, strictly_sorted};
use crate::{leaf_bytes, above_start, below_end, is_longest_stored_prefix, is_lower_bound, is_upper_bound, HatTrie, KeyBound};

verus! {

/// A read after a write: right after `insert(k, v)`, `get(k)` finds `v`, and
/// every other key reads as before.
pub proof fn law_get_after_insert<V>(m: Map<Seq<u8>, V>, k: Seq<u8>, v: V)
    ensures
        m.insert(k, v).get(k) == Some(v),
        forall|k2: Seq<u8>| k2 != k ==> #[trigger] m.insert(k, v).get(k2) == m.get(k2),
{
}

/// A read after a removal: right after `remove(k)`, `get(k)` finds nothing,
/// and every other key reads as before.
pub proof fn law_get_after_remove<V>(m: Map<Seq<u8>, V>, k: Seq<u8>)
    ensures
        m.remove(k).get(k) is None,
        forall|k2: Seq<u8>| k2 != k ==> #[trigger] m.remove(k).get(k2) == m.get(k2),
{
}

/// `insert` grows the length by one exactly when the key was absent.
pub proof fn law_insert_len<V>(m: Map<Seq<u8>, V>, k: Seq<u8>, v: V)
    requires
        m.dom().finite(),
    ensures
        m.insert(k, v).len() == if m.contains_key(k) {
            m.len()
        } else {
            m.len() + 1
        },
{
    if m.contains_key(k) {
        assert(m.insert(k, v).dom() =~= m.dom());
    }
}

/// `remove` shrinks the length by one exactly when the key was present.
pub proof fn law_remove_len<V>(m: Map<Seq<u8>, V>, k: Seq<u8>)
    requires
        m.dom().finite(),
    ensures
        m.remove(k).len() == if m.contains_key(k) {
            m.len() - 1
        } else {
            m.len() as int
        },
{
    if !m.contains_key(k) {
        assert(m.remove(k).dom() =~= m.dom());
    }
}

/// Inserting a new key and removing it again gives back the map.
pub proof fn law_remove_undoes_insert<V>(m: Map<Seq<u8>, V>, k: Seq<u8>, v: V)
    requires
        !m.contains_key(k),
    ensures
        m.insert(k, v).remove(k) == m,
{
    assert(m.insert(k, v).remove(k) =~= m);
}

/// Removing a key and inserting its old value again gives back the map.
pub proof fn law_insert_undoes_remove<V>(m: Map<Seq<u8>, V>, k: Seq<u8>)
    requires
        m.contains_key(k),
    ensures
        m.remove(k).insert(k, m[k]) == m,
{
    assert(m.remove(k).insert(k, m[k]) =~= m);
}

/// Inserting the same key twice keeps only the second value.
pub proof fn law_insert_overwrites<V>(m: Map<Seq<u8>, V>, k: Seq<u8>, v1: V, v2: V)
    ensures
        m.insert(k, v1).insert(k, v2) == m.insert(k, v2),
{
    assert(m.insert(k, v1).insert(k, v2) =~= m.insert(k, v2));
}

/// Bursting: no leaf of a trie takes more than its threshold of bytes. Every
/// operation keeps this, since each keeps a trie well formed.
pub proof fn law_leaves_within_threshold<V>(t: HatTrie<V>)
    requires
        t.wf(),
    ensures
        t.leaves_within_threshold(),
{
    t.lemma_wf();
}

/// Two walks in key order over the same entries hand out the same keys and
/// values in the same order: `iter`, `streaming_iter`, `iter_segments` and
/// `into_iter` of one trie agree, and so do tries that hold the same map
/// whatever their thresholds.
pub proof fn law_sorted_walks_agree<V>(ks1: Seq<Seq<u8>>, vs1: Seq<V>, ks2: Seq<Seq<u8>>, vs2: Seq<V>)
    requires
        strictly_sorted(ks1),
        strictly_sorted(ks2),
        ks1.len() == vs1.len(),
        ks2.len() == vs2.len(),
        pairs_map(ks1, vs1) == pairs_map(ks2, vs2),
    ensures
        ks1 == ks2,
        vs1 == vs2,
{
    assert forall|k: Seq<u8>| ks1.contains(k) <==> ks2.contains(k) by {
        assert(pairs_map(ks1, vs1).contains_key(k) == ks1.contains(k));
        assert(pairs_map(ks2, vs2).contains_key(k) == ks2.contains(k));
    }
    lemma_sorted_same_elements(ks1, ks2);
    assert forall|i: int| 0 <= i < vs1.len() implies vs1[i] == vs2[i] by {
        lemma_pairs_map_index(ks1, vs1, i);
        lemma_pairs_map_index(ks2, vs2, i);
    }
    assert(vs1 =~= vs2);
}

/// A walk over every entry in key order hands out each key of the map
/// exactly once.
pub proof fn law_walk_covers_map<V>(m: Map<Seq<u8>, V>, ks: Seq<Seq<u8>>, vs: Seq<V>)
    requires
        strictly_sorted(ks),
        ks.len() == vs.len(),
        pairs_map(ks, vs) == m,
    ensures
        forall|k: Seq<u8>| #[trigger] m.contains_key(k) <==> ks.contains(k),
        forall|i: int, j: int| 0 <= i < j < ks.len() ==> ks[i] != ks[j],
        forall|i: int| 0 <= i < ks.len() ==> m[#[trigger] ks[i]] == vs[i],
{
    assert forall|i: int, j: int| 0 <= i < j < ks.len() implies ks[i] != ks[j] by {
        assert(lex_lt(ks[i], ks[j]));
        if ks[i] == ks[j] {
            lemma_lex_irreflexive(ks[i]);
        }
    }
    assert forall|i: int| 0 <= i < ks.len() implies m[#[trigger] ks[i]] == vs[i] by {
        lemma_pairs_map_index(ks, vs, i);
    }
}

/// An unbounded range is the whole map.
pub proof fn law_full_range<V>(m: Map<Seq<u8>, V>)
    ensures
        m.restrict(
            Set::new(
                |k: Seq<u8>| above_start(k, KeyBound::Unbounded) && below_end(k, KeyBound::Unbounded),
            ),
        ) == m,
{
    assert(m.restrict(
        Set::new(
            |k: Seq<u8>| above_start(k, KeyBound::Unbounded) && below_end(k, KeyBound::Unbounded),
        ),
    ) =~= m);
}

/// Every key starts with the empty prefix: scanning it gives the whole map.
pub proof fn law_empty_prefix_scan<V>(m: Map<Seq<u8>, V>)
    ensures
        m.restrict(Set::new(|k: Seq<u8>| has_prefix(k, Seq::<u8>::empty()))) == m,
{
    assert forall|k: Seq<u8>| has_prefix(k, Seq::<u8>::empty()) by {
        assert(k.subrange(0, 0) =~= Seq::<u8>::empty());
    }
    assert(m.restrict(Set::new(|k: Seq<u8>| has_prefix(k, Seq::<u8>::empty()))) =~= m);
}

/// The lower bound of a key is the key itself when it is stored, and its
/// upper bound otherwise.
pub proof fn law_lower_bound_cases<V>(m: Map<Seq<u8>, V>, key: Seq<u8>, k: Seq<u8>)
    requires
        is_lower_bound(m, key, k),
    ensures
        m.contains_key(key) ==> k == key,
        !m.contains_key(key) ==> is_upper_bound(m, key, k),
{
    if m.contains_key(key) {
        assert(lex_le(k, key));
        if k != key {
            crate::keys::lemma_lex_transitive(k, key, k);
            lemma_lex_irreflexive(k);
        }
    } else {
        assert(k != key);
    }
}

/// A key has one lower bound and one upper bound in a map.
pub proof fn law_bounds_unique<V>(m: Map<Seq<u8>, V>, key: Seq<u8>, a: Seq<u8>, b: Seq<u8>)
    ensures
        is_lower_bound(m, key, a) && is_lower_bound(m, key, b) ==> a == b,
        is_upper_bound(m, key, a) && is_upper_bound(m, key, b) ==> a == b,
{
    if is_lower_bound(m, key, a) && is_lower_bound(m, key, b) {
        assert(lex_le(a, b) && lex_le(b, a));
        if a != b {
            crate::keys::lemma_lex_transitive(a, b, a);
            lemma_lex_irreflexive(a);
        }
    }
    if is_upper_bound(m, key, a) && is_upper_bound(m, key, b) {
        assert(lex_le(a, b) && lex_le(b, a));
        if a != b {
            crate::keys::lemma_lex_transitive(a, b, a);
            lemma_lex_irreflexive(a);
        }
    }
}

/// The longest stored prefix of a key is unique.
pub proof fn law_longest_prefix_unique<V>(m: Map<Seq<u8>, V>, key: Seq<u8>, n1: int, n2: int)
    requires
        is_longest_stored_prefix(m, key, n1),
        is_longest_stored_prefix(m, key, n2),
    ensures
        n1 == n2,
{
    if n1 < n2 {
        assert(!m.contains_key(key.take(n2)));
    }
    if n2 < n1 {
        assert(!m.contains_key(key.take(n1)));
    }
}

/// A stored key is its own longest stored prefix.
pub proof fn law_longest_prefix_of_stored_key<V>(m: Map<Seq<u8>, V>, key: Seq<u8>)
    requires
        m.contains_key(key),
    ensures
        is_longest_stored_prefix(m, key, key.len() as int),
{
    assert(key.take(key.len() as int) =~= key);
}

/// A key is at distance 0 from itself: a fuzzy search finds a stored target
/// at every distance.
pub proof fn law_lev_self(k: Seq<u8>)
    ensures
        lev(k, k) == 0,
    decreases k.len(),
{
    if k.len() > 0 {
        law_lev_self(k.drop_last());
    }
}

/// Only a key itself is at distance 0 from it.
pub proof fn law_lev_zero(a: Seq<u8>, b: Seq<u8>)
    requires
        lev(a, b) == 0,
    ensures
        a == b,
    decreases a.len() + b.len(),
{
    if a.len() > 0 && b.len() > 0 {
        assert(min3(
            lev(a.drop_last(), b) + 1int,
            lev(a, b.drop_last()) + 1int,
            lev(a.drop_last(), b.drop_last()) + subst_cost(a.last(), b.last()),
        ) == 0);
        law_lev_zero(a.drop_last(), b.drop_last());
        assert(a =~= a.drop_last().push(a.last()));
        assert(b =~= b.drop_last().push(b.last()));
    } else {
        assert(a =~= b);
    }
}

/// One change made to a map: an insert of a value under a key, or the
/// removal of a key.
pub enum Edit<V> {
    Insert(Seq<u8>, V),
    Remove(Seq<u8>),
}

/// The map after one change.
pub open spec fn apply_edit<V>(m: Map<Seq<u8>, V>, e: Edit<V>) -> Map<Seq<u8>, V> {
    match e {
        Edit::Insert(k, v) => m.insert(k, v),
        Edit::Remove(k) => m.remove(k),
    }
}

/// The map after a run of changes, made in order.
pub open spec fn apply_edits<V>(m: Map<Seq<u8>, V>, es: Seq<Edit<V>>) -> Map<Seq<u8>, V>
    decreases es.len(),
{
    if es.len() == 0 {
        m
    } else {
        apply_edit(apply_edits(m, es.drop_last()), es.last())
    }
}

/// A trie behaves as an ordered map over any run of inserts and removals,
/// interleaved with reads: `ts[i]` is the trie before change `i`, made from
/// `ts[0]` by `insert` and `remove` as their contracts state, and `reads[i]`
/// is what `get` gave on `ts[i]` for some key `read_keys[i]` (or what
/// `remove` handed back, which its contract states is the same value). Then every trie
/// holds the map that the changes so far make from the first one, with that
/// map's length, every read gives that map's value, and every full walk
/// hands out that map's keys in ascending order with their values.
pub proof fn law_edits_agree_with_map<V>(
    ts: Seq<HatTrie<V>>,
    es: Seq<Edit<V>>,
    read_keys: Seq<Seq<u8>>,
    reads: Seq<Option<V>>,
)
    requires
        ts.len() == es.len() + 1,
        read_keys.len() == ts.len(),
        reads.len() == ts.len(),
        forall|i: int| 0 <= i < ts.len() ==> (#[trigger] ts[i]).wf(),
        forall|i: int| 0 <= i < es.len() ==> #[trigger] ts[i + 1]@ == apply_edit(ts[i]@, es[i]),
        forall|i: int| 0 <= i < ts.len() ==> #[trigger] reads[i] == ts[i]@.get(read_keys[i]),
    ensures
        forall|i: int| 0 <= i < ts.len() ==> #[trigger] ts[i]@ == apply_edits(ts[0]@, es.take(i)),
        forall|i: int| 0 <= i < ts.len() ==> (#[trigger] ts[i]@).len() == apply_edits(ts[0]@, es.take(i)).len(),
        forall|i: int| 0 <= i < ts.len() ==> #[trigger] reads[i] == apply_edits(ts[0]@, es.take(i)).get(read_keys[i]),
        forall|i: int, ks: Seq<Seq<u8>>, vs: Seq<V>|
            #![trigger pairs_map(ks, vs), ts[i]]
            0 <= i < ts.len() && strictly_sorted(ks) && ks.len() == vs.len() && pairs_map(ks, vs) == ts[i]@
                ==> pairs_map(ks, vs) == apply_edits(ts[0]@, es.take(i)) && forall|k: Seq<u8>|
                #[trigger] ks.contains(k) <==> apply_edits(ts[0]@, es.take(i)).contains_key(k),
{
    assert forall|i: int| 0 <= i < ts.len() implies #[trigger] ts[i]@ == apply_edits(ts[0]@, es.take(i)) by {
        lemma_edits_prefix(ts, es, i);
    }
    assert forall|i: int, ks: Seq<Seq<u8>>, vs: Seq<V>|
        #![trigger pairs_map(ks, vs), ts[i]]
        0 <= i < ts.len() && strictly_sorted(ks) && ks.len() == vs.len() && pairs_map(ks, vs) == ts[i]@
        implies pairs_map(ks, vs) == apply_edits(ts[0]@, es.take(i)) && forall|k: Seq<u8>|
        #[trigger] ks.contains(k) <==> apply_edits(ts[0]@, es.take(i)).contains_key(k) by {
        lemma_edits_prefix(ts, es, i);
        law_walk_covers_map(ts[i]@, ks, vs);
    }
}

/// The map after inserting `vals[i]` under `keys[i]` for each `i` in turn.
pub open spec fn insert_all<V>(m: Map<Seq<u8>, V>, keys: Seq<Seq<u8>>, vals: Seq<V>) -> Map<Seq<u8>, V>
    decreases keys.len(),
{
    if keys.len() == 0 {
        m
    } else {
        insert_all(m, keys.drop_last(), vals.drop_last()).insert(keys.last(), vals.last())
    }
}

/// A trie filled by a run of `insert` calls agrees with an ordered map filled
/// by the same inserts: `ts[i + 1]` is `ts[i]` after `insert(keys[i],
/// vals[i])`, which handed back `olds[i]`, each as `HatTrie::insert` states.
/// Then every trie of the run holds exactly the map that the inserts so far
/// make, with that map's length; every insert hands back what that map held
/// under the key; and every full walk in key order (`iter`, `into_iter`, the
/// streaming and segment walks) gives that map's keys, each once, in
/// ascending order, each with that map's value.
pub proof fn law_insert_run_agrees_with_map<V>(
    ts: Seq<HatTrie<V>>,
    keys: Seq<Seq<u8>>,
    vals: Seq<V>,
    olds: Seq<Option<V>>,
)
    requires
        ts.len() == keys.len() + 1,
        vals.len() == keys.len(),
        olds.len() == keys.len(),
        forall|i: int| 0 <= i < ts.len() ==> (#[trigger] ts[i]).wf(),
        forall|i: int|
            0 <= i < keys.len() ==> #[trigger] ts[i + 1]@ == ts[i]@.insert(keys[i], vals[i]) && olds[i]
                == ts[i]@.get(keys[i]),
    ensures
        forall|i: int|
            0 <= i < ts.len() ==> #[trigger] ts[i]@ == insert_all(ts[0]@, keys.take(i), vals.take(i)),
        forall|i: int|
            0 <= i < ts.len() ==> (#[trigger] ts[i]@).len() == insert_all(
                ts[0]@,
                keys.take(i),
                vals.take(i),
            ).len(),
        forall|i: int|
            0 <= i < keys.len() ==> #[trigger] olds[i] == insert_all(ts[0]@, keys.take(i), vals.take(i)).get(
                keys[i],
            ),
        forall|i: int, ks: Seq<Seq<u8>>, vs: Seq<V>|
            #![trigger pairs_map(ks, vs), ts[i]]
            0 <= i < ts.len() && strictly_sorted(ks) && ks.len() == vs.len() && pairs_map(ks, vs) == ts[i]@
                ==> {
                let m = insert_all(ts[0]@, keys.take(i), vals.take(i));
                &&& forall|k: Seq<u8>| #[trigger] ks.contains(k) <==> m.contains_key(k)
                &&& forall|j: int| 0 <= j < ks.len() ==> m[#[trigger] ks[j]] == vs[j]
            },
{
    assert forall|i: int| 0 <= i < ts.len() implies #[trigger] ts[i]@ == insert_all(
        ts[0]@,
        keys.take(i),
        vals.take(i),
    ) by {
        lemma_insert_run_prefix(ts, keys, vals, olds, i);
    }
    assert forall|i: int| 0 <= i < keys.len() implies #[trigger] olds[i] == insert_all(
        ts[0]@,
        keys.take(i),
        vals.take(i),
    ).get(keys[i]) by {
        lemma_insert_run_prefix(ts, keys, vals, olds, i);
        assert(ts[i + 1]@ == ts[i]@.insert(keys[i], vals[i]));
    }
    assert forall|i: int, ks: Seq<Seq<u8>>, vs: Seq<V>|
        #![trigger pairs_map(ks, vs), ts[i]]
        0 <= i < ts.len() && strictly_sorted(ks) && ks.len() == vs.len() && pairs_map(ks, vs) == ts[i]@
        implies {
        let m = insert_all(ts[0]@, keys.take(i), vals.take(i));
        &&& forall|k: Seq<u8>| #[trigger] ks.contains(k) <==> m.contains_key(k)
        &&& forall|j: int| 0 <= j < ks.len() ==> m[#[trigger] ks[j]] == vs[j]
    } by {
        lemma_insert_run_prefix(ts, keys, vals, olds, i);
        law_walk_covers_map(ts[i]@, ks, vs);
    }
}

/// A trie that is still one leaf stays one leaf over a run of inserts of
/// keys no longer than 255 bytes, as long as the entries it ends with fit in
/// one leaf: `ts[i + 1]` is `ts[i]` after `insert(keys[i], vals[i])`, as
/// `HatTrie::insert` states. A fresh trie is one leaf, so a trie that never
/// held more than its threshold's worth of entries has not burst.
pub proof fn law_small_tries_stay_one_leaf<V>(ts: Seq<HatTrie<V>>, keys: Seq<Seq<u8>>, vals: Seq<V>)
    requires
        ts.len() == keys.len() + 1,
        vals.len() == keys.len(),
        forall|i: int| 0 <= i < ts.len() ==> (#[trigger] ts[i]).wf(),
        forall|i: int| 0 <= i < keys.len() ==> (#[trigger] keys[i]).len() <= MAX_BUCKET_KEY_LEN,
        forall|i: int|
            0 <= i < keys.len() ==> {
                &&& #[trigger] ts[i + 1]@ == ts[i]@.insert(keys[i], vals[i])
                &&& ts[i + 1].threshold() == ts[i].threshold()
                &&& ts[i].root_is_leaf() && keys[i].len() <= MAX_BUCKET_KEY_LEN ==> (ts[i
                    + 1].root_is_leaf() <==> leaf_bytes(ts[i + 1]@) <= ts[i + 1].threshold())
            },
        ts[0].root_is_leaf(),
        leaf_bytes(ts[keys.len() as int]@) <= ts[0].threshold(),
    ensures
        forall|i: int| 0 <= i < ts.len() ==> (#[trigger] ts[i]).root_is_leaf(),
{
    let n = keys.len() as int;
    // the room only grows along the run, and the threshold stays
    assert forall|i: int| 0 <= i <= n implies leaf_bytes(#[trigger] ts[i]@) <= ts[0].threshold()
        && ts[i].threshold() == ts[0].threshold() by {
        lemma_run_bytes_grow(ts, keys, vals, i);
    }
    assert forall|i: int| 0 <= i < ts.len() implies (#[trigger] ts[i]).root_is_leaf() by {
        lemma_run_stays_leaf(ts, keys, vals, i);
    }
}

proof fn lemma_run_bytes_grow<V>(ts: Seq<HatTrie<V>>, keys: Seq<Seq<u8>>, vals: Seq<V>, i: int)
    requires
        ts.len() == keys.len() + 1,
        vals.len() == keys.len(),
        forall|j: int| 0 <= j < ts.len() ==> (#[trigger] ts[j]).wf(),
        forall|j: int|
            0 <= j < keys.len() ==> {
                &&& #[trigger] ts[j + 1]@ == ts[j]@.insert(keys[j], vals[j])
                &&& ts[j + 1].threshold() == ts[j].threshold()
            },
        leaf_bytes(ts[keys.len() as int]@) <= ts[0].threshold(),
        0 <= i <= keys.len(),
    ensures
        leaf_bytes(ts[i]@) <= ts[0].threshold(),
        ts[i].threshold() == ts[0].threshold(),
    decreases keys.len() - i, 0int,
{
    lemma_run_threshold(ts, keys, i);
    if i < keys.len() {
        lemma_run_bytes_grow(ts, keys, vals, i + 1);
        ts[i].lemma_wf();
        law_map_bytes_insert(ts[i]@, keys[i], vals[i]);
        assert(ts[i + 1]@ == ts[i]@.insert(keys[i], vals[i]));
        assert(crate::entries::map_bytes(ts[i + 1]@) >= crate::entries::map_bytes(ts[i]@));
    }
}

proof fn lemma_run_threshold<V>(ts: Seq<HatTrie<V>>, keys: Seq<Seq<u8>>, i: int)
    requires
        ts.len() == keys.len() + 1,
        forall|j: int| 0 <= j < keys.len() ==> #[trigger] ts[j + 1].threshold() == ts[j].threshold(),
        0 <= i <= keys.len(),
    ensures
        ts[i].threshold() == ts[0].threshold(),
    decreases i,
{
    if i > 0 {
        lemma_run_threshold(ts, keys, i - 1);
        assert(ts[(i - 1) + 1].threshold() == ts[i - 1].threshold());
    }
}

proof fn lemma_run_stays_leaf<V>(ts: Seq<HatTrie<V>>, keys: Seq<Seq<u8>>, vals: Seq<V>, i: int)
    requires
        ts.len() == keys.len() + 1,
        vals.len() == keys.len(),
        forall|j: int| 0 <= j < keys.len() ==> (#[trigger] keys[j]).len() <= MAX_BUCKET_KEY_LEN,
        forall|j: int|
            0 <= j < keys.len() ==> {
                &&& #[trigger] ts[j + 1]@ == ts[j]@.insert(keys[j], vals[j])
                &&& ts[j + 1].threshold() == ts[j].threshold()
                &&& ts[j].root_is_leaf() && keys[j].len() <= MAX_BUCKET_KEY_LEN ==> (ts[j
                    + 1].root_is_leaf() <==> leaf_bytes(ts[j + 1]@) <= ts[j + 1].threshold())
            },
        forall|j: int| 0 <= j <= keys.len() ==> leaf_bytes(#[trigger] ts[j]@) <= ts[0].threshold() && ts[j].threshold()
            == ts[0].threshold(),
        ts[0].root_is_leaf(),
        0 <= i < ts.len(),
    ensures
        ts[i].root_is_leaf(),
    decreases i,
{
    if i > 0 {
        lemma_run_stays_leaf(ts, keys, vals, i - 1);
        let j = i - 1;
        assert(keys[j].len() <= MAX_BUCKET_KEY_LEN);
        assert(ts[j + 1]@ == ts[j]@.insert(keys[j], vals[j]));
        assert(leaf_bytes(ts[i]@) <= ts[0].threshold());
        assert(ts[i].threshold() == ts[0].threshold());
    }
}

/// Each trie of an insert run holds what the inserts before it make.
proof fn lemma_insert_run_prefix<V>(
    ts: Seq<HatTrie<V>>,
    keys: Seq<Seq<u8>>,
    vals: Seq<V>,
    olds: Seq<Option<V>>,
    i: int,
)
    requires
        ts.len() == keys.len() + 1,
        vals.len() == keys.len(),
        forall|j: int|
            0 <= j < keys.len() ==> #[trigger] ts[j + 1]@ == ts[j]@.insert(keys[j], vals[j]) && olds[j]
                == ts[j]@.get(keys[j]),
        0 <= i < ts.len(),
    ensures
        ts[i]@ == insert_all(ts[0]@, keys.take(i), vals.take(i)),
    decreases i,
{
    if i > 0 {
        lemma_insert_run_prefix(ts, keys, vals, olds, i - 1);
        assert(keys.take(i).drop_last() =~= keys.take(i - 1));
        assert(vals.take(i).drop_last() =~= vals.take(i - 1));
        assert(ts[(i - 1) + 1]@ == ts[i - 1]@.insert(keys[i - 1], vals[i - 1]));
    }
}

/// Each trie of a run holds what the changes before it make.
proof fn lemma_edits_prefix<V>(ts: Seq<HatTrie<V>>, es: Seq<Edit<V>>, i: int)
    requires
        ts.len() == es.len() + 1,
        forall|j: int| 0 <= j < es.len() ==> #[trigger] ts[j + 1]@ == apply_edit(ts[j]@, es[j]),
        0 <= i < ts.len(),
    ensures
        ts[i]@ == apply_edits(ts[0]@, es.take(i)),
    decreases i,
{
    if i == 0 {
        assert(es.take(0).len() == 0);
    } else {
        lemma_edits_prefix(ts, es, i - 1);
        assert(es.take(i).drop_last() =~= es.take(i - 1));
        assert(es.take(i).last() == es[i - 1]);
        assert(ts[(i - 1) + 1]@ == apply_edit(ts[i - 1]@, es[i - 1]));
    }
}

} // verus!
