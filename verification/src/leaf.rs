//! The trie's leaves: a small hash table of buckets, each key placed in the
//! bucket that its ahash hash picks.
use ahash::RandomState;
use vstd::prelude::*;

use crate::bucket::{bucket_entries_ok, Bucket, MAX_BUCKET_KEY_LEN};
use crate::entries::{
    keys_bytes, lemma_keys_bytes_empty, lemma_keys_bytes_union, map_bytes,
    lemma_pairs_map_concat, lemma_pairs_map_empty, lemma_pairs_map_index_nodup, lemma_pairs_map_skip,
    lemma_sorted_no_duplicates, pairs_map,
};
use crate::keys::{common_prefix_len, has_prefix, lcp_len, lemma_lcp_props};

verus! {

/// `ahash::RandomState`, carried through the leaves as an opaque value.
#[verifier::external_type_specification]
#[verifier::external_body]
pub struct ExRandomState(RandomState);

/// What `RandomState::hash_one` returns for a byte-string key under a given
/// hasher state. ahash documents that hashers built from one `RandomState`
/// give equal hashes for equal input; the state is an argument of the name,
/// so nothing is claimed across two states. ahash also documents that the
/// values differ between machines and versions of the crate: a state here
/// is made by `RandomState::new` in the running process and never leaves
/// it, so the name only ever relates hashes taken in one process.
pub uninterp spec fn ahash_hash_one(state: RandomState, key: Seq<u8>) -> u64;

/// `Clone::clone` for `ahash::RandomState`, which ahash derives: the copy
/// holds the same four keys, so it is taken to be the same state and hashes
/// every key as the state it was copied from.
pub assume_specification[ <RandomState as Clone>::clone ](state: &RandomState) -> (r: RandomState)
    ensures
        r == *state,
;

/// Calls `ahash::RandomState::new`. Its keys are random, so nothing is
/// stated of the state it returns.
#[verifier::external_body]
fn new_random_state() -> RandomState {
    RandomState::new()
}

/// Calls `ahash::RandomState::hash_one` on a byte slice; the result is the
/// named hash of the key under this state.
#[verifier::external_body]
fn hash_bytes(state: &RandomState, key: &[u8]) -> (h: u64)
    ensures
        h == ahash_hash_one(*state, key@),
{
    state.hash_one(key)
}

/// The bucket a key belongs in.
pub open spec fn slot_of(state: RandomState, mask: usize, k: Seq<u8>) -> int {
    ((ahash_hash_one(state, k) as usize) & mask) as int
}

/// The map held by a row of buckets: each key is looked up in its slot.
pub open spec fn spread_view<V>(bs: Seq<Bucket<V>>, state: RandomState, mask: usize) -> Map<
    Seq<u8>,
    V,
> {
    Map::new(
        |k: Seq<u8>| bs[slot_of(state, mask, k)]@.contains_key(k),
        |k: Seq<u8>| bs[slot_of(state, mask, k)]@[k],
    )
}

/// Every bucket is well formed and holds only keys of its own slot.
pub open spec fn spread_ok<V>(bs: Seq<Bucket<V>>, state: RandomState, mask: usize) -> bool {
    &&& bs.len() >= 1
    &&& mask == bs.len() - 1
    &&& forall|i: int| 0 <= i < bs.len() ==> (#[trigger] bs[i]).wf()
    &&& forall|i: int, k: Seq<u8>|
        0 <= i < bs.len() && #[trigger] bs[i]@.contains_key(k) ==> slot_of(state, mask, k) == i
}

pub proof fn lemma_slot_bound(state: RandomState, mask: usize, k: Seq<u8>)
    ensures
        0 <= slot_of(state, mask, k) <= mask,
{
    let h = ahash_hash_one(state, k) as usize;
    assert(h & mask <= mask) by (bit_vector);
}

pub proof fn lemma_spread_update<V>(
    bs: Seq<Bucket<V>>,
    state: RandomState,
    mask: usize,
    s: int,
    b: Bucket<V>,
    k: Seq<u8>,
)
    requires
        spread_ok(bs, state, mask),
        slot_of(state, mask, k) == s,
        b.wf(),
        b@ == bs[s]@.insert(k, b@[k]) || b@ == bs[s]@.remove(k) || b@ == bs[s]@,
    ensures
        spread_ok(bs.update(s, b), state, mask),
        b@ == bs[s]@ ==> spread_view(bs.update(s, b), state, mask) == spread_view(bs, state, mask),
        b@ == bs[s]@.insert(k, b@[k]) ==> spread_view(bs.update(s, b), state, mask) == spread_view(
            bs,
            state,
            mask,
        ).insert(k, b@[k]),
        b@ == bs[s]@.remove(k) ==> spread_view(bs.update(s, b), state, mask) == spread_view(
            bs,
            state,
            mask,
        ).remove(k),
{
    lemma_slot_bound(state, mask, k);
    let nb = bs.update(s, b);
    assert forall|i: int, k2: Seq<u8>|
        0 <= i < nb.len() && #[trigger] nb[i]@.contains_key(k2) implies slot_of(
        state,
        mask,
        k2,
    ) == i by {
        if i == s && k2 != k {
            assert(bs[s]@.contains_key(k2));
        }
    }
    assert forall|k2: Seq<u8>| true implies 0 <= #[trigger] slot_of(state, mask, k2) < bs.len() by {
        lemma_slot_bound(state, mask, k2);
    }
    if b@ == bs[s]@.insert(k, b@[k]) {
        assert(spread_view(nb, state, mask) =~= spread_view(bs, state, mask).insert(k, b@[k]));
    }
    if b@ == bs[s]@.remove(k) {
        assert(spread_view(nb, state, mask) =~= spread_view(bs, state, mask).remove(k));
    }
    if b@ == bs[s]@ {
        assert(spread_view(nb, state, mask) =~= spread_view(bs, state, mask));
    }
}

/// A hash table of sorted buckets; the number of buckets is a power of two
/// and `mask` selects a bucket from a hash.
#[derive(Debug)]
pub struct ArrayHash<V> {
    buckets: Vec<Bucket<V>>,
    count: usize,
    hasher: RandomState,
    mask: usize,
}

impl<V> ArrayHash<V> {
    pub closed spec fn view(&self) -> Map<Seq<u8>, V> {
        spread_view(self.buckets@, self.hasher, self.mask)
    }

    pub closed spec fn wf(&self) -> bool {
        &&& spread_ok(self.buckets@, self.hasher, self.mask)
        &&& self@.dom().finite()
        &&& self.count == self@.len()
        &&& forall|k: Seq<u8>| #[trigger] self@.contains_key(k) ==> k.len() <= MAX_BUCKET_KEY_LEN
    }

    /// Total size of the buckets, saturating at `usize::MAX`.
    pub closed spec fn spec_size(&self) -> int {
        let s = sizes_sum(self.buckets@, self.buckets@.len() as int);
        if s <= usize::MAX {
            s
        } else {
            usize::MAX as int
        }
    }

    /// The number of buckets.
    pub closed spec fn bucket_count(&self) -> nat {
        self.buckets@.len()
    }

    /// Both tables hash keys with the same hasher state.
    pub closed spec fn same_hasher(&self, other: Self) -> bool {
        self.hasher == other.hasher
    }

    /// Same number of buckets, same hasher, same mask.
    pub closed spec fn same_layout(&self, other: Self) -> bool {
        &&& self.buckets@.len() == other.buckets@.len()
        &&& self.hasher == other.hasher
        &&& self.mask == other.mask
    }

    pub proof fn lemma_wf(&self)
        requires
            self.wf(),
        ensures
            self@.dom().finite(),
            forall|k: Seq<u8>| #[trigger] self@.contains_key(k) ==> k.len() <= MAX_BUCKET_KEY_LEN,
    {
    }

    pub fn new() -> (r: Self)
        ensures
            r.wf(),
            r@ == Map::<Seq<u8>, V>::empty(),
            r.spec_size() == 0,
    {
        Self::default()
    }

    /// A row of `n` empty buckets.
    fn empty_buckets(n: usize) -> (r: Vec<Bucket<V>>)
        ensures
            r@.len() == n,
            forall|i: int| 0 <= i < n ==> (#[trigger] r@[i]).wf() && r@[i]@ == Map::<
                Seq<u8>,
                V,
            >::empty(),
    {
        let mut buckets: Vec<Bucket<V>> = Vec::new();
        let mut i: usize = 0;
        while i < n
            invariant
                i <= n,
                buckets@.len() == i,
                forall|j: int| 0 <= j < i ==> (#[trigger] buckets@[j]).wf() && buckets@[j]@ == Map::<
                    Seq<u8>,
                    V,
                >::empty(),
            decreases n - i,
        {
            buckets.push(Bucket::new());
            i = i + 1;
        }
        buckets
    }

    pub fn len(&self) -> (r: usize)
        requires
            self.wf(),
        ensures
            r == self@.len(),
    {
        self.count
    }

    pub fn is_empty(&self) -> (r: bool)
        requires
            self.wf(),
        ensures
            r == (self@.len() == 0),
    {
        self.count == 0
    }

    /// Sum of the buckets' sizes, saturating at `usize::MAX`.
    pub fn size_in_bytes(&self) -> (r: usize)
        requires
            self.wf(),
        ensures
            r == self.spec_size(),
    {
        let mut total: usize = 0;
        let mut i: usize = 0;
        while i < self.buckets.len()
            invariant
                self.wf(),
                i <= self.buckets@.len(),
                total == (if sizes_sum(self.buckets@, i as int) <= usize::MAX {
                    sizes_sum(self.buckets@, i as int)
                } else {
                    usize::MAX as int
                }),
            decreases self.buckets@.len() - i,
        {
            let s = self.buckets[i].size_in_bytes();
            proof {
                lemma_sizes_sum_nonneg(self.buckets@, i as int);
            }
            total = total.saturating_add(s);
            i = i + 1;
        }
        total
    }

    fn hash(&self, key: &[u8]) -> (h: u64)
        ensures
            h == ahash_hash_one(self.hasher, key@),
    {
        hash_bytes(&self.hasher, key)
    }

    fn slot(&self, key: &[u8]) -> (idx: usize)
        requires
            self.wf(),
        ensures
            idx == slot_of(self.hasher, self.mask, key@),
            idx < self.buckets@.len(),
    {
        let h = self.hash(key);
        proof {
            lemma_slot_bound(self.hasher, self.mask, key@);
        }
        (h as usize) & self.mask
    }

    pub fn get(&self, key: &[u8]) -> (r: Option<&V>)
        requires
            self.wf(),
        ensures
            match r {
                Some(v) => self@.contains_key(key@) && self@[key@] == *v,
                None => !self@.contains_key(key@),
            },
    {
        let idx = self.slot(key);
        self.buckets[idx].get(key)
    }

    pub fn get_mut(&mut self, key: &[u8]) -> (r: Option<&mut V>)
        requires
            old(self).wf(),
        ensures
            final(self).wf(),
            old(self)@.contains_key(key@) == r.is_some(),
            r.is_some() ==> *r.unwrap() == old(self)@[key@] && final(self)@ == old(self)@.insert(
                key@,
                *final(r.unwrap()),
            ),
            r.is_none() ==> final(self)@ == old(self)@,
            final(self).spec_size() == old(self).spec_size(),
    {
        let idx = self.slot(key);
        let ghost bs = self.buckets@;
        proof {
            assert forall|nb: Bucket<V>| nb.wf() && #[trigger] nb.key_seq() == bs[idx as int].key_seq() implies sizes_sum(
                bs.update(idx as int, nb),
                bs.len() as int,
            ) == sizes_sum(bs, bs.len() as int) by {
                lemma_sizes_sum_update(bs, idx as int, nb, bs.len() as int);
                nb.lemma_wf();
                bs[idx as int].lemma_wf();
            }
            let m = spread_view(bs, self.hasher, self.mask);
            assert forall|nb: Bucket<V>|
                nb.wf() && #[trigger] nb@ == bs[idx as int]@.insert(key@, nb@[key@]) && m.contains_key(key@)
                implies spread_ok(bs.update(idx as int, nb), self.hasher, self.mask)
                && spread_view(bs.update(idx as int, nb), self.hasher, self.mask) == m.insert(key@, nb@[key@])
                && spread_view(bs.update(idx as int, nb), self.hasher, self.mask).dom() == m.dom() by {
                lemma_spread_update(bs, self.hasher, self.mask, idx as int, nb, key@);
                assert(m.insert(key@, nb@[key@]).dom() =~= m.dom());
            }
            assert forall|nb: Bucket<V>| nb.wf() && #[trigger] nb@ == bs[idx as int]@ implies spread_ok(
                bs.update(idx as int, nb),
                self.hasher,
                self.mask,
            ) && spread_view(bs.update(idx as int, nb), self.hasher, self.mask) == m by {
                lemma_spread_update(bs, self.hasher, self.mask, idx as int, nb, key@);
            }
        }
        let r = self.buckets[idx].get_mut(key);
        r
    }

    pub fn insert(&mut self, key: &[u8], value: V) -> (r: Option<V>)
        requires
            old(self).wf(),
            key@.len() <= MAX_BUCKET_KEY_LEN,
            old(self)@.len() < usize::MAX,
        ensures
            final(self).wf(),
            final(self)@ == old(self)@.insert(key@, value),
            r == old(self)@.get(key@),
            final(self).bucket_count() == if old(self)@.len() > old(self).bucket_count() * 8 {
                2 * old(self).bucket_count()
            } else {
                old(self).bucket_count()
            },
            final(self).same_hasher(*old(self)),
    {
        // Grow when the average load is above 8 items per bucket, which
        // keeps the scans inside buckets short.
        if (self.count as u128) > (self.buckets.len() as u128) * 8 {
            self.grow();
        }
        let idx = self.slot(key);
        let ghost bs = self.buckets@;
        let res = self.buckets[idx].insert(key, value);
        proof {
            lemma_spread_update(bs, self.hasher, self.mask, idx as int, self.buckets@[idx as int], key@);
            assert(self.buckets@ == bs.update(idx as int, self.buckets@[idx as int]));
        }
        if res.is_none() {
            self.count = self.count + 1;
        }
        res
    }

    pub fn remove(&mut self, key: &[u8]) -> (r: Option<V>)
        requires
            old(self).wf(),
        ensures
            final(self).wf(),
            final(self)@ == old(self)@.remove(key@),
            r == old(self)@.get(key@),
            final(self).spec_size() <= old(self).spec_size(),
    {
        let idx = self.slot(key);
        let ghost bs = self.buckets@;
        let res = self.buckets[idx].remove(key);
        proof {
            lemma_spread_update(bs, self.hasher, self.mask, idx as int, self.buckets@[idx as int], key@);
            assert(self.buckets@ == bs.update(idx as int, self.buckets@[idx as int]));
            lemma_sizes_sum_update(bs, idx as int, self.buckets@[idx as int], bs.len() as int);
        }
        if res.is_some() {
            self.count = self.count - 1;
        }
        res
    }

    /// Doubles the number of buckets and places every entry again.
    fn grow(&mut self)
        requires
            old(self).wf(),
            old(self).count > old(self).buckets@.len() * 8,
        ensures
            final(self).wf(),
            final(self)@ == old(self)@,
            final(self).buckets@.len() == 2 * old(self).buckets@.len(),
            final(self).hasher == old(self).hasher,
            final(self).mask == 2 * old(self).buckets@.len() - 1,
    {
        let new_size = self.buckets.len() * 2;
        let mut new_buckets = Self::empty_buckets(new_size);
        let new_mask = new_size - 1;
        let ghost m = self@;
        let cnt = self.count;
        let items = self.drain_all();
        let ghost iks = pair_keys(items@);
        let ghost ivs = pair_vals(items@);
        proof {
            assert forall|k: Seq<u8>| true implies 0 <= #[trigger] slot_of(self.hasher, new_mask, k)
                < new_buckets@.len() by {
                lemma_slot_bound(self.hasher, new_mask, k);
            }
            assert(spread_view(new_buckets@, self.hasher, new_mask) =~= pairs_map(
                iks.take(0),
                ivs.take(0),
            ));
        }
        let mut j: usize = 0;
        let n = items.len();
        let mut items = items;
        // Take items from the back; the placing does not depend on order.
        while j < n
            invariant
                n == iks.len(),
                iks.len() == ivs.len(),
                iks.no_duplicates(),
                pairs_map(iks, ivs) == m,
                forall|k: Seq<u8>| #[trigger] m.contains_key(k) ==> k.len() <= MAX_BUCKET_KEY_LEN,
                j <= n,
                items@.len() == n - j,
                pair_keys(items@) == iks.take(n - j),
                pair_vals(items@) == ivs.take(n - j),
                spread_ok(new_buckets@, self.hasher, new_mask),
                spread_view(new_buckets@, self.hasher, new_mask) == pairs_map(
                    iks.skip(n - j),
                    ivs.skip(n - j),
                ),
            decreases n - j,
        {
            let ghost old_items = items@;
            let (k, v) = items.pop().unwrap();
            let ghost i = (n - j - 1) as int;
            proof {
                assert(old_items[i] == (k, v));
                assert(pair_keys(old_items)[i] == k@);
                assert(pair_vals(old_items)[i] == v);
                assert(iks.take(n - j)[i] == iks[i]);
                assert(ivs.take(n - j)[i] == ivs[i]);
                assert(k@ == iks[i]);
                assert(v == ivs[i]);
                lemma_pairs_map_index_nodup(iks, ivs, i);
                assert(items@ =~= old_items.subrange(0, i));
                assert(pair_keys(items@) =~= iks.take(i));
                assert(pair_vals(items@) =~= ivs.take(i));
            }
            let h = hash_bytes(&self.hasher, k.as_slice());
            proof {
                lemma_slot_bound(self.hasher, new_mask, k@);
            }
            let idx = (h as usize) & new_mask;
            let ghost bs = new_buckets@;
            new_buckets[idx].insert(k.as_slice(), v);
            proof {
                lemma_spread_update(bs, self.hasher, new_mask, idx as int, new_buckets@[idx as int], k@);
                assert(new_buckets@ == bs.update(idx as int, new_buckets@[idx as int]));
                assert(iks.skip(i) =~= seq![iks[i]] + iks.skip(i + 1));
                assert(ivs.skip(i) =~= seq![ivs[i]] + ivs.skip(i + 1));
                lemma_pairs_map_skip(iks, ivs, i);
            }
            j = j + 1;
        }
        proof {
            assert(iks.skip(0) =~= iks);
            assert(ivs.skip(0) =~= ivs);
        }
        self.buckets = new_buckets;
        self.mask = new_mask;
        self.count = cnt;
    }

    /// Moves every entry out (in no particular order), leaving the table
    /// empty.
    pub fn drain_all(&mut self) -> (r: Vec<(Vec<u8>, V)>)
        requires
            old(self).wf(),
        ensures
            final(self).wf(),
            final(self)@ == Map::<Seq<u8>, V>::empty(),
            final(self).same_layout(*old(self)),
            pair_keys(r@).no_duplicates(),
            pair_keys(r@).len() == pair_vals(r@).len(),
            pairs_map(pair_keys(r@), pair_vals(r@)) == old(self)@,
            forall|i: int| 0 <= i < r@.len() ==> (#[trigger] r@[i]).0@.len() <= MAX_BUCKET_KEY_LEN,
    {
        let ghost bs = self.buckets@;
        let ghost m = self@;
        let mut out: Vec<(Vec<u8>, V)> = Vec::new();
        let mut i: usize = 0;
        proof {
            lemma_pairs_map_empty::<V>();
        }
        while i < self.buckets.len()
            invariant
                spread_ok(bs, self.hasher, self.mask),
                m == spread_view(bs, self.hasher, self.mask),
                self.buckets@.len() == bs.len(),
                self.mask == old(self).mask,
                self.hasher == old(self).hasher,
                old(self).buckets@ == bs,
                i <= bs.len(),
                forall|j: int| 0 <= j < bs.len() ==> (#[trigger] self.buckets@[j]).wf(),
                forall|j: int| 0 <= j < i ==> (#[trigger] self.buckets@[j])@ == Map::<Seq<u8>, V>::empty(),
                forall|j: int| i <= j < bs.len() ==> #[trigger] self.buckets@[j] == bs[j],
                pair_keys(out@).no_duplicates(),
                pair_keys(out@).len() == pair_vals(out@).len(),
                forall|t: int| 0 <= t < out@.len() ==> (#[trigger] out@[t]).0@.len() <= MAX_BUCKET_KEY_LEN,
                forall|k: Seq<u8>|
                    #![trigger pairs_map(pair_keys(out@), pair_vals(out@)).contains_key(k)]
                    pairs_map(pair_keys(out@), pair_vals(out@)).contains_key(k) == (m.contains_key(k)
                        && slot_of(self.hasher, self.mask, k) < i),
                forall|k: Seq<u8>|
                    #[trigger] pairs_map(pair_keys(out@), pair_vals(out@)).contains_key(k) ==> pairs_map(
                        pair_keys(out@),
                        pair_vals(out@),
                    )[k] == m[k],
            decreases bs.len() - i,
        {
            let ghost before = out@;
            let ghost b = bs[i as int];
            proof {
                b.lemma_wf();
                lemma_sorted_no_duplicates(b.key_seq());
            }
            let mut d = self.buckets[i].drain();
            let ghost start = out@.len();
            loop
                invariant
                    d.wf(),
                    bucket_entries_ok(b.key_seq(), b.value_seq()),
                    out@.len() >= start,
                    out@.take(start as int) == before,
                    start == before.len(),
                    pair_keys(out@.skip(start as int)) + d.rest_keys() == b.key_seq(),
                    pair_vals(out@.skip(start as int)) + d.rest_values() == b.value_seq(),
                ensures
                    d.rest_keys().len() == 0,
                    d.rest_values().len() == 0,
                    out@.take(start as int) == before,
                    pair_keys(out@.skip(start as int)) == b.key_seq(),
                    pair_vals(out@.skip(start as int)) == b.value_seq(),
                decreases d.rest_keys().len(),
            {
                let ghost old_rest_k = d.rest_keys();
                let ghost old_rest_v = d.rest_values();
                match d.next() {
                    Some(kv) => {
                        let ghost o = out@;
                        out.push(kv);
                        proof {
                            assert(out@.take(start as int) =~= o.take(start as int));
                            assert(out@.skip(start as int) =~= o.skip(start as int).push(kv));
                            assert(pair_keys(out@.skip(start as int)) =~= pair_keys(o.skip(start as int)).push(kv.0@));
                            assert(pair_vals(out@.skip(start as int)) =~= pair_vals(o.skip(start as int)).push(kv.1));
                            assert(pair_keys(out@.skip(start as int)) + d.rest_keys() =~= pair_keys(o.skip(start as int)) + old_rest_k);
                            assert(pair_vals(out@.skip(start as int)) + d.rest_values() =~= pair_vals(o.skip(start as int)) + old_rest_v);
                        }
                    },
                    None => {
                        proof {
                            assert(pair_keys(out@.skip(start as int)) + d.rest_keys() =~= pair_keys(out@.skip(start as int)));
                            assert(pair_vals(out@.skip(start as int)) + d.rest_values() =~= pair_vals(out@.skip(start as int)));
                        }
                        break;
                    },
                }
            }
            proof {
                let ka = pair_keys(before);
                let va = pair_vals(before);
                let kb = b.key_seq();
                let vb = b.value_seq();
                assert(out@ =~= before + out@.skip(start as int));
                assert(pair_keys(out@) =~= ka + kb);
                assert(pair_vals(out@) =~= va + vb);
                b.lemma_wf();
                assert forall|x: int, y: int| 0 <= x < ka.len() && 0 <= y < kb.len() implies ka[x]
                    != kb[y] by {
                    lemma_pairs_map_index_nodup(ka, va, x);
                    assert(b@.contains_key(kb[y]));
                    assert(bs[i as int]@.contains_key(kb[y]));
                }
                lemma_pairs_map_concat(ka, va, kb, vb);
                assert forall|t: int| 0 <= t < out@.len() implies (#[trigger] out@[t]).0@.len()
                    <= MAX_BUCKET_KEY_LEN by {
                    if t >= start {
                        assert(out@[t].0@ == kb[t - start]);
                        assert(b@.contains_key(kb[t - start]));
                    } else {
                        assert(out@[t] == before[t]);
                    }
                }
                assert forall|k: Seq<u8>|
                    #![trigger pairs_map(pair_keys(out@), pair_vals(out@)).contains_key(k)]
                    pairs_map(pair_keys(out@), pair_vals(out@)).contains_key(k) == (m.contains_key(k)
                        && slot_of(self.hasher, self.mask, k) < i + 1) by {
                    lemma_slot_bound(self.hasher, self.mask, k);
                    if pairs_map(kb, vb).contains_key(k) {
                        assert(bs[i as int]@.contains_key(k));
                    }
                }
                assert forall|k: Seq<u8>|
                    #[trigger] pairs_map(pair_keys(out@), pair_vals(out@)).contains_key(k) implies pairs_map(
                        pair_keys(out@),
                        pair_vals(out@),
                    )[k] == m[k] by {
                    if pairs_map(kb, vb).contains_key(k) {
                        assert(bs[i as int]@.contains_key(k));
                    }
                }
            }
            i = i + 1;
        }
        proof {
            assert forall|k: Seq<u8>| true implies 0 <= #[trigger] slot_of(self.hasher, self.mask, k)
                < bs.len() by {
                lemma_slot_bound(self.hasher, self.mask, k);
            }
            assert(pairs_map(pair_keys(out@), pair_vals(out@)) =~= m);
            assert(spread_view(self.buckets@, self.hasher, self.mask) =~= Map::<Seq<u8>, V>::empty());
            assert(spread_ok(self.buckets@, self.hasher, self.mask));
        }
        self.count = 0;
        out
    }

    /// Every entry, borrowed, in bucket order.
    pub fn iter(&self) -> (r: Vec<(&[u8], &V)>)
        requires
            self.wf(),
        ensures
            ref_keys(r@).no_duplicates(),
            ref_keys(r@).len() == ref_vals(r@).len(),
            pairs_map(ref_keys(r@), ref_vals(r@)) == self@,
    {
        let ghost bs = self.buckets@;
        let ghost m = self@;
        let mut out: Vec<(&[u8], &V)> = Vec::new();
        let mut i: usize = 0;
        while i < self.buckets.len()
            invariant
                self.wf(),
                bs == self.buckets@,
                m == self@,
                i <= bs.len(),
                ref_keys(out@).no_duplicates(),
                ref_keys(out@).len() == ref_vals(out@).len(),
                forall|k: Seq<u8>|
                    #![trigger pairs_map(ref_keys(out@), ref_vals(out@)).contains_key(k)]
                    pairs_map(ref_keys(out@), ref_vals(out@)).contains_key(k) == (m.contains_key(k)
                        && slot_of(self.hasher, self.mask, k) < i),
                forall|k: Seq<u8>|
                    #[trigger] pairs_map(ref_keys(out@), ref_vals(out@)).contains_key(k) ==> pairs_map(
                        ref_keys(out@),
                        ref_vals(out@),
                    )[k] == m[k],
            decreases bs.len() - i,
        {
            let ghost before = out@;
            let b = &self.buckets[i];
            proof {
                b.lemma_wf();
                lemma_sorted_no_duplicates(b.key_seq());
            }
            let mut it = b.iter();
            loop
                invariant
                    it.wf(),
                    it.source() == *b,
                    b.wf(),
                    0 <= it.pos() <= b.key_seq().len(),
                    out@.len() == before.len() + it.pos(),
                    out@.take(before.len() as int) == before,
                    ref_keys(out@.skip(before.len() as int)) == b.key_seq().take(it.pos()),
                    ref_vals(out@.skip(before.len() as int)) == b.value_seq().take(it.pos()),
                ensures
                    it.pos() == b.key_seq().len(),
                    out@.take(before.len() as int) == before,
                    ref_keys(out@.skip(before.len() as int)) == b.key_seq().take(it.pos()),
                    ref_vals(out@.skip(before.len() as int)) == b.value_seq().take(it.pos()),
                decreases b.key_seq().len() - it.pos(),
            {
                proof {
                    it.lemma_pos();
                }
                let ghost p0 = it.pos();
                match it.next() {
                    Some(kv) => {
                        let ghost o = out@;
                        out.push(kv);
                        proof {
                            assert(out@.take(before.len() as int) =~= o.take(before.len() as int));
                            assert(out@.skip(before.len() as int) =~= o.skip(before.len() as int).push(kv));
                            let ob = o.skip(before.len() as int);
                            assert(ref_keys(ob.push(kv)) =~= ref_keys(ob).push(kv.0@));
                            assert(ref_vals(ob.push(kv)) =~= ref_vals(ob).push(*kv.1));
                            b.lemma_wf();
                            assert(*kv.1 == b.value_seq()[p0]);
                            assert(b.key_seq().take(p0 + 1) =~= b.key_seq().take(p0).push(kv.0@));
                            assert(b.value_seq().take(p0 + 1) =~= b.value_seq().take(p0).push(*kv.1));
                            assert(ref_keys(out@.skip(before.len() as int)) =~= b.key_seq().take(it.pos()));
                            assert(ref_vals(out@.skip(before.len() as int)) =~= b.value_seq().take(it.pos()));
                        }
                    },
                    None => {
                        break;
                    },
                }
            }
            proof {
                let ka = ref_keys(before);
                let va = ref_vals(before);
                let kb = b.key_seq();
                let vb = b.value_seq();
                assert(kb.take(kb.len() as int) =~= kb);
                assert(vb.take(vb.len() as int) =~= vb);
                assert(out@ =~= before + out@.skip(before.len() as int));
                assert(ref_keys(out@) =~= ka + kb);
                assert(ref_vals(out@) =~= va + vb);
                assert forall|x: int, y: int| 0 <= x < ka.len() && 0 <= y < kb.len() implies ka[x]
                    != kb[y] by {
                    lemma_pairs_map_index_nodup(ka, va, x);
                    assert(b@.contains_key(kb[y]));
                }
                lemma_pairs_map_concat(ka, va, kb, vb);
                assert forall|k: Seq<u8>|
                    #![trigger pairs_map(ref_keys(out@), ref_vals(out@)).contains_key(k)]
                    pairs_map(ref_keys(out@), ref_vals(out@)).contains_key(k) == (m.contains_key(k)
                        && slot_of(self.hasher, self.mask, k) < i + 1) by {
                    lemma_slot_bound(self.hasher, self.mask, k);
                }
            }
            i = i + 1;
        }
        proof {
            assert forall|k: Seq<u8>| true implies 0 <= #[trigger] slot_of(self.hasher, self.mask, k)
                < bs.len() by {
                lemma_slot_bound(self.hasher, self.mask, k);
            }
            assert(pairs_map(ref_keys(out@), ref_vals(out@)) =~= m);
        }
        out
    }

    /// The longest common prefix of all keys held (empty when there are none).
    pub fn longest_common_prefix_all(&self) -> (r: Vec<u8>)
        requires
            self.wf(),
        ensures
            is_lcp_of(r@, self@.dom()),
    {
        if self.count == 0 {
            proof {
                assert(self@.dom() =~= Set::<Seq<u8>>::empty()) by {
                    vstd::set_lib::lemma_set_empty_equivalency_len(self@.dom());
                }
            }
            return Vec::new();
        }
        let items = self.iter();
        let ghost ks = ref_keys(items@);
        proof {
            assert(ks.len() > 0) by {
                if ks.len() == 0 {
                    assert(self@.dom() =~= Set::<Seq<u8>>::empty());
                }
            }
        }
        let mut lcp: Vec<u8> = slice_to_vec_u8(items[0].0);
        proof {
            assert(ks[0] == items@[0].0@);
            assert(ks.take(1) =~= seq![ks[0]]);
            lemma_lcp_single(ks[0]);
            let s1 = ks.take(1).to_set();
            assert forall|k: Seq<u8>| s1.contains(k) <==> set![ks[0]].contains(k) by {
                if k == ks[0] {
                    assert(ks.take(1)[0] == k);
                }
            }
            assert(s1 =~= set![ks[0]]);
        }
        let mut i: usize = 1;
        while i < items.len()
            invariant
                ks == ref_keys(items@),
                pairs_map(ks, ref_vals(items@)) == self@,
                1 <= i <= items@.len(),
                is_lcp_of(lcp@, ks.take(i as int).to_set()),
            decreases items@.len() - i,
        {
            let key = items[i].0;
            let c = common_prefix_len(lcp.as_slice(), key);
            proof {
                assert(ks[i as int] == key@);
                assert(ks.take(i as int)[0] == ks[0]);
                assert(ks.take(i as int).to_set().contains(ks[0]));
                lemma_lcp_step(lcp@, key@, ks.take(i as int).to_set(), c as int);
                assert(ks.take(i as int + 1) =~= ks.take(i as int).push(key@));
                ks.take(i as int).lemma_push_to_set_commute(key@);
                lemma_lcp_props(lcp@, key@);
                assert(lcp@.take(c as int) =~= lcp@.subrange(0, c as int));
            }
            lcp.truncate(c);
            i = i + 1;
            if lcp.len() == 0 {
                proof {
                    assert(ks.take(i as int)[0] == ks[0]);
                    assert(ks.take(i as int).to_set().contains(ks[0]));
                    assert(lcp@ =~= Seq::<u8>::empty());
                    assert forall|k: Seq<u8>| ks.take(i as int).to_set().contains(k) implies #[trigger] self@.dom().contains(k) by {
                        let t = choose|t: int| 0 <= t < ks.take(i as int).len() && ks.take(i as int)[t] == k;
                        assert(ks[t] == k);
                        assert(ks.contains(k));
                        assert(pairs_map(ks, ref_vals(items@)).contains_key(k));
                    }
                    lemma_empty_lcp_stays(ks.take(i as int).to_set(), self@.dom());
                }
                return lcp;
            }
        }
        proof {
            assert(ks.take(i as int) =~= ks);
            assert(ks.to_set() =~= self@.dom());
        }
        lcp
    }
}

impl<V: Clone> Clone for ArrayHash<V> {
    /// The same keys in the same buckets, under the same hasher, each value
    /// cloned.
    fn clone(&self) -> (r: Self)
        ensures
            self.wf() ==> r.wf() && r@.dom() == self@.dom() && forall|k: Seq<u8>|
                #[trigger] self@.contains_key(k) ==> cloned::<V>(self@[k], r@[k]),
            self.wf() ==> r.spec_size() == self.spec_size(),
    {
        let ghost bs = self.buckets@;
        let mut buckets: Vec<Bucket<V>> = Vec::new();
        let mut i: usize = 0;
        while i < self.buckets.len()
            invariant
                bs == self.buckets@,
                i <= bs.len(),
                buckets@.len() == i,
                forall|j: int| 0 <= j < i ==> (#[trigger] buckets@[j]).key_seq() == bs[j].key_seq()
                    && buckets@[j].value_seq().len() == bs[j].value_seq().len()
                    && (forall|t: int| 0 <= t < bs[j].value_seq().len() ==> cloned::<V>(bs[j].value_seq()[t], #[trigger] buckets@[j].value_seq()[t]))
                    && (bs[j].wf() ==> buckets@[j].wf()),
            decreases bs.len() - i,
        {
            buckets.push(self.buckets[i].clone());
            i = i + 1;
        }
        let r = ArrayHash { buckets, count: self.count, hasher: self.hasher.clone(), mask: self.mask };
        proof {
            if self.wf() {
                let nb = r.buckets@;
                assert forall|j: int| 0 <= j < nb.len() implies (#[trigger] nb[j])@.dom() == bs[j]@.dom() && forall|k: Seq<u8>|
                    #[trigger] bs[j]@.contains_key(k) ==> cloned::<V>(bs[j]@[k], nb[j]@[k]) by {
                    crate::bucket::lemma_cloned_view(bs[j], nb[j]);
                }
                assert forall|k: Seq<u8>| true implies 0 <= #[trigger] slot_of(self.hasher, self.mask, k) < bs.len() by {
                    lemma_slot_bound(self.hasher, self.mask, k);
                }
                assert(r@.dom() =~= self@.dom()) by {
                    assert forall|k: Seq<u8>| #[trigger] r@.contains_key(k) == self@.contains_key(k) by {
                        let s = slot_of(self.hasher, self.mask, k);
                        assert(nb[s]@.dom() == bs[s]@.dom());
                    }
                }
                assert forall|k: Seq<u8>| #[trigger] self@.contains_key(k) implies cloned::<V>(self@[k], r@[k]) by {
                    let s = slot_of(self.hasher, self.mask, k);
                    assert(bs[s]@.contains_key(k));
                }
                assert forall|j: int, k: Seq<u8>| 0 <= j < nb.len() && #[trigger] nb[j]@.contains_key(k) implies slot_of(
                    r.hasher,
                    r.mask,
                    k,
                ) == j by {
                    assert(nb[j]@.dom() == bs[j]@.dom());
                    assert(bs[j]@.contains_key(k));
                }
                assert(r@.len() == self@.len());
                lemma_sizes_sum_same_keys(bs, nb, bs.len() as int);
            }
        }
        r
    }
}

impl<V> Default for ArrayHash<V> {
    fn default() -> (r: Self)
        ensures
            r.wf(),
            r@ == Map::<Seq<u8>, V>::empty(),
            r.spec_size() == 0,
    {
        // Start with 4 buckets; the count must stay a power of two.
        let initial_buckets: usize = 4;
        let buckets = Self::empty_buckets(initial_buckets);
        let r = ArrayHash { buckets, count: 0, hasher: new_random_state(), mask: initial_buckets - 1 };
        proof {
            lemma_sizes_sum_empty(r.buckets@, 4);
            assert forall|k: Seq<u8>| true implies 0 <= #[trigger] slot_of(r.hasher, r.mask, k) < 4 by {
                lemma_slot_bound(r.hasher, r.mask, k);
            }
            assert(r@ =~= Map::<Seq<u8>, V>::empty());
        }
        r
    }
}

fn slice_to_vec_u8(s: &[u8]) -> (r: Vec<u8>)
    ensures
        r@ == s@,
{
    vstd::slice::slice_to_vec(s)
}

/// `p` is the longest common prefix of the keys in `s`.
pub open spec fn is_lcp_of(p: Seq<u8>, s: Set<Seq<u8>>) -> bool {
    &&& forall|k: Seq<u8>| #[trigger] s.contains(k) ==> has_prefix(k, p)
    &&& s.is_empty() ==> p.len() == 0
    &&& !s.is_empty() ==> forall|b: u8| #[trigger] some_key_leaves(s, p, b)
}

/// Some key of `s` does not continue `p` with byte `b`.
pub open spec fn some_key_leaves(s: Set<Seq<u8>>, p: Seq<u8>, b: u8) -> bool {
    exists|k: Seq<u8>| #[trigger] s.contains(k) && !has_prefix(k, p.push(b))
}

proof fn lemma_lcp_step(p: Seq<u8>, key: Seq<u8>, s: Set<Seq<u8>>, c: int)
    requires
        is_lcp_of(p, s),
        !s.is_empty(),
        c == lcp_len(p, key),
    ensures
        is_lcp_of(p.take(c), s.insert(key)),
{
    lemma_lcp_props(p, key);
    let q = p.take(c);
    assert forall|k: Seq<u8>| #[trigger] s.insert(key).contains(k) implies has_prefix(k, q) by {
        if k == key {
            assert(key.subrange(0, c) =~= q);
        } else {
            assert(has_prefix(k, p));
            assert(k.subrange(0, c) =~= q) by {
                assert forall|j: int| 0 <= j < c implies k.subrange(0, c)[j] == q[j] by {
                    assert(k[j] == k.subrange(0, p.len() as int)[j]);
                }
            }
        }
    }
    assert(!s.insert(key).is_empty()) by {
        assert(s.insert(key).contains(key));
    }
    assert forall|b: u8| #[trigger] some_key_leaves(s.insert(key), q, b) by {
        if c == key.len() {
            assert(s.insert(key).contains(key));
            assert(!has_prefix(key, q.push(b)));
        } else if c < p.len() {
            // key and p differ at c
            if key[c] != b {
                assert(s.insert(key).contains(key));
                if has_prefix(key, q.push(b)) {
                    assert(key.subrange(0, c + 1)[c] == q.push(b)[c]);
                }
            } else {
                let k0 = choose|k: Seq<u8>| s.contains(k);
                assert(s.contains(k0));
                assert(has_prefix(k0, p));
                assert(k0[c] == k0.subrange(0, p.len() as int)[c]);
                assert(s.insert(key).contains(k0));
                if has_prefix(k0, q.push(b)) {
                    assert(k0.subrange(0, c + 1)[c] == q.push(b)[c]);
                }
            }
        } else {
            // c == p.len(): q == p
            assert(q =~= p);
            assert(some_key_leaves(s, p, b));
            let k = choose|k: Seq<u8>| s.contains(k) && !has_prefix(k, p.push(b));
            assert(s.insert(key).contains(k));
        }
    }
}

proof fn lemma_lcp_single(k: Seq<u8>)
    ensures
        is_lcp_of(k, set![k]),
{
    assert(k.subrange(0, k.len() as int) =~= k);
    assert(set![k].contains(k));
    assert forall|b: u8| #[trigger] some_key_leaves(set![k], k, b) by {
        assert(set![k].contains(k) && !has_prefix(k, k.push(b)));
    }
}

proof fn lemma_empty_lcp_stays(s: Set<Seq<u8>>, t: Set<Seq<u8>>)
    requires
        is_lcp_of(Seq::empty(), s),
        !s.is_empty(),
        s.subset_of(t),
    ensures
        is_lcp_of(Seq::empty(), t),
{
    assert forall|k: Seq<u8>| #[trigger] t.contains(k) implies has_prefix(k, Seq::<u8>::empty()) by {
        assert(k.subrange(0, 0) =~= Seq::<u8>::empty());
    }
    let k0 = choose|k: Seq<u8>| s.contains(k);
    assert(t.contains(k0));
    assert forall|b: u8| #[trigger] some_key_leaves(t, Seq::<u8>::empty(), b) by {
        assert(some_key_leaves(s, Seq::<u8>::empty(), b));
        let k = choose|k: Seq<u8>| s.contains(k) && !has_prefix(k, Seq::<u8>::empty().push(b));
        assert(t.contains(k));
    }
}

/// Keys of a list of owned entries.
pub open spec fn pair_keys<V>(s: Seq<(Vec<u8>, V)>) -> Seq<Seq<u8>> {
    s.map_values(|p: (Vec<u8>, V)| p.0@)
}

/// Values of a list of owned entries.
pub open spec fn pair_vals<V>(s: Seq<(Vec<u8>, V)>) -> Seq<V> {
    s.map_values(|p: (Vec<u8>, V)| p.1)
}

/// Keys of a list of borrowed entries.
pub open spec fn ref_keys<V>(s: Seq<(&[u8], &V)>) -> Seq<Seq<u8>> {
    s.map_values(|p: (&[u8], &V)| p.0@)
}

/// Values of a list of borrowed entries.
pub open spec fn ref_vals<V>(s: Seq<(&[u8], &V)>) -> Seq<V> {
    s.map_values(|p: (&[u8], &V)| *p.1)
}

pub open spec fn sizes_sum<V>(bs: Seq<Bucket<V>>, n: int) -> int
    decreases n,
{
    if n <= 0 {
        0
    } else {
        sizes_sum(bs, n - 1) + bs[n - 1].spec_size()
    }
}

/// Replacing one bucket changes the sum of sizes by the change of that
/// bucket's size.
proof fn lemma_sizes_sum_update<V>(bs: Seq<Bucket<V>>, i: int, b: Bucket<V>, n: int)
    requires
        0 <= i < bs.len(),
        n <= bs.len(),
    ensures
        sizes_sum(bs.update(i, b), n) == sizes_sum(bs, n) + if i < n {
            b.spec_size() - bs[i].spec_size()
        } else {
            0
        },
    decreases n,
{
    if n > 0 {
        lemma_sizes_sum_update(bs, i, b, n - 1);
    }
}

/// Buckets that hold no key take no room.
proof fn lemma_sizes_sum_empty<V>(bs: Seq<Bucket<V>>, n: int)
    requires
        n <= bs.len(),
        forall|j: int| 0 <= j < bs.len() ==> (#[trigger] bs[j]).wf() && bs[j]@ == Map::<Seq<u8>, V>::empty(),
    ensures
        sizes_sum(bs, n) == 0,
    decreases n,
{
    if n > 0 {
        lemma_sizes_sum_empty(bs, n - 1);
        let b = bs[n - 1];
        b.lemma_wf();
        if b.key_seq().len() > 0 {
            assert(b@.contains_key(b.key_seq()[0]));
        }
        assert(b.key_seq() =~= Seq::<Seq<u8>>::empty());
        assert(crate::bucket::encode(b.key_seq()) =~= Seq::<u8>::empty());
    }
}

/// Rows of buckets holding the same keys, bucket by bucket, take the same
/// room.
proof fn lemma_sizes_sum_same_keys<V>(bs: Seq<Bucket<V>>, cs: Seq<Bucket<V>>, n: int)
    requires
        n <= bs.len(),
        bs.len() == cs.len(),
        forall|j: int| 0 <= j < bs.len() ==> (#[trigger] bs[j]).wf() && cs[j].wf() && cs[j].key_seq() == bs[j].key_seq(),
    ensures
        sizes_sum(cs, n) == sizes_sum(bs, n),
    decreases n,
{
    if n > 0 {
        lemma_sizes_sum_same_keys(bs, cs, n - 1);
        bs[n - 1].lemma_wf();
        cs[n - 1].lemma_wf();
    }
}

proof fn lemma_sizes_sum_nonneg<V>(bs: Seq<Bucket<V>>, n: int)
    ensures
        sizes_sum(bs, n) >= 0,
        n >= 0 ==> sizes_sum(bs, n + 1) == sizes_sum(bs, n) + bs[n].spec_size(),
    decreases n,
{
    if n > 0 {
        lemma_sizes_sum_nonneg(bs, n - 1);
    }
}

/// The keys held in the first `n` buckets.
pub open spec fn keys_below<V>(bs: Seq<Bucket<V>>, n: int) -> Set<Seq<u8>>
    decreases n,
{
    if n <= 0 {
        Set::empty()
    } else {
        keys_below(bs, n - 1).union(bs[n - 1]@.dom())
    }
}

/// The room the first `n` buckets take, before saturation.
pub open spec fn raw_sum<V>(bs: Seq<Bucket<V>>, n: int) -> int
    decreases n,
{
    if n <= 0 {
        0
    } else {
        raw_sum(bs, n - 1) + bs[n - 1].raw_size()
    }
}

/// The first `n` buckets hold the keys whose slot is below `n`, and take
/// the room of those keys' entries.
proof fn lemma_keys_below<V>(bs: Seq<Bucket<V>>, state: RandomState, mask: usize, n: int)
    requires
        spread_ok(bs, state, mask),
        0 <= n <= bs.len(),
    ensures
        keys_below(bs, n).finite(),
        forall|k: Seq<u8>|
            #[trigger] keys_below(bs, n).contains(k) <==> (slot_of(state, mask, k) < n
                && bs[slot_of(state, mask, k)]@.contains_key(k)),
        raw_sum(bs, n) == keys_bytes::<V>(keys_below(bs, n)),
    decreases n,
{
    if n == 0 {
        lemma_keys_bytes_empty::<V>();
    } else {
        lemma_keys_below(bs, state, mask, n - 1);
        let b = bs[n - 1];
        assert(b.wf());
        b.lemma_raw_size();
        b.lemma_wf();
        assert forall|k: Seq<u8>| #[trigger] keys_below(bs, n).contains(k) <==> (slot_of(state, mask, k)
            < n && bs[slot_of(state, mask, k)]@.contains_key(k)) by {
            lemma_slot_bound(state, mask, k);
            if b@.contains_key(k) {
                assert(slot_of(state, mask, k) == n - 1);
            }
        }
        assert(keys_below(bs, n - 1).disjoint(b@.dom())) by {
            assert forall|k: Seq<u8>| keys_below(bs, n - 1).contains(k) implies !b@.dom().contains(k) by {
                if b@.contains_key(k) {
                    assert(slot_of(state, mask, k) == n - 1);
                }
            }
        }
        lemma_keys_bytes_union::<V>(keys_below(bs, n - 1), b@.dom());
    }
}

/// Summing saturated bucket sizes gives the unsaturated sum, unless the
/// sum reaches the largest `usize`.
proof fn lemma_sizes_sum_raw<V>(bs: Seq<Bucket<V>>, n: int)
    requires
        0 <= n <= bs.len(),
        forall|j: int| 0 <= j < bs.len() ==> (#[trigger] bs[j]).wf(),
    ensures
        0 <= sizes_sum(bs, n) <= raw_sum(bs, n),
        sizes_sum(bs, n) == raw_sum(bs, n) || sizes_sum(bs, n) >= usize::MAX,
    decreases n,
{
    if n > 0 {
        lemma_sizes_sum_raw(bs, n - 1);
        bs[n - 1].lemma_raw_size();
    }
}

impl<V> ArrayHash<V> {
    /// The table's size is the room of its entries, saturating at the
    /// largest `usize`.
    pub proof fn lemma_size_is_bytes(&self)
        requires
            self.wf(),
        ensures
            self.spec_size() == if map_bytes(self@) <= usize::MAX {
                map_bytes(self@)
            } else {
                usize::MAX as int
            },
    {
        let bs = self.buckets@;
        let n = bs.len() as int;
        lemma_keys_below(bs, self.hasher, self.mask, n);
        lemma_sizes_sum_raw(bs, n);
        assert(keys_below(bs, n) =~= self@.dom()) by {
            assert forall|k: Seq<u8>| self@.dom().contains(k) implies keys_below(bs, n).contains(k) by {
                lemma_slot_bound(self.hasher, self.mask, k);
            }
        }
    }
}

} // verus!
