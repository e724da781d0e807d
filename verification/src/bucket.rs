//! A bucket: a small sorted map kept as one contiguous byte buffer of
//! length-prefixed keys (`[len][byte]..`) beside a vector of values.
use vstd::prelude::*;
use vstd::slice::slice_subrange;

use crate::entries::{
    keys_bytes, lemma_seq_bytes_set, lemma_sorted_no_duplicates, seq_bytes, lemma_pairs_map_empty, lemma_pairs_map_index, lemma_pairs_map_insert, lemma_pairs_map_len,
    lemma_pairs_map_remove, lemma_pairs_map_update, lemma_sorted_insert, lemma_sorted_remove,
    pairs_map,
};
use crate::keys::{compare_keys, lemma_lex_transitive, lex_le, lex_lt, strictly_sorted, KeyOrder};

verus! {

/// The longest key a bucket can hold: its length is stored in one byte.
pub const MAX_BUCKET_KEY_LEN: usize = 255;

/// The byte layout of a list of keys: each key preceded by its length.
pub open spec fn encode(ks: Seq<Seq<u8>>) -> Seq<u8>
    decreases ks.len(),
{
    if ks.len() == 0 {
        Seq::empty()
    } else {
        seq![ks[0].len() as u8] + ks[0] + encode(ks.drop_first())
    }
}

/// The list of keys that a length-prefixed byte layout holds; a record cut
/// short at the end is read as the bytes that are there.
pub open spec fn decode(b: Seq<u8>) -> Seq<Seq<u8>>
    decreases b.len(),
{
    if b.len() == 0 {
        Seq::empty()
    } else if 1 + (b[0] as int) <= b.len() {
        seq![b.subrange(1, 1 + (b[0] as int))] + decode(b.skip(1 + (b[0] as int)))
    } else {
        seq![b.skip(1)]
    }
}

/// Reading back the layout of keys no longer than 255 bytes gives the keys.
pub proof fn lemma_decode_encode(ks: Seq<Seq<u8>>)
    requires
        forall|j: int| 0 <= j < ks.len() ==> (#[trigger] ks[j]).len() <= 255,
    ensures
        decode(encode(ks)) == ks,
    decreases ks.len(),
{
    if ks.len() > 0 {
        let rest = ks.drop_first();
        assert forall|j: int| 0 <= j < rest.len() implies (#[trigger] rest[j]).len() <= 255 by {
            assert(rest[j] == ks[j + 1]);
        }
        lemma_decode_encode(rest);
        let b = encode(ks);
        let n = ks[0].len();
        assert(ks[0].len() <= 255);
        assert(b == seq![n as u8] + ks[0] + encode(rest));
        assert(b[0] == n as u8);
        assert((n as u8) as int == n);
        assert(b.subrange(1, 1 + n as int) =~= ks[0]);
        assert(b.skip(1 + n as int) =~= encode(rest));
        assert(decode(b) =~= ks);
    } else {
        assert(encode(ks) =~= Seq::<u8>::empty());
    }
}

pub proof fn lemma_encode_append(a: Seq<Seq<u8>>, b: Seq<Seq<u8>>)
    ensures
        encode(a + b) == encode(a) + encode(b),
    decreases a.len(),
{
    if a.len() == 0 {
        assert(a + b =~= b);
        assert(encode(a) + encode(b) =~= encode(b));
    } else {
        assert((a + b).drop_first() =~= a.drop_first() + b);
        assert((a + b)[0] == a[0]);
        lemma_encode_append(a.drop_first(), b);
        assert(encode(a + b) =~= encode(a) + encode(b));
    }
}

pub proof fn lemma_encode_single(k: Seq<u8>)
    ensures
        encode(seq![k]) == seq![k.len() as u8] + k,
{
    assert(seq![k].drop_first() =~= Seq::<Seq<u8>>::empty());
    assert(seq![k][0] == k);
    assert(encode(Seq::<Seq<u8>>::empty()) =~= Seq::<u8>::empty());
    assert(encode(seq![k]) =~= seq![k.len() as u8] + k);
}

pub proof fn lemma_encode_len(ks: Seq<Seq<u8>>)
    ensures
        encode(ks).len() >= ks.len(),
    decreases ks.len(),
{
    if ks.len() > 0 {
        lemma_encode_len(ks.drop_first());
    }
}

/// The encoding of a list of keys, with one value of `V` per key, takes
/// the room of their entries.
pub proof fn lemma_encode_bytes<V>(ks: Seq<Seq<u8>>)
    ensures
        encode(ks).len() + ks.len() * vstd::layout::size_of::<V>() == seq_bytes::<V>(ks),
    decreases ks.len(),
{
    if ks.len() > 0 {
        let init = ks.drop_last();
        let k = ks.last();
        lemma_encode_bytes::<V>(init);
        assert(ks =~= init + seq![k]);
        lemma_encode_append(init, seq![k]);
        lemma_encode_single(k);
        let n = init.len();
        let sz = vstd::layout::size_of::<V>();
        assert((n + 1) * sz == n * sz + sz) by (nonlinear_arith);
    }
}

/// Where the `i`-th record sits in the encoding, and what it holds.
pub proof fn lemma_record(ks: Seq<Seq<u8>>, i: int)
    requires
        0 <= i < ks.len(),
        forall|j: int| 0 <= j < ks.len() ==> (#[trigger] ks[j]).len() <= 255,
    ensures
        encode(ks) == encode(ks.take(i)) + encode(ks.skip(i)),
        encode(ks.take(i + 1)).len() == encode(ks.take(i)).len() + 1 + ks[i].len(),
        encode(ks)[encode(ks.take(i)).len() as int] == ks[i].len() as u8,
        encode(ks).subrange(
            encode(ks.take(i)).len() + 1 as int,
            encode(ks.take(i)).len() + 1 + ks[i].len() as int,
        ) == ks[i],
        encode(ks.take(i)).len() + 1 + ks[i].len() <= encode(ks).len(),
        (ks[i].len() as u8) as int == ks[i].len(),
{
    assert(ks =~= ks.take(i) + ks.skip(i));
    lemma_encode_append(ks.take(i), ks.skip(i));
    assert(ks.take(i + 1) =~= ks.take(i) + seq![ks[i]]);
    lemma_encode_append(ks.take(i), seq![ks[i]]);
    lemma_encode_single(ks[i]);
    let p = encode(ks.take(i)).len();
    let s = ks.skip(i);
    assert(s[0] == ks[i]);
    assert(encode(s) == seq![ks[i].len() as u8] + ks[i] + encode(s.drop_first()));
    assert(encode(ks)[p as int] == encode(s)[0]);
    assert(encode(ks).subrange(p + 1 as int, p + 1 + ks[i].len() as int) =~= ks[i]);
}

/// Cutting the record of key `i` out of the encoding of `ks` leaves the
/// encoding of `ks` without that key.
#[verifier::spinoff_prover]
proof fn lemma_cut_record(ks: Seq<Seq<u8>>, i: int)
    requires
        0 <= i < ks.len(),
        forall|j: int| 0 <= j < ks.len() ==> (#[trigger] ks[j]).len() <= 255,
    ensures
        encode(ks).take(encode(ks.take(i)).len() as int) + encode(ks).skip(
            (encode(ks.take(i)).len() + 1 + ks[i].len()) as int,
        ) == encode(ks.remove(i)),
        forall|j: int| 0 <= j < ks.remove(i).len() ==> (#[trigger] ks.remove(i)[j]).len() <= 255,
{
    let nks = ks.remove(i);
    let ptr = encode(ks.take(i)).len() as int;
    let end = ptr + 1 + ks[i].len();
    lemma_record(ks, i);
    assert(ks =~= ks.take(i) + ks.skip(i));
    lemma_encode_append(ks.take(i), ks.skip(i));
    assert(ks.take(i + 1) =~= ks.take(i) + seq![ks[i]]);
    assert(ks =~= ks.take(i + 1) + ks.skip(i + 1));
    lemma_encode_append(ks.take(i + 1), ks.skip(i + 1));
    assert(nks =~= ks.take(i) + ks.skip(i + 1));
    lemma_encode_append(ks.take(i), ks.skip(i + 1));
    assert(encode(ks).take(ptr) =~= encode(ks.take(i)));
    assert(encode(ks).skip(end) =~= encode(ks.skip(i + 1)));
    assert forall|j: int| 0 <= j < nks.len() implies (#[trigger] nks[j]).len() <= 255 by {
        if j >= i {
            assert(nks[j] == ks[j + 1]);
        }
    }
}

pub proof fn lemma_take_all_len(ks: Seq<Seq<u8>>, i: int)
    requires
        0 <= i <= ks.len(),
    ensures
        encode(ks.take(i)).len() == encode(ks).len() <==> i == ks.len(),
        encode(ks.take(i)).len() <= encode(ks).len(),
{
    assert(ks =~= ks.take(i) + ks.skip(i));
    lemma_encode_append(ks.take(i), ks.skip(i));
    lemma_encode_len(ks.skip(i));
    if i == ks.len() {
        assert(ks.take(i) =~= ks);
    }
}

/// Copies `v[..at] + entry + v[at..]` into `v`.
fn splice_bytes(v: &mut Vec<u8>, at: usize, entry: &[u8])
    requires
        at <= old(v)@.len(),
    ensures
        final(v)@ == old(v)@.take(at as int) + entry@ + old(v)@.skip(at as int),
{
    let mut out: Vec<u8> = Vec::new();
    let mut i: usize = 0;
    while i < at
        invariant
            at <= v@.len(),
            i <= at,
            out@ == v@.take(i as int),
        decreases at - i,
    {
        out.push(v[i]);
        i = i + 1;
        assert(out@ =~= v@.take(i as int));
    }
    let mut j: usize = 0;
    while j < entry.len()
        invariant
            at <= v@.len(),
            j <= entry@.len(),
            out@ == v@.take(at as int) + entry@.take(j as int),
        decreases entry@.len() - j,
    {
        out.push(entry[j]);
        j = j + 1;
        assert(out@ =~= v@.take(at as int) + entry@.take(j as int));
    }
    assert(entry@.take(j as int) =~= entry@);
    let mut k: usize = at;
    while k < v.len()
        invariant
            at <= k <= v@.len(),
            out@ == v@.take(at as int) + entry@ + v@.subrange(at as int, k as int),
        decreases v@.len() - k,
    {
        out.push(v[k]);
        k = k + 1;
        assert(out@ =~= v@.take(at as int) + entry@ + v@.subrange(at as int, k as int));
    }
    assert(v@.subrange(at as int, k as int) =~= v@.skip(at as int));
    *v = out;
}

/// Removes `v[from..to]`.
fn cut_bytes(v: &mut Vec<u8>, from: usize, to: usize)
    requires
        from <= to <= old(v)@.len(),
    ensures
        final(v)@ == old(v)@.take(from as int) + old(v)@.skip(to as int),
{
    let mut out: Vec<u8> = Vec::new();
    let mut i: usize = 0;
    while i < from
        invariant
            from <= to <= v@.len(),
            i <= from,
            out@ == v@.take(i as int),
        decreases from - i,
    {
        out.push(v[i]);
        i = i + 1;
        assert(out@ =~= v@.take(i as int));
    }
    let mut k: usize = to;
    while k < v.len()
        invariant
            from <= to <= k <= v@.len(),
            out@ == v@.take(from as int) + v@.subrange(to as int, k as int),
        decreases v@.len() - k,
    {
        out.push(v[k]);
        k = k + 1;
        assert(out@ =~= v@.take(from as int) + v@.subrange(to as int, k as int));
    }
    assert(v@.subrange(to as int, k as int) =~= v@.skip(to as int));
    *v = out;
}

/// A small sorted map: keys packed length-prefixed into one buffer, values
/// in a vector in the same order.
#[derive(Debug)]
pub struct Bucket<V> {
    keys: Vec<u8>,
    values: Vec<V>,
    count: usize,
}

/// The conditions every bucket's entries meet: keys strictly ascending, each
/// short enough for its length byte, one value per key.
pub open spec fn bucket_entries_ok<V>(ks: Seq<Seq<u8>>, vs: Seq<V>) -> bool {
    &&& strictly_sorted(ks)
    &&& ks.len() == vs.len()
    &&& forall|j: int| 0 <= j < ks.len() ==> (#[trigger] ks[j]).len() <= 255
}

/// Index of the first key that is not below `b`.
pub open spec fn seek_index(ks: Seq<Seq<u8>>, b: Seq<u8>, i: int) -> bool {
    &&& 0 <= i <= ks.len()
    &&& forall|j: int| 0 <= j < i ==> lex_lt(#[trigger] ks[j], b)
    &&& forall|j: int| i <= j < ks.len() ==> lex_le(b, #[trigger] ks[j])
}

impl<V> Bucket<V> {
    /// The keys, in ascending order.
    pub closed spec fn key_seq(&self) -> Seq<Seq<u8>> {
        decode(self.keys@)
    }

    /// The values, in the order of their keys.
    pub closed spec fn value_seq(&self) -> Seq<V> {
        self.values@
    }

    pub open spec fn view(&self) -> Map<Seq<u8>, V> {
        pairs_map(self.key_seq(), self.value_seq())
    }

    pub closed spec fn wf(&self) -> bool {
        &&& self.keys@ == encode(decode(self.keys@))
        &&& bucket_entries_ok(decode(self.keys@), self.values@)
        &&& self.count == decode(self.keys@).len()
    }

    /// The size that `size_in_bytes` reports.
    pub open spec fn spec_size(&self) -> int {
        let s = encode(self.key_seq()).len() + self.value_seq().len()
            * vstd::layout::size_of::<V>();
        if s <= usize::MAX {
            s as int
        } else {
            usize::MAX as int
        }
    }

    /// The room the bucket takes, before saturation.
    pub open spec fn raw_size(&self) -> int {
        (encode(self.key_seq()).len() + self.value_seq().len() * vstd::layout::size_of::<V>()) as int
    }

    /// The bucket takes the room of its entries.
    pub proof fn lemma_raw_size(&self)
        requires
            self.wf(),
        ensures
            self.raw_size() == keys_bytes::<V>(self@.dom()),
            self.raw_size() >= 0,
            self.spec_size() == if self.raw_size() <= usize::MAX {
                self.raw_size()
            } else {
                usize::MAX as int
            },
    {
        self.lemma_wf();
        lemma_encode_bytes::<V>(self.key_seq());
        lemma_sorted_no_duplicates(self.key_seq());
        lemma_seq_bytes_set::<V>(self.key_seq());
        assert(self@.dom() =~= self.key_seq().to_set()) by {
            assert forall|k: Seq<u8>| self.key_seq().contains(k) implies self@.contains_key(k) by {
                let i = self.key_seq().index_of(k);
                assert(self.key_seq()[i] == k);
            }
        }
        let n = self.value_seq().len();
        let sz = vstd::layout::size_of::<V>();
        assert(n * sz >= 0) by (nonlinear_arith)
            requires
                n >= 0,
                sz >= 0,
        ;
    }

    pub proof fn lemma_wf(&self)
        requires
            self.wf(),
        ensures
            bucket_entries_ok(self.key_seq(), self.value_seq()),
            self@.dom().finite(),
            self@.len() == self.key_seq().len(),
            forall|i: int|
                0 <= i < self.key_seq().len() ==> self@.contains_key(#[trigger] self.key_seq()[i])
                    && self@[self.key_seq()[i]] == self.value_seq()[i],
            forall|k: Seq<u8>| #[trigger] self@.contains_key(k) ==> self.key_seq().contains(k),
    {
        lemma_pairs_map_len(self.key_seq(), self.value_seq());
        assert forall|i: int| 0 <= i < self.key_seq().len() implies self@.contains_key(
            #[trigger] self.key_seq()[i],
        ) && self@[self.key_seq()[i]] == self.value_seq()[i] by {
            lemma_pairs_map_index(self.key_seq(), self.value_seq(), i);
        }
    }

    pub fn new() -> (r: Self)
        ensures
            r.wf(),
            r.key_seq() == Seq::<Seq<u8>>::empty(),
            r@ == Map::<Seq<u8>, V>::empty(),
    {
        let r = Bucket {
            keys: Vec::with_capacity(64),
            values: Vec::with_capacity(4),
            count: 0,
        };
        proof {
            lemma_pairs_map_empty::<V>();
        }
        r
    }

    /// Bytes of key storage plus the bytes the values take.
    pub fn size_in_bytes(&self) -> (r: usize)
        requires
            self.wf(),
        ensures
            r == self.spec_size(),
    {
        let n = self.values.len();
        let sz = core::mem::size_of::<V>();
        let vbytes = n.checked_mul(sz);
        match vbytes {
            Some(vb) => {
                match self.keys.len().checked_add(vb) {
                    Some(total) => total,
                    None => usize::MAX,
                }
            },
            None => {
                proof {
                    assert(n * sz <= encode(self.key_seq()).len() + n * sz);
                }
                usize::MAX
            },
        }
    }

    pub fn len(&self) -> (r: usize)
        requires
            self.wf(),
        ensures
            r == self.key_seq().len(),
            r == self@.len(),
    {
        proof {
            self.lemma_wf();
        }
        self.count
    }

    pub fn is_empty(&self) -> (r: bool)
        requires
            self.wf(),
        ensures
            r == (self.key_seq().len() == 0),
            r == (self@.len() == 0),
    {
        proof {
            self.lemma_wf();
        }
        self.count == 0
    }

    /// The position of `key` among the stored keys, if it is there.
    fn find_index(&self, key: &[u8]) -> (r: Option<usize>)
        requires
            self.wf(),
        ensures
            match r {
                Some(i) => i < self.key_seq().len() && self.key_seq()[i as int] == key@,
                None => !self.key_seq().contains(key@),
            },
    {
        let ghost ks = self.key_seq();
        let mut ptr: usize = 0;
        let mut val_idx: usize = 0;
        while ptr < self.keys.len()
            invariant
                self.wf(),
                ks == self.key_seq(),
                val_idx <= ks.len(),
                ptr == encode(ks.take(val_idx as int)).len(),
                forall|j: int| 0 <= j < val_idx ==> lex_lt(#[trigger] ks[j], key@),
            decreases self.keys@.len() - ptr,
        {
            proof {
                lemma_take_all_len(ks, val_idx as int);
                lemma_record(ks, val_idx as int);
            }
            let len = self.keys[ptr] as usize;
            let start = ptr + 1;
            let end = start + len;
            let stored_key = slice_subrange(self.keys.as_slice(), start, end);
            match compare_keys(stored_key, key) {
                KeyOrder::Equal => {
                    return Some(val_idx);
                },
                KeyOrder::Greater => {
                    proof {
                        assert forall|j: int| 0 <= j < ks.len() implies ks[j] != key@ by {
                            if j > val_idx {
                                lemma_lex_transitive(key@, ks[val_idx as int], ks[j]);
                                crate::keys::lemma_lex_irreflexive(key@);
                            } else if j < val_idx {
                                crate::keys::lemma_lex_irreflexive(key@);
                            } else {
                                crate::keys::lemma_lex_irreflexive(key@);
                            }
                        }
                    }
                    return None;
                },
                KeyOrder::Less => {
                    ptr = end;
                    val_idx = val_idx + 1;
                },
            }
        }
        proof {
            lemma_take_all_len(ks, val_idx as int);
            assert forall|j: int| 0 <= j < ks.len() implies ks[j] != key@ by {
                crate::keys::lemma_lex_irreflexive(key@);
            }
        }
        None
    }

    pub fn get(&self, search_key: &[u8]) -> (r: Option<&V>)
        requires
            self.wf(),
        ensures
            match r {
                Some(v) => self@.contains_key(search_key@) && self@[search_key@] == *v,
                None => !self@.contains_key(search_key@),
            },
    {
        proof {
            self.lemma_wf();
        }
        match self.find_index(search_key) {
            Some(idx) => Some(&self.values[idx]),
            None => None,
        }
    }

    pub fn get_mut(&mut self, search_key: &[u8]) -> (r: Option<&mut V>)
        requires
            old(self).wf(),
        ensures
            final(self).wf(),
            old(self)@.contains_key(search_key@) == r.is_some(),
            r.is_some() ==> *r.unwrap() == old(self)@[search_key@] && final(self)@ == old(
                self,
            )@.insert(search_key@, *final(r.unwrap())),
            r.is_none() ==> final(self)@ == old(self)@,
            final(self).key_seq() == old(self).key_seq(),
    {
        proof {
            self.lemma_wf();
        }
        match self.find_index(search_key) {
            Some(idx) => {
                proof {
                    lemma_pairs_map_update(self.key_seq(), self.values@, idx as int, self.values@[idx as int]);
                }
                Some(&mut self.values[idx])
            },
            None => None,
        }
    }

    /// Inserts while keeping the keys in ascending order; returns the value
    /// that the key held before, if any.
    pub fn insert(&mut self, key: &[u8], value: V) -> (r: Option<V>)
        requires
            old(self).wf(),
            key@.len() <= MAX_BUCKET_KEY_LEN,
        ensures
            final(self).wf(),
            final(self)@ == old(self)@.insert(key@, value),
            r == old(self)@.get(key@),
    {
        let ghost ks = self.key_seq();
        let ghost vs = self.values@;
        proof {
            self.lemma_wf();
        }
        let mut ptr: usize = 0;
        let mut val_idx: usize = 0;
        while ptr < self.keys.len()
            invariant
                self.wf(),
                ks == self.key_seq(),
                vs == self.values@,
                ks == old(self).key_seq(),
                vs == old(self).values@,
                key@.len() <= 255,
                val_idx <= ks.len(),
                ptr == encode(ks.take(val_idx as int)).len(),
                forall|j: int| 0 <= j < val_idx ==> lex_lt(#[trigger] ks[j], key@),
            decreases self.keys@.len() - ptr,
        {
            proof {
                lemma_take_all_len(ks, val_idx as int);
                lemma_record(ks, val_idx as int);
            }
            let len = self.keys[ptr] as usize;
            let current_key_start = ptr + 1;
            let current_key_end = current_key_start + len;
            let stored_key = slice_subrange(
                self.keys.as_slice(),
                current_key_start,
                current_key_end,
            );
            match compare_keys(stored_key, key) {
                KeyOrder::Equal => {
                    let mut old_value = value;
                    std::mem::swap(&mut self.values[val_idx], &mut old_value);
                    proof {
                        lemma_pairs_map_update(ks, vs, val_idx as int, value);
                        lemma_pairs_map_index(ks, vs, val_idx as int);
                    }
                    return Some(old_value);
                },
                KeyOrder::Greater => {
                    // every later key is above `key` as well
                    proof {
                        assert forall|j: int| val_idx <= j < ks.len() implies lex_lt(
                            key@,
                            #[trigger] ks[j],
                        ) by {
                            if j > val_idx {
                                lemma_lex_transitive(key@, ks[val_idx as int], ks[j]);
                            }
                        }
                        lemma_sorted_insert(ks, val_idx as int, key@);
                        lemma_pairs_map_insert(ks, vs, val_idx as int, key@, value);
                    }
                    self.values.insert(val_idx, value);
                    proof {
                        vstd::std_specs::vec::axiom_spec_len(&self.values);
                    }
                    let mut entry: Vec<u8> = Vec::with_capacity(1 + key.len());
                    entry.push(key.len() as u8);
                    let mut i: usize = 0;
                    while i < key.len()
                        invariant
                            key@.len() <= 255,
                            i <= key@.len(),
                            entry@ == seq![key@.len() as u8] + key@.take(i as int),
                        decreases key@.len() - i,
                    {
                        entry.push(key[i]);
                        i = i + 1;
                        assert(entry@ =~= seq![key@.len() as u8] + key@.take(i as int));
                    }
                    assert(key@.take(i as int) =~= key@);
                    splice_bytes(&mut self.keys, ptr, entry.as_slice());
                    self.count = self.count + 1;
                    proof {
                        let nks = ks.insert(val_idx as int, key@);
                        assert(nks =~= ks.take(val_idx as int) + seq![key@] + ks.skip(
                            val_idx as int,
                        ));
                        lemma_encode_append(ks.take(val_idx as int) + seq![key@], ks.skip(val_idx as int));
                        lemma_encode_append(ks.take(val_idx as int), seq![key@]);
                        lemma_encode_single(key@);
                        assert(ks =~= ks.take(val_idx as int) + ks.skip(val_idx as int));
                        lemma_encode_append(ks.take(val_idx as int), ks.skip(val_idx as int));
                        assert(encode(ks).take(ptr as int) =~= encode(ks.take(val_idx as int)));
                        assert(encode(ks).skip(ptr as int) =~= encode(ks.skip(val_idx as int)));
                        assert(self.keys@ =~= encode(nks));
                        assert forall|j: int| 0 <= j < nks.len() implies (#[trigger] nks[j]).len()
                            <= 255 by {
                            if j > val_idx {
                                assert(nks[j] == ks[j - 1]);
                            }
                        }
                        lemma_decode_encode(nks);
                    }
                    return None;
                },
                KeyOrder::Less => {
                    ptr = current_key_end;
                    val_idx = val_idx + 1;
                },
            }
        }
        // larger than every stored key: append
        proof {
            lemma_take_all_len(ks, val_idx as int);
            assert(ks.insert(val_idx as int, key@) =~= ks.push(key@));
            lemma_sorted_insert(ks, val_idx as int, key@);
            lemma_pairs_map_insert(ks, vs, val_idx as int, key@, value);
            assert(vs.insert(val_idx as int, value) =~= vs.push(value));
        }
        self.keys.push(key.len() as u8);
        let mut i: usize = 0;
        while i < key.len()
            invariant
                key@.len() <= 255,
                i <= key@.len(),
                self.keys@ == encode(ks) + seq![key@.len() as u8] + key@.take(i as int),
                self.values@ == vs,
                self.count == ks.len(),
                ks.len() == vs.len(),
            decreases key@.len() - i,
        {
            self.keys.push(key[i]);
            i = i + 1;
            assert(self.keys@ =~= encode(ks) + seq![key@.len() as u8] + key@.take(i as int));
        }
        self.values.push(value);
        proof {
            vstd::std_specs::vec::axiom_spec_len(&self.values);
        }
        self.count = self.count + 1;
        proof {
            assert(key@.take(i as int) =~= key@);
            lemma_encode_append(ks, seq![key@]);
            lemma_encode_single(key@);
            assert(ks.push(key@) =~= ks + seq![key@]);
            assert(self.keys@ =~= encode(ks.push(key@)));
            assert forall|j: int| 0 <= j < ks.push(key@).len() implies (#[trigger] ks.push(
                key@,
            )[j]).len() <= 255 by {}
            lemma_decode_encode(ks.push(key@));
            assert forall|j: int| 0 <= j < ks.len() implies ks[j] != key@ by {
                crate::keys::lemma_lex_irreflexive(key@);
            }
        }
        None
    }

    pub fn remove(&mut self, key: &[u8]) -> (r: Option<V>)
        requires
            old(self).wf(),
        ensures
            final(self).wf(),
            final(self)@ == old(self)@.remove(key@),
            r == old(self)@.get(key@),
            final(self).spec_size() <= old(self).spec_size(),
    {
        let ghost ks = self.key_seq();
        let ghost vs = self.values@;
        proof {
            self.lemma_wf();
        }
        let mut ptr: usize = 0;
        let mut val_idx: usize = 0;
        while ptr < self.keys.len()
            invariant
                self.wf(),
                ks == self.key_seq(),
                vs == self.values@,
                ks == old(self).key_seq(),
                vs == old(self).values@,
                val_idx <= ks.len(),
                ptr == encode(ks.take(val_idx as int)).len(),
                forall|j: int| 0 <= j < val_idx ==> lex_lt(#[trigger] ks[j], key@),
            decreases self.keys@.len() - ptr,
        {
            proof {
                lemma_take_all_len(ks, val_idx as int);
                lemma_record(ks, val_idx as int);
            }
            let len = self.keys[ptr] as usize;
            let start = ptr + 1;
            let end = start + len;
            let stored_key = slice_subrange(self.keys.as_slice(), start, end);
            match compare_keys(stored_key, key) {
                KeyOrder::Equal => {
                    proof {
                        lemma_pairs_map_remove(ks, vs, val_idx as int);
                        lemma_pairs_map_index(ks, vs, val_idx as int);
                        lemma_sorted_remove(ks, val_idx as int);
                    }
                    let ghost old_len = self.keys@.len();
                    let val = self.values.remove(val_idx);
                    cut_bytes(&mut self.keys, ptr, end);
                    self.count = self.count - 1;
                    proof {
                        let nks = ks.remove(val_idx as int);
                        lemma_cut_record(ks, val_idx as int);
                        assert(self.keys@ =~= encode(nks));
                        assert forall|j: int| 0 <= j < nks.len() implies (#[trigger] nks[j]).len()
                            <= 255 by {
                            if j >= val_idx {
                                assert(nks[j] == ks[j + 1]);
                            }
                        }
                        lemma_decode_encode(nks);
                        let sz = vstd::layout::size_of::<V>() as int;
                        let n = vs.len() as int;
                        assert((n - 1) * sz <= n * sz) by (nonlinear_arith)
                            requires
                                n >= 1,
                                sz >= 0,
                        ;
                        assert(self.keys@.len() <= old_len);
                    }
                    return Some(val);
                },
                KeyOrder::Greater => {
                    proof {
                        assert forall|j: int| 0 <= j < ks.len() implies ks[j] != key@ by {
                            crate::keys::lemma_lex_irreflexive(key@);
                            if j > val_idx {
                                lemma_lex_transitive(key@, ks[val_idx as int], ks[j]);
                            }
                        }
                        assert(self@.remove(key@) =~= self@);
                    }
                    return None;
                },
                KeyOrder::Less => {
                    ptr = end;
                    val_idx = val_idx + 1;
                },
            }
        }
        proof {
            lemma_take_all_len(ks, val_idx as int);
            assert forall|j: int| 0 <= j < ks.len() implies ks[j] != key@ by {
                crate::keys::lemma_lex_irreflexive(key@);
            }
            assert(self@.remove(key@) =~= self@);
        }
        None
    }

    /// Record offset and index of the first key that is not below `bound`.
    fn seek_position(&self, bound: &[u8]) -> (r: (usize, usize))
        requires
            self.wf(),
        ensures
            seek_index(self.key_seq(), bound@, r.1 as int),
            r.0 == encode(self.key_seq().take(r.1 as int)).len(),
    {
        let ghost ks = self.key_seq();
        let mut ptr: usize = 0;
        let mut val_idx: usize = 0;
        while ptr < self.keys.len()
            invariant
                self.wf(),
                ks == self.key_seq(),
                val_idx <= ks.len(),
                ptr == encode(ks.take(val_idx as int)).len(),
                forall|j: int| 0 <= j < val_idx ==> lex_lt(#[trigger] ks[j], bound@),
            decreases self.keys@.len() - ptr,
        {
            proof {
                lemma_take_all_len(ks, val_idx as int);
                lemma_record(ks, val_idx as int);
            }
            let len = self.keys[ptr] as usize;
            let key_start = ptr + 1;
            let key_end = key_start + len;
            let key = slice_subrange(self.keys.as_slice(), key_start, key_end);
            match compare_keys(key, bound) {
                KeyOrder::Less => {
                    ptr = key_end;
                    val_idx = val_idx + 1;
                },
                _ => {
                    proof {
                        assert forall|j: int| val_idx <= j < ks.len() implies lex_le(
                            bound@,
                            #[trigger] ks[j],
                        ) by {
                            crate::keys::lemma_lex_total(bound@, ks[val_idx as int]);
                            if j > val_idx && bound@ != ks[val_idx as int] {
                                lemma_lex_transitive(bound@, ks[val_idx as int], ks[j]);
                            }
                        }
                    }
                    return (ptr, val_idx);
                },
            }
        }
        proof {
            lemma_take_all_len(ks, val_idx as int);
        }
        (ptr, val_idx)
    }

    /// An iterator starting at the first key that is not below
    /// `start_bound`, or at the first key when there is no bound.
    pub fn iter_from<'a>(&'a self, start_bound: Option<&[u8]>) -> (r: BucketIter<'a, V>)
        requires
            self.wf(),
        ensures
            r.wf(),
            r.source() == *self,
            match start_bound {
                None => r.pos() == 0,
                Some(b) => seek_index(self.key_seq(), b@, r.pos()),
            },
    {
        match start_bound {
            Some(bound) => {
                let (ptr, val_idx) = self.seek_position(bound);
                BucketIter { bucket: self, ptr, val_idx }
            },
            None => {
                proof {
                    assert(self.key_seq().take(0) =~= Seq::<Seq<u8>>::empty());
                }
                BucketIter { bucket: self, ptr: 0, val_idx: 0 }
            },
        }
    }

    /// Moves every entry out, in key order, leaving the bucket empty.
    pub fn drain(&mut self) -> (r: BucketDrainIter<V>)
        requires
            old(self).wf(),
        ensures
            final(self).wf(),
            final(self).key_seq() == Seq::<Seq<u8>>::empty(),
            r.wf(),
            r.rest_keys() == old(self).key_seq(),
            r.rest_values() == old(self).value_seq(),
    {
        let ghost ks = self.key_seq();
        let mut keys: Vec<u8> = Vec::new();
        std::mem::swap(&mut keys, &mut self.keys);
        let mut values: Vec<V> = Vec::new();
        std::mem::swap(&mut values, &mut self.values);
        let ghost vs = values@;
        self.count = 0;
        // values in reverse, so that each can be taken from the end
        let mut values_rev: Vec<V> = Vec::new();
        while values.len() > 0
            invariant
                values@ + values_rev@.reverse() == vs,
            decreases values@.len(),
        {
            let v = values.pop().unwrap();
            proof {
                assert(values_rev@.push(v).reverse() =~= seq![v] + values_rev@.reverse());
            }
            values_rev.push(v);
            proof {
                assert(values@ + values_rev@.reverse() =~= vs);
            }
        }
        proof {
            assert(values@ + values_rev@.reverse() =~= values_rev@.reverse());
            assert(ks.take(0) =~= Seq::<Seq<u8>>::empty());
            assert(ks.skip(0) =~= ks);
        }
        BucketDrainIter { keys, values_rev, ptr: 0, stored: Ghost(ks), taken: Ghost(0) }
    }

    pub fn iter(&self) -> (r: BucketIter<'_, V>)
        requires
            self.wf(),
        ensures
            r.wf(),
            r.source() == *self,
            r.pos() == 0,
    {
        proof {
            assert(self.key_seq().take(0) =~= Seq::<Seq<u8>>::empty());
        }
        BucketIter { bucket: self, ptr: 0, val_idx: 0 }
    }
}

impl<V: Clone> Clone for Bucket<V> {
    /// The same keys, each value cloned.
    fn clone(&self) -> (r: Self)
        ensures
            r.key_seq() == self.key_seq(),
            r.value_seq().len() == self.value_seq().len(),
            forall|i: int|
                0 <= i < self.value_seq().len() ==> cloned::<V>(self.value_seq()[i], #[trigger] r.value_seq()[i]),
            self.wf() ==> r.wf(),
    {
        Bucket {
            keys: vstd::slice::slice_to_vec(self.keys.as_slice()),
            values: self.values.clone(),
            count: self.count,
        }
    }
}

/// A bucket whose keys are those of `a`, with values cloned from `a`'s,
/// holds the same keys, each with a clone of `a`'s value.
pub proof fn lemma_cloned_view<V: Clone>(a: Bucket<V>, b: Bucket<V>)
    requires
        a.wf(),
        b.key_seq() == a.key_seq(),
        b.value_seq().len() == a.value_seq().len(),
        forall|i: int| 0 <= i < a.value_seq().len() ==> cloned::<V>(a.value_seq()[i], #[trigger] b.value_seq()[i]),
    ensures
        b@.dom() == a@.dom(),
        forall|k: Seq<u8>| #[trigger] a@.contains_key(k) ==> cloned::<V>(a@[k], b@[k]),
{
    assert(b@.dom() =~= a@.dom());
    assert forall|k: Seq<u8>| #[trigger] a@.contains_key(k) implies cloned::<V>(a@[k], b@[k]) by {
        let i = a.key_seq().index_of(k);
        assert(a.key_seq().contains(k));
    }
}

impl<V> Default for Bucket<V> {
    fn default() -> (r: Self)
        ensures
            r.wf(),
            r.key_seq() == Seq::<Seq<u8>>::empty(),
            r@ == Map::<Seq<u8>, V>::empty(),
    {
        Bucket::new()
    }
}

/// Owns a bucket's former contents and hands them out in key order.
pub struct BucketDrainIter<V> {
    keys: Vec<u8>,
    values_rev: Vec<V>,
    ptr: usize,
    stored: Ghost<Seq<Seq<u8>>>,
    taken: Ghost<int>,
}

impl<V> BucketDrainIter<V> {
    /// Keys still to come.
    pub closed spec fn rest_keys(&self) -> Seq<Seq<u8>> {
        self.stored@.skip(self.taken@)
    }

    /// Values still to come, in the order of their keys.
    pub closed spec fn rest_values(&self) -> Seq<V> {
        self.values_rev@.reverse()
    }

    pub closed spec fn wf(&self) -> bool {
        &&& self.keys@ == encode(self.stored@)
        &&& forall|j: int| 0 <= j < self.stored@.len() ==> (#[trigger] self.stored@[j]).len() <= 255
        &&& 0 <= self.taken@ <= self.stored@.len()
        &&& self.ptr == encode(self.stored@.take(self.taken@)).len()
        &&& self.values_rev@.len() == self.stored@.len() - self.taken@
    }

    pub fn next(&mut self) -> (r: Option<(Vec<u8>, V)>)
        requires
            old(self).wf(),
        ensures
            final(self).wf(),
            old(self).rest_keys().len() == old(self).rest_values().len(),
            match r {
                Some(kv) => old(self).rest_keys().len() > 0 && kv.0@ == old(self).rest_keys()[0]
                    && kv.1 == old(self).rest_values()[0] && final(self).rest_keys() == old(
                    self,
                ).rest_keys().drop_first() && final(self).rest_values() == old(
                    self,
                ).rest_values().drop_first(),
                None => old(self).rest_keys().len() == 0 && final(self).rest_keys() == old(
                    self,
                ).rest_keys() && final(self).rest_values() == old(self).rest_values(),
            },
    {
        let ghost ks = self.stored@;
        let ghost t = self.taken@;
        proof {
            lemma_take_all_len(ks, t);
        }
        if self.ptr >= self.keys.len() {
            proof {
                assert(ks.skip(t).len() == 0);
            }
            return None;
        }
        proof {
            lemma_record(ks, t);
        }
        proof {
            vstd::std_specs::vec::axiom_spec_len(&self.keys);
        }
        let len = self.keys[self.ptr] as usize;
        self.ptr = self.ptr + 1;
        let mut key: Vec<u8> = Vec::new();
        let mut i: usize = 0;
        while i < len
            invariant
                self.keys@ == encode(ks),
                self.ptr + len <= self.keys@.len(),
                self.keys@.len() <= usize::MAX,
                i <= len,
                key@ == self.keys@.subrange(self.ptr as int, self.ptr + i),
            decreases len - i,
        {
            key.push(self.keys[self.ptr + i]);
            i = i + 1;
            assert(key@ =~= self.keys@.subrange(self.ptr as int, self.ptr + i));
        }
        self.ptr = self.ptr + len;
        let val = self.values_rev.pop().unwrap();
        proof {
            let rv = self.values_rev@;
            assert(old(self).values_rev@ =~= rv.push(val));
            assert(rv.push(val).reverse() =~= seq![val] + rv.reverse());
            assert(ks.skip(t)[0] == ks[t]);
            assert(ks.skip(t).drop_first() =~= ks.skip(t + 1));
            self.taken@ = t + 1;
        }
        Some((key, val))
    }
}

/// Borrowing iterator over a bucket, in key order.
pub struct BucketIter<'a, V> {
    bucket: &'a Bucket<V>,
    ptr: usize,
    val_idx: usize,
}

impl<'a, V> BucketIter<'a, V> {
    /// The bucket being walked.
    pub closed spec fn source(&self) -> Bucket<V> {
        *self.bucket
    }

    /// Index of the next entry to be handed out.
    pub closed spec fn pos(&self) -> int {
        self.val_idx as int
    }

    pub closed spec fn wf(&self) -> bool {
        &&& self.bucket.wf()
        &&& self.val_idx <= self.bucket.key_seq().len()
        &&& self.ptr == encode(self.bucket.key_seq().take(self.val_idx as int)).len()
    }

    pub proof fn lemma_pos(&self)
        requires
            self.wf(),
        ensures
            self.source().wf(),
            0 <= self.pos() <= self.source().key_seq().len(),
    {
    }

    pub fn next(&mut self) -> (r: Option<(&'a [u8], &'a V)>)
        requires
            old(self).wf(),
        ensures
            final(self).wf(),
            final(self).source() == old(self).source(),
            match r {
                Some(kv) => old(self).pos() < old(self).source().key_seq().len() && kv.0@ == old(
                    self,
                ).source().key_seq()[old(self).pos()] && *kv.1 == old(self).source().value_seq()[old(
                    self,
                ).pos()] && final(self).pos() == old(self).pos() + 1,
                None => old(self).pos() == old(self).source().key_seq().len() && final(self).pos()
                    == old(self).pos(),
            },
    {
        let b: &'a Bucket<V> = self.bucket;
        let ghost ks = b.key_seq();
        proof {
            lemma_take_all_len(ks, self.val_idx as int);
        }
        if self.ptr >= b.keys.len() {
            return None;
        }
        proof {
            lemma_record(ks, self.val_idx as int);
        }
        let len = b.keys[self.ptr] as usize;
        let start = self.ptr + 1;
        let end = start + len;
        let key: &'a [u8] = slice_subrange(b.keys.as_slice(), start, end);
        let val: &'a V = &b.values[self.val_idx];
        self.ptr = end;
        self.val_idx = self.val_idx + 1;
        Some((key, val))
    }
}

} // verus!
