//! Byte-string keys: the lexicographic order that every traversal of the
//! trie follows, the length of a common prefix, and their executable forms.
use vstd::prelude::*;

verus! {

/// Length of the longest common prefix of `a` and `b`.
pub open spec fn lcp_len(a: Seq<u8>, b: Seq<u8>) -> nat
    decreases a.len(),
{
    if a.len() == 0 || b.len() == 0 || a[0] != b[0] {
        0
    } else {
        1 + lcp_len(a.drop_first(), b.drop_first())
    }
}

/// Strict lexicographic (byte-wise) order, the order of `[u8]::cmp`:
/// a proper prefix comes first, otherwise the first differing byte decides.
pub open spec fn lex_lt(a: Seq<u8>, b: Seq<u8>) -> bool {
    let c = lcp_len(a, b);
    (c == a.len() && c < b.len()) || (c < a.len() && c < b.len() && a[c as int] < b[c as int])
}

pub open spec fn lex_le(a: Seq<u8>, b: Seq<u8>) -> bool {
    a == b || lex_lt(a, b)
}

/// `p` is a prefix of `k`.
pub open spec fn has_prefix(k: Seq<u8>, p: Seq<u8>) -> bool {
    p.len() <= k.len() && k.subrange(0, p.len() as int) == p
}

/// Keys of a sequence of entries, in order.
pub open spec fn strictly_sorted(ks: Seq<Seq<u8>>) -> bool {
    forall|i: int, j: int| 0 <= i < j < ks.len() ==> lex_lt(#[trigger] ks[i], #[trigger] ks[j])
}

/// Appending a key above the last one keeps a list strictly sorted.
pub proof fn lemma_sorted_push(ks: Seq<Seq<u8>>, x: Seq<u8>)
    requires
        strictly_sorted(ks),
        ks.len() > 0 ==> lex_lt(ks.last(), x),
    ensures
        strictly_sorted(ks.push(x)),
{
    let n = ks.push(x);
    assert forall|i: int, j: int| 0 <= i < j < n.len() implies lex_lt(#[trigger] n[i], #[trigger] n[j]) by {
        if j == ks.len() {
            if i < ks.len() - 1 {
                lemma_lex_transitive(ks[i], ks.last(), x);
            }
        } else {
            assert(n[i] == ks[i]);
            assert(n[j] == ks[j]);
        }
    }
}

pub proof fn lemma_lcp_props(a: Seq<u8>, b: Seq<u8>)
    ensures
        lcp_len(a, b) <= a.len(),
        lcp_len(a, b) <= b.len(),
        forall|j: int| 0 <= j < lcp_len(a, b) ==> a[j] == b[j],
        (lcp_len(a, b) < a.len() && lcp_len(a, b) < b.len()) ==> a[lcp_len(a, b) as int]
            != b[lcp_len(a, b) as int],
    decreases a.len(),
{
    if a.len() == 0 || b.len() == 0 || a[0] != b[0] {
    } else {
        lemma_lcp_props(a.drop_first(), b.drop_first());
        assert forall|j: int| 0 <= j < lcp_len(a, b) implies a[j] == b[j] by {
            if j > 0 {
                assert(a.drop_first()[j - 1] == a[j]);
                assert(b.drop_first()[j - 1] == b[j]);
            }
        }
    }
}

/// The common prefix length is the only length with the properties above.
pub proof fn lemma_lcp_unique(a: Seq<u8>, b: Seq<u8>, c: int)
    requires
        0 <= c <= a.len(),
        c <= b.len(),
        forall|j: int| 0 <= j < c ==> a[j] == b[j],
        (c < a.len() && c < b.len()) ==> a[c] != b[c],
    ensures
        lcp_len(a, b) == c,
    decreases a.len(),
{
    if a.len() == 0 || b.len() == 0 || a[0] != b[0] {
        if c > 0 {
            assert(a[0] == b[0]);
        }
    } else {
        if c == 0 {
            assert(a[0] != b[0]);
        } else {
            assert forall|j: int| 0 <= j < c - 1 implies a.drop_first()[j] == b.drop_first()[j] by {
                assert(a[j + 1] == b[j + 1]);
            }
            lemma_lcp_unique(a.drop_first(), b.drop_first(), c - 1);
        }
    }
}

pub proof fn lemma_lcp_symmetric(a: Seq<u8>, b: Seq<u8>)
    ensures
        lcp_len(a, b) == lcp_len(b, a),
{
    lemma_lcp_props(a, b);
    lemma_lcp_unique(b, a, lcp_len(a, b) as int);
}

pub proof fn lemma_lex_irreflexive(a: Seq<u8>)
    ensures
        !lex_lt(a, a),
{
    lemma_lcp_props(a, a);
    lemma_lcp_unique(a, a, a.len() as int);
}

pub proof fn lemma_lex_total(a: Seq<u8>, b: Seq<u8>)
    ensures
        a == b || lex_lt(a, b) || lex_lt(b, a),
        !(lex_lt(a, b) && lex_lt(b, a)),
        lex_lt(a, b) ==> a != b,
{
    lemma_lcp_props(a, b);
    lemma_lcp_symmetric(a, b);
    lemma_lex_irreflexive(a);
    let c = lcp_len(a, b);
    if c == a.len() && c == b.len() {
        assert(a =~= b);
    }
}

pub proof fn lemma_lex_transitive(a: Seq<u8>, b: Seq<u8>, c: Seq<u8>)
    requires
        lex_lt(a, b),
        lex_lt(b, c),
    ensures
        lex_lt(a, c),
{
    lemma_lcp_props(a, b);
    lemma_lcp_props(b, c);
    lemma_lcp_props(a, c);
    let x = lcp_len(a, b);
    let y = lcp_len(b, c);
    let m = if x < y { x } else { y };
    // a and c agree below m, and differ (or end) at m
    assert forall|j: int| 0 <= j < m implies a[j] == c[j] by {
        assert(a[j] == b[j]);
        assert(b[j] == c[j]);
    }
    if x < y {
        // a and b split at x, b and c agree there
        if x == a.len() {
            lemma_lcp_unique(a, c, x as int);
        } else {
            assert(b[x as int] == c[x as int]);
            lemma_lcp_unique(a, c, x as int);
        }
    } else if y < x {
        assert(a[y as int] == b[y as int]);
        lemma_lcp_unique(a, c, y as int);
    } else {
        // x == y: b cannot end at x, since b < c needs b longer or a smaller byte
        if x == a.len() {
            lemma_lcp_unique(a, c, x as int);
        } else {
            lemma_lcp_unique(a, c, x as int);
        }
    }
}

/// Prepending a common prefix preserves the common prefix length, shifted.
pub proof fn lemma_lcp_append(p: Seq<u8>, x: Seq<u8>, y: Seq<u8>)
    ensures
        lcp_len(p + x, p + y) == p.len() + lcp_len(x, y),
{
    lemma_lcp_props(x, y);
    let c = p.len() + lcp_len(x, y);
    assert forall|j: int| 0 <= j < c implies (p + x)[j] == (p + y)[j] by {
        if j >= p.len() {
            assert((p + x)[j] == x[j - p.len()]);
            assert((p + y)[j] == y[j - p.len()]);
        }
    }
    if c < (p + x).len() && c < (p + y).len() {
        assert((p + x)[c as int] == x[lcp_len(x, y) as int]);
        assert((p + y)[c as int] == y[lcp_len(x, y) as int]);
    }
    lemma_lcp_unique(p + x, p + y, c as int);
}

pub proof fn lemma_lex_append(p: Seq<u8>, x: Seq<u8>, y: Seq<u8>)
    ensures
        lex_lt(p + x, p + y) == lex_lt(x, y),
{
    lemma_lcp_append(p, x, y);
    lemma_lcp_props(x, y);
    let c = lcp_len(x, y);
    if c < x.len() && c < y.len() {
        assert((p + x)[(p.len() + c) as int] == x[c as int]);
        assert((p + y)[(p.len() + c) as int] == y[c as int]);
    }
}

/// A proper prefix comes first.
pub proof fn lemma_lex_proper_prefix(p: Seq<u8>, x: Seq<u8>)
    requires
        x.len() > 0,
    ensures
        lex_lt(p, p + x),
{
    assert forall|j: int| 0 <= j < p.len() implies p[j] == (p + x)[j] by {}
    lemma_lcp_unique(p, p + x, p.len() as int);
}

pub proof fn lemma_has_prefix_append(p: Seq<u8>, x: Seq<u8>)
    ensures
        has_prefix(p + x, p),
        (p + x).subrange(p.len() as int, (p + x).len() as int) == x,
{
    assert((p + x).subrange(0, p.len() as int) =~= p);
    assert((p + x).subrange(p.len() as int, (p + x).len() as int) =~= x);
}

pub proof fn lemma_has_prefix_split(k: Seq<u8>, p: Seq<u8>)
    requires
        has_prefix(k, p),
    ensures
        k == p + k.subrange(p.len() as int, k.len() as int),
{
    assert(k =~= p + k.subrange(p.len() as int, k.len() as int));
}

/// A key is never below its prefixes.
pub proof fn lemma_prefix_le(k: Seq<u8>, p: Seq<u8>)
    requires
        has_prefix(k, p),
    ensures
        lex_le(p, k),
{
    lemma_has_prefix_split(k, p);
    if k.len() > p.len() {
        lemma_lex_proper_prefix(p, k.skip(p.len() as int));
    } else {
        assert(k =~= p);
    }
}

/// Prefixes of a key are nested.
pub proof fn lemma_prefix_of_prefix(k: Seq<u8>, p: Seq<u8>, q: Seq<u8>)
    requires
        has_prefix(k, q),
        has_prefix(q, p),
    ensures
        has_prefix(k, p),
{
    assert(k.subrange(0, p.len() as int) =~= p) by {
        assert forall|j: int| 0 <= j < p.len() implies k.subrange(0, p.len() as int)[j] == p[j] by {
            assert(k.subrange(0, q.len() as int)[j] == q[j]);
            assert(q.subrange(0, p.len() as int)[j] == p[j]);
        }
    }
}

/// Result of comparing two keys.
#[derive(Clone, Copy, Debug, PartialEq, Eq, Structural)]
pub enum KeyOrder {
    Less,
    Equal,
    Greater,
}

/// Length of the longest common prefix of two byte strings.
pub fn common_prefix_len(a: &[u8], b: &[u8]) -> (r: usize)
    ensures
        r == lcp_len(a@, b@),
{
    let mut i: usize = 0;
    while i < a.len() && i < b.len() && a[i] == b[i]
        invariant
            i <= a@.len(),
            i <= b@.len(),
            forall|j: int| 0 <= j < i ==> a@[j] == b@[j],
        decreases a@.len() - i,
    {
        i = i + 1;
    }
    proof {
        lemma_lcp_unique(a@, b@, i as int);
    }
    i
}

/// Byte-wise comparison of two keys.
pub fn compare_keys(a: &[u8], b: &[u8]) -> (r: KeyOrder)
    ensures
        r == KeyOrder::Less <==> lex_lt(a@, b@),
        r == KeyOrder::Equal <==> a@ == b@,
        r == KeyOrder::Greater <==> lex_lt(b@, a@),
{
    let c = common_prefix_len(a, b);
    proof {
        lemma_lcp_props(a@, b@);
        lemma_lex_total(a@, b@);
    }
    if c == a.len() {
        if c == b.len() {
            proof {
                assert(a@ =~= b@);
                lemma_lex_irreflexive(a@);
            }
            KeyOrder::Equal
        } else {
            KeyOrder::Less
        }
    } else if c == b.len() {
        proof {
            lemma_lcp_symmetric(a@, b@);
        }
        KeyOrder::Greater
    } else if a[c] < b[c] {
        KeyOrder::Less
    } else {
        proof {
            lemma_lcp_symmetric(a@, b@);
        }
        KeyOrder::Greater
    }
}

/// Whether `k` starts with `p`.
pub fn starts_with(k: &[u8], p: &[u8]) -> (r: bool)
    ensures
        r == has_prefix(k@, p@),
{
    let c = common_prefix_len(k, p);
    proof {
        lemma_lcp_props(k@, p@);
        if c == p.len() {
            assert(k@.subrange(0, p@.len() as int) =~= p@);
        } else if has_prefix(k@, p@) {
            assert(k@[c as int] == k@.subrange(0, p@.len() as int)[c as int]);
        }
    }
    c == p.len()
}

} // verus!
