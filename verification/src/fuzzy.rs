//! Approximate lookup: every key within a Levenshtein distance of a target.
//! One row of the edit-distance table is carried down the trie, extended a
//! byte at a time, and a branch is dropped as soon as every entry of its row
//! exceeds the allowed distance, since no key below it can come closer.
use vstd::prelude::*;

use crate::keys::{
    has_prefix, lemma_lex_append, lemma_lex_proper_prefix,
    lemma_prefix_le, lex_le, lex_lt, strictly_sorted,
};
use crate::entries::pairs_map;
use crate::leaf::{ref_keys, ref_vals, ArrayHash};
use crate::node::{node_view, node_wf, Node};
use crate::walk::{
    below_branch, concat_bytes, copy_bytes, ekeys, evals, lemma_below_branch_lt,
    lemma_internal_prefix_map, lemma_leaf_walk_setup, lemma_radix_prefix_map,
    lemma_walk_lo_change, lemma_walk_nothing, prefix_map, sorted_items, walk_post, walk_pre,
};

verus! {

pub open spec fn min3(a: int, b: int, c: int) -> int {
    if a <= b && a <= c {
        a
    } else if b <= c {
        b
    } else {
        c
    }
}

/// Cost of turning byte `x` into byte `y`.
pub open spec fn subst_cost(x: u8, y: u8) -> int {
    if x == y {
        0
    } else {
        1
    }
}

/// Levenshtein distance: the fewest single-byte insertions, deletions and
/// substitutions that turn `a` into `b`.
pub open spec fn lev(a: Seq<u8>, b: Seq<u8>) -> nat
    decreases a.len() + b.len(),
{
    if a.len() == 0 {
        b.len()
    } else if b.len() == 0 {
        a.len()
    } else {
        min3(
            lev(a.drop_last(), b) + 1int,
            lev(a, b.drop_last()) + 1int,
            lev(a.drop_last(), b.drop_last()) + subst_cost(a.last(), b.last()),
        ) as nat
    }
}

/// `x`, saturated at the largest `usize`.
pub open spec fn sat(x: int) -> int {
    if x <= usize::MAX {
        x
    } else {
        usize::MAX as int
    }
}

/// `row` is the row of the edit-distance table of `w` against every prefix
/// of `t`: its `i`-th entry is the distance from `w` to the first `i` bytes.
pub open spec fn is_dist_row(row: Seq<usize>, w: Seq<u8>, t: Seq<u8>) -> bool {
    &&& row.len() == t.len() + 1
    &&& forall|i: int| 0 <= i <= t.len() ==> row[i] == sat(lev(w, #[trigger] t.take(i)) as int)
}

/// One cell of the table's next row, computed from its left neighbour and
/// from the two cells above it.
pub open spec fn next_cell_ok(prev: Seq<usize>, next: Seq<usize>, t: Seq<u8>, ch: u8, i: int) -> bool {
    next[i] == min3(
        sat(next[i - 1] + 1),
        sat(prev[i] + 1),
        sat(prev[i - 1] + subst_cost(t[i - 1], ch)),
    )
}

/// `next` is the row that follows `prev` when the byte `ch` is appended.
pub open spec fn next_row_ok(prev: Seq<usize>, next: Seq<usize>, t: Seq<u8>, ch: u8) -> bool {
    &&& next.len() == t.len() + 1
    &&& next[0] == sat(prev[0] + 1)
    &&& forall|i: int| 1 <= i <= t.len() ==> #[trigger] next_cell_ok(prev, next, t, ch, i)
}

/// Every entry of the row of `w` exceeds `max`: no key starting with `w` is
/// within `max` of `t`.
pub open spec fn dead(w: Seq<u8>, t: Seq<u8>, max: int) -> bool {
    forall|i: int| 0 <= i <= t.len() ==> sat(lev(w, #[trigger] t.take(i)) as int) > max
}

/// `k` is within distance `max` of `t`.
pub open spec fn within(k: Seq<u8>, t: Seq<u8>, max: int) -> bool {
    sat(lev(k, t) as int) <= max
}

/// The entries of `m` whose keys are within `max` of `t`.
pub open spec fn close_map<V>(m: Map<Seq<u8>, V>, t: Seq<u8>, max: int) -> Map<Seq<u8>, V> {
    Map::new(|k: Seq<u8>| m.contains_key(k) && within(k, t, max), |k: Seq<u8>| m[k])
}

proof fn lemma_sat(x: int, d: int)
    requires
        x >= 0,
        0 <= d <= 1,
    ensures
        sat(sat(x) + d) == sat(x + d),
        sat(x) <= sat(x + d),
{
}

proof fn lemma_sat_min3(a: int, b: int, c: int)
    ensures
        min3(sat(a), sat(b), sat(c)) == sat(min3(a, b, c)),
{
}

/// The distance from `w` to the empty string is the length of `w`.
proof fn lemma_lev_empty(w: Seq<u8>)
    ensures
        lev(w, Seq::empty()) == w.len(),
{
}

/// The distance between two strings is at most the longer length.
pub proof fn lemma_lev_bound(a: Seq<u8>, b: Seq<u8>)
    ensures
        lev(a, b) <= a.len() || lev(a, b) <= b.len(),
        lev(a, b) <= if a.len() >= b.len() {
            a.len()
        } else {
            b.len()
        },
    decreases a.len() + b.len(),
{
    if a.len() > 0 && b.len() > 0 {
        lemma_lev_bound(a.drop_last(), b.drop_last());
    }
}

/// Unfolds the distance of `w + [ch]` against the first `i > 0` bytes of `t`.
proof fn lemma_lev_step(w: Seq<u8>, ch: u8, t: Seq<u8>, i: int)
    requires
        1 <= i <= t.len(),
    ensures
        lev(w.push(ch), t.take(i)) == min3(
            lev(w, t.take(i)) + 1int,
            lev(w.push(ch), t.take(i - 1)) + 1int,
            lev(w, t.take(i - 1)) + subst_cost(ch, t[i - 1]),
        ),
{
    let a = w.push(ch);
    let b = t.take(i);
    assert(a.drop_last() =~= w);
    assert(b.drop_last() =~= t.take(i - 1));
    assert(a.last() == ch);
    assert(b.last() == t[i - 1]);
}

/// Entries `0..=i` of a row computed by the recurrence from the row of `w`
/// form the row of `w + [ch]`.
proof fn lemma_next_row_upto(
    prev: Seq<usize>,
    next: Seq<usize>,
    w: Seq<u8>,
    t: Seq<u8>,
    ch: u8,
    i: int,
)
    requires
        is_dist_row(prev, w, t),
        next_row_ok(prev, next, t, ch),
        0 <= i <= t.len(),
    ensures
        forall|j: int| 0 <= j <= i ==> next[j] == sat(lev(w.push(ch), #[trigger] t.take(j)) as int),
    decreases i,
{
    if i == 0 {
        assert(t.take(0) =~= Seq::<u8>::empty());
        lemma_lev_empty(w);
        lemma_lev_empty(w.push(ch));
        lemma_sat(w.len() as int, 1);
    } else {
        lemma_next_row_upto(prev, next, w, t, ch, i - 1);
        assert(next_cell_ok(prev, next, t, ch, i));
        lemma_lev_step(w, ch, t, i);
        let x = lev(w, t.take(i)) as int;
        let y = lev(w.push(ch), t.take(i - 1)) as int;
        let z = lev(w, t.take(i - 1)) as int;
        let c = subst_cost(t[i - 1], ch);
        assert(c == subst_cost(ch, t[i - 1]));
        assert(prev[i] == sat(x));
        assert(prev[i - 1] == sat(z));
        assert(next[i - 1] == sat(y));
        lemma_sat(x, 1);
        lemma_sat(y, 1);
        lemma_sat(z, c);
        lemma_sat_min3(x + 1, y + 1, z + c);
    }
}

/// A row computed by the recurrence from the row of `w` is the row of
/// `w + [ch]`.
pub proof fn lemma_next_row(prev: Seq<usize>, next: Seq<usize>, w: Seq<u8>, t: Seq<u8>, ch: u8)
    requires
        is_dist_row(prev, w, t),
        next_row_ok(prev, next, t, ch),
    ensures
        is_dist_row(next, w.push(ch), t),
{
    lemma_next_row_upto(prev, next, w, t, ch, t.len() as int);
}

/// Entries `0..=i` of the row of `w + [ch]` exceed `max` when the whole row
/// of `w` does.
proof fn lemma_dead_push_upto(w: Seq<u8>, ch: u8, t: Seq<u8>, max: int, i: int)
    requires
        dead(w, t, max),
        0 <= i <= t.len(),
    ensures
        forall|j: int| 0 <= j <= i ==> sat(lev(w.push(ch), #[trigger] t.take(j)) as int) > max,
    decreases i,
{
    if i == 0 {
        assert(t.take(0) =~= Seq::<u8>::empty());
        lemma_lev_empty(w);
        lemma_lev_empty(w.push(ch));
        assert(sat(lev(w, t.take(0)) as int) > max);
        lemma_sat(w.len() as int, 1);
    } else {
        lemma_dead_push_upto(w, ch, t, max, i - 1);
        lemma_lev_step(w, ch, t, i);
        let x = lev(w, t.take(i)) as int;
        let y = lev(w.push(ch), t.take(i - 1)) as int;
        let z = lev(w, t.take(i - 1)) as int;
        let c = subst_cost(ch, t[i - 1]);
        assert(sat(x) > max);
        assert(sat(z) > max);
        assert(sat(y) > max);
        lemma_sat(x, 1);
        lemma_sat(y, 1);
        lemma_sat(z, c);
        lemma_sat_min3(x + 1, y + 1, z + c);
    }
}

/// Appending a byte to a dead prefix leaves it dead.
pub proof fn lemma_dead_push(w: Seq<u8>, ch: u8, t: Seq<u8>, max: int)
    requires
        dead(w, t, max),
    ensures
        dead(w.push(ch), t, max),
{
    lemma_dead_push_upto(w, ch, t, max, t.len() as int);
}

/// Every extension of a dead prefix is dead.
pub proof fn lemma_dead_extend(w: Seq<u8>, x: Seq<u8>, t: Seq<u8>, max: int)
    requires
        dead(w, t, max),
    ensures
        dead(w + x, t, max),
    decreases x.len(),
{
    if x.len() == 0 {
        assert(w + x =~= w);
    } else {
        lemma_dead_extend(w, x.drop_last(), t, max);
        lemma_dead_push(w + x.drop_last(), x.last(), t, max);
        assert((w + x.drop_last()).push(x.last()) =~= w + x);
    }
}

/// A dead key is not within the distance.
pub proof fn lemma_dead_not_within(w: Seq<u8>, t: Seq<u8>, max: int)
    requires
        dead(w, t, max),
    ensures
        !within(w, t, max),
{
    assert(t.take(t.len() as int) =~= t);
}

/// No key that starts with a dead prefix is within the distance.
pub proof fn lemma_dead_prefix(w: Seq<u8>, k: Seq<u8>, t: Seq<u8>, max: int)
    requires
        dead(w, t, max),
        w.len() <= k.len(),
        k.subrange(0, w.len() as int) == w,
    ensures
        !within(k, t, max),
{
    let x = k.skip(w.len() as int);
    assert(w + x =~= k);
    lemma_dead_extend(w, x, t, max);
    lemma_dead_not_within(k, t, max);
}

/// For keys and targets that fit in memory the saturation never bites.
pub proof fn lemma_within_exact(k: Seq<u8>, t: Seq<u8>, max: int)
    requires
        k.len() <= usize::MAX,
        t.len() <= usize::MAX,
        max <= usize::MAX,
    ensures
        within(k, t, max) == (lev(k, t) <= max),
{
    lemma_lev_bound(k, t);
}

/// Gathers the entries of a trie whose keys lie within `max_distance` of
/// `target`.
pub struct FuzzySearcher<'k, 'v, V> {
    results: Vec<(Vec<u8>, &'v V)>,
    target: &'k [u8],
    max_distance: usize,
}

impl<'k, 'v, V> FuzzySearcher<'k, 'v, V> {
    /// The target.
    pub closed spec fn target_view(&self) -> Seq<u8> {
        self.target@
    }

    /// The largest distance accepted.
    pub closed spec fn max_view(&self) -> usize {
        self.max_distance
    }

    /// The entries gathered so far.
    pub closed spec fn found(&self) -> Seq<(Vec<u8>, &'v V)> {
        self.results@
    }

    pub fn new(target: &'k [u8], max_dist: usize) -> (r: Self)
        ensures
            r.target_view() == target@,
            r.max_view() == max_dist,
            r.found().len() == 0,
    {
        FuzzySearcher { results: Vec::new(), target, max_distance: max_dist }
    }

    /// The row of the edit-distance table that follows `prev_row` once the
    /// byte `ch` is appended to the word.
    pub fn calculate_next_row(&self, prev_row: &[usize], ch: u8) -> (r: Vec<usize>)
        requires
            self.target_view().len() < usize::MAX,
            prev_row@.len() >= self.target_view().len() + 1,
        ensures
            next_row_ok(prev_row@, r@, self.target_view(), ch),
    {
        let columns = self.target.len() + 1;
        let mut next_row: Vec<usize> = Vec::new();
        next_row.push(prev_row[0].saturating_add(1));
        let mut i: usize = 1;
        while i < columns
            invariant
                columns == self.target@.len() + 1,
                prev_row@.len() >= columns,
                1 <= i <= columns,
                next_row@.len() == i,
                next_row@[0] == sat(prev_row@[0] + 1),
                forall|j: int| 1 <= j < i ==> #[trigger] next_cell_ok(prev_row@, next_row@, self.target@, ch, j),
            decreases columns - i,
        {
            let insert_cost = next_row[i - 1].saturating_add(1);
            let delete_cost = prev_row[i].saturating_add(1);
            let replace_cost = prev_row[i - 1].saturating_add(if self.target[i - 1] == ch { 0 } else { 1 });
            let mut best = insert_cost;
            if delete_cost < best {
                best = delete_cost;
            }
            if replace_cost < best {
                best = replace_cost;
            }
            let ghost before = next_row@;
            next_row.push(best);
            proof {
                assert forall|j: int| 1 <= j < i + 1 implies #[trigger] next_cell_ok(prev_row@, next_row@, self.target@, ch, j) by {
                    if j < i {
                        assert(next_cell_ok(prev_row@, before, self.target@, ch, j));
                    }
                }
            }
            i = i + 1;
        }
        next_row
    }
}

/// The smallest entry of a non-empty row.
fn row_min(row: &[usize]) -> (r: usize)
    requires
        row@.len() > 0,
    ensures
        exists|i: int| 0 <= i < row@.len() && row@[i] == r,
        forall|i: int| 0 <= i < row@.len() ==> r <= row@[i],
{
    let mut m = row[0];
    let mut i: usize = 1;
    while i < row.len()
        invariant
            1 <= i <= row@.len(),
            exists|j: int| 0 <= j < i && row@[j] == m,
            forall|j: int| 0 <= j < i ==> m <= row@[j],
        decreases row@.len() - i,
    {
        if row[i] < m {
            m = row[i];
        }
        i = i + 1;
    }
    m
}

impl<'k, 'v, V> FuzzySearcher<'k, 'v, V> {
    /// Extends the row of `w` by the bytes of `bytes`; `None` as soon as
    /// every entry of a row exceeds the distance, since then no extension
    /// can come within it.
    fn advance(&self, row: Vec<usize>, bytes: &[u8], Ghost(w): Ghost<Seq<u8>>) -> (r: Option<
        Vec<usize>,
    >)
        requires
            self.target@.len() < usize::MAX,
            is_dist_row(row@, w, self.target@),
        ensures
            match r {
                Some(nr) => is_dist_row(nr@, w + bytes@, self.target@),
                None => dead(w + bytes@, self.target@, self.max_distance as int),
            },
    {
        let ghost t = self.target@;
        let ghost max = self.max_distance as int;
        let mut row = row;
        let mut i: usize = 0;
        proof {
            assert(w + bytes@.take(0) =~= w);
        }
        while i < bytes.len()
            invariant
                t == self.target@,
                max == self.max_distance as int,
                t.len() < usize::MAX,
                i <= bytes@.len(),
                is_dist_row(row@, w + bytes@.take(i as int), t),
            decreases bytes@.len() - i,
        {
            let next = self.calculate_next_row(row.as_slice(), bytes[i]);
            let ghost wi = w + bytes@.take(i as int);
            proof {
                lemma_next_row(row@, next@, wi, t, bytes[i as int]);
                assert(wi.push(bytes[i as int]) =~= w + bytes@.take(i + 1));
            }
            if row_min(next.as_slice()) > self.max_distance {
                proof {
                    let wj = w + bytes@.take(i + 1);
                    assert(dead(wj, t, max));
                    lemma_dead_extend(wj, bytes@.skip(i + 1), t, max);
                    assert(wj + bytes@.skip(i + 1) =~= w + bytes@);
                }
                return None;
            }
            row = next;
            i = i + 1;
        }
        proof {
            assert(bytes@.take(i as int) =~= bytes@);
        }
        Some(row)
    }

    /// Appends, in key order, the entries of a leaf reached through `prefix`
    /// whose keys are within the distance.
    fn search_leaf(&mut self, leaf: &'v ArrayHash<V>, prev_row: &[usize], prefix: &Vec<u8>)
        requires
            leaf.wf(),
            old(self).target@.len() < usize::MAX,
            is_dist_row(prev_row@, prefix@, old(self).target@),
            walk_pre(
                close_map(prefix_map(leaf@, prefix@), old(self).target@, old(self).max_distance as int),
                prefix@,
                old(self).results@,
            ),
        ensures
            final(self).target == old(self).target,
            final(self).max_distance == old(self).max_distance,
            walk_post(
                close_map(prefix_map(leaf@, prefix@), old(self).target@, old(self).max_distance as int),
                prefix@,
                old(self).results@,
                final(self).results@,
            ),
    {
        let ghost p = prefix@;
        let ghost t = self.target@;
        let ghost max = self.max_distance as int;
        let ghost lm = prefix_map(leaf@, p);
        let ghost m = close_map(lm, t, max);
        let ghost before = self.results@;
        let items = sorted_items(leaf);
        let ghost ks = ref_keys(items@);
        let ghost vs = ref_vals(items@);
        proof {
            lemma_leaf_walk_setup(leaf@, ks, vs, p);
            assert(self.results@.take(before.len() as int) =~= before);
        }
        let n = self.target.len();
        let mut i: usize = 0;
        while i < items.len()
            invariant
                ks == ref_keys(items@),
                vs == ref_vals(items@),
                strictly_sorted(ks),
                ks.len() == vs.len(),
                ks.len() == items@.len(),
                t == self.target@,
                max == self.max_distance as int,
                n == t.len(),
                t.len() < usize::MAX,
                is_dist_row(prev_row@, p, t),
                prefix@ == p,
                lm == prefix_map(leaf@, p),
                m == close_map(lm, t, max),
                walk_pre(m, p, before),
                forall|u: int| 0 <= u < ks.len() ==> lex_le(p, p + #[trigger] ks[u]),
                forall|u: int| 0 <= u < ks.len() ==> lm.contains_key(p + #[trigger] ks[u]) && lm[p + ks[u]] == vs[u],
                forall|k: Seq<u8>| #[trigger] lm.contains_key(k) ==> exists|u: int| 0 <= u < ks.len() && k == p + ks[u],
                i <= items@.len(),
                self.results@.len() >= before.len(),
                self.results@.take(before.len() as int) == before,
                strictly_sorted(ekeys(self.results@)),
                forall|j: int|
                    before.len() <= j < self.results@.len() ==> m.contains_key(#[trigger] ekeys(self.results@)[j])
                        && m[ekeys(self.results@)[j]] == evals(self.results@)[j] && lex_le(p, ekeys(self.results@)[j]),
                self.results@.len() > before.len() ==> exists|u: int| 0 <= u < i && ekeys(self.results@).last() == p + ks[u],
                forall|u: int| 0 <= u < i && #[trigger] m.contains_key(p + ks[u]) ==> ekeys(self.results@).contains(p + ks[u]),
            decreases items@.len() - i,
        {
            let item = items[i];
            let ghost key = p + ks[i as int];
            proof {
                assert(item.0@ == ks[i as int]);
                assert(*item.1 == vs[i as int]);
            }
            let row = vstd::slice::slice_to_vec(prev_row);
            let keep = match self.advance(row, item.0, Ghost(p)) {
                Some(last) => {
                    proof {
                        assert(t.take(n as int) =~= t);
                    }
                    last[n] <= self.max_distance
                },
                None => {
                    proof {
                        lemma_dead_not_within(key, t, max);
                    }
                    false
                },
            };
            proof {
                assert(keep == m.contains_key(key));
            }
            if keep {
                let full = concat_bytes(prefix.as_slice(), item.0);
                let ghost o = self.results@;
                proof {
                    assert(lex_le(p, key));
                    if o.len() > before.len() {
                        let u = choose|u: int| 0 <= u < i && ekeys(o).last() == p + ks[u];
                        lemma_lex_append(p, ks[u], ks[i as int]);
                    } else if o.len() > 0 {
                        assert(ekeys(o).last() == ekeys(before)[before.len() - 1]);
                    }
                    crate::keys::lemma_sorted_push(ekeys(o), key);
                }
                self.results.push((full, item.1));
                proof {
                    assert(ekeys(self.results@) =~= ekeys(o).push(key));
                    assert(evals(self.results@) =~= evals(o).push(vs[i as int]));
                    assert(self.results@.take(before.len() as int) =~= o.take(before.len() as int));
                    assert forall|u: int| 0 <= u < i + 1 && #[trigger] m.contains_key(p + ks[u]) implies ekeys(self.results@).contains(p + ks[u]) by {
                        if u < i {
                            let w = choose|w: int| 0 <= w < ekeys(o).len() && ekeys(o)[w] == p + ks[u];
                            assert(ekeys(self.results@)[w] == p + ks[u]);
                        } else {
                            assert(ekeys(self.results@)[o.len() as int] == p + ks[u]);
                        }
                    }
                }
            }
            i = i + 1;
        }
        proof {
            assert forall|k: Seq<u8>| #[trigger] m.contains_key(k) && lex_le(p, k) implies ekeys(self.results@).contains(k) by {
                let u = choose|u: int| 0 <= u < ks.len() && k == p + ks[u];
                assert(m.contains_key(p + ks[u]));
            }
        }
    }
}

impl<'k, 'v, V> FuzzySearcher<'k, 'v, V> {
    /// Appends, in key order, the entries of the subtree `node` reached
    /// through `prefix` whose keys are within the distance; `prev_row` is the
    /// row of `prefix`.
    fn recursive_search(&mut self, node: &'v Node<V>, prev_row: &[usize], prefix: &mut Vec<u8>)
        requires
            node_wf(*node),
            old(self).target@.len() < usize::MAX,
            is_dist_row(prev_row@, old(prefix)@, old(self).target@),
            walk_pre(
                close_map(
                    prefix_map(node_view(*node), old(prefix)@),
                    old(self).target@,
                    old(self).max_distance as int,
                ),
                old(prefix)@,
                old(self).results@,
            ),
        ensures
            final(prefix)@ == old(prefix)@,
            final(self).target == old(self).target,
            final(self).max_distance == old(self).max_distance,
            walk_post(
                close_map(
                    prefix_map(node_view(*node), old(prefix)@),
                    old(self).target@,
                    old(self).max_distance as int,
                ),
                old(prefix)@,
                old(self).results@,
                final(self).results@,
            ),
        decreases *node,
    {
        let ghost p = prefix@;
        let ghost t = self.target@;
        let ghost max = self.max_distance as int;
        let ghost m = close_map(prefix_map(node_view(*node), p), t, max);
        let ghost before = self.results@;
        let n = self.target.len();
        match node {
            Node::Internal { children, value } => {
                proof {
                    assert forall|k: Seq<u8>| #[trigger] m.contains_key(k) implies has_prefix(k, p) by {}
                    lemma_internal_prefix_map(*node, p, p);
                    assert(t.take(n as int) =~= t);
                }
                if let Some(v) = value {
                    if prev_row[n] <= self.max_distance {
                        let key = copy_bytes(prefix.as_slice());
                        proof {
                            assert(p.subrange(0, p.len() as int) =~= p);
                            assert(m.contains_key(p));
                            crate::keys::lemma_prefix_le(p, p);
                            if before.len() > 0 {
                                assert(lex_lt(ekeys(before)[before.len() - 1], p));
                            }
                            crate::keys::lemma_sorted_push(ekeys(before), p);
                        }
                        self.results.push((key, v));
                        proof {
                            assert(ekeys(self.results@) =~= ekeys(before).push(p));
                        }
                    }
                }
                let ghost mid = self.results@;
                proof {
                    assert(mid.take(before.len() as int) =~= before);
                    assert forall|k: Seq<u8>| #[trigger] m.contains_key(k) && below_branch(k, p, 0) implies ekeys(mid).contains(k) by {
                        assert(k =~= p) by {
                            assert forall|j: int| 0 <= j < k.len() implies k[j] == p[j] by {
                                assert(k.subrange(0, p.len() as int)[j] == k[j]);
                            }
                        }
                        assert(ekeys(mid)[mid.len() - 1] == p);
                    }
                    assert forall|i: int| before.len() <= i < mid.len() implies m.contains_key(#[trigger] ekeys(mid)[i])
                        && m[ekeys(mid)[i]] == evals(mid)[i] && lex_le(p, ekeys(mid)[i]) && below_branch(ekeys(mid)[i], p, 0) by {
                        assert(ekeys(mid)[i] == p);
                        assert(p.subrange(0, p.len() as int) =~= p);
                        crate::keys::lemma_prefix_le(p, p);
                    }
                }
                let mut b: usize = 0;
                while b < 256
                    invariant
                        node_wf(*node),
                        *node is Internal,
                        children == node->children,
                        children@.len() == 256,
                        prefix@ == p,
                        t == self.target@,
                        max == self.max_distance as int,
                        n == t.len(),
                        t.len() < usize::MAX,
                        is_dist_row(prev_row@, p, t),
                        m == close_map(prefix_map(node_view(*node), p), t, max),
                        walk_pre(m, p, before),
                        b <= 256,
                        self.results@.len() >= before.len(),
                        self.results@.take(before.len() as int) == before,
                        strictly_sorted(ekeys(self.results@)),
                        forall|i: int|
                            before.len() <= i < self.results@.len() ==> m.contains_key(#[trigger] ekeys(self.results@)[i])
                                && m[ekeys(self.results@)[i]] == evals(self.results@)[i] && lex_le(p, ekeys(self.results@)[i])
                                && below_branch(ekeys(self.results@)[i], p, b as int),
                        forall|k: Seq<u8>|
                            #[trigger] m.contains_key(k) && below_branch(k, p, b as int) ==> ekeys(self.results@).contains(k),
                        forall|k: Seq<u8>| #[trigger] m.contains_key(k) ==> has_prefix(k, p),
                    decreases 256 - b,
                {
                    match &children[b] {
                        Some(child) => {
                            let ghost pb = p.push(b as u8);
                            let ghost mc = close_map(prefix_map(node_view(*child), pb), t, max);
                            let ghost o = self.results@;
                            let next = self.calculate_next_row(prev_row, b as u8);
                            proof {
                                lemma_next_row(prev_row@, next@, p, t, b as u8);
                                assert(decreases_to!(*node => children@));
                                assert forall|k: Seq<u8>| #[trigger] mc.contains_key(k) implies m.contains_key(k) && m[k] == mc[k]
                                    && has_prefix(k, pb) && k.len() > p.len() && k[p.len() as int] == b by {
                                    assert(has_prefix(k, pb));
                                    assert(k.subrange(0, pb.len() as int)[p.len() as int] == b as u8);
                                    assert(has_prefix(k, p)) by {
                                        assert(k.subrange(0, p.len() as int) =~= p) by {
                                            assert forall|j: int| 0 <= j < p.len() implies k.subrange(0, p.len() as int)[j] == p[j] by {
                                                assert(k.subrange(0, pb.len() as int)[j] == pb[j]);
                                            }
                                        }
                                    }
                                    lemma_internal_prefix_map(*node, p, k);
                                    assert(k != p);
                                }
                                // every key below byte `b` is a key of `mc`
                                assert forall|k: Seq<u8>| #[trigger] m.contains_key(k) && k.len() > p.len() && k[p.len() as int] == b
                                    implies mc.contains_key(k) && has_prefix(k, pb) by {
                                    lemma_internal_prefix_map(*node, p, k);
                                    assert(has_prefix(k, pb)) by {
                                        assert(k.subrange(0, pb.len() as int) =~= pb) by {
                                            assert forall|j: int| 0 <= j < pb.len() implies k.subrange(0, pb.len() as int)[j] == pb[j] by {
                                                if j < p.len() {
                                                    assert(k.subrange(0, p.len() as int)[j] == k[j]);
                                                }
                                            }
                                        }
                                    }
                                }
                            }
                            if row_min(next.as_slice()) <= self.max_distance {
                                proof {
                                    assert forall|i: int, k: Seq<u8>| 0 <= i < o.len() && #[trigger] mc.contains_key(k) && lex_le(pb, k) implies lex_lt(#[trigger] ekeys(o)[i], k) by {
                                        if i < before.len() {
                                            assert(ekeys(o)[i] == ekeys(before)[i]);
                                            assert(m.contains_key(k));
                                            lemma_prefix_le(k, p);
                                        } else {
                                            lemma_below_branch_lt(ekeys(o)[i], k, p, b as int);
                                        }
                                    }
                                }
                                prefix.push(b as u8);
                                self.recursive_search(child, next.as_slice(), prefix);
                                prefix.pop();
                                proof {
                                    assert(prefix@ =~= p);
                                    assert(self.results@.take(o.len() as int) == o);
                                    assert(self.results@.take(before.len() as int) =~= before) by {
                                        assert(self.results@.take(before.len() as int) =~= o.take(before.len() as int));
                                    }
                                    let out = self.results@;
                                    assert forall|i: int| before.len() <= i < out.len() implies m.contains_key(#[trigger] ekeys(out)[i])
                                        && m[ekeys(out)[i]] == evals(out)[i] && lex_le(p, ekeys(out)[i]) && below_branch(ekeys(out)[i], p, b as int + 1) by {
                                        if i < o.len() {
                                            assert(out[i] == out.take(o.len() as int)[i]);
                                            assert(ekeys(out)[i] == ekeys(o)[i]);
                                            assert(evals(out)[i] == evals(o)[i]);
                                        } else {
                                            assert(mc.contains_key(ekeys(out)[i]));
                                            lemma_prefix_le(ekeys(out)[i], p);
                                        }
                                    }
                                    assert forall|k: Seq<u8>| #[trigger] m.contains_key(k) && below_branch(k, p, b as int + 1) implies ekeys(out).contains(k) by {
                                        if below_branch(k, p, b as int) {
                                            let w = choose|w: int| 0 <= w < ekeys(o).len() && ekeys(o)[w] == k;
                                            assert(out[w] == out.take(o.len() as int)[w]);
                                            assert(ekeys(out)[w] == k);
                                        } else {
                                            assert(mc.contains_key(k));
                                            lemma_prefix_le(k, pb);
                                        }
                                    }
                                }
                            } else {
                                proof {
                                    assert(dead(pb, t, max)) by {
                                        assert forall|i: int| 0 <= i <= t.len() implies sat(lev(pb, #[trigger] t.take(i)) as int) > max by {
                                            assert(next@[i] == sat(lev(pb, t.take(i)) as int));
                                        }
                                    }
                                    assert forall|k: Seq<u8>| #[trigger] m.contains_key(k) && below_branch(k, p, b as int + 1) implies ekeys(self.results@).contains(k) by {
                                        if !below_branch(k, p, b as int) {
                                            assert(mc.contains_key(k));
                                            lemma_dead_prefix(pb, k, t, max);
                                        }
                                    }
                                    assert forall|i: int| before.len() <= i < self.results@.len() implies below_branch(#[trigger] ekeys(self.results@)[i], p, b as int + 1) by {
                                        assert(below_branch(ekeys(self.results@)[i], p, b as int));
                                    }
                                }
                            }
                        },
                        None => {
                            proof {
                                assert forall|k: Seq<u8>| #[trigger] m.contains_key(k) && below_branch(k, p, b as int + 1) implies below_branch(k, p, b as int) by {
                                    if k.len() > p.len() && k[p.len() as int] == b {
                                        lemma_internal_prefix_map(*node, p, k);
                                    }
                                }
                                assert forall|i: int| before.len() <= i < self.results@.len() implies below_branch(#[trigger] ekeys(self.results@)[i], p, b as int + 1) by {
                                    assert(below_branch(ekeys(self.results@)[i], p, b as int));
                                }
                            }
                        },
                    }
                    b = b + 1;
                }
                proof {
                    assert forall|k: Seq<u8>| #[trigger] m.contains_key(k) && lex_le(p, k) implies ekeys(self.results@).contains(k) by {
                        assert(below_branch(k, p, 256));
                    }
                }
            },
            Node::Radix { prefix: rp, child } => {
                let ghost q = p + rp@;
                proof {
                    lemma_radix_prefix_map(*node, p);
                    assert(m == close_map(prefix_map(node_view(**child), q), t, max));
                    assert forall|k: Seq<u8>| #[trigger] m.contains_key(k) implies has_prefix(k, q) by {}
                }
                let row = vstd::slice::slice_to_vec(prev_row);
                match self.advance(row, rp.as_slice(), Ghost(p)) {
                    Some(cur) => {
                        let mut i: usize = 0;
                        while i < rp.len()
                            invariant
                                i <= rp@.len(),
                                prefix@ == p + rp@.take(i as int),
                            decreases rp@.len() - i,
                        {
                            prefix.push(rp[i]);
                            i = i + 1;
                            assert(prefix@ =~= p + rp@.take(i as int));
                        }
                        proof {
                            assert(rp@.take(rp@.len() as int) =~= rp@);
                            assert forall|i: int, k: Seq<u8>| 0 <= i < self.results@.len() && #[trigger] m.contains_key(k) && lex_le(q, k) implies lex_lt(#[trigger] ekeys(self.results@)[i], k) by {
                                assert(has_prefix(k, p)) by {
                                    assert(k.subrange(0, p.len() as int) =~= p) by {
                                        assert forall|j: int| 0 <= j < p.len() implies k.subrange(0, p.len() as int)[j] == p[j] by {
                                            assert(k.subrange(0, q.len() as int)[j] == q[j]);
                                        }
                                    }
                                }
                                lemma_prefix_le(k, p);
                            }
                        }
                        self.recursive_search(child, cur.as_slice(), prefix);
                        let plen = prefix.len() - rp.len();
                        prefix.truncate(plen);
                        proof {
                            assert(prefix@ =~= p);
                            assert forall|k: Seq<u8>| #[trigger] m.contains_key(k) implies (lex_le(p, k) <==> lex_le(q, k)) by {
                                lemma_prefix_le(k, q);
                                assert(has_prefix(k, p)) by {
                                    assert(k.subrange(0, p.len() as int) =~= p) by {
                                        assert forall|j: int| 0 <= j < p.len() implies k.subrange(0, p.len() as int)[j] == p[j] by {
                                            assert(k.subrange(0, q.len() as int)[j] == q[j]);
                                        }
                                    }
                                }
                                lemma_prefix_le(k, p);
                            }
                            lemma_walk_lo_change(m, p, q, before, self.results@);
                        }
                    },
                    None => {
                        proof {
                            assert forall|k: Seq<u8>| #[trigger] m.contains_key(k) implies !lex_le(p, k) by {
                                lemma_dead_prefix(q, k, t, max);
                            }
                            lemma_walk_nothing(m, p, before);
                        }
                    },
                }
            },
            Node::Leaf(leaf) => {
                proof {
                    assert(node_view(*node) =~= leaf@);
                }
                self.search_leaf(leaf, prev_row, prefix);
            },
        }
    }
}

impl<'k, 'v, V> FuzzySearcher<'k, 'v, V> {
    /// Every entry of the trie `root` whose key is within the distance of
    /// the target, in ascending key order.
    pub fn search(self, root: &'v Node<V>) -> (r: Vec<(Vec<u8>, &'v V)>)
        requires
            root.wf(),
            self.target_view().len() < usize::MAX,
            self.found().len() == 0,
        ensures
            strictly_sorted(ekeys(r@)),
            pairs_map(ekeys(r@), evals(r@)) == close_map(
                node_view(*root),
                self.target_view(),
                self.max_view() as int,
            ),
    {
        let mut searcher = self;
        let ghost t = searcher.target@;
        let ghost max = searcher.max_distance as int;
        let ghost m = close_map(node_view(*root), t, max);
        // the row of the empty word: 0, 1, 2, ..., n
        let n = searcher.target.len();
        let mut row: Vec<usize> = Vec::new();
        let mut i: usize = 0;
        while i <= n
            invariant
                n == t.len(),
                n < usize::MAX,
                i <= n + 1,
                row@.len() == i,
                forall|j: int| 0 <= j < i ==> row@[j] == j,
            decreases n + 1 - i,
        {
            row.push(i);
            i = i + 1;
        }
        let mut prefix: Vec<u8> = Vec::new();
        proof {
            assert forall|j: int| 0 <= j <= t.len() implies row@[j] == sat(lev(prefix@, #[trigger] t.take(j)) as int) by {}
            assert(prefix@ =~= Seq::<u8>::empty());
            assert(close_map(prefix_map(node_view(*root), prefix@), t, max) == m) by {
                assert forall|k: Seq<u8>| #[trigger] prefix_map(node_view(*root), prefix@).contains_key(k)
                    == node_view(*root).contains_key(k) by {
                    assert(k.subrange(0, 0) =~= Seq::<u8>::empty());
                    assert(k.skip(0) =~= k);
                }
                assert forall|k: Seq<u8>| #[trigger] prefix_map(node_view(*root), prefix@).contains_key(k)
                    implies prefix_map(node_view(*root), prefix@)[k] == node_view(*root)[k] by {
                    assert(k.skip(0) =~= k);
                }
                assert(close_map(prefix_map(node_view(*root), prefix@), t, max) =~= m);
            }
            assert(ekeys(searcher.results@) =~= Seq::<Seq<u8>>::empty());
        }
        searcher.recursive_search(root, row.as_slice(), &mut prefix);
        let r = searcher.results;
        proof {
            assert forall|k: Seq<u8>| lex_le(prefix@, k) by {
                if k.len() > 0 {
                    lemma_lex_proper_prefix(prefix@, k);
                    assert(prefix@ + k =~= k);
                } else {
                    assert(k =~= prefix@);
                }
            }
            let ks = ekeys(r@);
            let vs = evals(r@);
            assert forall|k: Seq<u8>| #[trigger] pairs_map(ks, vs).contains_key(k) == m.contains_key(k) by {
                if ks.contains(k) {
                    let i = choose|i: int| 0 <= i < ks.len() && ks[i] == k;
                    assert(m.contains_key(ks[i]));
                }
            }
            assert forall|k: Seq<u8>| #[trigger] pairs_map(ks, vs).contains_key(k) implies pairs_map(ks, vs)[k] == m[k] by {
                let i = choose|i: int| 0 <= i < ks.len() && ks[i] == k;
                crate::entries::lemma_pairs_map_index(ks, vs, i);
            }
            assert(pairs_map(ks, vs) =~= m);
        }
        r
    }
}

} // verus!
