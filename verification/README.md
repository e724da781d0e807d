# hat_trie

An ordered map from byte-string keys to values, stored as a HAT-trie:
branching nodes with 256 children, radix nodes that collapse a shared
prefix, and leaves that are small hash tables of sorted buckets, which burst
into branching nodes once they outgrow a byte threshold (4096 bytes by
default). The library is written in Verus. Every function in `src/` is
verified against its contract, except the small trusted wrappers in
`src/leaf.rs` around `ahash` (creating a hasher state and hashing a key),
whose contracts are taken on trust and documented there.

Layout:

- `src/keys.rs`: byte-string order, common prefixes, key comparison.
- `src/entries.rs`: the map formed by a list of keys and a list of values.
- `src/bucket.rs`: the sorted, length-prefixed key buffer of a bucket.
- `src/leaf.rs`: the hash table of buckets (hashing by `ahash`).
- `src/node.rs`: the trie nodes: lookup, insertion with radix splits and
  bursts, removal, shape counts.
- `src/walk.rs`: what a subtree holds seen from its path, and sorted leaf
  entries.
- `src/pending.rs`: the lazy walk in key order: a stack of subtrees still to
  open and entries, the smallest key on top; seeking to a start key.
- `src/draining.rs`: the same walk over owned subtrees, taking a trie apart.
- `src/fuzzy.rs`: Levenshtein search, one row of the distance table carried
  down the trie, with branches dropped once they cannot come close enough.
- `src/lib.rs`: `HatTrie` and its walks, bounds, ranges and prefix queries.
- `src/laws.rs`: properties that relate several operations.
- `app/lib.rs`: serde support through a serialisable copy of a trie.
