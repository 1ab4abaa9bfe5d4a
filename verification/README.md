# neocache

A sharded hash map with S3-FIFO cache eviction, written in Verus.

New entries of a shard start in its small queue. An entry that was accessed
before the sweep reaches it moves on to the main queue; one that was not is
evicted, and its digest is remembered in the ghost set. A key whose digest is
remembered starts in the main queue. In the main queue an entry with a positive
frequency is given another round at the price of one access. So a sweep of the
main queue evicts, of its entries, the first one with the least frequency.

Removal is lazy: the record of a removed key stays in its queue until a sweep
meets it, and is then skipped. Each stay of a key in a shard has a stamp, which
its record carries, so a key that comes back is not taken for its earlier stay.

Every read counts as an access: a lookup, a test for a key, and each step of an
iterator over shared references. Writing iterators, `retain` and `alter_all`, and
a read-only view count none.

A lookup takes a key, or a slice that names it: a `str` for a `String` or a
`&'static str`, a `[u8]` for a `Vec<u8>`.

A cache with capacity `N` and `n` shards holds at most `ceil(N / n) * n` entries,
which is below `N + n`. A cache with capacity 0 never evicts.

## Layout

- `src/model.rs`: what a shard is and what each operation does to it.
- `src/state.rs`: what a cache is, and which shard a key is at home in.
- `src/laws.rs`: what holds across operations. `src/eviction.rs`: what holds of
  eviction. `src/alike.rs`, `src/calls.rs`: what holds of a cache and its clone, and
  of any sequence of calls.
- `src/shard.rs`, `src/table.rs`, `src/index.rs`: a shard, its entries, and the
  hash index that leads to them. The index is a `hashbrown` table behind trusted
  wrappers.
- `src/cache.rs`, `src/iter.rs`, `src/read_only.rs`, `src/ops.rs`, `src/mapref/`:
  the cache, its iterators, its read-only view, its operators, and the references
  and entry views that it hands out.
- `src/hashing.rs`, `src/keys.rs`, `src/sharding.rs`, `src/util.rs`: digests, keys,
  the number and the size of shards, and small helpers.
- `app/`: the concurrent cache, with one lock for each shard, and support for
  `serde` and `rayon`.
- `tests/`: tests of the library.

The operations of the library take the cache by exclusive reference, so what they
return and leave behind is stated exactly. The number of hardware threads, from
which the default number of shards is computed, and the outcome of a lock that
was asked for without waiting are arguments. An iterator over shared references
is a position that is given the cache at each step.
