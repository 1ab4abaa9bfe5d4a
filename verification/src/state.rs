//! The mathematical model of a cache: its shards, and which shard a key is at
//! home in.
use crate::hashing::KeyHasher;
use crate::index::MAX_ENTRIES;
use crate::model::{
    lemma_insert_new, lemma_lists_add, lemma_make_room_records, lemma_remove_inv, lemma_with_entry_inv, lists,
    EntryState, ShardState,
};
use crate::sharding::{
    capped_sum, lemma_route, route, shard_cap_for, shards_for, shift_fits, sum_of,
};
use crate::util::{bumped, MAX_FREQ};
use vstd::prelude::*;

verus! {

/// A cache.
#[verifier::ext_equal]
pub struct CacheState<K: View, V, S> {
    pub shards: Seq<ShardState<K, V>>,
    pub shift: usize,
    pub hasher: S,
    pub capacity: nat,
}

/// The number of entries in all shards.
pub open spec fn total<K: View, V>(shards: Seq<ShardState<K, V>>) -> nat
    decreases shards.len(),
{
    if shards.len() == 0 {
        0
    } else {
        total(shards.drop_last()) + shards.last().entries.len()
    }
}

/// Changing one shard changes the number of entries by what that shard gains.
pub proof fn lemma_total_update<K: View, V>(
    shards: Seq<ShardState<K, V>>,
    i: int,
    shard: ShardState<K, V>,
)
    requires
        0 <= i < shards.len(),
    ensures
        total(shards.update(i, shard)) == total(shards) - shards[i].entries.len()
            + shard.entries.len(),
        shards[i].entries.len() <= total(shards),
    decreases shards.len(),
{
    let after = shards.update(i, shard);
    if i == shards.len() - 1 {
        assert(after.drop_last() =~= shards.drop_last());
    } else {
        lemma_total_update(shards.drop_last(), i, shard);
        assert(after.drop_last() =~= shards.drop_last().update(i, shard));
    }
}

/// Shards that have no more entries each have no more entries in all.
pub proof fn lemma_total_le<K: View, V>(
    shards: Seq<ShardState<K, V>>,
    before: Seq<ShardState<K, V>>,
)
    requires
        shards.len() == before.len(),
        forall|i: int|
            0 <= i < before.len() ==> (#[trigger] shards[i]).entries.len()
                <= before[i].entries.len(),
    ensures
        total(shards) <= total(before),
    decreases shards.len(),
{
    if shards.len() > 0 {
        lemma_total_le(shards.drop_last(), before.drop_last());
    }
}

/// The first shards have no more entries than all.
pub proof fn lemma_total_take<K: View, V>(shards: Seq<ShardState<K, V>>, n: int)
    requires
        0 <= n <= shards.len(),
    ensures
        total(shards.take(n)) <= total(shards),
    decreases shards.len(),
{
    if n < shards.len() {
        lemma_total_take(shards.drop_last(), n);
        assert(shards.drop_last().take(n) =~= shards.take(n));
    } else {
        assert(shards.take(n) =~= shards);
    }
}

/// Capacities that suffice for each shard suffice for all.
pub proof fn lemma_total_caps<K: View, V>(shards: Seq<ShardState<K, V>>, caps: Seq<usize>)
    requires
        caps.len() == shards.len(),
        forall|i: int|
            0 <= i < caps.len() ==> (#[trigger] caps[i]) >= shards[i].entries.len(),
    ensures
        total(shards) <= sum_of(caps),
    decreases shards.len(),
{
    if shards.len() > 0 {
        lemma_total_caps(shards.drop_last(), caps.drop_last());
        assert(caps[caps.len() - 1] >= shards.last().entries.len());
    }
}

/// Shards without entries have no entries in all.
pub proof fn lemma_total_zero<K: View, V>(shards: Seq<ShardState<K, V>>)
    requires
        forall|i: int| 0 <= i < shards.len() ==> (#[trigger] shards[i]).entries.len() == 0,
    ensures
        total(shards) == 0,
    decreases shards.len(),
{
    if shards.len() > 0 {
        lemma_total_zero(shards.drop_last());
    }
}

/// A queue record is in its place: it carries its key's digest, and that leads to
/// the shard that holds the record.
pub open spec fn in_place<K: View, S: KeyHasher<K>>(
    hasher: S,
    shift: usize,
    i: int,
) -> spec_fn((u64, K::V, nat)) -> bool {
    |record: (u64, K::V, nat)|
        record.0 == hasher.digest(record.1) && route(record.0 as usize, shift) == i
}

impl<K: View, V, S: KeyHasher<K>> CacheState<K, V, S> {
    /// The digest of a key.
    pub open spec fn digest(self, key: K::V) -> u64 {
        self.hasher.digest(key)
    }

    /// The shard in which a key is at home.
    pub open spec fn home(self, key: K::V) -> int {
        route(self.digest(key) as usize, self.shift) as int
    }

    /// What the key's home shard holds.
    pub open spec fn at_home(self, key: K::V) -> ShardState<K, V> {
        self.shards[self.home(key)]
    }

    /// The key is stored.
    pub open spec fn contains(self, key: K::V) -> bool {
        self.at_home(key).entries.contains_key(key)
    }

    /// The entry of a stored key.
    pub open spec fn entry(self, key: K::V) -> EntryState<K, V> {
        self.at_home(key).entries[key]
    }

    /// What is stored under `key`.
    pub open spec fn lookup(self, key: K::V) -> Option<EntryState<K, V>> {
        self.at_home(key).lookup(key)
    }

    /// Nothing but the entries differs from `before`.
    pub open spec fn same_but_entries(self, before: Self) -> bool {
        &&& self.shift == before.shift
        &&& self.hasher == before.hasher
        &&& self.capacity == before.capacity
        &&& self.shards.len() == before.shards.len()
        &&& forall|i: int|
            0 <= i < before.shards.len() ==> (#[trigger] self.shards[i])
                == before.shards[i].with_entries(self.shards[i].entries)
    }

    /// The cache without entries and without eviction state.
    pub open spec fn cleared(self) -> Self {
        CacheState {
            shards: Seq::new(
                self.shards.len(),
                |i: int| ShardState::<K, V>::empty(self.shards[i].cap),
            ),
            ..self
        }
    }

    /// The entries, by their keys.
    pub open spec fn entries(self) -> Map<K::V, EntryState<K, V>> {
        Map::new(|key: K::V| self.contains(key), |key: K::V| self.entry(key))
    }

    /// The stored keys and their values.
    pub open spec fn contents(self) -> Map<K::V, V> {
        Map::new(|key: K::V| self.contains(key), |key: K::V| self.entry(key).value)
    }

    /// The number of entries.
    pub open spec fn len(self) -> nat {
        total(self.shards)
    }

    /// `capacity` is the sum, capped at the largest machine number, of shard
    /// capacities that each suffice for the shard's entries.
    pub open spec fn has_room_in(self, capacity: usize) -> bool {
        exists|caps: Seq<usize>|
            {
                &&& caps.len() == self.shards.len()
                &&& forall|i: int|
                    0 <= i < caps.len() ==> (#[trigger] caps[i]) >= self.shards[i].entries.len()
                &&& capacity == #[trigger] capped_sum(caps)
            }
    }

    /// The cache with another state of one shard.
    pub open spec fn with_shard(self, i: int, shard: ShardState<K, V>) -> Self {
        CacheState { shards: self.shards.update(i, shard), ..self }
    }

    /// The cache with another state of the key's home shard.
    pub open spec fn with_home(self, key: K::V, shard: ShardState<K, V>) -> Self {
        self.with_shard(self.home(key), shard)
    }

    /// A cache without entries, with the number of shards that this capacity
    /// and this requested number of shards call for.
    pub open spec fn is_fresh(self, capacity: nat, shard_amount: int) -> bool {
        &&& self.capacity == capacity
        &&& self.shards.len() == shards_for(capacity as int, shard_amount)
        &&& forall|i: int|
            0 <= i < self.shards.len() ==> #[trigger] self.shards[i] == ShardState::<K, V>::empty(
                self.shard_cap(),
            )
    }

    /// The cache after `value` is stored under `key`.
    pub open spec fn insert(self, key: K, value: V) -> Self {
        self.with_home(key@, self.at_home(key@).insert(self.digest(key@), key, value))
    }

    /// The cache after the entry under `key` is removed.
    pub open spec fn remove(self, key: K::V) -> Self {
        self.with_home(key, self.at_home(key).remove(key))
    }

    /// The cache after an access to `key`.
    pub open spec fn bump(self, key: K::V) -> Self {
        self.with_home(key, self.at_home(key).bump(key))
    }

    /// The cache with another value under a stored key.
    pub open spec fn with_value(self, key: K::V, value: V) -> Self {
        self.with_home(key, self.at_home(key).with_value(key, value))
    }

    /// The capacity of each shard.
    pub open spec fn shard_cap(self) -> nat {
        shard_cap_for(self.capacity as int, self.shards.len() as int) as nat
    }

    /// `shard` may stand in place `i`.
    pub open spec fn fits(self, i: int, shard: ShardState<K, V>) -> bool {
        &&& shard.inv()
        &&& shard.cap == self.shard_cap()
        &&& shard.all_records(in_place::<K, S>(self.hasher, self.shift, i))
    }

    /// `shard` may take the place of the key's home shard.
    pub open spec fn accepts(self, key: K::V, shard: ShardState<K, V>) -> bool {
        &&& self.fits(self.home(key), shard)
        &&& self.len() - self.at_home(key).entries.len() + shard.entries.len() <= MAX_ENTRIES
    }

    /// The cache's invariant.
    pub open spec fn inv(self) -> bool {
        &&& shift_fits(self.shift, self.shards.len() as int)
        &&& forall|i: int| 0 <= i < self.shards.len() ==> self.fits(i, #[trigger] self.shards[i])
        &&& total(self.shards) <= MAX_ENTRIES
    }

    /// A key's home is one of the shards, and that shard knows the key under its
    /// digest alone.
    pub proof fn lemma_home(self, key: K::V)
        requires
            self.inv(),
        ensures
            0 <= self.home(key) < self.shards.len(),
            self.fits(self.home(key), self.at_home(key)),
            self.at_home(key).knows_as(key, self.digest(key)),
    {
        lemma_route(self.digest(key) as usize, self.shift, self.shards.len() as int);
        let s = self.at_home(key);
        assert(self.fits(self.home(key), s));
        if s.entries.contains_key(key) {
            assert(s.entry_ok(key));
            let entry = s.entries[key];
            let queue = s.queue(entry.loc);
            let i = choose|i: int| 0 <= i < queue.len() && queue[i] == (entry.hash, key, entry.stamp);
            assert(in_place::<K, S>(self.hasher, self.shift, self.home(key))(queue[i]));
        }
    }

    /// Every entry is at home, under its digest.
    pub proof fn lemma_entry_home(self, i: int, key: K::V)
        requires
            self.inv(),
            0 <= i < self.shards.len(),
            self.shards[i].entries.contains_key(key),
        ensures
            self.home(key) == i,
            self.shards[i].entries[key].hash == self.digest(key),
    {
        let s = self.shards[i];
        assert(self.fits(i, s));
        assert(s.entry_ok(key));
        let entry = s.entries[key];
        let queue = s.queue(entry.loc);
        let j = choose|j: int| 0 <= j < queue.len() && queue[j] == (entry.hash, key, entry.stamp);
        assert(in_place::<K, S>(self.hasher, self.shift, i)(queue[j]));
    }

    /// Putting a fitting state in a shard's place keeps the invariant, as long
    /// as the entries are not too many.
    pub proof fn lemma_with_shard(self, i: int, shard: ShardState<K, V>)
        requires
            self.inv(),
            0 <= i < self.shards.len(),
            self.fits(i, shard),
            total(self.shards) - self.shards[i].entries.len() + shard.entries.len() <= MAX_ENTRIES,
        ensures
            self.with_shard(i, shard).inv(),
            self.with_shard(i, shard).shards[i] == shard,
            self.with_shard(i, shard).len() == self.len() - self.shards[i].entries.len()
                + shard.entries.len(),
    {
        let after = self.with_shard(i, shard);
        lemma_total_update(self.shards, i, shard);
        assert forall|j: int| 0 <= j < after.shards.len() implies after.fits(
            j,
            #[trigger] after.shards[j],
        ) by {
            assert(self.fits(j, self.shards[j]));
        }
    }

    /// A shard without a key still fits.
    pub proof fn lemma_remove_fits(self, i: int, shard: ShardState<K, V>, key: K::V)
        requires
            self.fits(i, shard),
        ensures
            self.fits(i, shard.remove(key)),
            shard.remove(key).entries.len() <= shard.entries.len(),
    {
        lemma_remove_inv(shard, key);
    }

    /// A shard whose entry has another key of the same view, another value or
    /// another frequency still fits.
    pub proof fn lemma_with_entry_fits(
        self,
        i: int,
        shard: ShardState<K, V>,
        key: K::V,
        entry: EntryState<K, V>,
    )
        requires
            self.fits(i, shard),
            shard.entries.contains_key(key),
            entry.key@ == key,
            entry.hash == shard.entries[key].hash,
            entry.loc == shard.entries[key].loc,
            entry.stamp == shard.entries[key].stamp,
            entry.freq <= MAX_FREQ,
        ensures
            self.fits(i, shard.with_entry(key, entry)),
            shard.with_entry(key, entry).entries.len() == shard.entries.len(),
    {
        lemma_with_entry_inv(shard, key, entry);
    }

    /// A shard with another value under a stored key still fits.
    pub proof fn lemma_with_value_fits(self, i: int, shard: ShardState<K, V>, key: K::V, value: V)
        requires
            self.fits(i, shard),
            shard.entries.contains_key(key),
        ensures
            self.fits(i, shard.with_value(key, value)),
            shard.with_value(key, value).entries.len() == shard.entries.len(),
    {
        assert(shard.entry_ok(key));
        self.lemma_with_entry_fits(
            i,
            shard,
            key,
            EntryState { value, ..shard.entries[key] },
        );
    }

    /// A shard that counted an access still fits.
    pub proof fn lemma_bump_fits(self, i: int, shard: ShardState<K, V>, key: K::V)
        requires
            self.fits(i, shard),
        ensures
            self.fits(i, shard.bump(key)),
            shard.bump(key).entries.len() == shard.entries.len(),
    {
        if shard.entries.contains_key(key) {
            let entry = shard.entries[key];
            assert(shard.entry_ok(key));
            self.lemma_with_entry_fits(
                i,
                shard,
                key,
                EntryState { freq: bumped(entry.freq), ..entry },
            );
        }
    }

    /// A home shard that counted an access to a stored key and then got another
    /// value under it still fits.
    pub proof fn lemma_bump_value_fits(self, key: K::V)
        requires
            self.inv(),
        ensures
            self.with_home(key, self.at_home(key)) == self,
            self.contains(key) ==> forall|value: V|
                {
                    let after = #[trigger] self.at_home(key).bump(key).with_value(key, value);
                    &&& self.fits(self.home(key), after)
                    &&& after.entries.len() == self.at_home(key).entries.len()
                    &&& self.bump(key).with_value(key, value) == self.with_home(key, after)
                },
    {
        self.lemma_home(key);
        let s = self.at_home(key);
        let i = self.home(key);
        assert(self.shards.update(i, s) =~= self.shards);
        self.lemma_bump_fits(i, s, key);
        if self.contains(key) {
            assert forall|value: V|
                {
                    let after = #[trigger] s.bump(key).with_value(key, value);
                    &&& self.fits(i, after)
                    &&& after.entries.len() == s.entries.len()
                    &&& self.bump(key).with_value(key, value) == self.with_home(key, after)
                } by {
                self.lemma_with_value_fits(i, s.bump(key), key, value);
                assert(self.bump(key).with_value(key, value) =~= self.with_home(
                    key,
                    s.bump(key).with_value(key, value),
                ));
            }
        }
    }

    /// A home shard that took in a new key still fits, and has at most one entry
    /// more.
    pub proof fn lemma_insert_new_fits(
        self,
        i: int,
        shard: ShardState<K, V>,
        key: K,
        value: V,
    )
        requires
            self.fits(i, shard),
            self.home(key@) == i,
            !shard.entries.contains_key(key@),
        ensures
            shard.knows_as(key@, self.digest(key@)),
            self.fits(i, shard.insert_new(self.digest(key@), key, value)),
            shard.insert_new(self.digest(key@), key, value).entries.len() <= shard.entries.len() + 1,
    {
        let hash = self.digest(key@);
        let p = in_place::<K, S>(self.hasher, self.shift, i);
        assert(shard.knows_as(key@, hash)) by {
            assert forall|j: int| 0 <= j < shard.small.len() && (#[trigger] shard.small[j]).1
                == key@ implies shard.small[j].0 == hash by {
                assert(p(shard.small[j]));
            }
            assert forall|j: int| 0 <= j < shard.main.len() && (#[trigger] shard.main[j]).1
                == key@ implies shard.main[j].0 == hash by {
                assert(p(shard.main[j]));
            }
        }
        lemma_insert_new(shard, hash, key, value);
        let room = shard.forget_ghost(hash).make_room();
        let t = shard.insert_new(hash, key, value);
        lemma_make_room_records(shard.forget_ghost(hash), p);
        assert(p((hash, key@, shard.clock)));
        room.lemma_kept_len(shard);
        assert forall|j: int| 0 <= j < t.small.len() implies p(#[trigger] t.small[j]) by {
            if j < room.small.len() {
                assert(p(room.small[j]));
            }
        }
        assert forall|j: int| 0 <= j < t.main.len() implies p(#[trigger] t.main[j]) by {
            if j < room.main.len() {
                assert(p(room.main[j]));
            }
        }
    }

    /// Inserting a key adds at most one entry.
    pub proof fn lemma_insert_len(self, key: K, value: V)
        requires
            self.inv(),
        ensures
            self.insert(key, value).len() <= self.len() + 1,
            self.contains(key@) ==> self.insert(key, value).len() == self.len(),
    {
        let i = self.home(key@);
        let s = self.at_home(key@);
        self.lemma_home(key@);
        self.lemma_insert_fits(i, s, key, value);
        lemma_total_update(self.shards, i, s.insert(self.digest(key@), key, value));
    }

    /// A home shard that took in a key still fits.
    pub proof fn lemma_insert_fits(self, i: int, shard: ShardState<K, V>, key: K, value: V)
        requires
            self.fits(i, shard),
            self.home(key@) == i,
        ensures
            self.fits(i, shard.insert(self.digest(key@), key, value)),
            shard.entries.contains_key(key@) ==> shard.insert(
                self.digest(key@),
                key,
                value,
            ).entries.len() == shard.entries.len(),
            shard.insert(self.digest(key@), key, value).entries.len() <= shard.entries.len() + 1,
    {
        if shard.entries.contains_key(key@) {
            self.lemma_with_value_fits(i, shard, key@, value);
        } else {
            self.lemma_insert_new_fits(i, shard, key, value);
        }
    }
}

impl<K: View, V, S: KeyHasher<K>> CacheState<K, V, S> {
    /// The cache after every pair is inserted, in order.
    pub open spec fn insert_all(self, pairs: Seq<(K, V)>) -> Self
        decreases pairs.len(),
    {
        if pairs.len() == 0 {
            self
        } else {
            let last = pairs.last();
            self.insert_all(pairs.drop_last()).insert(last.0, last.1)
        }
    }
}

impl<K: View, V, S: KeyHasher<K>> CacheState<K, V, S> {
    /// The entries of the first `n` shards.
    spec fn entries_below(self, n: int) -> Map<K::V, EntryState<K, V>> {
        Map::new(
            |key: K::V| self.contains(key) && self.home(key) < n,
            |key: K::V| self.entry(key),
        )
    }

    /// Lists of the first shards' entries make up a list.
    proof fn lemma_lists_below(self, rows: Seq<Seq<(K, V)>>, n: int)
        requires
            self.inv(),
            0 <= n <= rows.len(),
            rows.len() == self.shards.len(),
            forall|i: int|
                0 <= i < rows.len() ==> lists(#[trigger] rows[i], self.shards[i].entries)
                    && rows[i].len() == self.shards[i].entries.len(),
        ensures
            lists(rows.take(n).flatten_alt(), self.entries_below(n)),
            rows.take(n).flatten_alt().len() == total(self.shards.take(n)),
        decreases n,
    {
        if n == 0 {
            assert(rows.take(0) =~= Seq::empty());
            assert(self.shards.take(0) =~= Seq::empty());
            assert forall|key: K::V| !#[trigger] self.entries_below(0).contains_key(key) by {
                self.lemma_home(key);
            }
        } else {
            self.lemma_lists_below(rows, n - 1);
            let row = rows[n - 1];
            let shard = self.shards[n - 1];
            assert(rows.take(n).drop_last() =~= rows.take(n - 1));
            assert(self.shards.take(n).drop_last() =~= self.shards.take(n - 1));
            assert(rows.take(n).last() == row);
            assert forall|key: K::V| #[trigger] shard.entries.contains_key(key) implies self.home(key)
                == n - 1 && self.contains(key) && self.entry(key) == shard.entries[key] by {
                self.lemma_entry_home(n - 1, key);
            }
            lemma_lists_add(
                rows.take(n - 1).flatten_alt(),
                self.entries_below(n - 1),
                row,
                shard.entries,
                self.entries_below(n),
            );
        }
    }

    /// Lists of each shard's entries make up a list of the cache's entries.
    pub proof fn lemma_lists(self, rows: Seq<Seq<(K, V)>>)
        requires
            self.inv(),
            rows.len() == self.shards.len(),
            forall|i: int|
                0 <= i < rows.len() ==> lists(#[trigger] rows[i], self.shards[i].entries)
                    && rows[i].len() == self.shards[i].entries.len(),
        ensures
            lists(rows.flatten(), self.entries()),
            rows.flatten().len() == self.len(),
    {
        let n = rows.len() as int;
        self.lemma_lists_below(rows, n);
        assert(rows.take(n) =~= rows);
        assert(self.shards.take(n) =~= self.shards);
        rows.lemma_flatten_and_flatten_alt_are_equivalent();
        assert forall|key: K::V| #[trigger] self.contains(key) implies self.home(key) < n by {
            self.lemma_home(key);
        }
        assert(self.entries_below(n) =~= self.entries());
    }
}

impl<K: View, V: Clone, S: KeyHasher<K>> CacheState<K, V, S> {
    /// `copy` is a clone of this cache: it has clones of the shards, the same
    /// capacity, and a hasher with the same digests.
    pub open spec fn copied_to(self, copy: Self) -> bool {
        &&& copy.shift == self.shift
        &&& copy.capacity == self.capacity
        &&& copy.shards.len() == self.shards.len()
        &&& forall|i: int|
            0 <= i < self.shards.len() ==> (#[trigger] self.shards[i]).copied_to(copy.shards[i])
        &&& forall|key: K::V| #[trigger] copy.digest(key) == self.digest(key)
    }

    /// A clone of a sound cache is sound.
    pub proof fn lemma_copied(self, copy: Self)
        requires
            self.inv(),
            self.copied_to(copy),
            forall|i: int| 0 <= i < copy.shards.len() ==> (#[trigger] copy.shards[i]).inv(),
        ensures
            copy.inv(),
            copy.len() == self.len(),
    {
        assert forall|i: int| 0 <= i < copy.shards.len() implies copy.fits(
            i,
            #[trigger] copy.shards[i],
        ) by {
            let s = self.shards[i];
            let t = copy.shards[i];
            assert(s.copied_to(t));
            assert(self.fits(i, s));
            let p = in_place::<K, S>(self.hasher, self.shift, i);
            let q = in_place::<K, S>(copy.hasher, copy.shift, i);
            assert forall|j: int| 0 <= j < t.small.len() implies q(#[trigger] t.small[j]) by {
                assert(p(s.small[j]));
                assert(copy.digest(t.small[j].1) == self.digest(t.small[j].1));
            }
            assert forall|j: int| 0 <= j < t.main.len() implies q(#[trigger] t.main[j]) by {
                assert(p(s.main[j]));
                assert(copy.digest(t.main[j].1) == self.digest(t.main[j].1));
            }
        }
        assert forall|i: int| 0 <= i < copy.shards.len() implies (#[trigger] copy.shards[i]).entries.len()
            == self.shards[i].entries.len() by {
            assert(self.shards[i].copied_to(copy.shards[i]));
        }
        lemma_total_le(copy.shards, self.shards);
        lemma_total_le(self.shards, copy.shards);
    }
}

} // verus!
