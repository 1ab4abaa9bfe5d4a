//! The cache: shards, and the operations that find a key's shard and act on it.
use crate::hashing::{new_random_state, KeyHasher, LookupHasher};
use crate::index::MAX_ENTRIES;
use crate::keys::{CacheKey, Lookup};
use crate::laws::{
    law_cleared, law_fresh, law_insert_found, law_last_pair_found, law_removed,
    law_unbounded_insert_all, put_all,
};
use crate::mapref::entry::Entry;
use crate::mapref::one::{Ref, RefMut};
use crate::model::{EntryState, ShardState};
use crate::shard::ShardData;
use crate::sharding::{
    default_shard_amount, effective_shard_amount, lemma_route, next_pow2, per_shard_capacity, route,
    shard_index, shift_for, total_capacity,
};
use crate::state::{
    lemma_total_caps, lemma_total_le, lemma_total_take, lemma_total_update, lemma_total_zero, total,
    CacheState,
};
use crate::try_result::TryResult;
use crate::TryReserveError;
use ahash::RandomState;
use vstd::arithmetic::power2::is_pow2;
use vstd::prelude::*;

verus! {

/// A hash map with S3-FIFO cache eviction.
///
/// Each shard holds its own entries and its own eviction queues. With a capacity
/// of 0 eviction is disabled and the map grows without bound.
pub struct NeoCache<K, V, S = RandomState> {
    pub(crate) shift: usize,
    pub(crate) shards: Vec<ShardData<K, V>>,
    pub(crate) hasher: S,
    pub(crate) cache_capacity: usize,
}

impl<K: CacheKey, V, S: KeyHasher<K>> NeoCache<K, V, S> {
    /// What the cache holds.
    pub closed spec fn state(&self) -> CacheState<K, V, S> {
        CacheState {
            shards: Seq::new(self.shards@.len(), |i: int| self.shards@[i]@),
            shift: self.shift,
            hasher: self.hasher,
            capacity: self.cache_capacity as nat,
        }
    }

    /// The shards are sound.
    pub closed spec fn shards_wf(&self) -> bool {
        forall|i: int| 0 <= i < self.shards@.len() ==> (#[trigger] self.shards@[i]).wf()
    }

    /// The cache's invariant.
    pub open spec fn wf(&self) -> bool {
        &&& self.shards_wf()
        &&& self.state().inv()
    }

    /// The state is that of the shards, and each of them is sound.
    pub(crate) proof fn lemma_shards(&self)
        requires
            self.wf(),
        ensures
            self.state().inv(),
            self.state().shards.len() == self.shards@.len(),
            forall|i: int|
                0 <= i < self.shards@.len() ==> (#[trigger] self.shards@[i]).wf()
                    && self.state().shards[i] == self.shards@[i]@,
    {
    }

    /// Putting a fitting shard in a shard's place keeps the invariant.
    proof fn lemma_shard_changed(&self, before: &Self, i: int)
        requires
            before.wf(),
            0 <= i < before.shards@.len(),
            self.shift == before.shift,
            self.hasher == before.hasher,
            self.cache_capacity == before.cache_capacity,
            self.shards@ == before.shards@.update(i, self.shards@[i]),
            self.shards@[i].wf(),
            before.state().fits(i, self.shards@[i]@),
            total(before.state().shards) - before.state().shards[i].entries.len()
                + self.shards@[i]@.entries.len() <= MAX_ENTRIES,
        ensures
            self.wf(),
            self.state() == before.state().with_shard(i, self.shards@[i]@),
    {
        assert(self.state() =~= before.state().with_shard(i, self.shards@[i]@)) by {
            assert(self.state().shards =~= before.state().shards.update(i, self.shards@[i]@));
        }
        before.state().lemma_with_shard(i, self.shards@[i]@);
        assert forall|j: int| 0 <= j < self.shards@.len() implies (#[trigger] self.shards@[j]).wf() by {
            if j != i {
                assert(self.shards@[j] == before.shards@[j]);
            }
        }
    }

    /// Makes a cache.
    ///
    /// `cache_capacity` is the total eviction capacity (0 = disabled).
    /// `shard_amount` must be a power of two and at least 2.
    pub fn with_capacity_and_hasher_and_shard_amount(
        cache_capacity: usize,
        hasher: S,
        shard_amount: usize,
    ) -> (cache: Self)
        requires
            shard_amount > 1,
            is_pow2(shard_amount as int),
        ensures
            cache.wf(),
            cache.state().is_fresh(cache_capacity as nat, shard_amount as int),
            cache.state().hasher == hasher,
    {
        let amount = effective_shard_amount(cache_capacity, shard_amount);
        let shift = shift_for(amount);
        let shard_cap = per_shard_capacity(cache_capacity, amount);
        let mut shards: Vec<ShardData<K, V>> = Vec::new();
        while shards.len() < amount
            invariant
                shards@.len() <= amount,
                forall|i: int|
                    0 <= i < shards@.len() ==> (#[trigger] shards@[i]).wf() && shards@[i]@
                        == ShardState::<K, V>::empty(shard_cap as nat),
            decreases amount - shards@.len(),
        {
            shards.push(ShardData::new(shard_cap));
        }
        let cache = NeoCache { shift, shards, hasher, cache_capacity };
        proof {
            assert forall|i: int| 0 <= i < cache.state().shards.len() implies cache.state().fits(
                i,
                #[trigger] cache.state().shards[i],
            ) && cache.state().shards[i].entries.len() == 0 by {
                assert(cache.shards@[i].wf());
                cache.shards@[i].lemma_inv();
            }
            lemma_total_zero(cache.state().shards);
        }
        cache
    }

    /// Hashes `item` to a `usize` using the map's hasher.
    pub fn hash_usize<Q: Lookup<K> + ?Sized>(&self, item: &Q) -> (hash: usize) where
        S: LookupHasher<K, Q>,

        ensures
            hash == self.state().digest(item@) as usize,
    {
        self.hash_u64(item) as usize
    }

    /// Hashes `item` with the map's hasher.
    pub fn hash_u64<Q: Lookup<K> + ?Sized>(&self, item: &Q) -> (hash: u64) where
        S: LookupHasher<K, Q>,

        ensures
            hash == self.state().digest(item@),
    {
        self.hasher.hash_name(item)
    }

    /// The shard that a digest leads to. The high 7 bits are left to the
    /// shard's own index.
    pub fn determine_shard(&self, hash: usize) -> (idx: usize)
        requires
            self.wf(),
        ensures
            idx == route(hash, self.state().shift),
            idx < self.state().shards.len(),
    {
        proof {
            lemma_route(hash, self.shift, self.shards@.len() as int);
        }
        shard_index(hash, self.shift)
    }

    /// Takes the map apart: its shards, its hasher, its shift and its capacity.
    pub fn into_parts(self) -> (parts: (Vec<ShardData<K, V>>, S, usize, usize))
        requires
            self.wf(),
        ensures
            parts.0@.len() == self.state().shards.len(),
            forall|i: int|
                0 <= i < parts.0@.len() ==> (#[trigger] parts.0@[i]).wf() && parts.0@[i]@
                    == self.state().shards[i],
            parts.1 == self.state().hasher,
            parts.2 == self.state().shift,
            parts.3 == self.state().capacity,
    {
        (self.shards, self.hasher, self.shift, self.cache_capacity)
    }

    /// Puts a map together from parts that belong together.
    pub fn from_parts(
        shards: Vec<ShardData<K, V>>,
        hasher: S,
        shift: usize,
        cache_capacity: usize,
    ) -> (cache: Self)
        requires
            forall|i: int| 0 <= i < shards@.len() ==> (#[trigger] shards@[i]).wf(),
            (CacheState {
                shards: Seq::new(shards@.len(), |i: int| shards@[i]@),
                shift,
                hasher,
                capacity: cache_capacity as nat,
            }).inv(),
        ensures
            cache.wf(),
            cache.state().shards.len() == shards@.len(),
            forall|i: int| 0 <= i < shards@.len() ==> #[trigger] cache.state().shards[i] == shards@[i]@,
            cache.state().hasher == hasher,
            cache.state().shift == shift,
            cache.state().capacity == cache_capacity,
    {
        NeoCache { shift, shards, hasher, cache_capacity }
    }

    /// Returns the number of shards.
    pub fn _shard_count(&self) -> (count: usize)
        ensures
            count == self.state().shards.len(),
    {
        self.shards.len()
    }

    /// Returns a hasher that gives the same digests.
    pub fn _hasher(&self) -> (hasher: S)
        ensures
            forall|key: K::V| #[trigger] hasher.digest(key) == self.state().digest(key),
    {
        let hasher = self.hasher.duplicate();
        assert forall|key: K::V| #[trigger] hasher.digest(key) == self.state().digest(key) by {
            assert(hasher.digest(key) == self.hasher.digest(key));
        }
        hasher
    }

    /// Returns a reference to the hasher.
    pub fn hasher(&self) -> (hasher: &S)
        ensures
            *hasher == self.state().hasher,
    {
        &self.hasher
    }

    /// Inserts a key-value pair. Returns the previous value if the key existed.
    ///
    /// S3-FIFO eviction may remove another entry to make room.
    pub fn insert(&mut self, key: K, value: V) -> (old_value: Option<V>)
        requires
            old(self).wf(),
            old(self).state().contains(key@) || old(self).state().len() < MAX_ENTRIES,
        ensures
            final(self).wf(),
            final(self).state() == old(self).state().insert(key, value),
            final(self).state().contents().contains_key(key@),
            final(self).state().contents()[key@] == value,
            old_value == (if old(self).state().contains(key@) {
                Some(old(self).state().entry(key@).value)
            } else {
                None
            }),
    {
        let hash = self.hash_u64(&key);
        let idx = self.determine_shard(hash as usize);
        proof {
            let c = self.state();
            c.lemma_home(key@);
            law_insert_found(c, key, value);
            c.lemma_insert_fits(idx as int, c.at_home(key@), key, value);
            lemma_total_update(c.shards, idx as int, c.at_home(key@));
        }
        let old_value = self.shards[idx].insert(hash, key, value);
        proof {
            self.lemma_shard_changed(old(self), idx as int);
        }
        old_value
    }

    /// Removes an entry and returns its `(key, value)` pair, or `None`.
    pub fn remove<Q: Lookup<K> + ?Sized>(&mut self, key: &Q) -> (removed: Option<(K, V)>) where
        S: LookupHasher<K, Q>,

        requires
            old(self).wf(),
        ensures
            final(self).wf(),
            final(self).state() == old(self).state().remove(key@),
            final(self).state().contents() == old(self).state().contents().remove(key@),
            removed == (if old(self).state().contains(key@) {
                let entry = old(self).state().entry(key@);
                Some((entry.key, entry.value))
            } else {
                None
            }),
    {
        let hash = self.hash_u64(key);
        let idx = self.determine_shard(hash as usize);
        proof {
            let c = self.state();
            c.lemma_home(key@);
            law_removed(c, key@);
            c.lemma_remove_fits(idx as int, c.at_home(key@), key@);
            lemma_total_update(c.shards, idx as int, c.at_home(key@));
        }
        let removed = self.shards[idx].remove(hash, key);
        proof {
            self.lemma_shard_changed(old(self), idx as int);
        }
        removed
    }

    /// Whatever fitting state the shard in place `i` ends up in, the cache stays
    /// sound, and nothing else in it changes.
    proof fn lemma_shard_lent(&self, i: int)
        requires
            self.wf(),
            0 <= i < self.shards@.len(),
        ensures
            forall|after: Self|
                {
                    &&& after.shift == self.shift
                    &&& after.hasher == self.hasher
                    &&& after.cache_capacity == self.cache_capacity
                    &&& #[trigger] after.shards@ == self.shards@.update(i, after.shards@[i])
                } ==> {
                    &&& after.state() == self.state().with_shard(i, after.shards@[i]@)
                    &&& after.shards@[i].wf() && self.state().fits(i, after.shards@[i]@) && total(
                        self.state().shards,
                    ) - self.state().shards[i].entries.len() + after.shards@[i]@.entries.len()
                        <= MAX_ENTRIES ==> after.wf()
                },
    {
        assert forall|after: Self|
            {
                &&& after.shift == self.shift
                &&& after.hasher == self.hasher
                &&& after.cache_capacity == self.cache_capacity
                &&& #[trigger] after.shards@ == self.shards@.update(i, after.shards@[i])
            } implies {
            &&& after.state() == self.state().with_shard(i, after.shards@[i]@)
            &&& after.shards@[i].wf() && self.state().fits(i, after.shards@[i]@) && total(
                self.state().shards,
            ) - self.state().shards[i].entries.len() + after.shards@[i]@.entries.len()
                <= MAX_ENTRIES ==> after.wf()
        } by {
            assert(after.state().shards =~= self.state().shards.update(i, after.shards@[i]@));
            assert(after.state() =~= self.state().with_shard(i, after.shards@[i]@));
            if after.shards@[i].wf() && self.state().fits(i, after.shards@[i]@) && total(
                self.state().shards,
            ) - self.state().shards[i].entries.len() + after.shards@[i]@.entries.len()
                <= MAX_ENTRIES {
                after.lemma_shard_changed(self, i);
            }
        }
    }

    /// The key and the value under `key`, without counting an access.
    pub(crate) fn peek<Q: Lookup<K> + ?Sized>(&self, key: &Q) -> (found: Option<(&K, &V)>) where
        S: LookupHasher<K, Q>,

        requires
            self.wf(),
        ensures
            match found {
                Some((k, v)) => {
                    &&& self.state().contains(key@)
                    &&& *k == self.state().entry(key@).key
                    &&& *v == self.state().entry(key@).value
                },
                None => !self.state().contains(key@),
            },
    {
        let hash = self.hash_u64(key);
        let idx = self.determine_shard(hash as usize);
        proof {
            self.state().lemma_home(key@);
        }
        self.shards[idx].peek(hash, key)
    }

    /// Returns a reference to the entry under `key`, bumping the frequency
    /// counter.
    pub fn get<Q: Lookup<K> + ?Sized>(&mut self, key: &Q) -> (found: Option<Ref<'_, K, V>>) where
        S: LookupHasher<K, Q>,

        requires
            old(self).wf(),
        ensures
            final(self).wf(),
            final(self).state() == old(self).state().bump(key@),
            match found {
                Some(r) => {
                    &&& old(self).state().contains(key@)
                    &&& *r.k == old(self).state().entry(key@).key
                    &&& *r.v == old(self).state().entry(key@).value
                },
                None => !old(self).state().contains(key@),
            },
    {
        let hash = self.hash_u64(key);
        let idx = self.determine_shard(hash as usize);
        proof {
            let c = self.state();
            c.lemma_home(key@);
            c.lemma_bump_fits(idx as int, c.at_home(key@), key@);
            self.lemma_shard_lent(idx as int);
        }
        match self.shards[idx].get(hash, key) {
            Some((k, v)) => Some(Ref::new(k, v)),
            None => None,
        }
    }

    /// Returns a mutable reference to the entry under `key`, bumping the
    /// frequency counter.
    pub fn get_mut<Q: Lookup<K> + ?Sized>(&mut self, key: &Q) -> (found: Option<
        RefMut<'_, K, V>,
    >) where
        S: LookupHasher<K, Q>,

        requires
            old(self).wf(),
        ensures
            final(self).wf(),
            match found {
                Some(r) => {
                    &&& old(self).state().contains(key@)
                    &&& *r.k == old(self).state().entry(key@).key
                    &&& *r.v == old(self).state().entry(key@).value
                    &&& final(self).state() == old(self).state().bump(key@).with_value(
                        key@,
                        *final(r.v),
                    )
                },
                None => !old(self).state().contains(key@) && final(self).state() == old(self).state(),
            },
    {
        let hash = self.hash_u64(key);
        let idx = self.determine_shard(hash as usize);
        proof {
            let c = self.state();
            c.lemma_home(key@);
            c.lemma_bump_fits(idx as int, c.at_home(key@), key@);
            c.lemma_bump_value_fits(key@);
            self.lemma_shard_lent(idx as int);
        }
        match self.shards[idx].get_mut(hash, key) {
            Some((k, v)) => Some(RefMut::new(k, v)),
            None => None,
        }
    }

    /// Counts an access to the entry in the given place of the given shard.
    pub(crate) fn bump_at(&mut self, shard_i: usize, place: usize)
        requires
            old(self).wf(),
            shard_i < old(self).shards@.len(),
            place < old(self).shards@[shard_i as int].pairs().len(),
        ensures
            final(self).wf(),
            ({
                let key = old(self).shards@[shard_i as int].pairs()[place as int].0;
                &&& old(self).state().contains(key@)
                &&& final(self).state() == old(self).state().bump(key@)
            }),
            final(self).shards@ == old(self).shards@.update(
                shard_i as int,
                final(self).shards@[shard_i as int],
            ),
            final(self).shards@[shard_i as int].pairs()
                == old(self).shards@[shard_i as int].pairs(),
    {
        proof {
            let c = self.state();
            let i = shard_i as int;
            let key = self.shards@[i].pairs()[place as int].0;
            self.shards@[i].lemma_pairs();
            assert(c.shards[i].entries.contains_key(key@));
            c.lemma_entry_home(i, key@);
            c.lemma_home(key@);
            c.lemma_bump_fits(i, c.shards[i], key@);
        }
        self.shards[shard_i].bump_at(place);
        proof {
            self.lemma_shard_changed(old(self), shard_i as int);
        }
    }

    /// The key and the value in the given place of the given shard, the value
    /// for writing, without counting an access.
    pub(crate) fn pair_at_mut(&mut self, shard_i: usize, place: usize) -> (pair: (&K, &mut V))
        requires
            old(self).wf(),
            shard_i < old(self).shards@.len(),
            place < old(self).shards@[shard_i as int].pairs().len(),
        ensures
            final(self).wf(),
            (*pair.0, *pair.1) == old(self).shards@[shard_i as int].pairs()[place as int],
            old(self).state().contains(pair.0@),
            final(self).state() == old(self).state().with_value(pair.0@, *final(pair.1)),
            final(self).shards@ == old(self).shards@.update(
                shard_i as int,
                final(self).shards@[shard_i as int],
            ),
            final(self).shards@[shard_i as int].pairs()
                == old(self).shards@[shard_i as int].pairs().update(
                place as int,
                (*pair.0, *final(pair.1)),
            ),
    {
        proof {
            let c = self.state();
            let i = shard_i as int;
            let s = c.shards[i];
            let (key, value) = self.shards@[i].pairs()[place as int];
            self.shards@[i].lemma_pairs();
            assert(s.entries.contains_key(key@));
            c.lemma_entry_home(i, key@);
            c.lemma_home(key@);
            assert forall|value: V|
                c.fits(i, #[trigger] s.with_value(key@, value)) && s.with_value(
                    key@,
                    value,
                ).entries.len() == s.entries.len() by {
                c.lemma_with_value_fits(i, s, key@, value);
            }
            self.lemma_shard_lent(i);
        }
        self.shards[shard_i].pair_at_mut(place)
    }

    /// Removes an entry if `f(key, value)` returns `true`.
    pub fn remove_if<Q: Lookup<K> + ?Sized, F: FnOnce(&K, &V) -> bool>(
        &mut self,
        key: &Q,
        f: F,
    ) -> (removed: Option<(K, V)>) where
        S: LookupHasher<K, Q>,

        requires
            old(self).wf(),
            old(self).state().contains(key@) ==> {
                let entry = old(self).state().entry(key@);
                call_requires(f, (&entry.key, &entry.value))
            },
        ensures
            final(self).wf(),
            !old(self).state().contains(key@) ==> removed is None && final(self).state()
                == old(self).state(),
            old(self).state().contains(key@) ==> {
                let entry = old(self).state().entry(key@);
                if removed is Some {
                    &&& call_ensures(f, (&entry.key, &entry.value), true)
                    &&& removed == Some((entry.key, entry.value))
                    &&& final(self).state() == old(self).state().remove(key@)
                } else {
                    &&& call_ensures(f, (&entry.key, &entry.value), false)
                    &&& final(self).state() == old(self).state()
                }
            },
    {
        let hash = self.hash_u64(key);
        let idx = self.determine_shard(hash as usize);
        proof {
            let c = self.state();
            c.lemma_home(key@);
            c.lemma_remove_fits(idx as int, c.at_home(key@), key@);
            assert(c.with_home(key@, c.at_home(key@)) =~= c);
        }
        let removed = self.shards[idx].remove_if(hash, key, f);
        proof {
            self.lemma_shard_changed(old(self), idx as int);
        }
        removed
    }

    /// Removes an entry if `f(key, &mut value)` returns `true`. What `f` writes
    /// to the value stays written.
    pub fn remove_if_mut<Q: Lookup<K> + ?Sized, F: FnOnce(&K, &mut V) -> bool>(
        &mut self,
        key: &Q,
        f: F,
    ) -> (removed: Option<(K, V)>) where
        S: LookupHasher<K, Q>,

        requires
            old(self).wf(),
            old(self).state().contains(key@) ==> {
                let entry = old(self).state().entry(key@);
                forall|v: &mut V| *v == entry.value ==> #[trigger] call_requires(f, (&entry.key, v))
            },
        ensures
            final(self).wf(),
            !old(self).state().contains(key@) ==> removed is None && final(self).state()
                == old(self).state(),
            old(self).state().contains(key@) ==> {
                let entry = old(self).state().entry(key@);
                exists|v: &mut V, verdict: bool| #[trigger]
                    call_ensures(f, (&entry.key, v), verdict) && *v == entry.value && (if verdict {
                        &&& removed == Some((entry.key, *final(v)))
                        &&& final(self).state() == old(self).state().remove(key@)
                    } else {
                        &&& removed is None
                        &&& final(self).state() == old(self).state().with_value(key@, *final(v))
                    })
            },
    {
        let hash = self.hash_u64(key);
        let idx = self.determine_shard(hash as usize);
        proof {
            let c = self.state();
            let s = c.at_home(key@);
            c.lemma_home(key@);
            c.lemma_remove_fits(idx as int, s, key@);
            if s.entries.contains_key(key@) {
                assert forall|value: V|
                    c.fits(idx as int, #[trigger] s.with_value(key@, value)) && s.with_value(
                        key@,
                        value,
                    ).entries.len() == s.entries.len() by {
                    c.lemma_with_value_fits(idx as int, s, key@, value);
                }
            }
            assert(c.with_home(key@, s) =~= c);
            assert(s == self.shards@[idx as int]@);
            assert(c.contains(key@) ==> c.entry(key@) == self.shards@[idx as int]@.entries[key@]);
        }
        let removed = self.shards[idx].remove_if_mut(hash, key, f);
        proof {
            self.lemma_shard_changed(old(self), idx as int);
        }
        removed
    }

    /// Replaces the value of an existing entry by `f(key, old_value)`, bumping
    /// the frequency counter.
    pub fn alter<Q: Lookup<K> + ?Sized, F: FnOnce(&K, V) -> V>(&mut self, key: &Q, f: F) where
        S: LookupHasher<K, Q>,

        requires
            old(self).wf(),
            old(self).state().contains(key@) ==> {
                let entry = old(self).state().entry(key@);
                call_requires(f, (&entry.key, entry.value))
            },
        ensures
            final(self).wf(),
            !old(self).state().contains(key@) ==> final(self).state() == old(self).state(),
            old(self).state().contains(key@) ==> {
                let entry = old(self).state().entry(key@);
                exists|value: V| #[trigger]
                    call_ensures(f, (&entry.key, entry.value), value) && final(self).state()
                        == old(self).state().bump(key@).with_value(key@, value)
            },
    {
        let hash = self.hash_u64(key);
        let idx = self.determine_shard(hash as usize);
        proof {
            let c = self.state();
            c.lemma_home(key@);
            c.lemma_bump_fits(idx as int, c.at_home(key@), key@);
            assert(c.with_home(key@, c.at_home(key@)) =~= c);
        }
        self.shards[idx].alter(hash, key, f);
        proof {
            let c = old(self).state();
            if c.contains(key@) {
                let bumped = c.at_home(key@).bump(key@);
                let entry = c.entry(key@);
                let value = choose|value: V| #[trigger]
                    call_ensures(f, (&entry.key, entry.value), value) && self.shards@[idx as int]@
                        == bumped.with_value(key@, value);
                c.lemma_with_value_fits(idx as int, bumped, key@, value);
                assert(c.bump(key@).with_value(key@, value) =~= c.with_home(
                    key@,
                    bumped.with_value(key@, value),
                ));
            }
            self.lemma_shard_changed(old(self), idx as int);
        }
    }

    /// Calls `f(key, value)` on the entry under `key` and returns the result,
    /// bumping the frequency counter.
    pub fn view<Q: Lookup<K> + ?Sized, R, F: FnOnce(&K, &V) -> R>(
        &mut self,
        key: &Q,
        f: F,
    ) -> (result: Option<R>) where
        S: LookupHasher<K, Q>,

        requires
            old(self).wf(),
            old(self).state().contains(key@) ==> {
                let entry = old(self).state().entry(key@);
                call_requires(f, (&entry.key, &entry.value))
            },
        ensures
            final(self).wf(),
            final(self).state() == old(self).state().bump(key@),
            match result {
                Some(r) => {
                    let entry = old(self).state().entry(key@);
                    &&& old(self).state().contains(key@)
                    &&& call_ensures(f, (&entry.key, &entry.value), r)
                },
                None => !old(self).state().contains(key@),
            },
    {
        match self.get(key) {
            Some(r) => {
                let (k, v) = r.pair();
                Some(f(k, v))
            },
            None => None,
        }
    }

    /// Returns `true` if the map contains an entry for `key`, bumping the
    /// frequency counter.
    pub fn contains_key<Q: Lookup<K> + ?Sized>(&mut self, key: &Q) -> (contains: bool) where
        S: LookupHasher<K, Q>,

        requires
            old(self).wf(),
        ensures
            final(self).wf(),
            final(self).state() == old(self).state().bump(key@),
            contains == old(self).state().contains(key@),
    {
        self.get(key).is_some()
    }

    /// The S3-FIFO cache capacity (0 = unbounded).
    pub fn cache_capacity(&self) -> (capacity: usize)
        ensures
            capacity == self.state().capacity,
    {
        self.cache_capacity
    }

    /// Returns an [`Entry`] for the given key.
    ///
    /// The cache ends up with the state in which the entry leaves its shard.
    pub fn entry(&mut self, key: K) -> (entry: Entry<'_, K, V>)
        requires
            old(self).wf(),
            old(self).state().contains(key@) || old(self).state().len() < MAX_ENTRIES,
        ensures
            entry.wf(),
            match entry {
                Entry::Occupied(occupied) => {
                    let c = old(self).state();
                    &&& occupied.key == key
                    &&& occupied.shard@ == c.at_home(key@)
                    &&& final(self).state() == c.with_home(key@, final(occupied.shard)@)
                    &&& final(occupied.shard).wf() && c.accepts(key@, final(occupied.shard)@)
                        ==> final(self).wf()
                },
                Entry::Vacant(vacant) => {
                    let c = old(self).state();
                    &&& vacant.key == key
                    &&& vacant.hash == c.digest(key@)
                    &&& vacant.shard@ == c.at_home(key@)
                    &&& final(self).state() == c.with_home(key@, final(vacant.shard)@)
                    &&& final(vacant.shard).wf() && c.accepts(key@, final(vacant.shard)@)
                        ==> final(self).wf()
                },
            },
    {
        let hash = self.hash_u64(&key);
        let idx = self.determine_shard(hash as usize);
        proof {
            let c = self.state();
            c.lemma_home(key@);
            lemma_total_update(c.shards, idx as int, c.at_home(key@));
            self.lemma_shard_lent(idx as int);
        }
        self.shards[idx].entry(hash, key)
    }

    /// Variant of [`entry`](Self::entry) that does not wait: `lock_free` tells
    /// whether the shard's lock was free, and the answer is `None` if it was
    /// not.
    pub fn try_entry(&mut self, key: K, lock_free: bool) -> (entry: Option<Entry<'_, K, V>>)
        requires
            old(self).wf(),
            lock_free ==> old(self).state().contains(key@) || old(self).state().len() < MAX_ENTRIES,
        ensures
            match entry {
                Some(e) => lock_free && e.wf() && match e {
                    Entry::Occupied(occupied) => {
                        let c = old(self).state();
                        &&& occupied.key == key
                        &&& occupied.shard@ == c.at_home(key@)
                        &&& final(self).state() == c.with_home(key@, final(occupied.shard)@)
                        &&& final(occupied.shard).wf() && c.accepts(key@, final(occupied.shard)@)
                            ==> final(self).wf()
                    },
                    Entry::Vacant(vacant) => {
                        let c = old(self).state();
                        &&& vacant.key == key
                        &&& vacant.hash == c.digest(key@)
                        &&& vacant.shard@ == c.at_home(key@)
                        &&& final(self).state() == c.with_home(key@, final(vacant.shard)@)
                        &&& final(vacant.shard).wf() && c.accepts(key@, final(vacant.shard)@)
                            ==> final(self).wf()
                    },
                },
                None => !lock_free && *final(self) == *old(self),
            },
    {
        let hash = self.hash_u64(&key);
        let idx = self.determine_shard(hash as usize);
        proof {
            let c = self.state();
            c.lemma_home(key@);
            lemma_total_update(c.shards, idx as int, c.at_home(key@));
            self.lemma_shard_lent(idx as int);
        }
        if lock_free {
            ShardData::try_entry(Some(&mut self.shards[idx]), hash, key)
        } else {
            ShardData::try_entry(None, hash, key)
        }
    }

    /// Variant of [`get`](Self::get) that does not wait: `lock_free` tells
    /// whether the shard's lock was free, and the answer is
    /// [`TryResult::Locked`] if it was not.
    pub fn try_get<Q: Lookup<K> + ?Sized>(
        &mut self,
        key: &Q,
        lock_free: bool,
    ) -> (found: TryResult<Ref<'_, K, V>>) where
        S: LookupHasher<K, Q>,

        requires
            old(self).wf(),
        ensures
            final(self).wf(),
            found is Locked <==> !lock_free,
            final(self).state() == (if lock_free {
                old(self).state().bump(key@)
            } else {
                old(self).state()
            }),
            found is Absent ==> !old(self).state().contains(key@),
            found matches TryResult::Present(r) ==> {
                &&& old(self).state().contains(key@)
                &&& *r.k == old(self).state().entry(key@).key
                &&& *r.v == old(self).state().entry(key@).value
            },
    {
        let hash = self.hash_u64(key);
        let idx = self.determine_shard(hash as usize);
        proof {
            let c = self.state();
            c.lemma_home(key@);
            c.lemma_bump_fits(idx as int, c.at_home(key@), key@);
            self.lemma_shard_lent(idx as int);
        }
        if lock_free {
            ShardData::try_get(Some(&mut self.shards[idx]), hash, key)
        } else {
            ShardData::try_get(None, hash, key)
        }
    }

    /// Variant of [`get_mut`](Self::get_mut) that does not wait: `lock_free`
    /// tells whether the shard's lock was free, and the answer is
    /// [`TryResult::Locked`] if it was not.
    pub fn try_get_mut<Q: Lookup<K> + ?Sized>(
        &mut self,
        key: &Q,
        lock_free: bool,
    ) -> (found: TryResult<RefMut<'_, K, V>>) where
        S: LookupHasher<K, Q>,

        requires
            old(self).wf(),
        ensures
            final(self).wf(),
            found is Locked <==> !lock_free,
            match found {
                TryResult::Present(r) => {
                    &&& old(self).state().contains(key@)
                    &&& *r.k == old(self).state().entry(key@).key
                    &&& *r.v == old(self).state().entry(key@).value
                    &&& final(self).state() == old(self).state().bump(key@).with_value(
                        key@,
                        *final(r.v),
                    )
                },
                TryResult::Absent => !old(self).state().contains(key@) && final(self).state()
                    == old(self).state(),
                TryResult::Locked => final(self).state() == old(self).state(),
            },
    {
        let hash = self.hash_u64(key);
        let idx = self.determine_shard(hash as usize);
        proof {
            let c = self.state();
            c.lemma_home(key@);
            c.lemma_bump_value_fits(key@);
            self.lemma_shard_lent(idx as int);
        }
        if lock_free {
            ShardData::try_get_mut(Some(&mut self.shards[idx]), hash, key)
        } else {
            ShardData::try_get_mut(None, hash, key)
        }
    }

    /// Returns the total number of entries across all shards.
    pub fn len(&self) -> (len: usize)
        requires
            self.wf(),
        ensures
            len == self.state().len(),
    {
        let mut len: usize = 0;
        let mut i: usize = 0;
        let ghost shards = self.state().shards;
        assert(shards.take(0) =~= Seq::empty());
        while i < self.shards.len()
            invariant
                self.wf(),
                shards == self.state().shards,
                i <= shards.len(),
                shards.len() == self.shards@.len(),
                len == total(shards.take(i as int)),
            decreases shards.len() - i,
        {
            proof {
                lemma_total_take(shards, i + 1);
                assert(shards.take(i + 1).drop_last() =~= shards.take(i as int));
            }
            len = len + self.shards[i].len();
            i = i + 1;
        }
        assert(shards.take(i as int) =~= shards);
        len
    }

    /// Returns `true` if the map contains no entries.
    pub fn is_empty(&self) -> (empty: bool)
        requires
            self.wf(),
        ensures
            empty == (self.state().len() == 0),
    {
        self.len() == 0
    }

    /// Changing every shard to a fitting one with no more entries keeps the
    /// invariant.
    proof fn lemma_shards_changed(&self, before: &Self)
        requires
            before.wf(),
            self.shift == before.shift,
            self.hasher == before.hasher,
            self.cache_capacity == before.cache_capacity,
            self.shards@.len() == before.shards@.len(),
            forall|i: int|
                0 <= i < before.shards@.len() ==> {
                    &&& (#[trigger] self.shards@[i]).wf()
                    &&& before.state().fits(i, self.shards@[i]@)
                    &&& self.shards@[i]@.entries.len() <= before.shards@[i]@.entries.len()
                },
        ensures
            self.wf(),
    {
        lemma_total_le(self.state().shards, before.state().shards);
        assert forall|i: int| 0 <= i < self.state().shards.len() implies self.state().fits(
            i,
            #[trigger] self.state().shards[i],
        ) by {
            assert(self.shards@[i].wf());
        }
    }

    /// Removes all entries and resets all S3-FIFO queues.
    pub fn clear(&mut self)
        requires
            old(self).wf(),
        ensures
            final(self).wf(),
            final(self).state() == old(self).state().cleared(),
            final(self).state().contents() == Map::<K::V, V>::empty(),
    {
        let mut i: usize = 0;
        while i < self.shards.len()
            invariant
                old(self).wf(),
                self.shift == old(self).shift,
                self.hasher == old(self).hasher,
                self.cache_capacity == old(self).cache_capacity,
                self.shards@.len() == old(self).shards@.len(),
                i <= self.shards@.len(),
                forall|j: int| 0 <= j < self.shards@.len() ==> (#[trigger] self.shards@[j]).wf(),
                forall|j: int|
                    0 <= j < i ==> (#[trigger] self.shards@[j])@ == ShardState::<K, V>::empty(
                        old(self).shards@[j]@.cap,
                    ),
                forall|j: int|
                    i <= j < self.shards@.len() ==> #[trigger] self.shards@[j]
                        == old(self).shards@[j],
            decreases self.shards@.len() - i,
        {
            self.shards[i].clear_all();
            i = i + 1;
        }
        proof {
            assert forall|j: int| 0 <= j < old(self).shards@.len() implies {
                &&& (#[trigger] self.shards@[j]).wf()
                &&& old(self).state().fits(j, self.shards@[j]@)
                &&& self.shards@[j]@.entries.len() <= old(self).shards@[j]@.entries.len()
            } by {
                self.shards@[j].lemma_inv();
                assert(old(self).state().fits(j, old(self).state().shards[j]));
            }
            self.lemma_shards_changed(old(self));
            law_cleared(old(self).state());
            assert(self.state() =~= old(self).state().cleared()) by {
                assert(self.state().shards =~= old(self).state().cleared().shards);
            }
        }
    }

    /// Removes all entries for which `f(key, &mut value)` returns `false`. What
    /// `f` writes to a value that stays is kept.
    pub fn retain<F: FnMut(&K, &mut V) -> bool>(&mut self, f: F)
        requires
            old(self).wf(),
            forall|key: K::V, v: &mut V|
                old(self).state().contains(key) && *v == old(self).state().entry(key).value
                    ==> #[trigger] call_requires(f, (&old(self).state().entry(key).key, v)),
        ensures
            final(self).wf(),
            final(self).state().same_but_entries(old(self).state()),
            forall|key: K::V| #[trigger]
                final(self).state().contains(key) ==> old(self).state().contains(key),
            forall|key: K::V| #[trigger]
                old(self).state().contains(key) ==> {
                    let entry = old(self).state().entry(key);
                    exists|v: &mut V, verdict: bool| #[trigger]
                        call_ensures(f, (&entry.key, v), verdict) && *v == entry.value
                            && final(self).state().lookup(key) == (if verdict {
                            Some(EntryState { value: *final(v), ..entry })
                        } else {
                            None
                        })
                },
    {
        let mut f = f;
        let ghost f0 = f;
        let ghost c = self.state();
        let mut i: usize = 0;
        while i < self.shards.len()
            invariant
                old(self).wf(),
                c == old(self).state(),
                f == f0,
                forall|key: K::V, v: &mut V|
                    c.contains(key) && *v == c.entry(key).value ==> #[trigger] call_requires(
                        f,
                        (&c.entry(key).key, v),
                    ),
                self.shift == old(self).shift,
                self.hasher == old(self).hasher,
                self.cache_capacity == old(self).cache_capacity,
                self.shards@.len() == old(self).shards@.len(),
                i <= self.shards@.len(),
                forall|j: int| 0 <= j < self.shards@.len() ==> (#[trigger] self.shards@[j]).wf(),
                forall|j: int|
                    i <= j < self.shards@.len() ==> #[trigger] self.shards@[j]
                        == old(self).shards@[j],
                forall|j: int|
                    0 <= j < i ==> (#[trigger] self.shards@[j])@
                        == c.shards[j].with_entries(self.shards@[j]@.entries),
                forall|j: int, key: K::V|
                    0 <= j < i && #[trigger] self.shards@[j]@.entries.contains_key(key)
                        ==> c.shards[j].entries.contains_key(key),
                forall|j: int, key: K::V|
                    0 <= j < i && #[trigger] c.shards[j].entries.contains_key(key) ==> {
                        let entry = c.shards[j].entries[key];
                        exists|v: &mut V, verdict: bool| #[trigger]
                            call_ensures(f, (&entry.key, v), verdict) && *v == entry.value
                                && self.shards@[j]@.lookup(key) == (if verdict {
                                Some(EntryState { value: *final(v), ..entry })
                            } else {
                                None
                            })
                    },
            decreases self.shards@.len() - i,
        {
            let ghost s = self.shards@[i as int]@;
            proof {
                assert(s == c.shards[i as int]);
                assert forall|key: K::V, v: &mut V|
                    s.entries.contains_key(key) && *v == s.entries[key].value implies
                    #[trigger] call_requires(f, (&s.entries[key].key, v)) by {
                    c.lemma_entry_home(i as int, key);
                    assert(c.contains(key));
                    assert(c.entry(key) == s.entries[key]);
                }
            }
            self.shards[i].retain(&mut f);
            i = i + 1;
        }
        proof {
            assert forall|j: int| 0 <= j < old(self).shards@.len() implies {
                &&& (#[trigger] self.shards@[j]).wf()
                &&& c.fits(j, self.shards@[j]@)
                &&& self.shards@[j]@.entries.len() <= old(self).shards@[j]@.entries.len()
            } by {
                self.shards@[j].lemma_inv();
                assert(c.fits(j, c.shards[j]));
                assert(self.shards@[j]@ == c.shards[j].with_entries(self.shards@[j]@.entries));
                assert(self.shards@[j]@.entries.dom().subset_of(c.shards[j].entries.dom())) by {
                    let kept = self.shards@[j]@.entries;
                    assert forall|key: K::V| kept.dom().contains(key) implies
                        c.shards[j].entries.dom().contains(key) by {
                        assert(self.shards@[j]@.entries.contains_key(key));
                    }
                }
                vstd::set_lib::lemma_len_subset(
                    self.shards@[j]@.entries.dom(),
                    c.shards[j].entries.dom(),
                );
            }
            self.lemma_shards_changed(old(self));
            assert forall|key: K::V| #[trigger] self.state().contains(key) implies c.contains(key) by {
                c.lemma_home(key);
                let j = c.home(key);
                assert(self.shards@[j]@.entries.contains_key(key));
            }
            assert forall|key: K::V| #[trigger] c.contains(key) implies {
                let entry = c.entry(key);
                exists|v: &mut V, verdict: bool| #[trigger]
                    call_ensures(f0, (&entry.key, v), verdict) && *v == entry.value
                        && self.state().lookup(key) == (if verdict {
                        Some(EntryState { value: *final(v), ..entry })
                    } else {
                        None
                    })
            } by {
                c.lemma_home(key);
                let j = c.home(key);
                assert(c.shards[j].entries.contains_key(key));
                let entry = c.shards[j].entries[key];
                assert(c.entry(key) == entry);
                assert(self.state().lookup(key) == self.shards@[j]@.lookup(key));
                assert(exists|v: &mut V, verdict: bool| #[trigger]
                    call_ensures(f0, (&entry.key, v), verdict) && *v == entry.value
                        && self.shards@[j]@.lookup(key) == (if verdict {
                        Some(EntryState { value: *final(v), ..entry })
                    } else {
                        None
                    }));
            }
        }
    }

    /// Removes all entries one by one. The queues and the ghost sets stay, and
    /// later sweeps drop what is stale in them.
    pub fn _clear(&mut self)
        requires
            old(self).wf(),
        ensures
            final(self).wf(),
            final(self).state().same_but_entries(old(self).state()),
            forall|key: K::V| !#[trigger] final(self).state().contains(key),
    {
        self.retain(drop_entry::<K, V>);
    }

    /// Replaces the value of every entry by `f(key, old_value)`.
    pub fn alter_all<F: FnMut(&K, V) -> V>(&mut self, f: F)
        requires
            old(self).wf(),
            forall|key: K::V| #[trigger]
                old(self).state().contains(key) ==> {
                    let entry = old(self).state().entry(key);
                    call_requires(f, (&entry.key, entry.value))
                },
        ensures
            final(self).wf(),
            final(self).state().same_but_entries(old(self).state()),
            forall|key: K::V| #[trigger]
                final(self).state().contains(key) <==> old(self).state().contains(key),
            forall|key: K::V| #[trigger]
                old(self).state().contains(key) ==> {
                    let entry = old(self).state().entry(key);
                    let after = final(self).state().entry(key);
                    &&& after == EntryState { value: after.value, ..entry }
                    &&& call_ensures(f, (&entry.key, entry.value), after.value)
                },
    {
        let mut f = f;
        let ghost f0 = f;
        let ghost c = self.state();
        let mut i: usize = 0;
        while i < self.shards.len()
            invariant
                old(self).wf(),
                c == old(self).state(),
                f == f0,
                forall|key: K::V| #[trigger]
                    c.contains(key) ==> call_requires(f, (&c.entry(key).key, c.entry(key).value)),
                self.shift == old(self).shift,
                self.hasher == old(self).hasher,
                self.cache_capacity == old(self).cache_capacity,
                self.shards@.len() == old(self).shards@.len(),
                i <= self.shards@.len(),
                forall|j: int| 0 <= j < self.shards@.len() ==> (#[trigger] self.shards@[j]).wf(),
                forall|j: int|
                    i <= j < self.shards@.len() ==> #[trigger] self.shards@[j]
                        == old(self).shards@[j],
                forall|j: int|
                    0 <= j < i ==> (#[trigger] self.shards@[j])@
                        == c.shards[j].with_entries(self.shards@[j]@.entries)
                        && self.shards@[j]@.entries.dom() == c.shards[j].entries.dom(),
                forall|j: int, key: K::V|
                    0 <= j < i && #[trigger] c.shards[j].entries.contains_key(key) ==> {
                        let entry = c.shards[j].entries[key];
                        let after = self.shards@[j]@.entries[key];
                        &&& after == EntryState { value: after.value, ..entry }
                        &&& call_ensures(f, (&entry.key, entry.value), after.value)
                    },
            decreases self.shards@.len() - i,
        {
            let ghost s = self.shards@[i as int]@;
            proof {
                assert(s == c.shards[i as int]);
                assert forall|key: K::V| #[trigger] s.entries.contains_key(key) implies call_requires(
                    f,
                    (&s.entries[key].key, s.entries[key].value),
                ) by {
                    c.lemma_entry_home(i as int, key);
                    assert(c.contains(key));
                }
            }
            self.shards[i].alter_all(&mut f);
            i = i + 1;
        }
        proof {
            assert forall|j: int| 0 <= j < old(self).shards@.len() implies {
                &&& (#[trigger] self.shards@[j]).wf()
                &&& c.fits(j, self.shards@[j]@)
                &&& self.shards@[j]@.entries.len() <= old(self).shards@[j]@.entries.len()
            } by {
                self.shards@[j].lemma_inv();
                assert(c.fits(j, c.shards[j]));
                assert(self.shards@[j]@ == c.shards[j].with_entries(self.shards@[j]@.entries));
            }
            self.lemma_shards_changed(old(self));
            assert forall|key: K::V|
                ((#[trigger] self.state().contains(key)) <==> c.contains(key)) && (c.contains(key)
                    ==> {
                    let entry = c.entry(key);
                    let after = self.state().entry(key);
                    &&& after == EntryState { value: after.value, ..entry }
                    &&& call_ensures(f0, (&entry.key, entry.value), after.value)
                }) by {
                c.lemma_home(key);
                let j = c.home(key);
                assert(self.shards@[j]@.entries.dom() == c.shards[j].entries.dom());
                if c.contains(key) {
                    assert(c.shards[j].entries.contains_key(key));
                }
            }
            assert forall|key: K::V| #[trigger] c.contains(key) implies {
                let entry = c.entry(key);
                let after = self.state().entry(key);
                &&& after == EntryState { value: after.value, ..entry }
                &&& call_ensures(f0, (&entry.key, entry.value), after.value)
            } by {
                assert(self.state().contains(key));
            }
        }
    }

    /// Returns the total allocated capacity across all shards: the sum of their
    /// capacities, capped at the largest machine number. Each shard has room for
    /// its entries at least; how much more is the allocator's affair.
    pub fn capacity(&self) -> (capacity: usize)
        requires
            self.wf(),
        ensures
            self.state().has_room_in(capacity),
            capacity >= self.state().len(),
    {
        let mut caps: Vec<usize> = Vec::new();
        let mut i: usize = 0;
        let ghost shards = self.state().shards;
        while i < self.shards.len()
            invariant
                self.wf(),
                shards == self.state().shards,
                i == caps@.len(),
                i <= shards.len(),
                shards.len() == self.shards@.len(),
                forall|j: int|
                    0 <= j < caps@.len() ==> (#[trigger] caps@[j]) >= shards[j].entries.len(),
            decreases shards.len() - i,
        {
            caps.push(self.shards[i].capacity());
            i = i + 1;
        }
        let capacity = total_capacity(&caps);
        proof {
            lemma_total_caps(shards, caps@);
        }
        capacity
    }

    /// Shrinks each shard's allocation to fit the current number of entries.
    /// Nothing that the map holds changes; how much space is left afterwards is
    /// the allocator's affair.
    pub fn shrink_to_fit(&mut self)
        requires
            old(self).wf(),
        ensures
            final(self).wf(),
            final(self).state() == old(self).state(),
    {
        let mut i: usize = 0;
        while i < self.shards.len()
            invariant
                self.wf(),
                self.state() == old(self).state(),
                i <= self.shards@.len(),
            decreases self.shards@.len() - i,
        {
            let ghost before = *self;
            let size = self.shards[i].len();
            self.shards[i].map_shrink_to(size);
            proof {
                self.lemma_shard_kept(&before, i as int);
            }
            i = i + 1;
        }
    }

    /// Attempts to reserve capacity for `additional` more entries in each shard.
    ///
    /// Nothing more always fits, and more than an eighth of the machine's
    /// numbers never does; in between the allocator decides.
    pub fn try_reserve(&mut self, additional: usize) -> (outcome: Result<(), TryReserveError>)
        requires
            old(self).wf(),
        ensures
            final(self).wf(),
            final(self).state() == old(self).state(),
            additional == 0 ==> outcome is Ok,
            additional > usize::MAX / 8 ==> outcome is Err,
    {
        let mut i: usize = 0;
        proof {
            assert(0 < self.shards@.len()) by {
                vstd::arithmetic::power2::lemma_pow2_pos((usize::BITS - self.shift) as nat);
            }
        }
        while i < self.shards.len()
            invariant
                self.wf(),
                self.state() == old(self).state(),
                self.shards@.len() == old(self).shards@.len(),
                i <= self.shards@.len(),
                i > 0 ==> additional <= usize::MAX / 8,
            decreases self.shards@.len() - i,
        {
            let ghost before = *self;
            let outcome = self.shards[i].map_try_reserve(additional);
            proof {
                self.lemma_shard_kept(&before, i as int);
            }
            if outcome.is_err() {
                return outcome;
            }
            i = i + 1;
        }
        Ok(())
    }

    /// Changing a shard without changing its state changes nothing.
    proof fn lemma_shard_kept(&self, before: &Self, i: int)
        requires
            before.wf(),
            0 <= i < before.shards@.len(),
            self.shift == before.shift,
            self.hasher == before.hasher,
            self.cache_capacity == before.cache_capacity,
            self.shards@ == before.shards@.update(i, self.shards@[i]),
            self.shards@[i].wf(),
            self.shards@[i]@ == before.shards@[i]@,
        ensures
            self.wf(),
            self.state() == before.state(),
    {
        let c = before.state();
        assert(c.fits(i, c.shards[i]));
        self.lemma_shard_changed(before, i);
        assert(c.with_shard(i, c.shards[i]) =~= c) by {
            assert(c.shards.update(i, c.shards[i]) =~= c.shards);
        }
    }

    /// Makes an unbounded map with a custom hasher and explicit shard count.
    ///
    /// `shard_amount` must be a power of two and at least 2.
    pub fn with_hasher_and_shard_amount(hasher: S, shard_amount: usize) -> (cache: Self)
        requires
            shard_amount > 1,
            is_pow2(shard_amount as int),
        ensures
            cache.wf(),
            cache.state().is_fresh(0, shard_amount as int),
            cache.state().hasher == hasher,
    {
        Self::with_capacity_and_hasher_and_shard_amount(0, hasher, shard_amount)
    }

    /// Makes a map with S3-FIFO eviction using a custom hasher, with the default
    /// number of shards for this many hardware threads.
    pub fn with_capacity_and_hasher(cache_capacity: usize, hasher: S, parallelism: usize) -> (cache:
        Self)
        requires
            1 <= parallelism <= usize::MAX / 8,
        ensures
            cache.wf(),
            cache.state().is_fresh(cache_capacity as nat, next_pow2(4 * parallelism)),
            cache.state().hasher == hasher,
    {
        Self::with_capacity_and_hasher_and_shard_amount(
            cache_capacity,
            hasher,
            default_shard_amount(parallelism),
        )
    }

    /// Makes an unbounded map with a custom hasher, with the default number of
    /// shards for this many hardware threads.
    pub fn with_hasher(hasher: S, parallelism: usize) -> (cache: Self)
        requires
            1 <= parallelism <= usize::MAX / 8,
        ensures
            cache.wf(),
            cache.state().is_fresh(0, next_pow2(4 * parallelism)),
            cache.state().hasher == hasher,
    {
        Self::with_capacity_and_hasher(0, hasher, parallelism)
    }
}

impl<K: CacheKey, V, S: KeyHasher<K>> NeoCache<K, V, S> {
    /// Inserts every pair, in order.
    pub fn extend(&mut self, pairs: Vec<(K, V)>)
        requires
            old(self).wf(),
            old(self).state().len() + pairs@.len() <= MAX_ENTRIES,
        ensures
            final(self).wf(),
            final(self).state() == old(self).state().insert_all(pairs@),
            pairs@.len() > 0 ==> {
                let (key, value) = pairs@.last();
                &&& final(self).state().contents().contains_key(key@)
                &&& final(self).state().contents()[key@] == value
            },
            forall|key: K::V| #[trigger]
                final(self).state().contents().contains_key(key) ==> {
                    let all = put_all(old(self).state().contents(), pairs@);
                    &&& all.contains_key(key)
                    &&& final(self).state().contents()[key] == all[key]
                },
            old(self).state().capacity == 0 ==> final(self).state().contents() == put_all(
                old(self).state().contents(),
                pairs@,
            ),
    {
        let ghost c = self.state();
        proof {
            law_last_pair_found(c, pairs@);
            if c.capacity == 0 {
                law_unbounded_insert_all(c, pairs@);
            }
        }
        for pair in it: pairs
            invariant
                self.wf(),
                c.len() + it.seq().len() <= MAX_ENTRIES,
                it.seq() == pairs@,
                self.state() == c.insert_all(pairs@.take(it.index())),
                self.state().len() <= c.len() + it.index(),
        {
            let ghost before = self.state();
            proof {
                let n = it.index();
                assert(pairs@.take(n + 1).drop_last() =~= pairs@.take(n));
                before.lemma_insert_len(pair.0, pair.1);
            }
            let _ = self.insert(pair.0, pair.1);
        }
        assert(pairs@.take(pairs@.len() as int) =~= pairs@);
    }
}

impl<K: CacheKey, V, S: KeyHasher<K> + Default> NeoCache<K, V, S> {
    /// Makes an unbounded map with the hasher type's default hasher, with the
    /// default number of shards for this many hardware threads.
    pub fn default(parallelism: usize) -> (cache: Self)
        requires
            1 <= parallelism <= usize::MAX / 8,
        ensures
            cache.wf(),
            cache.state().is_fresh(0, next_pow2(4 * parallelism)),
            call_ensures(S::default, (), cache.state().hasher),
    {
        Self::with_hasher(S::default(), parallelism)
    }

    /// Makes an unbounded map of the pairs, inserted in order, with the default
    /// number of shards for this many hardware threads.
    pub fn from_iter(pairs: Vec<(K, V)>, parallelism: usize) -> (cache: Self)
        requires
            1 <= parallelism <= usize::MAX / 8,
            pairs@.len() <= MAX_ENTRIES,
        ensures
            cache.wf(),
            exists|fresh: CacheState<K, V, S>| #[trigger]
                fresh.is_fresh(0, next_pow2(4 * parallelism)) && fresh.inv() && call_ensures(
                    S::default,
                    (),
                    fresh.hasher,
                ) && cache.state() == fresh.insert_all(pairs@),
            cache.state().contents() == put_all(Map::empty(), pairs@),
    {
        let mut cache = Self::default(parallelism);
        proof {
            lemma_total_zero(cache.state().shards);
            law_fresh(cache.state(), 0, next_pow2(4 * parallelism));
        }
        cache.extend(pairs);
        cache
    }
}

impl<K: CacheKey, V: Clone, S: KeyHasher<K>> Clone for NeoCache<K, V, S> {
    /// A map of clones of the entries, with the same eviction state.
    fn clone(&self) -> (copy: Self)
        ensures
            self.wf() ==> copy.wf() && self.state().copied_to(copy.state()),
    {
        let mut shards: Vec<ShardData<K, V>> = Vec::new();
        let mut i: usize = 0;
        while i < self.shards.len()
            invariant
                i <= self.shards@.len(),
                shards@.len() == i,
                forall|j: int|
                    0 <= j < i ==> (#[trigger] self.shards@[j]).wf() ==> shards@[j].wf()
                        && self.shards@[j]@.copied_to(shards@[j]@),
            decreases self.shards@.len() - i,
        {
            shards.push(self.shards[i].clone());
            i = i + 1;
        }
        let copy = NeoCache {
            shift: self.shift,
            shards,
            hasher: self.hasher.duplicate(),
            cache_capacity: self.cache_capacity,
        };
        proof {
            if self.wf() {
                assert forall|j: int| 0 <= j < copy.shards@.len() implies (#[trigger] copy.shards@[j]).wf()
                    && copy.shards@[j]@.inv() by {
                    assert(self.shards@[j].wf());
                    copy.shards@[j].lemma_inv();
                }
                assert(self.state().copied_to(copy.state())) by {
                    assert forall|j: int| 0 <= j < self.state().shards.len() implies (
                    #[trigger] self.state().shards[j]).copied_to(copy.state().shards[j]) by {
                        assert(self.shards@[j].wf());
                    }
                    assert forall|key: K::V| #[trigger]
                        copy.state().digest(key) == self.state().digest(key) by {
                        assert(copy.hasher.digest(key) == self.hasher.digest(key));
                    }
                }
                assert forall|j: int| 0 <= j < copy.state().shards.len() implies (
                #[trigger] copy.state().shards[j]).inv() by {
                    assert(copy.shards@[j].wf());
                }
                self.state().lemma_copied(copy.state());
            }
        }
        copy
    }
}

/// A verdict for [`NeoCache::retain`]: no entry stays.
fn drop_entry<K, V>(_key: &K, _value: &mut V) -> (keep: bool)
    ensures
        keep == false,
{
    false
}

impl<K: CacheKey, V> NeoCache<K, V, RandomState> where RandomState: KeyHasher<K> {
    /// Makes a map with S3-FIFO eviction at the given capacity, with the default
    /// number of shards for this many hardware threads.
    pub fn new(cache_capacity: usize, parallelism: usize) -> (cache: Self)
        requires
            1 <= parallelism <= usize::MAX / 8,
        ensures
            cache.wf(),
            cache.state().is_fresh(cache_capacity as nat, next_pow2(4 * parallelism)),
    {
        Self::with_capacity_and_hasher(cache_capacity, new_random_state(), parallelism)
    }

    /// Makes a map with S3-FIFO eviction and a specified shard count.
    ///
    /// `shard_amount` must be a power of two and at least 2.
    pub fn with_shard_amount(cache_capacity: usize, shard_amount: usize) -> (cache: Self)
        requires
            shard_amount > 1,
            is_pow2(shard_amount as int),
        ensures
            cache.wf(),
            cache.state().is_fresh(cache_capacity as nat, shard_amount as int),
    {
        Self::with_capacity_and_hasher_and_shard_amount(
            cache_capacity,
            new_random_state(),
            shard_amount,
        )
    }

    /// Makes a map with no eviction limit (grows without bound).
    pub fn new_unbounded(parallelism: usize) -> (cache: Self)
        requires
            1 <= parallelism <= usize::MAX / 8,
        ensures
            cache.wf(),
            cache.state().is_fresh(0, next_pow2(4 * parallelism)),
    {
        Self::with_capacity_and_hasher(0, new_random_state(), parallelism)
    }
}

} // verus!
