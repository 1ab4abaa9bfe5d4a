//! Views into single entries, which may be occupied or vacant.
use crate::index::MAX_ENTRIES;
use crate::keys::CacheKey;
use crate::model::EntryState;
use crate::mapref::one::RefMut;
use crate::shard::ShardData;
use vstd::prelude::*;

verus! {

/// A view into a vacant entry.
pub struct VacantEntry<'a, K, V> {
    pub shard: &'a mut ShardData<K, V>,
    pub key: K,
    pub hash: u64,
}

impl<'a, K: CacheKey, V> VacantEntry<'a, K, V> {
    /// The view's invariant: the key is not stored, and can be stored.
    pub open spec fn wf(&self) -> bool {
        &&& self.shard.wf()
        &&& !self.shard@.entries.contains_key(self.key@)
        &&& self.shard@.knows_as(self.key@, self.hash)
        &&& self.shard@.entries.len() < MAX_ENTRIES
    }

    /// Stores `value` under the key, evicting other entries as needed.
    pub fn insert(self, value: V) -> (r: RefMut<'a, K, V>)
        requires
            self.wf(),
        ensures
            *r.k == self.key,
            *r.v == value,
            final(self.shard).wf(),
            final(self.shard)@ == old(self.shard)@.insert_new(self.hash, self.key, value).with_value(
                self.key@,
                *final(r.v),
            ),
    {
        let VacantEntry { shard, key, hash } = self;
        let slot = shard.insert_vacant(hash, key, value);
        let (k, v) = shard.pair_mut(slot);
        RefMut::new(k, v)
    }

    /// Stores `value` under the key, evicting other entries as needed, and views
    /// the new entry.
    pub fn insert_entry(self, value: V) -> (entry: OccupiedEntry<'a, K, V>)
        requires
            self.wf(),
        ensures
            entry.wf(),
            entry.key@ == self.key@,
            entry.shard@ == old(self.shard)@.insert_new(self.hash, self.key, value),
            *final(entry.shard) == *final(self.shard),
    {
        let VacantEntry { shard, key, hash } = self;
        let copy = key.duplicate();
        let slot = shard.insert_vacant(hash, key, value);
        OccupiedEntry { shard, slot, key: copy }
    }

    /// Consumes the view and returns the key.
    pub fn into_key(self) -> (key: K)
        ensures
            key == self.key,
            *final(self.shard) == *old(self.shard),
    {
        self.key
    }

    /// Returns a reference to the key.
    pub fn key(&self) -> (key: &K)
        ensures
            *key == self.key,
    {
        &self.key
    }
}

/// A view into an occupied entry.
pub struct OccupiedEntry<'a, K, V> {
    pub shard: &'a mut ShardData<K, V>,
    pub slot: usize,
    pub key: K,
}

impl<'a, K: CacheKey, V> OccupiedEntry<'a, K, V> {
    /// The slot is that of the key.
    pub closed spec fn in_slot(&self) -> bool {
        &&& self.slot < self.shard.map.slots@.len()
        &&& self.shard.map.slots@[self.slot as int].key@ == self.key@
    }

    /// The view's invariant: the key is stored.
    pub open spec fn wf(&self) -> bool {
        &&& self.shard.wf()
        &&& self.shard@.entries.contains_key(self.key@)
        &&& self.in_slot()
    }

    /// Returns a shared reference to the value.
    pub fn get(&self) -> (v: &V)
        requires
            self.wf(),
        ensures
            *v == old(self.shard)@.entries[self.key@].value,
    {
        proof {
            self.shard.lemma_in_slot(self.slot as int);
        }
        self.shard.map.slots[self.slot].entry.value.get()
    }

    /// Returns a mutable reference to the value.
    pub fn get_mut(&mut self) -> (v: &mut V)
        requires
            old(self).wf(),
        ensures
            *v == old(self).shard@.entries[old(self).key@].value,
            final(self).wf(),
            final(self).key == old(self).key,
            final(self).shard@ == old(self).shard@.with_value(old(self).key@, *final(v)),
            *final(final(self).shard) == *final(old(self).shard),
    {
        self.shard.pair_mut(self.slot).1
    }

    /// Replaces the value and returns the old one.
    pub fn insert(&mut self, value: V) -> (old_value: V)
        requires
            old(self).wf(),
        ensures
            old_value == old(self).shard@.entries[old(self).key@].value,
            final(self).wf(),
            final(self).key == old(self).key,
            final(self).shard@ == old(self).shard@.with_value(old(self).key@, value),
            *final(final(self).shard) == *final(old(self).shard),
    {
        let mut swapped = value;
        std::mem::swap(self.get_mut(), &mut swapped);
        swapped
    }

    /// Turns the view into a mutable reference.
    pub fn into_ref(self) -> (r: RefMut<'a, K, V>)
        requires
            self.wf(),
        ensures
            *r.k == old(self.shard)@.entries[self.key@].key,
            *r.v == old(self.shard)@.entries[self.key@].value,
            final(self.shard).wf(),
            final(self.shard)@ == old(self.shard)@.with_value(self.key@, *final(r.v)),
    {
        let OccupiedEntry { shard, slot, key } = self;
        let (k, v) = shard.pair_mut(slot);
        RefMut::new(k, v)
    }

    /// Consumes the view and returns the key with which it was made.
    pub fn into_key(self) -> (key: K)
        ensures
            key == self.key,
            *final(self.shard) == *old(self.shard),
    {
        self.key
    }

    /// Returns a reference to the stored key.
    pub fn key(&self) -> (key: &K)
        requires
            self.wf(),
        ensures
            *key == old(self.shard)@.entries[self.key@].key,
    {
        proof {
            self.shard.lemma_in_slot(self.slot as int);
        }
        &self.shard.map.slots[self.slot].key
    }

    /// Removes the entry and returns the value.
    pub fn remove(self) -> (value: V)
        requires
            self.wf(),
        ensures
            value == old(self.shard)@.entries[self.key@].value,
            final(self.shard).wf(),
            final(self.shard)@ == old(self.shard)@.remove(self.key@),
    {
        self.remove_entry().1
    }

    /// Removes the entry and returns the stored key and the value.
    pub fn remove_entry(self) -> (pair: (K, V))
        requires
            self.wf(),
        ensures
            ({
                let entry = old(self.shard)@.entries[self.key@];
                pair == (entry.key, entry.value)
            }),
            final(self.shard).wf(),
            final(self.shard)@ == old(self.shard)@.remove(self.key@),
    {
        self.shard.remove_slot(self.slot)
    }

    /// Replaces the key by the one with which the view was made and the value by
    /// `value`, and returns the old pair.
    ///
    /// The queue and the frequency stay, so an entry that was promoted to the
    /// main queue stays there.
    pub fn replace_entry(self, value: V) -> (pair: (K, V))
        requires
            self.wf(),
        ensures
            ({
                let entry = old(self.shard)@.entries[self.key@];
                pair == (entry.key, entry.value)
            }),
            final(self.shard).wf(),
            final(self.shard)@ == ({
                let s = old(self.shard)@;
                s.with_entry(
                    self.key@,
                    EntryState { key: self.key, value, ..s.entries[self.key@] },
                )
            }),
    {
        self.shard.replace_slot(self.slot, self.key, value)
    }
}

/// A view into a single entry, which may be occupied or vacant.
pub enum Entry<'a, K, V> {
    /// An occupied entry.
    Occupied(OccupiedEntry<'a, K, V>),
    /// A vacant entry.
    Vacant(VacantEntry<'a, K, V>),
}

impl<'a, K: CacheKey, V> Entry<'a, K, V> {
    /// The view's invariant.
    pub open spec fn wf(&self) -> bool {
        match self {
            Entry::Occupied(entry) => entry.wf(),
            Entry::Vacant(entry) => entry.wf(),
        }
    }

    /// Applies `f` to the value of an occupied entry.
    pub fn and_modify<F: FnOnce(&mut V)>(self, f: F) -> (modified: Self)
        requires
            self.wf(),
            self matches Entry::Occupied(entry) ==> forall|v: &mut V|
                *v == entry.shard@.entries[entry.key@].value ==> #[trigger] call_requires(f, (v,)),
        ensures
            modified.wf(),
            match self {
                Entry::Occupied(entry) => {
                    modified matches Entry::Occupied(after) && {
                        &&& after.key == entry.key
                        &&& *final(after.shard) == *final(entry.shard)
                        &&& exists|v: &mut V, unit: ()| #[trigger]
                            call_ensures(f, (v,), unit)
                                && *v == entry.shard@.entries[entry.key@].value
                                && after.shard@ == entry.shard@.with_value(entry.key@, *final(v))
                    }
                },
                Entry::Vacant(_) => modified == self,
            },
    {
        match self {
            Entry::Occupied(entry) => {
                let mut entry = entry;
                f(entry.get_mut());
                Entry::Occupied(entry)
            },
            Entry::Vacant(entry) => Entry::Vacant(entry),
        }
    }

    /// Returns a reference to the key of the entry: the stored key if it is
    /// occupied.
    pub fn key(&self) -> (key: &K)
        requires
            self.wf(),
        ensures
            match self {
                Entry::Occupied(entry) => *key == entry.shard@.entries[entry.key@].key,
                Entry::Vacant(entry) => *key == entry.key,
            },
    {
        match self {
            Entry::Occupied(entry) => entry.key(),
            Entry::Vacant(entry) => entry.key(),
        }
    }

    /// Consumes the view and returns the key with which it was made.
    pub fn into_key(self) -> (key: K)
        ensures
            match self {
                Entry::Occupied(entry) => key == entry.key && *final(entry.shard) == *entry.shard,
                Entry::Vacant(entry) => key == entry.key && *final(entry.shard) == *entry.shard,
            },
    {
        match self {
            Entry::Occupied(entry) => entry.into_key(),
            Entry::Vacant(entry) => entry.into_key(),
        }
    }

    /// Returns a reference to the value, storing `value` first if the entry is
    /// vacant.
    pub fn or_insert(self, value: V) -> (r: RefMut<'a, K, V>)
        requires
            self.wf(),
        ensures
            match self {
                Entry::Occupied(entry) => {
                    let s = entry.shard@;
                    &&& *r.k == s.entries[entry.key@].key
                    &&& *r.v == s.entries[entry.key@].value
                    &&& final(entry.shard).wf()
                    &&& final(entry.shard)@ == s.with_value(entry.key@, *final(r.v))
                },
                Entry::Vacant(entry) => {
                    let s = entry.shard@;
                    &&& *r.k == entry.key
                    &&& *r.v == value
                    &&& final(entry.shard).wf()
                    &&& final(entry.shard)@ == s.insert_new(entry.hash, entry.key, value).with_value(
                        entry.key@,
                        *final(r.v),
                    )
                },
            },
    {
        match self {
            Entry::Occupied(entry) => entry.into_ref(),
            Entry::Vacant(entry) => entry.insert(value),
        }
    }

    /// Returns a reference to the value, storing the result of `value()` first
    /// if the entry is vacant.
    pub fn or_insert_with<F: FnOnce() -> V>(self, value: F) -> (r: RefMut<'a, K, V>)
        requires
            self.wf(),
            self is Vacant ==> call_requires(value, ()),
        ensures
            match self {
                Entry::Occupied(entry) => {
                    let s = entry.shard@;
                    &&& *r.k == s.entries[entry.key@].key
                    &&& *r.v == s.entries[entry.key@].value
                    &&& final(entry.shard).wf()
                    &&& final(entry.shard)@ == s.with_value(entry.key@, *final(r.v))
                },
                Entry::Vacant(entry) => {
                    let s = entry.shard@;
                    &&& *r.k == entry.key
                    &&& call_ensures(value, (), *r.v)
                    &&& final(entry.shard).wf()
                    &&& final(entry.shard)@ == s.insert_new(entry.hash, entry.key, *r.v).with_value(
                        entry.key@,
                        *final(r.v),
                    )
                },
            },
    {
        match self {
            Entry::Occupied(entry) => entry.into_ref(),
            Entry::Vacant(entry) => entry.insert(value()),
        }
    }

    /// Returns a reference to the value, storing the result of `value()` first
    /// if the entry is vacant. An error of `value()` is handed on, and nothing
    /// is stored.
    pub fn or_try_insert_with<E, F: FnOnce() -> Result<V, E>>(self, value: F) -> (outcome: Result<
        RefMut<'a, K, V>,
        E,
    >)
        requires
            self.wf(),
            self is Vacant ==> call_requires(value, ()),
        ensures
            match self {
                Entry::Occupied(entry) => outcome matches Ok(r) && {
                    let s = entry.shard@;
                    &&& *r.k == s.entries[entry.key@].key
                    &&& *r.v == s.entries[entry.key@].value
                    &&& final(entry.shard).wf()
                    &&& final(entry.shard)@ == s.with_value(entry.key@, *final(r.v))
                },
                Entry::Vacant(entry) => match outcome {
                    Ok(r) => {
                        let s = entry.shard@;
                        &&& *r.k == entry.key
                        &&& call_ensures(value, (), Ok(*r.v))
                        &&& final(entry.shard).wf()
                        &&& final(entry.shard)@ == s.insert_new(
                            entry.hash,
                            entry.key,
                            *r.v,
                        ).with_value(entry.key@, *final(r.v))
                    },
                    Err(error) => {
                        &&& call_ensures(value, (), Err(error))
                        &&& *final(entry.shard) == *entry.shard
                    },
                },
            },
    {
        match self {
            Entry::Occupied(entry) => Ok(entry.into_ref()),
            Entry::Vacant(entry) => match value() {
                Ok(value) => Ok(entry.insert(value)),
                Err(error) => Err(error),
            },
        }
    }

    /// Stores `value`, whether the entry is occupied or vacant, and returns a
    /// reference to it.
    pub fn insert(self, value: V) -> (r: RefMut<'a, K, V>)
        requires
            self.wf(),
        ensures
            *r.v == value,
            match self {
                Entry::Occupied(entry) => {
                    let s = entry.shard@;
                    &&& *r.k == s.entries[entry.key@].key
                    &&& final(entry.shard).wf()
                    &&& final(entry.shard)@ == s.with_value(entry.key@, *final(r.v))
                },
                Entry::Vacant(entry) => {
                    let s = entry.shard@;
                    &&& *r.k == entry.key
                    &&& final(entry.shard).wf()
                    &&& final(entry.shard)@ == s.insert_new(entry.hash, entry.key, value).with_value(
                        entry.key@,
                        *final(r.v),
                    )
                },
            },
    {
        match self {
            Entry::Occupied(entry) => {
                let mut entry = entry;
                let ghost s = entry.shard@;
                let ghost key = entry.key@;
                let _ = entry.insert(value);
                proof {
                    assert forall|last: V| s.with_value(key, value).with_value(key, last) =~= (
                    #[trigger] s.with_value(key, last)) by {}
                }
                entry.into_ref()
            },
            Entry::Vacant(entry) => entry.insert(value),
        }
    }

    /// Stores `value`, whether the entry is occupied or vacant, and views the
    /// entry.
    pub fn insert_entry(self, value: V) -> (occupied: OccupiedEntry<'a, K, V>)
        requires
            self.wf(),
        ensures
            occupied.wf(),
            match self {
                Entry::Occupied(entry) => {
                    &&& occupied.key == entry.key
                    &&& occupied.shard@ == entry.shard@.with_value(entry.key@, value)
                    &&& *final(occupied.shard) == *final(entry.shard)
                },
                Entry::Vacant(entry) => {
                    &&& occupied.key@ == entry.key@
                    &&& occupied.shard@ == entry.shard@.insert_new(
                        entry.hash,
                        entry.key,
                        value,
                    )
                    &&& *final(occupied.shard) == *final(entry.shard)
                },
            },
    {
        match self {
            Entry::Occupied(entry) => {
                let mut entry = entry;
                let _ = entry.insert(value);
                entry
            },
            Entry::Vacant(entry) => entry.insert_entry(value),
        }
    }
}

impl<'a, K: CacheKey, V: Default> Entry<'a, K, V> {
    /// Returns a reference to the value, storing the type's default value first
    /// if the entry is vacant.
    pub fn or_default(self) -> (r: RefMut<'a, K, V>)
        requires
            self.wf(),
        ensures
            match self {
                Entry::Occupied(entry) => {
                    let s = entry.shard@;
                    &&& *r.k == s.entries[entry.key@].key
                    &&& *r.v == s.entries[entry.key@].value
                    &&& final(entry.shard).wf()
                    &&& final(entry.shard)@ == s.with_value(entry.key@, *final(r.v))
                },
                Entry::Vacant(entry) => {
                    let s = entry.shard@;
                    &&& *r.k == entry.key
                    &&& call_ensures(V::default, (), *r.v)
                    &&& final(entry.shard).wf()
                    &&& final(entry.shard)@ == s.insert_new(entry.hash, entry.key, *r.v).with_value(
                        entry.key@,
                        *final(r.v),
                    )
                },
            },
    {
        match self {
            Entry::Occupied(entry) => entry.into_ref(),
            Entry::Vacant(entry) => entry.insert(V::default()),
        }
    }
}

impl<K: CacheKey, V> ShardData<K, V> {
    /// Views the entry under `key`.
    pub fn entry(&mut self, hash: u64, key: K) -> (entry: Entry<'_, K, V>)
        requires
            old(self).wf(),
            old(self)@.knows_as(key@, hash),
            old(self)@.entries.contains_key(key@) || old(self)@.entries.len() < MAX_ENTRIES,
        ensures
            entry.wf(),
            match entry {
                Entry::Occupied(occupied) => {
                    &&& occupied.key == key
                    &&& *occupied.shard == *old(self)
                    &&& *final(occupied.shard) == *final(self)
                },
                Entry::Vacant(vacant) => {
                    &&& vacant.key == key
                    &&& vacant.hash == hash
                    &&& *vacant.shard == *old(self)
                    &&& *final(vacant.shard) == *final(self)
                },
            },
    {
        match self.find(hash, &key) {
            Some(slot) => Entry::Occupied(OccupiedEntry { shard: self, slot, key }),
            None => Entry::Vacant(VacantEntry { shard: self, key, hash }),
        }
    }

    /// Views the entry under `key` in a shard whose lock was asked for without
    /// waiting: `None` if it was not free.
    pub fn try_entry<'a>(shard: Option<&'a mut Self>, hash: u64, key: K) -> (entry: Option<
        Entry<'a, K, V>,
    >)
        requires
            shard matches Some(s) ==> {
                &&& s.wf()
                &&& s@.knows_as(key@, hash)
                &&& s@.entries.contains_key(key@) || s@.entries.len() < MAX_ENTRIES
            },
        ensures
            match shard {
                Some(s) => entry matches Some(e) && e.wf() && match e {
                    Entry::Occupied(occupied) => {
                        &&& occupied.key == key
                        &&& *occupied.shard == *s
                        &&& *final(occupied.shard) == *final(s)
                    },
                    Entry::Vacant(vacant) => {
                        &&& vacant.key == key
                        &&& vacant.hash == hash
                        &&& *vacant.shard == *s
                        &&& *final(vacant.shard) == *final(s)
                    },
                },
                None => entry is None,
            },
    {
        match shard {
            Some(s) => Some(s.entry(hash, key)),
            None => None,
        }
    }
}

} // verus!
