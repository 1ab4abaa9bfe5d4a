//! A cache that is only read.
use crate::cache::NeoCache;
use crate::hashing::{KeyHasher, LookupHasher};
use crate::keys::{CacheKey, Lookup};
use crate::model::lists;
use crate::state::CacheState;
use ahash::RandomState;
use vstd::prelude::*;

verus! {

/// A read-only view into a [`NeoCache`].
///
/// Reads count no accesses, because the underlying map can no longer be written.
pub struct ReadOnlyView<K, V, S = RandomState> {
    pub(crate) map: NeoCache<K, V, S>,
}

impl<K: CacheKey, V, S: KeyHasher<K>> ReadOnlyView<K, V, S> {
    /// The map that is read.
    pub closed spec fn source(&self) -> NeoCache<K, V, S> {
        self.map
    }

    /// What the map holds.
    pub open spec fn state(&self) -> CacheState<K, V, S> {
        self.source().state()
    }

    /// The view's invariant.
    pub open spec fn wf(&self) -> bool {
        self.source().wf()
    }

    pub(crate) fn new(map: NeoCache<K, V, S>) -> (view: Self)
        ensures
            view.source() == map,
    {
        Self { map }
    }

    /// Recovers the inner [`NeoCache`].
    pub fn into_inner(self) -> (map: NeoCache<K, V, S>)
        ensures
            map == self.source(),
    {
        self.map
    }

    /// Returns the number of entries in the view.
    pub fn len(&self) -> (len: usize)
        requires
            self.wf(),
        ensures
            len == self.state().len(),
    {
        self.map.len()
    }

    /// Returns `true` if the view contains no entries.
    pub fn is_empty(&self) -> (empty: bool)
        requires
            self.wf(),
        ensures
            empty == (self.state().len() == 0),
    {
        self.map.is_empty()
    }

    /// Returns the current allocation capacity: the sum of the shards' capacities,
    /// capped at the largest machine number. Each shard has room for its entries at
    /// least; how much more is the allocator's affair.
    pub fn capacity(&self) -> (capacity: usize)
        requires
            self.wf(),
        ensures
            self.state().has_room_in(capacity),
            capacity >= self.state().len(),
    {
        self.map.capacity()
    }

    /// Returns `true` if the view contains an entry for `key`.
    pub fn contains_key<Q: Lookup<K> + ?Sized>(&self, key: &Q) -> (contains: bool) where
        S: LookupHasher<K, Q>,

        requires
            self.wf(),
        ensures
            contains == self.state().contains(key@),
    {
        self.get(key).is_some()
    }

    /// Returns a shared reference to the value for `key`, or `None`.
    pub fn get<Q: Lookup<K> + ?Sized>(&self, key: &Q) -> (found: Option<&V>) where
        S: LookupHasher<K, Q>,

        requires
            self.wf(),
        ensures
            match found {
                Some(v) => self.state().contains(key@) && *v == self.state().entry(key@).value,
                None => !self.state().contains(key@),
            },
    {
        match self.get_key_value(key) {
            Some((_k, v)) => Some(v),
            None => None,
        }
    }

    /// Returns a `(&key, &value)` pair for `key`, or `None`.
    pub fn get_key_value<Q: Lookup<K> + ?Sized>(&self, key: &Q) -> (found: Option<(&K, &V)>) where
        S: LookupHasher<K, Q>,

        requires
            self.wf(),
        ensures
            match found {
                Some((k, v)) => {
                    &&& self.state().contains(key@)
                    &&& *k == self.state().entry(key@).key
                    &&& *v == self.state().entry(key@).value
                },
                None => !self.state().contains(key@),
            },
    {
        self.map.peek(key)
    }

    /// Lists all `(&key, &value)` pairs.
    pub fn iter(&self) -> (pairs: Vec<(&K, &V)>)
        requires
            self.wf(),
        ensures
            pairs@.len() == self.source().pairs().len(),
            forall|i: int|
                0 <= i < pairs@.len() ==> (*(#[trigger] pairs@[i]).0, *pairs@[i].1)
                    == self.source().pairs()[i],
            pairs@.len() == self.state().len(),
            lists(self.source().pairs(), self.state().entries()),
    {
        proof {
            self.map.lemma_pairs();
        }
        self.map.list()
    }

    /// Lists all keys, in the order of [`iter`](Self::iter).
    pub fn keys(&self) -> (keys: Vec<&K>)
        requires
            self.wf(),
        ensures
            keys@.len() == self.source().pairs().len(),
            forall|i: int|
                0 <= i < keys@.len() ==> *(#[trigger] keys@[i]) == self.source().pairs()[i].0,
            lists(self.source().pairs(), self.state().entries()),
    {
        let pairs = self.iter();
        let mut keys: Vec<&K> = Vec::new();
        let mut i: usize = 0;
        while i < pairs.len()
            invariant
                i <= pairs@.len(),
                keys@.len() == i,
                forall|j: int| 0 <= j < i ==> *(#[trigger] keys@[j]) == *pairs@[j].0,
            decreases pairs@.len() - i,
        {
            keys.push(pairs[i].0);
            i = i + 1;
        }
        keys
    }

    /// Lists all values, in the order of [`iter`](Self::iter).
    pub fn values(&self) -> (values: Vec<&V>)
        requires
            self.wf(),
        ensures
            values@.len() == self.source().pairs().len(),
            forall|i: int|
                0 <= i < values@.len() ==> *(#[trigger] values@[i]) == self.source().pairs()[i].1,
            lists(self.source().pairs(), self.state().entries()),
    {
        let pairs = self.iter();
        let mut values: Vec<&V> = Vec::new();
        let mut i: usize = 0;
        while i < pairs.len()
            invariant
                i <= pairs@.len(),
                values@.len() == i,
                forall|j: int| 0 <= j < i ==> *(#[trigger] values@[j]) == *pairs@[j].1,
            decreases pairs@.len() - i,
        {
            values.push(pairs[i].1);
            i = i + 1;
        }
        values
    }
}

impl<K: CacheKey, V: Clone, S: KeyHasher<K>> Clone for ReadOnlyView<K, V, S> {
    fn clone(&self) -> (copy: Self)
        ensures
            self.wf() ==> copy.wf() && self.state().copied_to(copy.state()),
    {
        Self { map: self.map.clone() }
    }
}

impl<K: CacheKey, V, S: KeyHasher<K>> NeoCache<K, V, S> {
    /// Converts the map into a [`ReadOnlyView`], consuming it.
    pub fn into_read_only(self) -> (view: ReadOnlyView<K, V, S>)
        ensures
            view.source() == self,
    {
        ReadOnlyView::new(self)
    }
}

} // verus!
