//! Operators on a cache: `<<` inserts, `>>` gets, `|` gets for writing, `-`
//! removes, and `&` tells whether a key is there.
use crate::cache::NeoCache;
use crate::hashing::{KeyHasher, LookupHasher};
use crate::index::MAX_ENTRIES;
use crate::keys::{CacheKey, Lookup};
use crate::mapref::one::{Ref, RefMut};
use core::ops::{BitAnd, BitOr, Shl, Shr, Sub};
use vstd::prelude::*;
use vstd::std_specs::ops::{BitAndSpecImpl, BitOrSpecImpl, ShlSpecImpl, ShrSpecImpl, SubSpecImpl};

verus! {

impl<'a, K: CacheKey, V, S: KeyHasher<K>> ShlSpecImpl<(K, V)> for &'a mut NeoCache<K, V, S> {
    open spec fn obeys_shl_spec() -> bool {
        true
    }

    open spec fn shl_req(self, pair: (K, V)) -> bool {
        &&& self.wf()
        &&& self.state().contains(pair.0@) || self.state().len() < MAX_ENTRIES
    }

    open spec fn shl_spec(self, pair: (K, V)) -> Option<V> {
        if self.state().contains(pair.0@) {
            Some(self.state().entry(pair.0@).value)
        } else {
            None
        }
    }
}

impl<'a, K: CacheKey, V, S: KeyHasher<K>> Shl<(K, V)> for &'a mut NeoCache<K, V, S> {
    type Output = Option<V>;

    /// Inserts the pair.
    fn shl(self, pair: (K, V)) -> (old_value: Option<V>)
        ensures
            final(self).wf(),
            final(self).state() == old(self).state().insert(pair.0, pair.1),
            old_value == (if old(self).state().contains(pair.0@) {
                Some(old(self).state().entry(pair.0@).value)
            } else {
                None
            }),
    {
        self.insert(pair.0, pair.1)
    }
}

impl<'a, K: CacheKey, V, S: KeyHasher<K>, Q: Lookup<K> + ?Sized> ShrSpecImpl<&Q> for &'a mut NeoCache<
    K,
    V,
    S,
> where S: LookupHasher<K, Q> {
    open spec fn obeys_shr_spec() -> bool {
        true
    }

    open spec fn shr_req(self, key: &Q) -> bool {
        &&& self.wf()
        &&& self.state().contains(key@)
    }

    open spec fn shr_spec(self, key: &Q) -> Ref<'a, K, V> {
        Ref { k: &self.state().entry(key@).key, v: &self.state().entry(key@).value }
    }
}

impl<'a, K: CacheKey, V, S: KeyHasher<K>, Q: Lookup<K> + ?Sized> Shr<&Q> for &'a mut NeoCache<
    K,
    V,
    S,
> where S: LookupHasher<K, Q> {
    type Output = Ref<'a, K, V>;

    /// Gets the entry of a stored key.
    fn shr(self, key: &Q) -> (r: Ref<'a, K, V>)
        ensures
            final(self).wf(),
            final(self).state() == old(self).state().bump(key@),
            *r.k == old(self).state().entry(key@).key,
            *r.v == old(self).state().entry(key@).value,
    {
        self.get(key).unwrap()
    }
}

impl<'a, K: CacheKey, V, S: KeyHasher<K>, Q: Lookup<K> + ?Sized> BitOrSpecImpl<&Q> for &'a mut NeoCache<
    K,
    V,
    S,
> where S: LookupHasher<K, Q> {
    open spec fn obeys_bitor_spec() -> bool {
        false
    }

    open spec fn bitor_req(self, key: &Q) -> bool {
        &&& self.wf()
        &&& self.state().contains(key@)
    }

    open spec fn bitor_spec(self, key: &Q) -> RefMut<'a, K, V> {
        arbitrary()
    }
}

impl<'a, K: CacheKey, V, S: KeyHasher<K>, Q: Lookup<K> + ?Sized> BitOr<&Q> for &'a mut NeoCache<
    K,
    V,
    S,
> where S: LookupHasher<K, Q> {
    type Output = RefMut<'a, K, V>;

    /// Gets the entry of a stored key for writing.
    fn bitor(self, key: &Q) -> (r: RefMut<'a, K, V>)
        ensures
            final(self).wf(),
            *r.k == old(self).state().entry(key@).key,
            *r.v == old(self).state().entry(key@).value,
            final(self).state() == old(self).state().bump(key@).with_value(key@, *final(r.v)),
    {
        self.get_mut(key).unwrap()
    }
}

impl<'a, K: CacheKey, V, S: KeyHasher<K>, Q: Lookup<K> + ?Sized> SubSpecImpl<&Q> for &'a mut NeoCache<
    K,
    V,
    S,
> where S: LookupHasher<K, Q> {
    open spec fn obeys_sub_spec() -> bool {
        true
    }

    open spec fn sub_req(self, key: &Q) -> bool {
        self.wf()
    }

    open spec fn sub_spec(self, key: &Q) -> Option<(K, V)> {
        if self.state().contains(key@) {
            Some((self.state().entry(key@).key, self.state().entry(key@).value))
        } else {
            None
        }
    }
}

impl<'a, K: CacheKey, V, S: KeyHasher<K>, Q: Lookup<K> + ?Sized> Sub<&Q> for &'a mut NeoCache<
    K,
    V,
    S,
> where S: LookupHasher<K, Q> {
    type Output = Option<(K, V)>;

    /// Removes the entry of a key.
    fn sub(self, key: &Q) -> (removed: Option<(K, V)>)
        ensures
            final(self).wf(),
            final(self).state() == old(self).state().remove(key@),
            removed == (if old(self).state().contains(key@) {
                let entry = old(self).state().entry(key@);
                Some((entry.key, entry.value))
            } else {
                None
            }),
    {
        self.remove(key)
    }
}

impl<'a, K: CacheKey, V, S: KeyHasher<K>, Q: Lookup<K> + ?Sized> BitAndSpecImpl<&Q> for &'a mut NeoCache<
    K,
    V,
    S,
> where S: LookupHasher<K, Q> {
    open spec fn obeys_bitand_spec() -> bool {
        true
    }

    open spec fn bitand_req(self, key: &Q) -> bool {
        self.wf()
    }

    open spec fn bitand_spec(self, key: &Q) -> bool {
        self.state().contains(key@)
    }
}

impl<'a, K: CacheKey, V, S: KeyHasher<K>, Q: Lookup<K> + ?Sized> BitAnd<&Q> for &'a mut NeoCache<
    K,
    V,
    S,
> where S: LookupHasher<K, Q> {
    type Output = bool;

    /// Tells whether a key is stored.
    fn bitand(self, key: &Q) -> (contains: bool)
        ensures
            final(self).wf(),
            final(self).state() == old(self).state().bump(key@),
            contains == old(self).state().contains(key@),
    {
        self.contains_key(key)
    }
}

} // verus!
