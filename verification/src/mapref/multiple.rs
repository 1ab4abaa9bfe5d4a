//! References to the entries that an iteration meets.
use std::ops::{Deref, DerefMut};
use vstd::prelude::*;

verus! {

/// A shared reference to an entry, from an iteration over all entries.
pub struct RefMulti<'a, K, V> {
    pub k: &'a K,
    pub v: &'a V,
}

impl<'a, K, V> RefMulti<'a, K, V> {
    /// Refers to an entry by its key and its value.
    pub fn new(k: &'a K, v: &'a V) -> (r: Self)
        ensures
            r.k == k,
            r.v == v,
    {
        Self { k, v }
    }

    /// Returns a reference to the key.
    pub fn key(&self) -> (k: &K)
        ensures
            *k == *self.k,
    {
        self.pair().0
    }

    /// Returns a reference to the value.
    pub fn value(&self) -> (v: &V)
        ensures
            *v == *self.v,
    {
        self.pair().1
    }

    /// Returns a `(&key, &value)` tuple.
    pub fn pair(&self) -> (pair: (&K, &V))
        ensures
            *pair.0 == *self.k,
            *pair.1 == *self.v,
    {
        (self.k, self.v)
    }
}

impl<'a, K, V> Deref for RefMulti<'a, K, V> {
    type Target = V;

    fn deref(&self) -> (v: &V)
        ensures
            *v == *self.v,
    {
        self.value()
    }
}

/// A mutable reference to an entry, from an iteration over all entries.
pub struct RefMutMulti<'a, K, V> {
    pub k: &'a K,
    pub v: &'a mut V,
}

impl<'a, K, V> RefMutMulti<'a, K, V> {
    /// Refers to an entry by its key and its value.
    pub fn new(k: &'a K, v: &'a mut V) -> (r: Self)
        ensures
            r.k == k,
            *r.v == *old(v),
            *final(r.v) == *final(v),
    {
        Self { k, v }
    }

    /// Returns a reference to the key.
    pub fn key(&self) -> (k: &K)
        ensures
            *k == *self.k,
    {
        self.pair().0
    }

    /// Returns a shared reference to the value.
    pub fn value(&self) -> (v: &V)
        ensures
            *v == *old(self.v),
    {
        self.pair().1
    }

    /// Returns a mutable reference to the value.
    pub fn value_mut(&mut self) -> (v: &mut V)
        ensures
            *v == *old(self).v,
            final(self).k == old(self).k,
            *final(self).v == *final(v),
            *final(final(self).v) == *final(old(self).v),
    {
        self.pair_mut().1
    }

    /// Returns a `(&key, &value)` tuple.
    pub fn pair(&self) -> (pair: (&K, &V))
        ensures
            *pair.0 == *self.k,
            *pair.1 == *old(self.v),
    {
        (self.k, &*self.v)
    }

    /// Returns a `(&key, &mut value)` tuple.
    pub fn pair_mut(&mut self) -> (pair: (&K, &mut V))
        ensures
            *pair.0 == *old(self).k,
            *pair.1 == *old(self).v,
            final(self).k == old(self).k,
            *final(self).v == *final(pair.1),
            *final(final(self).v) == *final(old(self).v),
    {
        (self.k, &mut *self.v)
    }
}

impl<'a, K, V> DerefMut for RefMutMulti<'a, K, V> {
    fn deref_mut(&mut self) -> (v: &mut V)
        ensures
            *v == *old(self).v,
            final(self).k == old(self).k,
            *final(self).v == *final(v),
            *final(final(self).v) == *final(old(self).v),
    {
        self.value_mut()
    }
}

impl<'a, K, V> Deref for RefMutMulti<'a, K, V> {
    type Target = V;

    fn deref(&self) -> (v: &V)
        ensures
            *v == *old(self.v),
    {
        self.value()
    }
}

} // verus!
