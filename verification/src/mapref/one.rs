//! References to single entries.
use std::marker::PhantomData;
use std::ops::{Deref, DerefMut};
use vstd::prelude::*;

verus! {

/// A shared reference to an entry.
#[derive(Debug)]
pub struct Ref<'a, K, V> {
    pub k: &'a K,
    pub v: &'a V,
}

impl<'a, K, V> Ref<'a, K, V> {
    /// Refers to an entry by its key and its value.
    pub fn new(k: &'a K, v: &'a V) -> (r: Self)
        ensures
            r.k == k,
            r.v == v,
    {
        Self { k, v }
    }

    /// Returns a reference to the key.
    pub fn key(&self) -> (k: &K)
        ensures
            *k == *self.k,
    {
        self.pair().0
    }

    /// Returns a reference to the value.
    pub fn value(&self) -> (v: &V)
        ensures
            *v == *self.v,
    {
        self.pair().1
    }

    /// Returns a `(&key, &value)` tuple.
    pub fn pair(&self) -> (pair: (&K, &V))
        ensures
            *pair.0 == *self.k,
            *pair.1 == *self.v,
    {
        (self.k, self.v)
    }

    /// Projects the value through `f`.
    pub fn map<F, T>(self, f: F) -> (mapped: MappedRef<'a, K, V, T>) where F: FnOnce(&V) -> &T
        requires
            call_requires(f, (self.v,)),
        ensures
            mapped.k == self.k,
            call_ensures(f, (self.v,), mapped.v),
    {
        MappedRef { k: self.k, v: f(self.v), marker: PhantomData }
    }

    /// Projects the value through `f`, or gives the reference back where `f`
    /// returns `None`.
    pub fn try_map<F, T>(self, f: F) -> (outcome: Result<MappedRef<'a, K, V, T>, Self>) where
        F: FnOnce(&V) -> Option<&T>,

        requires
            call_requires(f, (self.v,)),
        ensures
            match outcome {
                Ok(mapped) => {
                    &&& mapped.k == self.k
                    &&& call_ensures(f, (self.v,), Some(mapped.v))
                },
                Err(r) => r == self && call_ensures(f, (self.v,), None),
            },
    {
        match f(self.v) {
            Some(v) => Ok(MappedRef { k: self.k, v, marker: PhantomData }),
            None => Err(self),
        }
    }
}

impl<'a, K, V> Deref for Ref<'a, K, V> {
    type Target = V;

    fn deref(&self) -> (v: &V)
        ensures
            *v == *self.v,
    {
        self.value()
    }
}

/// A mutable reference to an entry.
#[derive(Debug)]
pub struct RefMut<'a, K, V> {
    pub k: &'a K,
    pub v: &'a mut V,
}

impl<'a, K, V> RefMut<'a, K, V> {
    /// Refers to an entry by its key and its value.
    pub fn new(k: &'a K, v: &'a mut V) -> (r: Self)
        ensures
            r.k == k,
            *r.v == *old(v),
            *final(r.v) == *final(v),
    {
        Self { k, v }
    }

    /// Returns a reference to the key.
    pub fn key(&self) -> (k: &K)
        ensures
            *k == *self.k,
    {
        self.pair().0
    }

    /// Returns a reference to the value.
    pub fn value(&self) -> (v: &V)
        ensures
            *v == *old(self.v),
    {
        self.pair().1
    }

    /// Returns a mutable reference to the value.
    pub fn value_mut(&mut self) -> (v: &mut V)
        ensures
            *v == *old(self).v,
            final(self).k == old(self).k,
            *final(self).v == *final(v),
            *final(final(self).v) == *final(old(self).v),
    {
        self.pair_mut().1
    }

    /// Returns a `(&key, &value)` tuple.
    pub fn pair(&self) -> (pair: (&K, &V))
        ensures
            *pair.0 == *self.k,
            *pair.1 == *old(self.v),
    {
        (self.k, &*self.v)
    }

    /// Returns a `(&key, &mut value)` tuple.
    pub fn pair_mut(&mut self) -> (pair: (&K, &mut V))
        ensures
            *pair.0 == *old(self).k,
            *pair.1 == *old(self).v,
            final(self).k == old(self).k,
            *final(self).v == *final(pair.1),
            *final(final(self).v) == *final(old(self).v),
    {
        (self.k, &mut *self.v)
    }

    /// Turns the reference into a shared one. The value can no longer be written
    /// through it.
    pub fn downgrade(self) -> (r: Ref<'a, K, V>)
        ensures
            r.k == self.k,
            *r.v == *old(self.v),
            *final(self.v) == *old(self.v),
    {
        Ref::new(self.k, &*self.v)
    }

    /// Projects the value through `f`.
    pub fn map<F, T>(self, f: F) -> (mapped: MappedRefMut<'a, K, V, T>) where
        F: FnOnce(&'a mut V) -> &'a mut T,

        requires
            forall|v: &'a mut V| *v == *self.v ==> #[trigger] call_requires(f, (v,)),
        ensures
            mapped.k == self.k,
            exists|v: &'a mut V, part: &'a mut T| #[trigger]
                call_ensures(f, (v,), part) && *v == *old(self.v) && *final(v) == *final(self.v)
                    && *mapped.v == *part && *final(mapped.v) == *final(part),
    {
        MappedRefMut { k: self.k, v: f(self.v), marker: PhantomData }
    }

    /// Projects the value through `f`, or gives the reference back where `f`
    /// hands the value back.
    pub fn try_map<F, T>(self, f: F) -> (outcome: Result<MappedRefMut<'a, K, V, T>, Self>) where
        F: FnOnce(&'a mut V) -> Result<&'a mut T, &'a mut V>,

        requires
            forall|v: &'a mut V| *v == *self.v ==> #[trigger] call_requires(f, (v,)),
        ensures
            match outcome {
                Ok(mapped) => {
                    &&& mapped.k == self.k
                    &&& exists|v: &'a mut V, part: &'a mut T| #[trigger]
                        call_ensures(f, (v,), Ok(part)) && *v == *old(self.v) && *final(v)
                            == *final(self.v) && *mapped.v == *part && *final(mapped.v) == *final(part)
                },
                Err(r) => {
                    &&& r.k == self.k
                    &&& exists|v: &'a mut V, back: &'a mut V| #[trigger]
                        call_ensures(f, (v,), Err(back)) && *v == *old(self.v) && *final(v)
                            == *final(self.v) && *r.v == *back && *final(r.v) == *final(back)
                },
            },
    {
        let RefMut { k, v } = self;
        match f(v) {
            Ok(part) => Ok(MappedRefMut { k, v: part, marker: PhantomData }),
            Err(back) => Err(RefMut { k, v: back }),
        }
    }
}

impl<'a, K, V> DerefMut for RefMut<'a, K, V> {
    fn deref_mut(&mut self) -> (v: &mut V)
        ensures
            *v == *old(self).v,
            final(self).k == old(self).k,
            *final(self).v == *final(v),
            *final(final(self).v) == *final(old(self).v),
    {
        self.value_mut()
    }
}

impl<'a, K, V> Deref for RefMut<'a, K, V> {
    type Target = V;

    fn deref(&self) -> (v: &V)
        ensures
            *v == *old(self.v),
    {
        self.value()
    }
}

/// A shared reference to a part of an entry's value.
#[derive(Debug)]
pub struct MappedRef<'a, K, V, T> {
    pub k: &'a K,
    pub v: &'a T,
    pub marker: PhantomData<V>,
}

impl<'a, K, V, T> MappedRef<'a, K, V, T> {
    /// Returns a reference to the key.
    pub fn key(&self) -> (k: &K)
        ensures
            *k == *self.k,
    {
        self.pair().0
    }

    /// Returns a reference to the projected value.
    pub fn value(&self) -> (v: &T)
        ensures
            *v == *self.v,
    {
        self.pair().1
    }

    /// Returns a `(&key, &projected_value)` tuple.
    pub fn pair(&self) -> (pair: (&K, &T))
        ensures
            *pair.0 == *self.k,
            *pair.1 == *self.v,
    {
        (self.k, self.v)
    }

    /// Projects further through `f`.
    pub fn map<F, T2>(self, f: F) -> (mapped: MappedRef<'a, K, V, T2>) where F: FnOnce(&T) -> &T2
        requires
            call_requires(f, (self.v,)),
        ensures
            mapped.k == self.k,
            call_ensures(f, (self.v,), mapped.v),
    {
        MappedRef { k: self.k, v: f(self.v), marker: PhantomData }
    }

    /// Projects further through `f`, or gives the reference back where `f`
    /// returns `None`.
    pub fn try_map<F, T2>(self, f: F) -> (outcome: Result<MappedRef<'a, K, V, T2>, Self>) where
        F: FnOnce(&T) -> Option<&T2>,

        requires
            call_requires(f, (self.v,)),
        ensures
            match outcome {
                Ok(mapped) => {
                    &&& mapped.k == self.k
                    &&& call_ensures(f, (self.v,), Some(mapped.v))
                },
                Err(r) => r == self && call_ensures(f, (self.v,), None),
            },
    {
        match f(self.v) {
            Some(v) => Ok(MappedRef { k: self.k, v, marker: PhantomData }),
            None => Err(self),
        }
    }
}

impl<'a, K, V, T> Deref for MappedRef<'a, K, V, T> {
    type Target = T;

    fn deref(&self) -> (v: &T)
        ensures
            *v == *self.v,
    {
        self.value()
    }
}

/// A mutable reference to a part of an entry's value.
#[derive(Debug)]
pub struct MappedRefMut<'a, K, V, T> {
    pub k: &'a K,
    pub v: &'a mut T,
    pub marker: PhantomData<V>,
}

impl<'a, K, V, T> MappedRefMut<'a, K, V, T> {
    /// Returns a reference to the key.
    pub fn key(&self) -> (k: &K)
        ensures
            *k == *self.k,
    {
        self.pair().0
    }

    /// Returns a reference to the projected value.
    pub fn value(&self) -> (v: &T)
        ensures
            *v == *old(self.v),
    {
        self.pair().1
    }

    /// Returns a mutable reference to the projected value.
    pub fn value_mut(&mut self) -> (v: &mut T)
        ensures
            *v == *old(self).v,
            final(self).k == old(self).k,
            *final(self).v == *final(v),
            *final(final(self).v) == *final(old(self).v),
    {
        self.pair_mut().1
    }

    /// Returns a `(&key, &projected_value)` tuple.
    pub fn pair(&self) -> (pair: (&K, &T))
        ensures
            *pair.0 == *self.k,
            *pair.1 == *old(self.v),
    {
        (self.k, &*self.v)
    }

    /// Returns a `(&key, &mut projected_value)` tuple.
    pub fn pair_mut(&mut self) -> (pair: (&K, &mut T))
        ensures
            *pair.0 == *old(self).k,
            *pair.1 == *old(self).v,
            final(self).k == old(self).k,
            *final(self).v == *final(pair.1),
            *final(final(self).v) == *final(old(self).v),
    {
        (self.k, &mut *self.v)
    }

    /// Projects further through `f`.
    pub fn map<F, T2>(self, f: F) -> (mapped: MappedRefMut<'a, K, V, T2>) where
        F: FnOnce(&'a mut T) -> &'a mut T2,

        requires
            forall|v: &'a mut T| *v == *self.v ==> #[trigger] call_requires(f, (v,)),
        ensures
            mapped.k == self.k,
            exists|v: &'a mut T, part: &'a mut T2| #[trigger]
                call_ensures(f, (v,), part) && *v == *old(self.v) && *final(v) == *final(self.v)
                    && *mapped.v == *part && *final(mapped.v) == *final(part),
    {
        MappedRefMut { k: self.k, v: f(self.v), marker: PhantomData }
    }

    /// Projects further through `f`, or gives the reference back where `f`
    /// hands the value back.
    pub fn try_map<F, T2>(self, f: F) -> (outcome: Result<MappedRefMut<'a, K, V, T2>, Self>) where
        F: FnOnce(&'a mut T) -> Result<&'a mut T2, &'a mut T>,

        requires
            forall|v: &'a mut T| *v == *self.v ==> #[trigger] call_requires(f, (v,)),
        ensures
            match outcome {
                Ok(mapped) => {
                    &&& mapped.k == self.k
                    &&& exists|v: &'a mut T, part: &'a mut T2| #[trigger]
                        call_ensures(f, (v,), Ok(part)) && *v == *old(self.v) && *final(v)
                            == *final(self.v) && *mapped.v == *part && *final(mapped.v) == *final(part)
                },
                Err(r) => {
                    &&& r.k == self.k
                    &&& exists|v: &'a mut T, back: &'a mut T| #[trigger]
                        call_ensures(f, (v,), Err(back)) && *v == *old(self.v) && *final(v)
                            == *final(self.v) && *r.v == *back && *final(r.v) == *final(back)
                },
            },
    {
        let MappedRefMut { k, v, marker } = self;
        match f(v) {
            Ok(part) => Ok(MappedRefMut { k, v: part, marker }),
            Err(back) => Err(MappedRefMut { k, v: back, marker }),
        }
    }
}

impl<'a, K, V, T> DerefMut for MappedRefMut<'a, K, V, T> {
    fn deref_mut(&mut self) -> (v: &mut T)
        ensures
            *v == *old(self).v,
            final(self).k == old(self).k,
            *final(self).v == *final(v),
            *final(final(self).v) == *final(old(self).v),
    {
        self.value_mut()
    }
}

impl<'a, K, V, T> Deref for MappedRefMut<'a, K, V, T> {
    type Target = T;

    fn deref(&self) -> (v: &T)
        ensures
            *v == *old(self.v),
    {
        self.value()
    }
}

} // verus!
