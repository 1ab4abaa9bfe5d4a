//! Keys of a cache: how they are compared and copied.
use vstd::prelude::*;

verus! {

/// A type whose values can be the keys of a cache.
///
/// Two keys name the same entry exactly when their views are equal. The cache
/// stores a key twice, in the table and in an eviction queue, so a key can be
/// duplicated.
pub trait CacheKey: View + Sized {
    /// Tells whether the two keys name the same entry.
    fn same_key(&self, other: &Self) -> (same: bool)
        ensures
            same == (self@ == other@),
    ;

    /// Returns a second copy of the key.
    fn duplicate(&self) -> (copy: Self)
        ensures
            copy@ == self@,
    ;
}

/// A value that names a key of type `K` in a lookup: a key names itself, and a
/// slice names the string or the vector that holds the same.
pub trait Lookup<K: CacheKey>: View<V = K::V> {
    /// Tells whether `key` is the key that this value names.
    fn names(&self, key: &K) -> (same: bool)
        ensures
            same == (self@ == key@),
    ;
}

impl<K: CacheKey> Lookup<K> for K {
    fn names(&self, key: &K) -> (same: bool) {
        self.same_key(key)
    }
}

impl CacheKey for u8 {
    fn same_key(&self, other: &Self) -> (same: bool) {
        *self == *other
    }

    fn duplicate(&self) -> (copy: Self) {
        *self
    }
}

impl CacheKey for u16 {
    fn same_key(&self, other: &Self) -> (same: bool) {
        *self == *other
    }

    fn duplicate(&self) -> (copy: Self) {
        *self
    }
}

impl CacheKey for u32 {
    fn same_key(&self, other: &Self) -> (same: bool) {
        *self == *other
    }

    fn duplicate(&self) -> (copy: Self) {
        *self
    }
}

impl CacheKey for u64 {
    fn same_key(&self, other: &Self) -> (same: bool) {
        *self == *other
    }

    fn duplicate(&self) -> (copy: Self) {
        *self
    }
}

impl CacheKey for u128 {
    fn same_key(&self, other: &Self) -> (same: bool) {
        *self == *other
    }

    fn duplicate(&self) -> (copy: Self) {
        *self
    }
}

impl CacheKey for usize {
    fn same_key(&self, other: &Self) -> (same: bool) {
        *self == *other
    }

    fn duplicate(&self) -> (copy: Self) {
        *self
    }
}

impl CacheKey for i8 {
    fn same_key(&self, other: &Self) -> (same: bool) {
        *self == *other
    }

    fn duplicate(&self) -> (copy: Self) {
        *self
    }
}

impl CacheKey for i16 {
    fn same_key(&self, other: &Self) -> (same: bool) {
        *self == *other
    }

    fn duplicate(&self) -> (copy: Self) {
        *self
    }
}

impl CacheKey for i32 {
    fn same_key(&self, other: &Self) -> (same: bool) {
        *self == *other
    }

    fn duplicate(&self) -> (copy: Self) {
        *self
    }
}

impl CacheKey for i64 {
    fn same_key(&self, other: &Self) -> (same: bool) {
        *self == *other
    }

    fn duplicate(&self) -> (copy: Self) {
        *self
    }
}

impl CacheKey for i128 {
    fn same_key(&self, other: &Self) -> (same: bool) {
        *self == *other
    }

    fn duplicate(&self) -> (copy: Self) {
        *self
    }
}

impl CacheKey for isize {
    fn same_key(&self, other: &Self) -> (same: bool) {
        *self == *other
    }

    fn duplicate(&self) -> (copy: Self) {
        *self
    }
}

impl CacheKey for bool {
    fn same_key(&self, other: &Self) -> (same: bool) {
        *self == *other
    }

    fn duplicate(&self) -> (copy: Self) {
        *self
    }
}

impl CacheKey for char {
    fn same_key(&self, other: &Self) -> (same: bool) {
        *self == *other
    }

    fn duplicate(&self) -> (copy: Self) {
        *self
    }
}

impl CacheKey for String {
    fn same_key(&self, other: &Self) -> (same: bool) {
        *self == *other
    }

    fn duplicate(&self) -> (copy: Self) {
        self.clone()
    }
}

/// Compares two string slices with `<str as PartialEq>::eq`: it answers `true`
/// exactly when the slices hold the same characters in the same order.
#[verifier::external_body]
fn str_eq(left: &str, right: &str) -> (same: bool)
    ensures
        same == (left@ == right@),
{
    left == right
}

impl Lookup<String> for str {
    fn names(&self, key: &String) -> (same: bool) {
        str_eq(self, key.as_str())
    }
}

impl Lookup<&'static str> for str {
    fn names(&self, key: &&'static str) -> (same: bool) {
        str_eq(self, *key)
    }
}

impl CacheKey for &'static str {
    fn same_key(&self, other: &Self) -> (same: bool) {
        str_eq(*self, *other)
    }

    fn duplicate(&self) -> (copy: Self) {
        *self
    }
}

/// Tells whether the two slices hold the same bytes in the same order.
fn bytes_eq(left: &[u8], right: &[u8]) -> (same: bool)
    ensures
        same == (left@ == right@),
{
    if left.len() != right.len() {
        return false;
    }
    let mut i: usize = 0;
    while i < left.len()
        invariant
            i <= left@.len(),
            left@.len() == right@.len(),
            forall|j: int| 0 <= j < i ==> left@[j] == right@[j],
        decreases left@.len() - i,
    {
        if left[i] != right[i] {
            return false;
        }
        i = i + 1;
    }
    assert(left@ =~= right@);
    true
}

impl CacheKey for Vec<u8> {
    fn same_key(&self, other: &Self) -> (same: bool) {
        bytes_eq(self.as_slice(), other.as_slice())
    }

    fn duplicate(&self) -> (copy: Self) {
        let copy = self.clone();
        assert(copy@ =~= self@);
        copy
    }
}

impl Lookup<Vec<u8>> for [u8] {
    fn names(&self, key: &Vec<u8>) -> (same: bool) {
        bytes_eq(self, key.as_slice())
    }
}

impl<A: CacheKey, B: CacheKey> CacheKey for (A, B) {
    fn same_key(&self, other: &Self) -> (same: bool) {
        self.0.same_key(&other.0) && self.1.same_key(&other.1)
    }

    fn duplicate(&self) -> (copy: Self) {
        (self.0.duplicate(), self.1.duplicate())
    }
}

impl<A: CacheKey, B: CacheKey, C: CacheKey> CacheKey for (A, B, C) {
    fn same_key(&self, other: &Self) -> (same: bool) {
        self.0.same_key(&other.0) && self.1.same_key(&other.1) && self.2.same_key(&other.2)
    }

    fn duplicate(&self) -> (copy: Self) {
        (self.0.duplicate(), self.1.duplicate(), self.2.duplicate())
    }
}

} // verus!
