//! Key types, and the small helper types.
use neocache::hashing::{HashImage, KeyHasher};
use neocache::keys::CacheKey;
use neocache::mapref::multiple::{RefMulti, RefMutMulti};
use neocache::mapref::one::{Ref, RefMut};
use neocache::try_result::TryResult;
use neocache::util::{div_ceil, map_in_place_2, ptr_size_bits, CacheEntry, SharedValue};
use neocache::util::{LOC_MAIN, LOC_SMALL, MAX_FREQ};
use neocache::NeoCache;
use std::fmt::Debug;

/// Stores different keys, finds each of them, and removes them again.
fn store_and_find<K: HashImage + CacheKey + Debug + PartialEq>(keys: Vec<K>) {
    let mut map: NeoCache<K, usize> = NeoCache::new(1_000, 2);
    for (i, key) in keys.iter().enumerate() {
        assert!(key.same_key(&key.duplicate()));
        assert_eq!(map.insert(key.duplicate(), i), None);
    }
    assert_eq!(map.len(), keys.len());
    for (i, key) in keys.iter().enumerate() {
        assert_eq!(*map.get(key).unwrap(), i);
        assert_eq!(map.get(key).unwrap().key(), key);
        for (j, other) in keys.iter().enumerate() {
            assert_eq!(key.same_key(other), i == j);
        }
    }
    for (i, key) in keys.iter().enumerate() {
        let (stored, value) = map.remove(key).unwrap();
        assert_eq!(stored, *key);
        assert_eq!(value, i);
    }
    assert!(map.is_empty());
}

#[test]
fn unsigned_keys() {
    store_and_find(vec![0u8, 1, u8::MAX]);
    store_and_find(vec![0u16, 1, u16::MAX]);
    store_and_find(vec![0u32, 1, u32::MAX]);
    store_and_find(vec![0u64, 1, u64::MAX]);
    store_and_find(vec![0u128, 1, u128::MAX]);
    store_and_find(vec![0usize, 1, usize::MAX]);
}

#[test]
fn signed_keys() {
    store_and_find(vec![0i8, -1, i8::MIN]);
    store_and_find(vec![0i16, -1, i16::MIN]);
    store_and_find(vec![0i32, -1, i32::MIN]);
    store_and_find(vec![0i64, -1, i64::MIN]);
    store_and_find(vec![0i128, -1, i128::MIN]);
    store_and_find(vec![0isize, -1, isize::MIN]);
}

#[test]
fn other_keys() {
    store_and_find(vec![false, true]);
    store_and_find(vec!['a', 'b', '\u{10FFFF}']);
    store_and_find(vec![String::new(), "a".to_string(), "ab".to_string()]);
    store_and_find(vec!["", "a", "ab", "b"]);
    store_and_find(vec![vec![], vec![0u8], vec![0u8, 0], vec![1u8]]);
    store_and_find(vec![(0u64, "a"), (0, "b"), (1, "a")]);
    store_and_find(vec![(0u8, 'x', true), (0, 'y', true), (0, 'x', false), (1, 'x', true)]);
    store_and_find(vec![("a".to_string(), (1u32, 2u32)), ("a".to_string(), (2, 1))]);
}

#[test]
fn digests_follow_the_builder() {
    let left: ahash::RandomState = ahash::RandomState::with_seeds(1, 2, 3, 4);
    let right: ahash::RandomState = ahash::RandomState::with_seeds(5, 6, 7, 8);
    let key = 42u64;
    let digest = KeyHasher::<u64>::hash_one(&left, &key);
    assert_eq!(digest, KeyHasher::<u64>::hash_one(&left, &key));
    assert_ne!(digest, key);
    assert_ne!(digest, KeyHasher::<u64>::hash_one(&left, &43u64));
    assert_ne!(digest, KeyHasher::<u64>::hash_one(&right, &key));
    let copy = KeyHasher::<u64>::duplicate(&left);
    assert_eq!(digest, KeyHasher::<u64>::hash_one(&copy, &key));
    let map: NeoCache<u64, u64> =
        NeoCache::with_capacity_and_hasher_and_shard_amount(100, left, 4);
    assert_eq!(map.hash_u64(&key), digest);
    assert_eq!(map.hash_usize(&key), digest as usize);
    assert_eq!(KeyHasher::<u64>::hash_one(map.hasher(), &key), digest);
    assert_eq!(KeyHasher::<u64>::hash_one(&map._hasher(), &key), digest);
}

#[test]
fn new_maps_draw_new_seeds() {
    let left: NeoCache<u64, u64> = NeoCache::new(100, 1);
    let right: NeoCache<u64, u64> = NeoCache::new(100, 1);
    let differ = (0..64u64).any(|key| left.hash_u64(&key) != right.hash_u64(&key));
    assert!(differ);
}

#[test]
fn frequency_saturates() {
    let mut entry = CacheEntry::new("value", LOC_SMALL);
    assert_eq!(entry.freq, 0);
    assert_eq!(entry.loc, LOC_SMALL);
    for want in [1, 2, 3, 3, 3] {
        entry.bump_freq();
        assert_eq!(entry.freq, want);
    }
    assert_eq!(MAX_FREQ, 3);
    assert_eq!(CacheEntry::new(0, LOC_MAIN).loc, LOC_MAIN);
    assert_eq!(entry.value.into_inner(), "value");
}

#[test]
fn shared_value_cell() {
    let mut cell = SharedValue::new(5);
    assert_eq!(*cell.get(), 5);
    *cell.get_mut() += 1;
    assert_eq!(*cell.get(), 6);
    assert_eq!(cell.into_inner(), 6);
}

#[test]
fn arithmetic_helpers() {
    assert_eq!(ptr_size_bits(), usize::BITS as usize);
    assert_eq!(div_ceil(0, 10), 0);
    assert_eq!(div_ceil(1, 10), 1);
    assert_eq!(div_ceil(10, 10), 1);
    assert_eq!(div_ceil(11, 10), 2);
    assert_eq!(div_ceil(usize::MAX, 1), usize::MAX);
    assert_eq!(div_ceil(usize::MAX, 2), usize::MAX / 2 + 1);
    assert_eq!(map_in_place_2((3, 4), |k: i32, v: i32| k * v), 12);
}

#[test]
fn references_from_parts() {
    let r = Ref::new(&1, &2);
    assert_eq!(r.pair(), (&1, &2));
    assert_eq!(*r, 2);
    let mut value = 5;
    let mut r = RefMut::new(&1, &mut value);
    *r += 1;
    assert_eq!(*r.downgrade(), 6);
    assert_eq!(value, 6);
    let r = RefMulti::new(&1, &2);
    assert_eq!(*r.key() + *r, 3);
    let mut r = RefMutMulti::new(&1, &mut value);
    *r += 1;
    assert_eq!(value, 7);
}

#[test]
fn try_result_expect() {
    assert_eq!(TryResult::Present(5).expect("it is present"), 5);
    assert_eq!(TryResult::Present(5).try_unwrap(), Some(5));
    assert_eq!(TryResult::<u32>::Locked.try_unwrap(), None);
    assert_eq!(TryResult::<u32>::Absent.try_unwrap(), None);
}
