//! The basic operations of a cache.
use neocache::{Entry, NeoCache};

/// Hardware threads that the default number of shards is computed for.
const THREADS: usize = 4;

#[test]
fn test_insert_and_get() {
    let mut map = NeoCache::new(100, THREADS);
    map.insert("hello", 42u32);
    assert_eq!(*map.get(&"hello").unwrap(), 42);
}

#[test]
fn test_insert_returns_old_value() {
    let mut map = NeoCache::new(100, THREADS);
    assert_eq!(map.insert("k", 1u32), None);
    assert_eq!(map.insert("k", 2u32), Some(1));
    assert_eq!(*map.get(&"k").unwrap(), 2);
}

#[test]
fn test_remove() {
    let mut map = NeoCache::new(100, THREADS);
    map.insert(1u32, "a");
    let (k, v) = map.remove(&1u32).unwrap();
    assert_eq!(k, 1);
    assert_eq!(v, "a");
    assert!(map.get(&1u32).is_none());
}

#[test]
fn test_get_bumps_freq() {
    let mut map = NeoCache::new(100, THREADS);
    map.insert("key", 0u32);
    for _ in 0..5 {
        let _ = map.get(&"key");
    }
    assert!(map.contains_key(&"key"));
}

#[test]
fn test_eviction_respects_capacity() {
    // Use with_shard_amount so cap divides evenly: shard_cap = 64/4 = 16.
    // Total live <= 16 * 4 = 64 == cap.
    let cap = 64usize;
    let mut map = NeoCache::with_shard_amount(cap, 4);
    for i in 0..200u64 {
        map.insert(i, i);
    }
    // Some entries were evicted; total must be <= capacity.
    assert!(map.len() <= cap, "len={} cap={}", map.len(), cap);
}

#[test]
fn test_entry_or_insert() {
    let mut map = NeoCache::new(100, THREADS);
    map.entry("k").or_insert(1u32);
    map.entry("k").or_insert(99u32);
    assert_eq!(*map.get(&"k").unwrap(), 1);
}

#[test]
fn test_retain() {
    let mut map = NeoCache::new(100, THREADS);
    for i in 0u32..10 {
        map.insert(i, i);
    }
    map.retain(|k, _v| *k % 2 == 0);
    assert_eq!(map.len(), 5);
    for i in (0u32..10).step_by(2) {
        assert!(map.contains_key(&i));
    }
}

#[test]
fn test_iter_count() {
    let mut map = NeoCache::new_unbounded(THREADS);
    for i in 0u32..20 {
        map.insert(i, i);
    }
    let mut iter = map.iter();
    let mut n = 0;
    while iter.next(&mut map).is_some() {
        n += 1;
    }
    assert_eq!(n, 20);
}

#[test]
fn test_into_iter() {
    let mut map = NeoCache::new(100, THREADS);
    map.insert(1u32, "a");
    map.insert(2u32, "b");
    let mut iter = map.into_iter();
    let mut pairs = Vec::new();
    while let Some(pair) = iter.next() {
        pairs.push(pair);
    }
    pairs.sort_by_key(|(k, _)| *k);
    assert_eq!(pairs, vec![(1, "a"), (2, "b")]);
}

#[test]
fn test_clear() {
    let mut map = NeoCache::new(100, THREADS);
    for i in 0u32..10 {
        map.insert(i, i);
    }
    map.clear();
    assert_eq!(map.len(), 0);
}

#[test]
fn test_try_get() {
    let mut map = NeoCache::new(100, THREADS);
    map.insert("x", 7u32);
    assert_eq!(*map.try_get(&"x", true).unwrap(), 7);
    assert!(map.try_get(&"x", false).is_locked());
}

#[test]
fn test_remove_if() {
    let mut map = NeoCache::new(100, THREADS);
    map.insert(1u32, 10u32);
    assert!(map.remove_if(&1u32, |_, v| *v > 5).is_some());
    assert!(map.remove_if(&1u32, |_, v| *v > 5).is_none());
}

#[test]
fn test_unbounded_grows_without_eviction() {
    let mut map: NeoCache<u64, u64> = NeoCache::new_unbounded(THREADS);
    for i in 0..1000u64 {
        map.insert(i, i);
    }
    assert_eq!(map.len(), 1000);
}

#[test]
fn test_replace_entry_returns_old_and_stores_new() {
    // Verify the basic replace_entry contract:
    // - returns the old (key, value) pair
    // - stores the new value under the same key
    // - map length is unchanged (no phantom insertion or removal)
    let mut map = NeoCache::new(100, THREADS);
    map.insert(1u32, "original");

    // Saturate the frequency counter before replacing.
    for _ in 0..3 {
        let _ = map.get(&1u32);
    }

    let old_pair = match map.entry(1u32) {
        Entry::Occupied(occ) => occ.replace_entry("replaced"),
        Entry::Vacant(_) => panic!("key must be present"),
    };

    assert_eq!(old_pair, (1u32, "original"));
    assert_eq!(*map.get(&1u32).unwrap(), "replaced");
    assert_eq!(map.len(), 1);
}

/// A lookup computes the digest that an insertion computes.
#[test]
fn lookup_hash_matches_insert_hash_for_primitive_keys() {
    let mut map: NeoCache<u32, &'static str> = NeoCache::new(100, THREADS);
    let h_insert = map.hash_u64(&1u32); // _insert path: T = u32
    let key_ref: &u32 = &1u32;
    let h_lookup = map.hash_u64(key_ref); // _remove etc.: T = u32 (after fix)
    assert_eq!(
        h_insert, h_lookup,
        "insert and lookup hashes must match",
    );
}
