//! The laws of a cache, on concrete values.
use neocache::hashing::KeyHasher;
use neocache::shard::ShardData;
use neocache::sharding::{
    default_shard_amount, effective_shard_amount, ncb, next_power_of_two, per_shard_capacity,
    shift_for, total_capacity,
};
use neocache::{Entry, NeoCache, TryReserveError};

/// Hardware threads that the default number of shards is computed for.
const THREADS: usize = 4;

/// A hash builder that leaves a key's bits as they are, so that a test can
/// choose the shard.
struct Plain;

impl KeyHasher<u64> for Plain {
    fn digest(&self, _key: u64) -> u64 {
        unreachable!("a digest is spoken of in contracts alone")
    }

    fn hash_one(&self, key: &u64) -> u64 {
        *key
    }

    fn duplicate(&self) -> Self {
        Plain
    }
}

/// A cache of two shards in which every small key is at home in the first.
fn one_shard(shard_cap: usize) -> NeoCache<u64, u64, Plain> {
    NeoCache::with_capacity_and_hasher_and_shard_amount(shard_cap * 2, Plain, 2)
}

#[test]
fn default_shard_amount_is_four_per_thread() {
    assert_eq!(default_shard_amount(1), 4);
    assert_eq!(default_shard_amount(3), 16);
    assert_eq!(default_shard_amount(4), 16);
    assert_eq!(default_shard_amount(16), 64);
    let map: NeoCache<u64, u64> = NeoCache::new(1_000_000, 16);
    assert_eq!(map._shard_count(), 64);
    assert_eq!(per_shard_capacity(1_000_000, 64), 15_625);
}

#[test]
fn next_power_of_two_exact_values() {
    assert_eq!(next_power_of_two(0), 1);
    assert_eq!(next_power_of_two(1), 1);
    assert_eq!(next_power_of_two(2), 2);
    assert_eq!(next_power_of_two(25), 32);
    assert_eq!(next_power_of_two(usize::MAX / 2 + 1), usize::MAX / 2 + 1);
}

#[test]
fn exponent_and_shift() {
    assert_eq!(ncb(2), 1);
    assert_eq!(ncb(64), 6);
    assert_eq!(ncb(1), 0);
    assert_eq!(shift_for(2), usize::BITS as usize - 1);
    assert_eq!(shift_for(64), usize::BITS as usize - 6);
}

#[test]
fn small_caches_get_fewer_shards() {
    assert_eq!(effective_shard_amount(100, 64), 32);
    assert_eq!(effective_shard_amount(8, 4), 2);
    assert_eq!(effective_shard_amount(1, 16), 2);
    assert_eq!(effective_shard_amount(64, 4), 4);
    assert_eq!(effective_shard_amount(15, 4), 4);
    assert_eq!(effective_shard_amount(0, 64), 64);
}

#[test]
fn per_shard_capacity_is_rounded_up() {
    assert_eq!(per_shard_capacity(64, 4), 16);
    assert_eq!(per_shard_capacity(65, 4), 17);
    assert_eq!(per_shard_capacity(1, 2), 1);
    assert_eq!(per_shard_capacity(0, 8), 0);
}

#[test]
fn shard_index_comes_from_the_digest() {
    let map: NeoCache<u64, u64, Plain> = NeoCache::with_hasher_and_shard_amount(Plain, 4);
    assert_eq!(map.determine_shard(0), 0);
    assert_eq!(map.determine_shard(1), 0);
    // The seven highest bits are left out.
    let bits = usize::BITS as usize;
    assert_eq!(map.determine_shard(1 << (bits - 7)), 0);
    assert_eq!(map.determine_shard(1 << (bits - 8)), 2);
    assert_eq!(map.determine_shard(1 << (bits - 9)), 1);
    assert_eq!(map.determine_shard(usize::MAX), 3);
    assert_eq!(map.hash_usize(&77), 77);
    assert_eq!(map.hash_u64(&77), 77);
}

#[test]
fn capacity_overshoot_is_below_the_number_of_shards() {
    let mut map: NeoCache<u64, u64> = NeoCache::with_shard_amount(70, 16);
    assert_eq!(map._shard_count(), 16);
    for i in 0..5_000u64 {
        map.insert(i, i);
        assert!(map.len() <= 70 + 16 - 1);
    }
    assert_eq!(map.cache_capacity(), 70);
}

#[test]
fn full_shard_gives_up_one_entry_per_insertion() {
    let mut map = one_shard(4);
    for i in 0..4u64 {
        assert_eq!(map.insert(i, i), None);
        assert_eq!(map.len(), i as usize + 1);
    }
    for i in 4..20u64 {
        assert_eq!(map.insert(i, i), None);
        assert_eq!(map.len(), 4);
        assert_eq!(*map.get(&i).unwrap(), i);
    }
}

#[test]
fn first_in_first_out_without_accesses() {
    let mut shard: ShardData<u64, u64> = ShardData::new(4);
    for i in 0..4u64 {
        shard.insert(i, i, i);
    }
    shard.insert(4, 4, 4);
    assert!(shard.peek(0, &0).is_none());
    assert!(shard.peek(1, &1).is_some());
    shard.insert(5, 5, 5);
    assert!(shard.peek(1, &1).is_none());
    assert!(shard.peek(2, &2).is_some());
    assert_eq!(shard.len(), 4);
}

#[test]
fn accessed_entry_is_promoted_and_the_next_one_goes() {
    let mut shard: ShardData<u64, u64> = ShardData::new(4);
    for i in 0..4u64 {
        shard.insert(i, i, i);
    }
    assert_eq!(shard.get(0, &0).unwrap(), (&0, &0));
    shard.insert(4, 4, 4);
    assert!(shard.peek(0, &0).is_some());
    assert!(shard.peek(1, &1).is_none());
    // In the main queue it outlives what comes and goes in the small one.
    for i in 5..40u64 {
        shard.insert(i, i, i);
    }
    assert!(shard.peek(0, &0).is_some());
    assert_eq!(shard.len(), 4);
}

#[test]
fn peek_counts_no_access() {
    let mut shard: ShardData<u64, u64> = ShardData::new(4);
    for i in 0..4u64 {
        shard.insert(i, i, i);
    }
    assert_eq!(shard.peek(0, &0).unwrap(), (&0, &0));
    shard.insert(4, 4, 4);
    assert!(shard.peek(0, &0).is_none());
}

#[test]
fn ghost_hit_starts_in_the_main_queue() {
    let mut shard: ShardData<u64, u64> = ShardData::new(4);
    for i in 0..5u64 {
        shard.insert(i, i, i);
    }
    assert!(shard.peek(0, &0).is_none());
    // 0 was evicted lately, so it comes back to the main queue.
    shard.insert(0, 0, 10);
    for i in 5..40u64 {
        shard.insert(i, i, i);
        assert_eq!(shard.peek(0, &0).unwrap(), (&0, &10));
    }
    // A key that was never evicted starts in the small queue and is gone soon.
    assert!(shard.peek(5, &5).is_none());
}

#[test]
fn full_ghost_set_is_emptied() {
    let mut shard: ShardData<u64, u64> = ShardData::new(2);
    // The evictions of 0, 1 and 2 fill the ghost set twice over: the third
    // finds it full and empties it.
    for i in 0..5u64 {
        shard.insert(i, i, i);
    }
    // 0 is not remembered any more: it starts in the small queue and is the
    // next to go after those before it.
    shard.insert(0, 0, 0);
    shard.insert(6, 6, 6);
    shard.insert(7, 7, 7);
    assert!(shard.peek(0, &0).is_none());
    // 2 is remembered: it starts in the main queue and stays.
    let mut other: ShardData<u64, u64> = ShardData::new(2);
    for i in 0..5u64 {
        other.insert(i, i, i);
    }
    other.insert(2, 2, 2);
    other.insert(6, 6, 6);
    other.insert(7, 7, 7);
    assert!(other.peek(2, &2).is_some());
}

#[test]
fn second_chance_in_the_main_queue() {
    // Three entries are accessed and promoted, so the small queue runs dry and
    // the main queue is swept.
    let mut shard: ShardData<u64, u64> = ShardData::new(20);
    for i in 0..20u64 {
        shard.insert(i, i, i);
        shard.get(i, &i);
    }
    // Twice more for 0 alone.
    shard.get(0, &0);
    shard.get(0, &0);
    for i in 20..23u64 {
        shard.insert(i, i, i);
    }
    assert_eq!(shard.len(), 20);
    assert!(shard.peek(0, &0).is_some());
}

#[test]
fn unbounded_shard_never_evicts() {
    let mut shard: ShardData<u64, u64> = ShardData::default();
    for i in 0..500u64 {
        shard.insert(i, i, i);
    }
    assert_eq!(shard.len(), 500);
    for i in 0..500u64 {
        assert!(shard.peek(i, &i).is_some());
    }
}

#[test]
fn keys_with_one_digest_live_side_by_side() {
    let mut shard: ShardData<&'static str, u32> = ShardData::new(0);
    assert_eq!(shard.insert(7, "left", 1), None);
    assert_eq!(shard.insert(7, "right", 2), None);
    assert_eq!(shard.insert(7, "left", 3), Some(1));
    assert_eq!(shard.peek(7, &"left").unwrap(), (&"left", &3));
    assert_eq!(shard.peek(7, &"right").unwrap(), (&"right", &2));
    assert_eq!(shard.remove(7, &"left"), Some(("left", 3)));
    assert!(shard.peek(7, &"left").is_none());
    assert!(shard.peek(7, &"right").is_some());
}

#[test]
fn record_of_an_earlier_stay_is_skipped() {
    // 1 is removed and comes back behind 2 and 3, which leave before it.
    let mut map = one_shard(4);
    for i in 1..4u64 {
        map.insert(i, i);
    }
    map.remove(&1);
    map.insert(1, 1);
    map.insert(4, 4);
    map.insert(5, 5);
    let view = map.into_read_only();
    let mut keys: Vec<u64> = view.keys().into_iter().copied().collect();
    keys.sort();
    assert_eq!(keys, vec![1, 3, 4, 5]);
    let mut map = view.into_inner();
    map.insert(6, 6);
    map.insert(7, 7);
    let mut keys: Vec<u64> = map.into_read_only().keys().into_iter().copied().collect();
    keys.sort();
    assert_eq!(keys, vec![4, 5, 6, 7]);
}

#[test]
fn main_queue_spares_an_entry_that_came_back_to_the_small_queue() {
    let mut shard: ShardData<u64, u64> = ShardData::new(20);
    for i in 0..20u64 {
        shard.insert(i, i, i);
        shard.get(i, &i);
    }
    // 0 to 18 move on to the main queue, and 0 is evicted from it.
    shard.insert(20, 20, 20);
    assert!(shard.peek(0, &0).is_none());
    // 1 leaves a record at the front of the main queue and comes back to the
    // small queue.
    shard.remove(1, &1);
    shard.remove(20, &20);
    shard.insert(31, 31, 31);
    shard.get(31, &31);
    shard.insert(1, 1, 10);
    assert_eq!(shard.len(), 20);
    // 19 and 31 move on, and the main queue is swept: it gives up 2.
    shard.insert(32, 32, 32);
    assert_eq!(shard.len(), 20);
    assert_eq!(shard.peek(1, &1), Some((&1, &10)));
    assert!(shard.peek(2, &2).is_none());
    assert!(shard.peek(3, &3).is_some());
}

#[test]
fn an_entry_that_came_back_is_evicted_into_the_ghost_set() {
    // 0 is promoted to the main queue, removed, and inserted again into the
    // small queue, from which it is evicted in its turn.
    let mut shard: ShardData<u64, u64> = ShardData::new(4);
    for i in 0..4u64 {
        shard.insert(i, i, i);
    }
    shard.get(0, &0);
    shard.insert(4, 4, 4);
    assert_eq!(shard.remove(0, &0), Some((0, 0)));
    shard.insert(0, 0, 7);
    for i in 5..8u64 {
        shard.insert(i, i, i);
        assert_eq!(shard.len(), 4);
        assert_eq!(shard.peek(0, &0), Some((&0, &7)));
    }
    shard.insert(8, 8, 8);
    assert!(shard.peek(0, &0).is_none());
    // The ghost set sends it to the main queue, where it stays.
    shard.insert(0, 0, 9);
    for i in 9..40u64 {
        shard.insert(i, i, i);
        assert_eq!(shard.peek(0, &0), Some((&0, &9)));
    }
}

#[test]
fn replacing_a_stored_key_evicts_nothing() {
    let mut map = one_shard(4);
    for i in 0..4u64 {
        map.insert(i, i);
    }
    for i in 0..4u64 {
        assert_eq!(map.insert(i, i + 10), Some(i));
    }
    assert_eq!(map.len(), 4);
    for i in 0..4u64 {
        assert_eq!(*map.get(&i).unwrap(), i + 10);
    }
}

#[test]
fn replacing_keeps_the_place_in_the_eviction_order() {
    let mut map = one_shard(4);
    for i in 0..4u64 {
        map.insert(i, i);
    }
    map.insert(0, 99);
    map.insert(4, 4);
    assert!(!map.contains_key(&0));
}

#[test]
fn replace_entry_keeps_queue_and_frequency() {
    let mut map = one_shard(4);
    for i in 0..4u64 {
        map.insert(i, i);
    }
    map.get(&0);
    match map.entry(0) {
        Entry::Occupied(entry) => assert_eq!(entry.replace_entry(50), (0, 0)),
        Entry::Vacant(_) => panic!("expected an occupied entry"),
    }
    // The access from before still saves it.
    map.insert(4, 4);
    assert_eq!(*map.get(&0).unwrap(), 50);
    assert!(!map.contains_key(&1));
}

#[test]
fn entry_views_count_no_access() {
    let mut map = one_shard(4);
    for i in 0..4u64 {
        map.insert(i, i);
    }
    assert_eq!(*map.entry(0).or_insert(9), 0);
    map.insert(4, 4);
    assert!(!map.contains_key(&0));
}

#[test]
fn lookups_count_accesses() {
    for way in 0..5 {
        let mut map = one_shard(4);
        for i in 0..4u64 {
            map.insert(i, i);
        }
        match way {
            0 => assert!(map.get(&0).is_some()),
            1 => assert!(map.get_mut(&0).is_some()),
            2 => assert!(map.contains_key(&0)),
            3 => assert_eq!(map.view(&0, |k, v| k + v), Some(0)),
            _ => map.alter(&0, |_k, v| v),
        }
        map.insert(4, 4);
        assert!(map.contains_key(&0));
        assert!(!map.contains_key(&1));
    }
}

#[test]
fn removed_key_is_gone_and_nothing_else() {
    let mut map: NeoCache<u64, u64> = NeoCache::new(100, THREADS);
    for i in 0..10u64 {
        map.insert(i, i * i);
    }
    assert_eq!(map.remove(&3), Some((3, 9)));
    assert_eq!(map.remove(&3), None);
    assert_eq!(map.len(), 9);
    for i in 0..10u64 {
        assert_eq!(map.contains_key(&i), i != 3);
    }
    assert_eq!(map.insert(3, 1), None);
    assert_eq!(*map.get(&3).unwrap(), 1);
}

#[test]
fn cleared_map_forgets_ghosts() {
    let mut map = one_shard(4);
    for i in 0..5u64 {
        map.insert(i, i);
    }
    map.clear();
    assert!(map.is_empty());
    // 0 was evicted before, but that is forgotten: it starts in the small queue.
    for i in 0..5u64 {
        map.insert(i, i);
    }
    assert!(!map.contains_key(&0));
}

#[test]
fn clone_is_independent() {
    let mut map: NeoCache<String, Vec<u64>> = NeoCache::new(100, THREADS);
    map.insert("a".to_string(), vec![1]);
    let mut copy = map.clone();
    copy.get_mut(&"a".to_string()).unwrap().push(2);
    copy.insert("b".to_string(), vec![]);
    assert_eq!(*map.get(&"a".to_string()).unwrap(), vec![1]);
    assert_eq!(*copy.get(&"a".to_string()).unwrap(), vec![1, 2]);
    assert_eq!(map.len(), 1);
    assert_eq!(copy.len(), 2);
    assert_eq!(map.hash_u64(&"a".to_string()), copy.hash_u64(&"a".to_string()));
}

#[test]
fn clone_keeps_the_eviction_state() {
    let mut map = one_shard(4);
    for i in 0..4u64 {
        map.insert(i, i);
    }
    map.get(&0);
    let mut copy = map.clone();
    copy.insert(4, 4);
    assert!(copy.contains_key(&0));
    assert!(!copy.contains_key(&1));
    assert!(map.contains_key(&1));
    // The ghost set is cloned as well.
    let mut again = copy.clone();
    again.insert(1, 1);
    for i in 5..30u64 {
        again.insert(i, i);
        assert!(again.contains_key(&1));
    }
}

#[test]
fn a_clone_answers_alike() {
    let mut map = one_shard(8);
    for i in 0..12u64 {
        map.insert(i, i);
        if i % 3 == 0 {
            map.get(&i);
        }
    }
    map.remove(&9);
    let mut copy = map.clone();
    let mut key = 7u64;
    for turn in 0..500u64 {
        key = (key * 5 + turn) % 17;
        match turn % 4 {
            0 | 1 => assert_eq!(map.insert(key, turn), copy.insert(key, turn)),
            2 => assert_eq!(map.contains_key(&key), copy.contains_key(&key)),
            _ => assert_eq!(map.remove(&key), copy.remove(&key)),
        }
        assert_eq!(map.len(), copy.len());
        assert!(map.len() <= 8);
    }
    for key in 0..17u64 {
        let left = map.get(&key).map(|r| *r.value());
        assert_eq!(left, copy.get(&key).map(|r| *r.value()));
    }
}

#[test]
fn later_pairs_win() {
    let mut map: NeoCache<u64, u64> = NeoCache::new_unbounded(THREADS);
    map.extend(vec![(1, 10), (2, 20), (1, 30)]);
    assert_eq!(map.len(), 2);
    assert_eq!(*map.get(&1).unwrap(), 30);
    assert_eq!(*map.get(&2).unwrap(), 20);
}

#[test]
fn written_value_is_read_back() {
    let mut map: NeoCache<u64, u64> = NeoCache::new(100, THREADS);
    map.insert(1, 10);
    map.insert(2, 20);
    *map.get_mut(&1).unwrap() = 11;
    assert_eq!(map.remove_if_mut(&2, |_k, v| {
        *v += 1;
        false
    }), None);
    assert_eq!(*map.get(&1).unwrap(), 11);
    assert_eq!(*map.get(&2).unwrap(), 21);
    assert_eq!(map.remove_if_mut(&2, |k, v| {
        *v += *k;
        true
    }), Some((2, 23)));
}

#[test]
fn retain_keeps_what_is_written() {
    let mut map: NeoCache<u64, u64> = NeoCache::new(100, THREADS);
    for i in 0..10u64 {
        map.insert(i, i);
    }
    let mut seen = Vec::new();
    map.retain(|k, v| {
        seen.push(*k);
        *v += 100;
        *k < 4
    });
    seen.sort();
    assert_eq!(seen, (0..10u64).collect::<Vec<_>>());
    assert_eq!(map.len(), 4);
    for i in 0..4u64 {
        assert_eq!(*map.get(&i).unwrap(), i + 100);
    }
}

#[test]
fn iteration_meets_each_entry_once() {
    let mut map: NeoCache<u64, u64> = NeoCache::new_unbounded(THREADS);
    for i in 0..100u64 {
        map.insert(i, i * 2);
    }
    let mut seen = Vec::new();
    let mut iter = map.iter();
    while let Some(r) = iter.next(&mut map) {
        assert_eq!(*r.value(), *r.key() * 2);
        seen.push(*r.key());
    }
    assert!(iter.next(&mut map).is_none());
    seen.sort();
    assert_eq!(seen, (0..100u64).collect::<Vec<_>>());
    let mut iter = map.iter_mut();
    while let Some(mut r) = iter.next() {
        *r += 1;
    }
    let mut owned = Vec::new();
    let mut iter = map.into_iter();
    while let Some(pair) = iter.next() {
        owned.push(pair);
    }
    assert!(iter.next().is_none());
    owned.sort();
    assert_eq!(owned, (0..100u64).map(|i| (i, i * 2 + 1)).collect::<Vec<_>>());
}

#[test]
fn iteration_counts_accesses() {
    let mut map = one_shard(4);
    for i in 0..4u64 {
        map.insert(i, i);
    }
    // The entry that was handed out moves on, and the next one goes.
    let mut iter = map.iter();
    assert_eq!(*iter.next(&mut map).unwrap().key(), 0);
    map.insert(4, 4);
    assert!(map.contains_key(&0));
    assert!(!map.contains_key(&1));
}

#[test]
fn iteration_counts_each_entry_once() {
    let mut map = one_shard(4);
    for i in 0..4u64 {
        map.insert(i, i);
    }
    let mut iter = map.iter();
    while iter.next(&mut map).is_some() {}
    // All have moved on with one access each, so the main queue gives up its
    // oldest entry. It is not remembered: the key comes back to the small queue.
    map.insert(4, 4);
    assert_eq!(map.len(), 4);
    map.insert(0, 10);
    map.insert(5, 5);
    let mut left: Vec<u64> = Vec::new();
    let mut iter = map.iter();
    while let Some(r) = iter.next(&mut map) {
        left.push(*r.key());
    }
    left.sort();
    assert_eq!(left, vec![1, 2, 3, 5]);
}

#[test]
fn a_clone_of_an_iterator_starts_over() {
    let mut map: NeoCache<u64, u64> = NeoCache::new_unbounded(THREADS);
    for i in 0..3u64 {
        map.insert(i, i);
    }
    let mut iter = map.iter();
    let first = *iter.next(&mut map).unwrap().key();
    let mut again = iter.clone();
    assert_eq!(*again.next(&mut map).unwrap().key(), first);
    assert_ne!(*iter.next(&mut map).unwrap().key(), first);
}

#[test]
fn main_queue_gives_up_the_least_frequent() {
    let mut shard: ShardData<u64, u64> = ShardData::new(4);
    for (key, accesses) in [(0u64, 3), (1, 2), (2, 1), (3, 2)] {
        shard.insert(key, key, key);
        for _ in 0..accesses {
            shard.get(key, &key);
        }
    }
    // All four move on to the main queue, and 2 has the least accesses.
    shard.insert(4, 4, 4);
    assert!(shard.peek(2, &2).is_none());
    // What stood behind it comes first, with one access left; of what stood
    // before it 0 has one left and 1 none.
    shard.get(4, &4);
    shard.insert(5, 5, 5);
    assert!(shard.peek(1, &1).is_none());
    shard.get(5, &5);
    shard.insert(6, 6, 6);
    assert!(shard.peek(3, &3).is_none());
    for key in [0u64, 4, 5, 6] {
        assert!(shard.peek(key, &key).is_some());
    }
}

#[test]
fn a_place_is_freed_whatever_was_accessed() {
    let mut shard: ShardData<u64, u64> = ShardData::new(10);
    for i in 0..10u64 {
        shard.insert(i, i, i);
        for _ in 0..3 {
            shard.get(i, &i);
        }
    }
    shard.insert(10, 10, 10);
    assert_eq!(shard.len(), 10);
    assert!(shard.peek(0, &0).is_none());
}

#[test]
fn capacities_add_up() {
    assert_eq!(total_capacity(&vec![]), 0);
    assert_eq!(total_capacity(&vec![3, 4, 5]), 12);
    assert_eq!(total_capacity(&vec![usize::MAX - 1, 1]), usize::MAX);
    assert_eq!(total_capacity(&vec![usize::MAX, 1, 7]), usize::MAX);
    let mut map: NeoCache<u64, u64> = NeoCache::new(100, THREADS);
    assert_eq!(map.capacity(), 0);
    map.insert(1, 1);
    assert!(map.capacity() >= 1);
}

#[test]
fn a_slice_names_a_string() {
    let mut map: NeoCache<String, u64> = NeoCache::new(1_000, THREADS);
    map.insert("hello".to_string(), 1);
    assert_eq!(map.hash_u64("hello"), map.hash_u64(&"hello".to_string()));
    assert_eq!(map.hash_usize("hello"), map.hash_usize(&"hello".to_string()));
    assert_eq!(*map.get("hello").unwrap(), 1);
    assert!(map.get("hell").is_none());
    assert!(map.contains_key("hello"));
    *map.get_mut("hello").unwrap() += 1;
    map.alter("hello", |_k, v| v * 10);
    assert_eq!(map.view("hello", |k, v| (k.len(), *v)), Some((5, 20)));
    assert_eq!(map.try_get("hello", true).unwrap().value(), &20);
    assert_eq!(map.try_get_mut("hello", true).unwrap().key(), "hello");
    assert_eq!(map.remove_if("hello", |_k, v| *v == 0), None);
    assert_eq!(map.remove_if_mut("hello", |_k, v| *v == 0), None);
    assert!(&mut map & "hello");
    assert_eq!(*(&mut map >> "hello"), 20);
    let view = map.into_read_only();
    assert_eq!(view.get("hello"), Some(&20));
    assert!(!view.contains_key("other"));
    let mut map = view.into_inner();
    assert_eq!(map.remove("hello"), Some(("hello".to_string(), 20)));
    assert!(map.is_empty());
}

#[test]
fn a_slice_names_a_static_slice_and_a_vector() {
    let mut map: NeoCache<&'static str, u64> = NeoCache::new(1_000, THREADS);
    map.insert("left", 1);
    let name = "lef".to_string() + "t";
    assert_eq!(*map.get(name.as_str()).unwrap(), 1);
    assert_eq!(map.hash_u64(name.as_str()), map.hash_u64(&"left"));
    let mut map: NeoCache<Vec<u8>, u64> = NeoCache::new(1_000, THREADS);
    map.insert(vec![1, 2, 3], 6);
    assert_eq!(*map.get([1u8, 2, 3].as_slice()).unwrap(), 6);
    assert!(map.get([1u8, 2].as_slice()).is_none());
    assert!(map.get([1u8, 2, 4].as_slice()).is_none());
    assert_eq!(map.remove([1u8, 2, 3].as_slice()), Some((vec![1, 2, 3], 6)));
}

#[test]
fn read_only_round_trip() {
    let mut map = one_shard(4);
    for i in 0..4u64 {
        map.insert(i, i);
    }
    let view = map.into_read_only();
    assert_eq!(view.get(&0), Some(&0));
    let mut keys: Vec<u64> = view.keys().into_iter().copied().collect();
    keys.sort();
    assert_eq!(keys, vec![0, 1, 2, 3]);
    let mut map = view.into_inner();
    assert_eq!(map.len(), 4);
    // Reading the view counted no access.
    map.insert(4, 4);
    assert!(!map.contains_key(&0));
}

#[test]
fn busy_shards_are_reported() {
    let mut map: NeoCache<u64, u64> = NeoCache::new(100, THREADS);
    map.insert(1, 10);
    assert!(map.try_get(&1, false).is_locked());
    assert!(map.try_get_mut(&1, false).is_locked());
    assert!(map.try_entry(1, false).is_none());
    assert!(map.try_get(&2, true).is_absent());
    assert_eq!(map.try_get(&1, true).expect("1 is stored").value(), &10);
    let mut shard: ShardData<u64, u64> = ShardData::new(0);
    shard.insert(5, 5, 50);
    assert!(ShardData::<u64, u64>::try_get(None, 5, &5).is_locked());
    assert!(ShardData::<u64, u64>::try_get_mut(None, 5, &5).is_locked());
    assert!(ShardData::try_get_mut(Some(&mut shard), 6, &6).is_absent());
    *ShardData::try_get_mut(Some(&mut shard), 5, &5).unwrap() += 1;
    assert_eq!(*ShardData::try_get(Some(&mut shard), 5, &5).unwrap(), 51);
}

#[test]
fn impossible_reservation_is_refused() {
    let mut map: NeoCache<u64, u64> = NeoCache::new(100, THREADS);
    map.insert(1, 10);
    assert!(map.try_reserve(0).is_ok());
    assert!(map.try_reserve(1_000).is_ok());
    assert!(map.capacity() >= 1_000);
    let refused: Result<(), TryReserveError> = map.try_reserve(usize::MAX);
    let error = refused.unwrap_err();
    assert_eq!(error, error.clone());
    assert_eq!(*map.get(&1).unwrap(), 10);
    map.shrink_to_fit();
    assert!(map.capacity() < 1_000);
    assert_eq!(map.len(), 1);
}

#[test]
fn other_shards_are_left_alone() {
    // The bit below the seven highest decides between two shards.
    let far = 1u64 << 56;
    let mut map = one_shard(4);
    map.insert(far, 1);
    for i in 0..100u64 {
        map.insert(i, i);
    }
    assert_eq!(map.len(), 5);
    assert_eq!(*map.get(&far).unwrap(), 1);
    map.remove(&99);
    assert_eq!(map.len(), 4);
    assert!(map.contains_key(&far));
}

#[test]
fn small_queue_is_swept_from_a_tenth_on() {
    // With room for twenty entries the small queue is swept from two on.
    let mut shard: ShardData<u64, u64> = ShardData::new(20);
    for i in 0..20u64 {
        shard.insert(i, i, i);
        if i < 19 {
            shard.get(i, &i);
        }
    }
    // Nineteen entries were accessed; they are promoted until one stored entry
    // is left in the small queue, and then the main queue gives up its first
    // entry whose accesses are used up.
    shard.insert(20, 20, 20);
    assert_eq!(shard.len(), 20);
    assert!(shard.peek(19, &19).is_some());
    assert!(shard.peek(20, &20).is_some());
    assert!(shard.peek(0, &0).is_none());
}

#[test]
fn removal_leaves_a_stale_pair_that_is_skipped() {
    let mut shard: ShardData<u64, u64> = ShardData::new(4);
    for i in 0..4u64 {
        shard.insert(i, i, i);
    }
    assert_eq!(shard.remove(0, &0), Some((0, 0)));
    assert_eq!(shard.insert(4, 4, 4), None);
    assert_eq!(shard.len(), 4);
    // The sweep passes over the pair of 0 and evicts 1.
    shard.insert(5, 5, 5);
    assert!(shard.peek(1, &1).is_none());
    assert!(shard.peek(2, &2).is_some());
    assert_eq!(shard.len(), 4);
}
