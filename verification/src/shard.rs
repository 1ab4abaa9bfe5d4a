//! One shard: the table of entries with the S3-FIFO eviction state.
use crate::index::MAX_ENTRIES;
use crate::keys::{CacheKey, Lookup};
use crate::mapref::one::{Ref, RefMut};
use crate::model::{
    lemma_copied_inv, lemma_evict_one, lemma_evicted_main_inv, lemma_evicted_small_inv,
    is_current, lemma_insert_new, lemma_live_insert, lemma_live_remove, lemma_live_sum, lemma_patience_head,
    lemma_promote_inv, lemma_remove_inv, lemma_rotate_inv, lemma_second_chance,
    lemma_stale_main_inv, lemma_stale_small_inv, lemma_with_entry_inv, lists, main_cap_of,
    patience, small_cap_of, EntryState, ShardState,
};
use crate::table::{same_stays, slot_of, without_slot, EntryTable, Slot, Stamp};
use crate::try_result::TryResult;
use crate::util::{
    bumped, div_ceil, law_ceil_div, map_in_place_2, CacheEntry, SharedValue, LOC_MAIN, LOC_SMALL,
    MAX_FREQ,
};
use crate::TryReserveError;
use ahash::RandomState;
use std::collections::HashSet;
use std::collections::VecDeque;
use vstd::prelude::*;

verus! {

/// A shard of a cache: the entries, and all the state that decides which entry
/// leaves when there is no room for another.
pub struct ShardData<K, V> {
    /// The entries.
    pub(crate) map: EntryTable<K, V>,
    /// Digests of the small queue, oldest first.
    pub(crate) small_hashes: VecDeque<u64>,
    /// Keys of the small queue, oldest first.
    pub(crate) small_keys: VecDeque<K>,
    /// Stamps of the small queue, oldest first.
    pub(crate) small_stamps: VecDeque<Stamp>,
    /// Digests of the main queue, oldest first.
    pub(crate) main_hashes: VecDeque<u64>,
    /// Keys of the main queue, oldest first.
    pub(crate) main_keys: VecDeque<K>,
    /// Stamps of the main queue, oldest first.
    pub(crate) main_stamps: VecDeque<Stamp>,
    /// Digests of entries that were evicted from the small queue. Emptied when
    /// it is full.
    pub(crate) ghost_set: HashSet<u64, RandomState>,
    /// Number of entries in the care of the small queue.
    pub(crate) small_live: usize,
    /// Number of entries in the care of the main queue.
    pub(crate) main_live: usize,
    /// Eviction threshold (0 = no eviction).
    pub(crate) shard_cap: usize,
    /// Size of the small queue from which on it is swept.
    pub(crate) small_cap: usize,
    /// What is left of the threshold for the main queue.
    pub(crate) main_cap: usize,
    /// Hard limit for the ghost set.
    pub(crate) ghost_cap: usize,
    /// The stamp of the next stay.
    pub(crate) next_stamp: Stamp,
}

/// A queue, from its digests, its keys and its stamps.
pub open spec fn zipped<K: View>(hashes: Seq<u64>, keys: Seq<K>, stamps: Seq<Stamp>) -> Seq<
    (u64, K::V, nat),
> {
    Seq::new(hashes.len(), |i: int| (hashes[i], keys[i]@, stamps[i].stay@))
}

/// The stamps of a queue are numbered before `next`, and tell whether a record
/// was made for the stay that its key is in.
pub open spec fn stamps_tell<K: View, V>(
    keys: Seq<K>,
    stamps: Seq<Stamp>,
    slots: Seq<Slot<K, V>>,
    next: u64,
) -> bool {
    &&& keys.len() == stamps.len()
    &&& forall|i: int| 0 <= i < stamps.len() ==> (#[trigger] stamps[i]).number < next
    &&& forall|i: int, slot: int|
        0 <= i < stamps.len() && 0 <= slot < slots.len() && keys[i]@ == slots[slot].key@
            ==> (#[trigger] stamps[i]).tells((#[trigger] slots[slot]).stamp)
}

/// The keys and values in the slots.
pub open spec fn slot_pairs<K, V>(slots: Seq<Slot<K, V>>) -> Seq<(K, V)> {
    slots.map_values(|slot: Slot<K, V>| (slot.key, slot.entry.value.value))
}

impl<K: CacheKey, V> View for ShardData<K, V> {
    type V = ShardState<K, V>;

    closed spec fn view(&self) -> ShardState<K, V> {
        ShardState {
            entries: self.map@,
            small: zipped(self.small_hashes@, self.small_keys@, self.small_stamps@),
            main: zipped(self.main_hashes@, self.main_keys@, self.main_stamps@),
            ghosts: self.ghost_set@,
            cap: self.shard_cap as nat,
            clock: self.next_stamp.stay@,
        }
    }
}

impl<K: CacheKey, V> ShardData<K, V> {
    /// The stamps of both queues tell which records are current.
    spec fn stamps_ok(&self) -> bool {
        let next = self.next_stamp.number;
        &&& stamps_tell(self.small_keys@, self.small_stamps@, self.map.slots@, next)
        &&& stamps_tell(self.main_keys@, self.main_stamps@, self.map.slots@, next)
    }

    /// The parts fit together: the table is sound, each queue has a digest and a
    /// stamp for each key, the stamps tell, the counters count, and the limits
    /// follow from the capacity.
    pub closed spec fn shape(&self) -> bool {
        &&& self.map.wf()
        &&& self.small_hashes@.len() == self.small_keys@.len()
        &&& self.main_hashes@.len() == self.main_keys@.len()
        &&& self.stamps_ok()
        &&& self.small_live == self@.live(LOC_SMALL)
        &&& self.main_live == self@.live(LOC_MAIN)
        &&& self.small_cap == small_cap_of(self@.cap)
        &&& self.main_cap == main_cap_of(self@.cap)
        &&& self.ghost_cap == self.shard_cap
    }

    /// The shard's invariant.
    pub open spec fn wf(&self) -> bool {
        &&& self.shape()
        &&& self@.inv()
    }
}

impl<K: CacheKey, V> ShardData<K, V> {
    /// The stored keys and their values, in the order in which they stand.
    pub closed spec fn pairs(&self) -> Seq<(K, V)> {
        slot_pairs(self.map.slots@)
    }

    /// The pairs are those of the entries, each once.
    pub proof fn lemma_pairs(&self)
        requires
            self.wf(),
        ensures
            self.pairs().len() == self@.entries.len(),
            lists(self.pairs(), self@.entries),
    {
        self.map.lemma_len();
        let pairs = self.pairs();
        let entries = self@.entries;
        assert forall|i: int| 0 <= i < pairs.len() implies entries.contains_key(
            (#[trigger] pairs[i]).0@,
        ) && entries[pairs[i].0@].key == pairs[i].0 && entries[pairs[i].0@].value == pairs[i].1 by {
            self.map.lemma_slot(i);
        }
        assert forall|i: int, j: int| 0 <= i < j < pairs.len() implies (#[trigger] pairs[i]).0@ != (
        #[trigger] pairs[j]).0@ by {
            self.map.lemma_unique(i, j);
        }
        assert forall|key: K::V| #[trigger] entries.contains_key(key) implies exists|i: int|
            0 <= i < pairs.len() && (#[trigger] pairs[i]).0@ == key by {
            self.map.lemma_slot_of(key);
            assert(pairs[slot_of(self.map.slots@, key)].0@ == key);
        }
    }

    /// A sound shard's state is sound.
    pub proof fn lemma_inv(&self)
        requires
            self.wf(),
        ensures
            self@.inv(),
            self@.entries.len() <= MAX_ENTRIES,
    {
        self.map.lemma_len();
    }
}

/// Calls `HashSet::insert` on a set of digests with an [`ahash`] hasher: the
/// digest is in the set afterwards, and the call tells whether it is new.
#[verifier::external_body]
fn ghost_insert(ghosts: &mut HashSet<u64, RandomState>, hash: u64) -> (new: bool)
    ensures
        final(ghosts)@ == old(ghosts)@.insert(hash),
        new == !old(ghosts)@.contains(hash),
{
    ghosts.insert(hash)
}

/// Calls `HashSet::remove` on a set of digests with an [`ahash`] hasher: the
/// digest is not in the set afterwards, and the call tells whether it was.
#[verifier::external_body]
fn ghost_remove(ghosts: &mut HashSet<u64, RandomState>, hash: u64) -> (was_there: bool)
    ensures
        final(ghosts)@ == old(ghosts)@.remove(hash),
        was_there == old(ghosts)@.contains(hash),
{
    ghosts.remove(&hash)
}

/// Calls `HashSet::len` on a set of digests with an [`ahash`] hasher: the number
/// of digests in the set.
#[verifier::external_body]
fn ghost_len(ghosts: &HashSet<u64, RandomState>) -> (len: usize)
    ensures
        len == ghosts@.len(),
{
    ghosts.len()
}

impl<K: CacheKey, V> ShardData<K, V> {
    /// Lowers the counter of a queue by one entry.
    fn count_out(&mut self, loc: u8)
        ensures
            final(self).map == old(self).map,
            final(self).small_hashes == old(self).small_hashes,
            final(self).small_keys == old(self).small_keys,
            final(self).small_stamps == old(self).small_stamps,
            final(self).main_hashes == old(self).main_hashes,
            final(self).main_keys == old(self).main_keys,
            final(self).main_stamps == old(self).main_stamps,
            final(self).ghost_set == old(self).ghost_set,
            final(self).shard_cap == old(self).shard_cap,
            final(self).small_cap == old(self).small_cap,
            final(self).main_cap == old(self).main_cap,
            final(self).ghost_cap == old(self).ghost_cap,
            final(self).next_stamp == old(self).next_stamp,
            loc == LOC_SMALL ==> final(self).main_live == old(self).main_live && (
            old(self).small_live > 0 ==> final(self).small_live == old(self).small_live - 1),
            loc != LOC_SMALL ==> final(self).small_live == old(self).small_live && (
            old(self).main_live > 0 ==> final(self).main_live == old(self).main_live - 1),
    {
        if loc == LOC_SMALL {
            self.small_live = self.small_live.saturating_sub(1);
        } else {
            self.main_live = self.main_live.saturating_sub(1);
        }
    }

    /// Takes the entry in `slot` out of the table and off its counter.
    fn take_slot(&mut self, slot: usize) -> (taken: Slot<K, V>)
        requires
            old(self).shape(),
            old(self)@.entries.dom().finite(),
            slot < old(self).map.slots@.len(),
            old(self).map.slots@[slot as int].entry.loc == LOC_SMALL
                || old(self).map.slots@[slot as int].entry.loc == LOC_MAIN,
        ensures
            final(self).shape(),
            ({
                let key = old(self).map.slots@[slot as int].key@;
                let entry = old(self)@.entries[key];
                &&& old(self)@.entries.contains_key(key)
                &&& taken == old(self).map.slots@[slot as int]
                &&& entry == taken.state()
                &&& final(self)@ == old(self)@.remove(key)
                &&& final(self).map.slots@ == without_slot(old(self).map.slots@, slot as int)
            }),
            final(self).small_keys == old(self).small_keys,
            final(self).small_stamps == old(self).small_stamps,
            final(self).main_keys == old(self).main_keys,
            final(self).main_stamps == old(self).main_stamps,
    {
        proof {
            self.map.lemma_slot(slot as int);
            let key = self.map.slots@[slot as int].key@;
            lemma_live_remove(self@, key, LOC_SMALL);
            lemma_live_remove(self@, key, LOC_MAIN);
        }
        let loc = self.map.slots[slot].entry.loc;
        let removed = self.map.remove(slot);
        self.count_out(loc);
        proof {
            assert(self@ =~= old(self)@.remove(removed.key@));
            let last = old(self).map.slots@.len() - 1;
            assert forall|i: int| 0 <= i < self.map.slots@.len() implies #[trigger] self.map.slots@[i]
                == old(self).map.slots@[if i == slot {
                last
            } else {
                i
            }] by {}
        }
        removed
    }
}

impl<K: CacheKey, V> ShardData<K, V> {
    /// Total live entries (small + main queues).
    pub(crate) fn total_live(&self) -> (total: usize)
        requires
            self.wf(),
        ensures
            total == self@.entries.len(),
    {
        proof {
            lemma_live_sum(self@);
            self.map.lemma_len();
        }
        self.small_live + self.main_live
    }

    /// Finds the slot of a key by a record of a queue, if the record is current.
    fn find_current(&self, hash: u64, key: &K, stamp: Stamp) -> (found: Option<usize>)
        requires
            self.map.wf(),
            self.map@.contains_key(key@) ==> self.map@[key@].hash == hash,
            forall|slot: int|
                0 <= slot < self.map.slots@.len() && (#[trigger] self.map.slots@[slot]).key@ == key@
                    ==> stamp.tells(self.map.slots@[slot].stamp),
        ensures
            match found {
                Some(slot) => {
                    &&& slot < self.map.slots@.len()
                    &&& self.map.slots@[slot as int].key@ == key@
                    &&& is_current(self.map@, (hash, key@, stamp.stay@))
                    &&& self.map@[key@] == self.map.slots@[slot as int].state()
                },
                None => !is_current(self.map@, (hash, key@, stamp.stay@)),
            },
    {
        match self.map.find(hash, key) {
            Some(slot) => {
                assert(stamp.tells(self.map.slots@[slot as int].stamp));
                if self.map.slots[slot].stamp.number == stamp.number {
                    Some(slot)
                } else {
                    None
                }
            },
            None => None,
        }
    }

    /// Processes one entry from the main queue: an entry with a positive
    /// frequency is given a second chance, and the first one without is evicted.
    ///
    /// A record left in the queue by an earlier stay of its key is dropped.
    pub(crate) fn evict_from_main(&mut self)
        requires
            old(self).wf(),
        ensures
            final(self).wf(),
            final(self)@ == old(self)@.evict_from_main(),
    {
        loop
            invariant
                self.wf(),
                self@.evict_from_main() == old(self)@.evict_from_main(),
            decreases patience(self@.main, self@.entries),
        {
            let ghost s = self@;
            match (
                self.main_hashes.pop_front(),
                self.main_keys.pop_front(),
                self.main_stamps.pop_front(),
            ) {
                (Some(hash), Some(key), Some(stamp)) => {
                    let ghost record = (hash, key@, stamp.stay@);
                    assert(s.main[0] == record);
                    assert(self@.main =~= s.main.skip(1));
                    assert(s.record_ok(s.main[0]));
                    assert(self.map@ == s.entries);
                    proof {
                        lemma_patience_head(s.main, s.entries);
                    }
                    match self.find_current(hash, &key, stamp) {
                        Some(slot) => {
                            let freq = self.map.slots[slot].entry.freq;
                            let loc = self.map.slots[slot].entry.loc;
                            assert(s.entry_ok(key@));
                            if freq > 0 {
                                proof {
                                    lemma_rotate_inv(s);
                                    lemma_second_chance(s);
                                    let entry = s.entries[key@];
                                    let lower = EntryState { freq: (freq - 1) as u8, ..entry };
                                    lemma_live_insert(s, key@, lower, LOC_SMALL);
                                    lemma_live_insert(s, key@, lower, LOC_MAIN);
                                }
                                self.map.set_meta(slot, freq - 1, loc);
                                self.main_hashes.push_back(hash);
                                self.main_keys.push_back(key);
                                self.main_stamps.push_back(stamp);
                                assert(self@.main =~= s.main.skip(1).push(record));
                            } else {
                                proof {
                                    lemma_evicted_main_inv(s);
                                }
                                let _ = self.take_slot(slot);
                                return;
                            }
                        },
                        None => {
                            proof {
                                lemma_stale_main_inv(s);
                            }
                        },
                    }
                },
                _ => {
                    return;
                },
            }
        }
    }

    /// Processes one entry from the small queue: an entry with a positive
    /// frequency is promoted to the main queue, one without is evicted and
    /// leaves its digest in the ghost set.
    ///
    /// Falls through to [`evict_from_main`](Self::evict_from_main) if the small
    /// queue holds no stored entry.
    pub(crate) fn evict_from_small(&mut self)
        requires
            old(self).wf(),
        ensures
            final(self).wf(),
            final(self)@ == old(self)@.evict_from_small(),
    {
        loop
            invariant
                self.wf(),
                self@.evict_from_small() == old(self)@.evict_from_small(),
            decreases self@.small.len(),
        {
            let ghost s = self@;
            match (
                self.small_hashes.pop_front(),
                self.small_keys.pop_front(),
                self.small_stamps.pop_front(),
            ) {
                (Some(hash), Some(key), Some(stamp)) => {
                    let ghost record = (hash, key@, stamp.stay@);
                    assert(s.small[0] == record);
                    assert(self@.small =~= s.small.skip(1));
                    assert(s.record_ok(s.small[0]));
                    match self.find_current(hash, &key, stamp) {
                        Some(slot) => {
                            let freq = self.map.slots[slot].entry.freq;
                            let loc = self.map.slots[slot].entry.loc;
                            assert(s.entry_ok(key@));
                            if freq > 0 {
                                proof {
                                    lemma_promote_inv(s);
                                    lemma_live_sum(s);
                                    self.map.lemma_len();
                                    let entry = s.entries[key@];
                                    let moved = EntryState { loc: LOC_MAIN, ..entry };
                                    lemma_live_remove(s, key@, loc);
                                    lemma_live_insert(s, key@, moved, LOC_SMALL);
                                    lemma_live_insert(s, key@, moved, LOC_MAIN);
                                }
                                self.map.set_meta(slot, freq, LOC_MAIN);
                                self.count_out(loc);
                                self.main_live = self.main_live + 1;
                                self.main_hashes.push_back(hash);
                                self.main_keys.push_back(key);
                                self.main_stamps.push_back(stamp);
                                assert(self@.main =~= s.main.push(record));
                            } else {
                                proof {
                                    lemma_evicted_small_inv(s);
                                }
                                let _ = self.take_slot(slot);
                                self.add_to_ghost(hash);
                            }
                            return;
                        },
                        None => {
                            proof {
                                lemma_stale_small_inv(s);
                            }
                        },
                    }
                },
                _ => {
                    self.evict_from_main();
                    return;
                },
            }
        }
    }

    /// Adds a digest to the ghost set, emptying it first if it is full.
    pub(crate) fn add_to_ghost(&mut self, hash: u64)
        requires
            old(self).shape(),
        ensures
            final(self).shape(),
            final(self)@ == old(self)@.add_ghost(hash),
            final(self)@ == (ShardState { ghosts: final(self)@.ghosts, ..old(self)@ }),
            old(self)@.ghosts.len() < old(self)@.cap ==> final(self)@.ghosts
                == old(self)@.ghosts.insert(hash),
            old(self)@.ghosts.len() >= old(self)@.cap ==> final(self)@.ghosts == set![hash],
    {
        if ghost_len(&self.ghost_set) >= self.ghost_cap {
            self.ghost_set.clear();
        }
        let _ = ghost_insert(&mut self.ghost_set, hash);
        assert(self@ =~= old(self)@.add_ghost(hash));
    }

    /// Evicts a single logical slot: from the small queue if it has reached its
    /// size, else from the main queue.
    ///
    /// This may promote an entry without evicting one. The caller repeats it
    /// until there is a free place.
    pub(crate) fn evict_one(&mut self)
        requires
            old(self).wf(),
        ensures
            final(self).wf(),
            final(self)@ == old(self)@.evict_one(),
            old(self)@.cap > 0 && 10 * old(self)@.live(LOC_SMALL) >= old(self)@.cap
                ==> final(self)@ == old(self)@.evict_from_small(),
            10 * old(self)@.live(LOC_SMALL) < old(self)@.cap ==> final(self)@
                == old(self)@.evict_from_main(),
    {
        proof {
            if self@.cap > 0 {
                law_ceil_div(self@.cap as int, 10);
            }
        }
        if self.small_live >= self.small_cap {
            self.evict_from_small();
        } else {
            self.evict_from_main();
        }
    }

    /// Evicts until there is a free place.
    pub(crate) fn make_room(&mut self)
        requires
            old(self).wf(),
        ensures
            final(self).wf(),
            final(self)@ == old(self)@.make_room(),
    {
        while self.shard_cap > 0 && self.total_live() >= self.shard_cap
            invariant
                self.wf(),
                self@.make_room() == old(self)@.make_room(),
            decreases self@.entries.len(), self@.small.len(),
        {
            proof {
                lemma_evict_one(self@);
            }
            self.evict_one();
        }
    }

    /// Constructs an empty shard. `shard_cap` is its eviction capacity
    /// (0 = disabled).
    pub fn new(shard_cap: usize) -> (shard: Self)
        ensures
            shard.wf(),
            shard@ == ShardState::<K, V>::empty(shard_cap as nat),
            shard@.entries == Map::<K::V, EntryState<K, V>>::empty(),
            shard@.small.len() == 0,
            shard@.main.len() == 0,
            shard@.ghosts == Set::<u64>::empty(),
            shard@.cap == shard_cap,
    {
        let small_cap: usize = if shard_cap == 0 {
            0
        } else {
            div_ceil(shard_cap, 10)
        };
        let main_cap: usize = if shard_cap == 0 {
            0
        } else if shard_cap > small_cap {
            shard_cap - small_cap
        } else {
            1
        };
        let shard = ShardData {
            map: EntryTable::new(),
            small_hashes: VecDeque::new(),
            small_keys: VecDeque::new(),
            small_stamps: VecDeque::new(),
            main_hashes: VecDeque::new(),
            main_keys: VecDeque::new(),
            main_stamps: VecDeque::new(),
            ghost_set: HashSet::default(),
            small_live: 0,
            main_live: 0,
            shard_cap,
            small_cap,
            main_cap,
            ghost_cap: shard_cap,
            next_stamp: Stamp { number: 1, stay: Ghost(0) },
        };
        proof {
            let s = ShardState::<K, V>::empty(shard_cap as nat);
            assert(shard@ =~= s);
            assert(s.members(LOC_SMALL) =~= Set::empty());
            assert(s.members(LOC_MAIN) =~= Set::empty());
        }
        shard
    }

    /// Nothing but the table differs from `before`.
    spec fn same_but_map(&self, before: &Self) -> bool {
        &&& self.small_hashes == before.small_hashes
        &&& self.small_keys == before.small_keys
        &&& self.small_stamps == before.small_stamps
        &&& self.main_hashes == before.main_hashes
        &&& self.main_keys == before.main_keys
        &&& self.main_stamps == before.main_stamps
        &&& self.ghost_set == before.ghost_set
        &&& self.small_live == before.small_live
        &&& self.main_live == before.main_live
        &&& self.shard_cap == before.shard_cap
        &&& self.small_cap == before.small_cap
        &&& self.main_cap == before.main_cap
        &&& self.ghost_cap == before.ghost_cap
        &&& self.next_stamp == before.next_stamp
    }

    /// Changing what is stored under a key keeps the invariant, as long as the
    /// key, the digest and the queue stay.
    proof fn lemma_entry_changed(&self, before: &Self, key: K::V, entry: EntryState<K, V>)
        requires
            before.wf(),
            before@.entries.contains_key(key),
            entry.key@ == key,
            entry.hash == before@.entries[key].hash,
            entry.loc == before@.entries[key].loc,
            entry.stamp == before@.entries[key].stamp,
            entry.freq <= MAX_FREQ,
            self.same_but_map(before),
            same_stays(self.map.slots@, before.map.slots@),
            self.map.wf(),
            self.map@ == before.map@.insert(key, entry),
        ensures
            self.wf(),
            self@ == before@.with_entry(key, entry),
    {
        assert(self@ =~= before@.with_entry(key, entry));
        lemma_with_entry_inv(before@, key, entry);
        lemma_live_insert(before@, key, entry, LOC_SMALL);
        lemma_live_insert(before@, key, entry, LOC_MAIN);
    }

    /// Counts an access to the entry in `slot`.
    fn bump_slot(&mut self, slot: usize)
        requires
            old(self).wf(),
            slot < old(self).map.slots@.len(),
        ensures
            final(self).wf(),
            final(self).map.slots@.len() == old(self).map.slots@.len(),
            final(self).map.slots@[slot as int].key == old(self).map.slots@[slot as int].key,
            final(self).pairs() == old(self).pairs(),
            final(self)@ == old(self)@.bump(old(self).map.slots@[slot as int].key@),
    {
        proof {
            self.map.lemma_slot(slot as int);
            assert(self@.entry_ok(self.map.slots@[slot as int].key@));
        }
        self.map.bump(slot);
        proof {
            assert(self.pairs() =~= old(self).pairs());
            let key = old(self).map.slots@[slot as int].key@;
            let entry = old(self)@.entries[key];
            self.lemma_entry_changed(
                old(self),
                key,
                EntryState { freq: bumped(entry.freq), ..entry },
            );
        }
    }

    /// The key and the value in `slot`, the value for writing.
    pub(crate) fn pair_mut(&mut self, slot: usize) -> (pair: (&K, &mut V))
        requires
            old(self).wf(),
            slot < old(self).map.slots@.len(),
        ensures
            final(self).wf(),
            ({
                let key = old(self).map.slots@[slot as int].key@;
                let entry = old(self)@.entries[key];
                &&& old(self)@.entries.contains_key(key)
                &&& *pair.0 == entry.key
                &&& *pair.1 == entry.value
                &&& final(self).map.slots@.len() == old(self).map.slots@.len()
                &&& forall|i: int|
                    0 <= i < old(self).map.slots@.len() ==> (#[trigger] final(self).map.slots@[i]).key
                        == old(self).map.slots@[i].key
                &&& slot_pairs(final(self).map.slots@) == slot_pairs(old(self).map.slots@).update(
                    slot as int,
                    (entry.key, *final(pair.1)),
                )
                &&& final(self)@ == old(self)@.with_value(key, *final(pair.1))
            }),
    {
        proof {
            self.map.lemma_slot(slot as int);
            let key = self.map.slots@[slot as int].key@;
            let before = *self;
            assert(before@.entry_ok(key));
            assert forall|after: Self|
                after.same_but_map(&before) && after.map.wf() && same_stays(
                    after.map.slots@,
                    before.map.slots@,
                ) && #[trigger] after.map@ == before.map@.insert(
                    key,
                    EntryState { value: after.map@[key].value, ..before@.entries[key] },
                ) implies after.wf() && after@ == before@.with_value(
                key,
                after.map@[key].value,
            ) by {
                let value = after.map@[key].value;
                after.lemma_entry_changed(
                    &before,
                    key,
                    EntryState { value, ..before@.entries[key] },
                );
            }
        }
        self.map.pair_mut(slot)
    }

    /// What a slot holds is the entry of its key.
    pub(crate) proof fn lemma_in_slot(&self, slot: int)
        requires
            self.wf(),
            0 <= slot < self.map.slots@.len(),
        ensures
            self@.entries.contains_key(self.map.slots@[slot].key@),
            self@.entries[self.map.slots@[slot].key@] == self.map.slots@[slot].state(),
    {
        self.map.lemma_slot(slot);
    }

    /// Puts an equal key and another value into `slot` and hands out the old
    /// pair. The queue and the frequency stay.
    pub(crate) fn replace_slot(&mut self, slot: usize, key: K, value: V) -> (old_pair: (K, V))
        requires
            old(self).wf(),
            slot < old(self).map.slots@.len(),
            key@ == old(self).map.slots@[slot as int].key@,
        ensures
            final(self).wf(),
            ({
                let entry = old(self)@.entries[key@];
                &&& old_pair == (entry.key, entry.value)
                &&& final(self)@ == old(self)@.with_entry(key@, EntryState { key, value, ..entry })
            }),
    {
        proof {
            self.map.lemma_slot(slot as int);
            assert(self@.entry_ok(key@));
        }
        let old_pair = self.map.replace_pair(slot, key, value);
        proof {
            let entry = old(self)@.entries[key@];
            self.lemma_entry_changed(old(self), key@, EntryState { key, value, ..entry });
        }
        old_pair
    }

    /// The stamp of the next stay. Its number is not the last one: before that,
    /// the current records are numbered anew, and the stale ones all get a number
    /// that no entry has.
    fn stamp(&mut self) -> (stamp: Stamp)
        requires
            old(self).wf(),
        ensures
            final(self).wf(),
            final(self)@ == old(self)@,
            stamp == final(self).next_stamp,
            stamp.number < u64::MAX,
    {
        if self.next_stamp.number == u64::MAX {
            proof {
                self.map.lemma_len();
                assert forall|i: int|
                    0 <= i < self.small_keys@.len() && self.map@.contains_key(
                        (#[trigger] self.small_keys@[i])@,
                    ) implies self.map@[self.small_keys@[i]@].hash == self.small_hashes@[i] by {
                    assert(self@.record_ok(self@.small[i]));
                }
                assert forall|i: int|
                    0 <= i < self.main_keys@.len() && self.map@.contains_key(
                        (#[trigger] self.main_keys@[i])@,
                    ) implies self.map@[self.main_keys@[i]@].hash == self.main_hashes@[i] by {
                    assert(self@.record_ok(self@.main[i]));
                }
            }
            let small = renumbered(&self.map, &self.small_hashes, &self.small_keys, &self.small_stamps);
            let main = renumbered(&self.map, &self.main_hashes, &self.main_keys, &self.main_stamps);
            self.small_stamps = small;
            self.main_stamps = main;
            self.map.renumber();
            self.next_stamp.number = self.map.len() as u64 + 1;
            proof {
                assert(self@.small =~= old(self)@.small);
                assert(self@.main =~= old(self)@.main);
                assert(self@ =~= old(self)@);
            }
        }
        self.next_stamp
    }

    /// Adds an entry under a key that is not stored, and tells its slot.
    ///
    /// A digest in the ghost set sends the entry straight to the main queue;
    /// any other entry starts in the small queue. Entries are evicted until
    /// there is a free place.
    pub(crate) fn insert_vacant(&mut self, hash: u64, key: K, value: V) -> (slot: usize)
        requires
            old(self).wf(),
            !old(self)@.entries.contains_key(key@),
            old(self)@.knows_as(key@, hash),
            old(self)@.entries.len() < MAX_ENTRIES,
        ensures
            final(self).wf(),
            final(self)@ == old(self)@.insert_new(hash, key, value),
            slot < final(self).map.slots@.len(),
            final(self).map.slots@[slot as int].key == key,
    {
        let ghost s0 = self@;
        proof {
            lemma_insert_new(s0, hash, key, value);
        }
        let loc = if ghost_remove(&mut self.ghost_set, hash) {
            LOC_MAIN
        } else {
            LOC_SMALL
        };
        assert(self@ =~= s0.forget_ghost(hash));
        assert(self@.members(LOC_SMALL) =~= s0.members(LOC_SMALL));
        assert(self@.members(LOC_MAIN) =~= s0.members(LOC_MAIN));
        self.make_room();
        let stamp = self.stamp();
        let ghost half = *self;
        let ghost room = self@;
        let ghost entry = EntryState { key, hash, value, freq: 0, loc, stamp: stamp.stay@ };
        proof {
            room.lemma_kept_len(s0);
            lemma_live_sum(room);
            lemma_live_insert(room, key@, entry, LOC_SMALL);
            lemma_live_insert(room, key@, entry, LOC_MAIN);
        }
        let key_for_queue = key.duplicate();
        let slot = self.map.len();
        self.map.insert(hash, key, CacheEntry::new(value, loc), stamp);
        if loc == LOC_MAIN {
            self.main_hashes.push_back(hash);
            self.main_keys.push_back(key_for_queue);
            self.main_stamps.push_back(stamp);
            self.main_live = self.main_live + 1;
        } else {
            self.small_hashes.push_back(hash);
            self.small_keys.push_back(key_for_queue);
            self.small_stamps.push_back(stamp);
            self.small_live = self.small_live + 1;
        }
        self.next_stamp = Stamp { number: stamp.number + 1, stay: Ghost(stamp.stay@ + 1) };
        proof {
            let before = half.map.slots@;
            assert forall|i: int| 0 <= i < before.len() implies (#[trigger] before[i]).key@
                != key@ by {
                half.map.lemma_slot(i);
            }
            assert forall|i: int| 0 <= i < half.small_stamps@.len() implies (
            #[trigger] half.small_stamps@[i]).stay@ < room.clock by {
                assert(room.small[i].2 < room.clock);
            }
            assert forall|i: int| 0 <= i < half.main_stamps@.len() implies (
            #[trigger] half.main_stamps@[i]).stay@ < room.clock by {
                assert(room.main[i].2 < room.clock);
            }
            assert(self.stamps_ok());
            assert(self@ =~= room.enqueue(entry));
            assert(self@.members(LOC_SMALL) =~= room.with_entry(key@, entry).members(LOC_SMALL));
            assert(self@.members(LOC_MAIN) =~= room.with_entry(key@, entry).members(LOC_MAIN));
        }
        slot
    }

    /// Stores `value` under `key`. A stored key keeps its place in the eviction
    /// order, and its old value is returned.
    pub fn insert(&mut self, hash: u64, key: K, value: V) -> (old_value: Option<V>)
        requires
            old(self).wf(),
            old(self)@.knows_as(key@, hash),
            old(self)@.entries.contains_key(key@) || old(self)@.entries.len() < MAX_ENTRIES,
        ensures
            final(self).wf(),
            final(self)@ == old(self)@.insert(hash, key, value),
            old_value == (if old(self)@.entries.contains_key(key@) {
                Some(old(self)@.entries[key@].value)
            } else {
                None
            }),
    {
        match self.map.find(hash, &key) {
            Some(slot) => {
                let old_value = self.map.replace_value(slot, value);
                proof {
                    let entry = EntryState { value, ..old(self)@.entries[key@] };
                    assert(old(self)@.entry_ok(key@));
                    self.lemma_entry_changed(old(self), key@, entry);
                }
                Some(old_value)
            },
            None => {
                let _ = self.insert_vacant(hash, key, value);
                None
            },
        }
    }

    /// Takes the entry in `slot` out of the shard.
    pub(crate) fn remove_slot(&mut self, slot: usize) -> (removed: (K, V))
        requires
            old(self).wf(),
            slot < old(self).map.slots@.len(),
        ensures
            final(self).wf(),
            ({
                let key = old(self).map.slots@[slot as int].key@;
                let entry = old(self)@.entries[key];
                &&& old(self)@.entries.contains_key(key)
                &&& removed == (entry.key, entry.value)
                &&& final(self)@ == old(self)@.remove(key)
                &&& final(self).map.slots@ == without_slot(old(self).map.slots@, slot as int)
            }),
    {
        proof {
            self.map.lemma_slot(slot as int);
            let key = self.map.slots@[slot as int].key@;
            assert(self@.entry_ok(key));
            lemma_remove_inv(self@, key);
        }
        let taken = self.take_slot(slot);
        (taken.key, taken.entry.value.into_inner())
    }

    /// Removes the entry under `key`.
    pub fn remove<Q: Lookup<K> + ?Sized>(&mut self, hash: u64, key: &Q) -> (removed: Option<(K, V)>)
        requires
            old(self).wf(),
            old(self)@.knows_as(key@, hash),
        ensures
            final(self).wf(),
            final(self)@ == old(self)@.remove(key@),
            removed == (if old(self)@.entries.contains_key(key@) {
                let entry = old(self)@.entries[key@];
                Some((entry.key, entry.value))
            } else {
                None
            }),
    {
        match self.map.find(hash, key) {
            Some(slot) => Some(self.remove_slot(slot)),
            None => {
                assert(self@ =~= self@.remove(key@));
                None
            },
        }
    }

    /// Removes the entry under `key` if `f(key, value)` returns `true`.
    pub fn remove_if<Q: Lookup<K> + ?Sized, F: FnOnce(&K, &V) -> bool>(
        &mut self,
        hash: u64,
        key: &Q,
        f: F,
    ) -> (removed: Option<(K, V)>)
        requires
            old(self).wf(),
            old(self)@.knows_as(key@, hash),
            old(self)@.entries.contains_key(key@) ==> {
                let entry = old(self)@.entries[key@];
                call_requires(f, (&entry.key, &entry.value))
            },
        ensures
            final(self).wf(),
            !old(self)@.entries.contains_key(key@) ==> removed is None && final(self)@ == old(self)@,
            old(self)@.entries.contains_key(key@) ==> {
                let entry = old(self)@.entries[key@];
                if removed is Some {
                    &&& call_ensures(f, (&entry.key, &entry.value), true)
                    &&& removed == Some((entry.key, entry.value))
                    &&& final(self)@ == old(self)@.remove(key@)
                } else {
                    &&& call_ensures(f, (&entry.key, &entry.value), false)
                    &&& final(self)@ == old(self)@
                }
            },
    {
        match self.map.find(hash, key) {
            Some(slot) => {
                let place = &self.map.slots[slot];
                if f(&place.key, place.entry.value.get()) {
                    Some(self.remove_slot(slot))
                } else {
                    None
                }
            },
            None => None,
        }
    }

    /// Removes the entry under `key` if `f(key, &mut value)` returns `true`.
    /// What `f` writes to the value stays written.
    pub fn remove_if_mut<Q: Lookup<K> + ?Sized, F: FnOnce(&K, &mut V) -> bool>(
        &mut self,
        hash: u64,
        key: &Q,
        f: F,
    ) -> (removed: Option<(K, V)>)
        requires
            old(self).wf(),
            old(self)@.knows_as(key@, hash),
            old(self)@.entries.contains_key(key@) ==> {
                let entry = old(self)@.entries[key@];
                forall|v: &mut V| *v == entry.value ==> #[trigger] call_requires(f, (&entry.key, v))
            },
        ensures
            final(self).wf(),
            !old(self)@.entries.contains_key(key@) ==> removed is None && final(self)@ == old(self)@,
            old(self)@.entries.contains_key(key@) ==> {
                let entry = old(self)@.entries[key@];
                exists|v: &mut V, verdict: bool| #[trigger]
                    call_ensures(f, (&entry.key, v), verdict) && *v == entry.value && (if verdict {
                        &&& removed == Some((entry.key, *final(v)))
                        &&& final(self)@ == old(self)@.remove(key@)
                    } else {
                        &&& removed is None
                        &&& final(self)@ == old(self)@.with_value(key@, *final(v))
                    })
            },
    {
        match self.map.find(hash, key) {
            Some(slot) => {
                let remove = {
                    let (k, v) = self.pair_mut(slot);
                    f(k, v)
                };
                if remove {
                    let removed = self.remove_slot(slot);
                    assert(self@ =~= old(self)@.remove(key@));
                    Some(removed)
                } else {
                    None
                }
            },
            None => None,
        }
    }

    /// The slot of `key`, if it is stored.
    pub(crate) fn find<Q: Lookup<K> + ?Sized>(&self, hash: u64, key: &Q) -> (found: Option<usize>)
        requires
            self.wf(),
            self@.knows_as(key@, hash),
        ensures
            match found {
                Some(slot) => {
                    &&& self@.entries.contains_key(key@)
                    &&& slot < self.map.slots@.len()
                    &&& self.map.slots@[slot as int].key@ == key@
                },
                None => !self@.entries.contains_key(key@),
            },
    {
        self.map.find(hash, key)
    }

    /// The place of `key`, if it is stored.
    pub fn position<Q: Lookup<K> + ?Sized>(&self, hash: u64, key: &Q) -> (found: Option<usize>)
        requires
            self.wf(),
            self@.knows_as(key@, hash),
        ensures
            match found {
                Some(place) => {
                    &&& self@.entries.contains_key(key@)
                    &&& place < self.pairs().len()
                    &&& self.pairs()[place as int] == (
                        self@.entries[key@].key,
                        self@.entries[key@].value,
                    )
                },
                None => !self@.entries.contains_key(key@),
            },
    {
        match self.find(hash, key) {
            Some(slot) => {
                proof {
                    self.map.lemma_slot(slot as int);
                }
                Some(slot)
            },
            None => None,
        }
    }

    /// The key and the value under `key`, without counting an access.
    pub fn peek<Q: Lookup<K> + ?Sized>(&self, hash: u64, key: &Q) -> (found: Option<(&K, &V)>)
        requires
            self.wf(),
            self@.knows_as(key@, hash),
        ensures
            match found {
                Some((k, v)) => {
                    &&& self@.entries.contains_key(key@)
                    &&& *k == self@.entries[key@].key
                    &&& *v == self@.entries[key@].value
                },
                None => !self@.entries.contains_key(key@),
            },
    {
        match self.find(hash, key) {
            Some(slot) => {
                proof {
                    self.map.lemma_slot(slot as int);
                }
                let place = &self.map.slots[slot];
                Some((&place.key, place.entry.value.get()))
            },
            None => None,
        }
    }

    /// Looks `key` up in a shard whose lock was asked for without waiting: the
    /// answer is `Locked` if it was not free. An access is counted.
    pub fn try_get<'a, Q: Lookup<K> + ?Sized>(
        shard: Option<&'a mut Self>,
        hash: u64,
        key: &Q,
    ) -> (found: TryResult<Ref<'a, K, V>>)
        requires
            shard matches Some(s) ==> s.wf() && s@.knows_as(key@, hash),
        ensures
            match shard {
                Some(s) => {
                    &&& final(s).wf()
                    &&& final(s)@ == s@.bump(key@)
                    &&& match found {
                        TryResult::Present(r) => {
                            &&& s@.entries.contains_key(key@)
                            &&& *r.k == s@.entries[key@].key
                            &&& *r.v == s@.entries[key@].value
                        },
                        TryResult::Absent => !s@.entries.contains_key(key@),
                        TryResult::Locked => false,
                    }
                },
                None => found is Locked,
            },
    {
        match shard {
            Some(s) => match s.get(hash, key) {
                Some((k, v)) => TryResult::Present(Ref::new(k, v)),
                None => TryResult::Absent,
            },
            None => TryResult::Locked,
        }
    }

    /// Looks `key` up for writing in a shard whose lock was asked for without
    /// waiting: the answer is `Locked` if it was not free. An access is counted.
    pub fn try_get_mut<'a, Q: Lookup<K> + ?Sized>(
        shard: Option<&'a mut Self>,
        hash: u64,
        key: &Q,
    ) -> (found: TryResult<RefMut<'a, K, V>>)
        requires
            shard matches Some(s) ==> s.wf() && s@.knows_as(key@, hash),
        ensures
            match shard {
                Some(s) => {
                    &&& final(s).wf()
                    &&& match found {
                        TryResult::Present(r) => {
                            &&& s@.entries.contains_key(key@)
                            &&& *r.k == s@.entries[key@].key
                            &&& *r.v == s@.entries[key@].value
                            &&& final(s)@ == s@.bump(key@).with_value(key@, *final(r.v))
                        },
                        TryResult::Absent => !s@.entries.contains_key(key@) && final(s)@ == s@,
                        TryResult::Locked => false,
                    }
                },
                None => found is Locked,
            },
    {
        match shard {
            Some(s) => match s.get_mut(hash, key) {
                Some((k, v)) => TryResult::Present(RefMut::new(k, v)),
                None => TryResult::Absent,
            },
            None => TryResult::Locked,
        }
    }

    /// The key and the value under `key`. An access is counted.
    pub fn get<Q: Lookup<K> + ?Sized>(&mut self, hash: u64, key: &Q) -> (found: Option<(&K, &V)>)
        requires
            old(self).wf(),
            old(self)@.knows_as(key@, hash),
        ensures
            final(self).wf(),
            final(self)@ == old(self)@.bump(key@),
            match found {
                Some((k, v)) => {
                    &&& old(self)@.entries.contains_key(key@)
                    &&& *k == old(self)@.entries[key@].key
                    &&& *v == old(self)@.entries[key@].value
                },
                None => !old(self)@.entries.contains_key(key@),
            },
    {
        match self.map.find(hash, key) {
            Some(slot) => {
                self.bump_slot(slot);
                proof {
                    self.map.lemma_slot(slot as int);
                }
                let place = &self.map.slots[slot];
                Some((&place.key, place.entry.value.get()))
            },
            None => None,
        }
    }

    /// The key and the value under `key`, the value for writing. An access is
    /// counted.
    pub fn get_mut<Q: Lookup<K> + ?Sized>(&mut self, hash: u64, key: &Q) -> (found: Option<
        (&K, &mut V),
    >)
        requires
            old(self).wf(),
            old(self)@.knows_as(key@, hash),
        ensures
            final(self).wf(),
            match found {
                Some((k, v)) => {
                    &&& old(self)@.entries.contains_key(key@)
                    &&& *k == old(self)@.entries[key@].key
                    &&& *v == old(self)@.entries[key@].value
                    &&& final(self)@ == old(self)@.bump(key@).with_value(key@, *final(v))
                },
                None => !old(self)@.entries.contains_key(key@) && final(self)@ == old(self)@,
            },
    {
        match self.map.find(hash, key) {
            Some(slot) => {
                self.bump_slot(slot);
                Some(self.pair_mut(slot))
            },
            None => None,
        }
    }

    /// The records of the key tell whether they were made for this stay.
    spec fn told(&self, key: K::V, stamp: Stamp) -> bool {
        &&& forall|i: int|
            0 <= i < self.small_stamps@.len() && self.small_keys@[i]@ == key ==> (
            #[trigger] self.small_stamps@[i]).tells(stamp)
        &&& forall|i: int|
            0 <= i < self.main_stamps@.len() && self.main_keys@[i]@ == key ==> (
            #[trigger] self.main_stamps@[i]).tells(stamp)
    }

    /// The records tell of every slot.
    proof fn lemma_told(&self, slot: int)
        requires
            self.wf(),
            0 <= slot < self.map.slots@.len(),
        ensures
            self.told(self.map.slots@[slot].key@, self.map.slots@[slot].stamp),
    {
        assert(self.stamps_ok());
    }

    /// Takes the entry in `slot` out of the shard, so that a function can be
    /// applied to its value. Its record stays in its queue.
    ///
    /// The shard is sound meanwhile: should the function unwind, the shard is
    /// left as if the entry had been removed.
    fn lift(&mut self, slot: usize) -> (taken: Slot<K, V>)
        requires
            old(self).wf(),
            slot < old(self).map.slots@.len(),
        ensures
            final(self).wf(),
            taken == old(self).map.slots@[slot as int],
            old(self)@.entries.contains_key(taken.key@),
            old(self)@.entries[taken.key@] == taken.state(),
            final(self)@ == old(self)@.remove(taken.key@),
            final(self).map.slots@ == without_slot(old(self).map.slots@, slot as int),
            final(self).told(taken.key@, taken.stamp),
    {
        proof {
            self.map.lemma_slot(slot as int);
            let key = self.map.slots@[slot as int].key@;
            assert(self@.entry_ok(key));
            lemma_remove_inv(self@, key);
        }
        let taken = self.take_slot(slot);
        proof {
            old(self).lemma_told(slot as int);
        }
        taken
    }

    /// Puts a lifted entry back, with another value.
    fn restore(&mut self, taken: Slot<K, V>, Ghost(before): Ghost<ShardState<K, V>>)
        requires
            old(self).wf(),
            before.inv(),
            before.entries.contains_key(taken.key@),
            taken.state() == (EntryState {
                value: taken.entry.value.value,
                ..before.entries[taken.key@]
            }),
            old(self)@ == before.remove(taken.key@),
            old(self).told(taken.key@, taken.stamp),
            before.entries.len() <= MAX_ENTRIES,
        ensures
            final(self).wf(),
            final(self)@ == before.with_value(taken.key@, taken.entry.value.value),
            final(self).map.slots@ == old(self).map.slots@.push(taken),
    {
        let ghost key = taken.key@;
        let ghost entry = taken.state();
        proof {
            assert(before.entry_ok(key));
            lemma_with_entry_inv(before, key, entry);
            lemma_live_sum(self@);
            self.map.lemma_len();
            lemma_live_insert(self@, key, entry, LOC_SMALL);
            lemma_live_insert(self@, key, entry, LOC_MAIN);
            assert(self@.with_entry(key, entry) =~= before.with_entry(key, entry));
        }
        let Slot { hash, key, entry, stamp } = taken;
        let loc = entry.loc;
        self.map.insert(hash, key, entry, stamp);
        if loc == LOC_SMALL {
            self.small_live = self.small_live + 1;
        } else {
            self.main_live = self.main_live + 1;
        }
        assert(self@ =~= before.with_value(taken.key@, taken.entry.value.value));
    }

    /// Replaces the value under `key` by `f(key, value)`. An access is counted.
    ///
    /// Should `f` unwind, the shard is left without the entry.
    pub fn alter<Q: Lookup<K> + ?Sized, F: FnOnce(&K, V) -> V>(&mut self, hash: u64, key: &Q, f: F)
        requires
            old(self).wf(),
            old(self)@.knows_as(key@, hash),
            old(self)@.entries.contains_key(key@) ==> {
                let entry = old(self)@.entries[key@];
                call_requires(f, (&entry.key, entry.value))
            },
        ensures
            final(self).wf(),
            !old(self)@.entries.contains_key(key@) ==> final(self)@ == old(self)@,
            old(self)@.entries.contains_key(key@) ==> {
                let entry = old(self)@.entries[key@];
                exists|value: V| #[trigger]
                    call_ensures(f, (&entry.key, entry.value), value) && final(self)@
                        == old(self)@.bump(key@).with_value(key@, value)
            },
    {
        match self.map.find(hash, key) {
            Some(slot) => {
                self.bump_slot(slot);
                let ghost before = self@;
                proof {
                    self.map.lemma_len();
                }
                let taken = self.lift(slot);
                let Slot { hash, key, entry, stamp } = taken;
                let CacheEntry { value, freq, loc } = entry;
                let new_value = map_in_place_2((&key, value.into_inner()), f);
                let entry = CacheEntry { value: SharedValue::new(new_value), freq, loc };
                self.restore(Slot { hash, key, entry, stamp }, Ghost(before));
            },
            None => {},
        }
    }

    /// Removes all entries and forgets all eviction state.
    pub fn clear_all(&mut self)
        requires
            old(self).wf(),
        ensures
            final(self).wf(),
            final(self)@ == ShardState::<K, V>::empty(old(self)@.cap),
    {
        self.map.clear();
        self.small_hashes.clear();
        self.small_keys.clear();
        self.small_stamps.clear();
        self.main_hashes.clear();
        self.main_keys.clear();
        self.main_stamps.clear();
        self.ghost_set.clear();
        self.small_live = 0;
        self.main_live = 0;
        self.next_stamp = Stamp { number: 1, stay: Ghost(0) };
        proof {
            assert(self@ =~= ShardState::<K, V>::empty(old(self)@.cap));
            assert(self@.members(LOC_SMALL) =~= Set::empty());
            assert(self@.members(LOC_MAIN) =~= Set::empty());
        }
    }

    /// The number of entries.
    pub fn len(&self) -> (len: usize)
        requires
            self.wf(),
        ensures
            len == self@.entries.len(),
            len <= MAX_ENTRIES,
    {
        self.map.len()
    }

    /// Gives up the shard for its slots.
    pub(crate) fn into_slots(self) -> (slots: Vec<Slot<K, V>>)
        ensures
            slot_pairs(slots@) == self.pairs(),
    {
        self.map.slots
    }

    /// The key and the value in the given place, without counting an access.
    pub fn pair_at(&self, place: usize) -> (pair: (&K, &V))
        requires
            place < self.pairs().len(),
        ensures
            (*pair.0, *pair.1) == self.pairs()[place as int],
    {
        let slot = &self.map.slots[place];
        (&slot.key, slot.entry.value.get())
    }

    /// Counts an access to the entry in the given place.
    pub fn bump_at(&mut self, place: usize)
        requires
            old(self).wf(),
            place < old(self).pairs().len(),
        ensures
            final(self).wf(),
            final(self).pairs() == old(self).pairs(),
            final(self)@ == old(self)@.bump(old(self).pairs()[place as int].0@),
    {
        self.bump_slot(place);
    }

    /// The key and the value in the given place, the value for writing, without
    /// counting an access.
    pub fn pair_at_mut(&mut self, place: usize) -> (pair: (&K, &mut V))
        requires
            old(self).wf(),
            place < old(self).pairs().len(),
        ensures
            final(self).wf(),
            (*pair.0, *pair.1) == old(self).pairs()[place as int],
            old(self)@.entries.contains_key(pair.0@),
            final(self).pairs() == old(self).pairs().update(
                place as int,
                (*pair.0, *final(pair.1)),
            ),
            final(self)@ == old(self)@.with_value(pair.0@, *final(pair.1)),
    {
        proof {
            self.map.lemma_slot(place as int);
        }
        self.pair_mut(place)
    }

    /// How many entries fit before the table grows: at least as many as there
    /// are. How many more is the allocator's affair.
    pub fn capacity(&self) -> (capacity: usize)
        requires
            self.wf(),
        ensures
            capacity >= self@.entries.len(),
    {
        self.map.capacity()
    }

    /// Reserves space for more entries, or reports that it could not be had.
    pub fn map_try_reserve(&mut self, additional: usize) -> (outcome: Result<(), TryReserveError>)
        requires
            old(self).wf(),
        ensures
            final(self).wf(),
            final(self)@ == old(self)@,
            additional == 0 ==> outcome is Ok,
            additional > usize::MAX / 8 ==> outcome is Err,
    {
        self.map.try_reserve(additional)
    }

    /// Gives back space beyond what `min_capacity` entries or all that are
    /// there need. Nothing that the shard holds changes; how much space is left
    /// afterwards is the allocator's affair.
    pub fn map_shrink_to(&mut self, min_capacity: usize)
        requires
            old(self).wf(),
        ensures
            final(self).wf(),
            final(self)@ == old(self)@,
    {
        self.map.shrink_to(min_capacity);
    }

    /// Replaces every value by `f(key, value)`. No access is counted.
    ///
    /// Should `f` unwind, the shard is left without the entry at hand.
    pub fn alter_all<F: FnMut(&K, V) -> V>(&mut self, f: &mut F)
        requires
            old(self).wf(),
            forall|key: K::V| #[trigger]
                old(self)@.entries.contains_key(key) ==> {
                    let entry = old(self)@.entries[key];
                    call_requires(*old(f), (&entry.key, entry.value))
                },
        ensures
            final(self).wf(),
            *final(f) == *old(f),
            final(self)@ == old(self)@.with_entries(final(self)@.entries),
            final(self)@.entries.dom() == old(self)@.entries.dom(),
            forall|key: K::V| #[trigger]
                old(self)@.entries.contains_key(key) ==> {
                    let entry = old(self)@.entries[key];
                    let after = final(self)@.entries[key];
                    &&& after == EntryState { value: after.value, ..entry }
                    &&& call_ensures(*old(f), (&entry.key, entry.value), after.value)
                },
    {
        let ghost before = *self;
        let ghost slots0 = self.map.slots@;
        let mut left: usize = self.map.slots.len();
        proof {
            assert(self@ =~= before@.with_entries(self@.entries));
            before.map.lemma_len();
            assert forall|key: K::V| #[trigger] before@.entries.contains_key(key) implies slot_of(
                slots0,
                key,
            ) < left by {
                before.map.lemma_slot_of(key);
            }
        }
        while left > 0
            invariant
                before.wf(),
                before == *old(self),
                slots0 == before.map.slots@,
                self.wf(),
                left <= slots0.len(),
                *f == *old(f),
                self.map.slots@.len() == slots0.len(),
                before@.entries.len() <= MAX_ENTRIES,
                self@ == before@.with_entries(self@.entries),
                self@.entries.dom() == before@.entries.dom(),
                forall|j: int| 0 <= j < left ==> #[trigger] self.map.slots@[j] == slots0[j],
                forall|key: K::V| #[trigger]
                    before@.entries.contains_key(key) ==> {
                        let entry = before@.entries[key];
                        let after = self@.entries[key];
                        &&& after == EntryState { value: after.value, ..entry }
                        &&& call_requires(*f, (&entry.key, entry.value))
                        &&& slot_of(slots0, key) < left || call_ensures(
                            *f,
                            (&entry.key, entry.value),
                            after.value,
                        )
                    },
            decreases left,
        {
            let ghost half = self@;
            left = left - 1;
            proof {
                before.map.lemma_slot(left as int);
                assert(self.map.slots@[left as int] == slots0[left as int]);
                self.map.lemma_slot(left as int);
            }
            let taken = self.lift(left);
            let Slot { hash, key, entry, stamp } = taken;
            let CacheEntry { value, freq, loc } = entry;
            let new_value = f(&key, value.into_inner());
            let entry = CacheEntry { value: SharedValue::new(new_value), freq, loc };
            self.restore(Slot { hash, key, entry, stamp }, Ghost(half));
            proof {
                assert(self@ =~= before@.with_entries(self@.entries));
                assert(self@.entries.dom() =~= before@.entries.dom());
                assert forall|other: K::V| #[trigger] before@.entries.contains_key(other) implies ({
                    let entry = before@.entries[other];
                    let after = self@.entries[other];
                    &&& after == EntryState { value: after.value, ..entry }
                    &&& slot_of(slots0, other) < left || call_ensures(
                        *f,
                        (&entry.key, entry.value),
                        after.value,
                    )
                }) by {
                    before.map.lemma_slot_of(other);
                }
            }
        }
        proof {
            assert forall|key: K::V| #[trigger] before@.entries.contains_key(key) implies call_ensures(
                *f,
                (&before@.entries[key].key, before@.entries[key].value),
                self@.entries[key].value,
            ) by {
                before.map.lemma_slot_of(key);
            }
        }
    }

    /// Removes every entry for which `f(key, &mut value)` returns `false`. What
    /// `f` writes to a value that stays is kept.
    pub fn retain<F: FnMut(&K, &mut V) -> bool>(&mut self, f: &mut F)
        requires
            old(self).wf(),
            forall|key: K::V, v: &mut V|
                old(self)@.entries.contains_key(key) && *v == old(self)@.entries[key].value
                    ==> #[trigger] call_requires(*old(f), (&old(self)@.entries[key].key, v)),
        ensures
            final(self).wf(),
            *final(f) == *old(f),
            final(self)@ == old(self)@.with_entries(final(self)@.entries),
            forall|key: K::V| #[trigger]
                final(self)@.entries.contains_key(key) ==> old(self)@.entries.contains_key(key),
            forall|key: K::V| #[trigger]
                old(self)@.entries.contains_key(key) ==> {
                    let entry = old(self)@.entries[key];
                    exists|v: &mut V, verdict: bool| #[trigger]
                        call_ensures(*old(f), (&entry.key, v), verdict) && *v == entry.value
                            && final(self)@.lookup(key) == (if verdict {
                            Some(EntryState { value: *final(v), ..entry })
                        } else {
                            None
                        })
                },
    {
        let ghost before = self@;
        let ghost mut done: Set<K::V> = Set::empty();
        let mut i: usize = 0;
        assert(self@ =~= before.with_entries(self@.entries));
        while i < self.map.slots.len()
            invariant
                before == old(self)@,
                self.wf(),
                i <= self.map.slots@.len(),
                *f == *old(f),
                forall|key: K::V, v: &mut V|
                    before.entries.contains_key(key) && *v == before.entries[key].value
                        ==> #[trigger] call_requires(*f, (&before.entries[key].key, v)),
                self@ == before.with_entries(self@.entries),
                forall|key: K::V| #[trigger]
                    self@.entries.contains_key(key) ==> before.entries.contains_key(key),
                forall|key: K::V| #[trigger]
                    before.entries.contains_key(key) && !done.contains(key)
                        ==> self@.lookup(key) == Some(before.entries[key]),
                forall|j: int|
                    0 <= j < self.map.slots@.len() ==> (done.contains(
                        (#[trigger] self.map.slots@[j]).key@,
                    ) <==> j < i),
                forall|key: K::V| #[trigger]
                    before.entries.contains_key(key) && done.contains(key) ==> {
                        let entry = before.entries[key];
                        exists|v: &mut V, verdict: bool| #[trigger]
                            call_ensures(*f, (&entry.key, v), verdict) && *v == entry.value
                                && self@.lookup(key) == (if verdict {
                                Some(EntryState { value: *final(v), ..entry })
                            } else {
                                None
                            })
                    },
            decreases self.map.slots@.len() - i,
        {
            let ghost half = *self;
            let ghost key = self.map.slots@[i as int].key@;
            proof {
                self.map.lemma_slot(i as int);
                assert(self@.entries.contains_key(key));
                assert(before.entries.contains_key(key));
            }
            let keep = {
                let (k, v) = self.pair_mut(i);
                f(k, v)
            };
            proof {
                assert forall|j: int| 0 <= j < half.map.slots@.len() implies (done.insert(
                    key,
                ).contains((#[trigger] half.map.slots@[j]).key@) <==> j <= i) by {
                    if j != i {
                        half.map.lemma_unique(i as int, j);
                    }
                }
                done = done.insert(key);
            }
            let ghost judged = self.map.slots@;
            assert(forall|j: int|
                0 <= j < judged.len() ==> (#[trigger] judged[j]).key == half.map.slots@[j].key);
            if keep {
                i = i + 1;
            } else {
                let _ = self.remove_slot(i);
            }
        }
        proof {
            assert forall|key: K::V| #[trigger] before.entries.contains_key(key) implies done.contains(
                key,
            ) by {
                if !done.contains(key) {
                    self.map.lemma_slot_of(key);
                }
            }
        }
    }
}

impl<K: CacheKey, V> Default for ShardData<K, V> {
    /// A shard without entries that never evicts.
    fn default() -> (shard: Self)
        ensures
            shard.wf(),
            shard@ == ShardState::<K, V>::empty(0),
    {
        Self::new(0)
    }
}

/// Calls `HashSet::clone` on a set of digests with an [`ahash`] hasher, which
/// makes a set of the same digests.
#[verifier::external_body]
fn ghost_duplicate(ghosts: &HashSet<u64, RandomState>) -> (copy: HashSet<u64, RandomState>)
    ensures
        copy@ == ghosts@,
{
    ghosts.clone()
}

/// The stamps of a queue, numbered after the slots: a current record gets the
/// number of its key's slot, counted from one, and a stale one gets zero.
fn renumbered<K: CacheKey, V>(
    map: &EntryTable<K, V>,
    hashes: &VecDeque<u64>,
    keys: &VecDeque<K>,
    stamps: &VecDeque<Stamp>,
) -> (numbered: VecDeque<Stamp>)
    requires
        map.wf(),
        hashes@.len() == keys@.len() == stamps@.len(),
        map.slots@.len() <= MAX_ENTRIES,
        forall|i: int|
            0 <= i < keys@.len() && map@.contains_key((#[trigger] keys@[i])@)
                ==> map@[keys@[i]@].hash == hashes@[i],
        forall|i: int, slot: int|
            0 <= i < stamps@.len() && 0 <= slot < map.slots@.len() && keys@[i]@
                == map.slots@[slot].key@ ==> (#[trigger] stamps@[i]).tells(
                (#[trigger] map.slots@[slot]).stamp,
            ),
    ensures
        numbered@.len() == stamps@.len(),
        forall|i: int|
            0 <= i < stamps@.len() ==> (#[trigger] numbered@[i]).stay == stamps@[i].stay
                && numbered@[i].number <= map.slots@.len(),
        forall|i: int, slot: int|
            0 <= i < stamps@.len() && 0 <= slot < map.slots@.len() && keys@[i]@
                == map.slots@[slot].key@ ==> ((#[trigger] numbered@[i]).number == slot + 1
                <==> numbered@[i].stay@ == (#[trigger] map.slots@[slot]).stamp.stay@),
{
    let mut numbered: VecDeque<Stamp> = VecDeque::new();
    let mut i: usize = 0;
    while i < stamps.len()
        invariant
            map.wf(),
            hashes@.len() == keys@.len() == stamps@.len(),
            map.slots@.len() <= MAX_ENTRIES,
            forall|i: int|
                0 <= i < keys@.len() && map@.contains_key((#[trigger] keys@[i])@)
                    ==> map@[keys@[i]@].hash == hashes@[i],
            forall|i: int, slot: int|
                0 <= i < stamps@.len() && 0 <= slot < map.slots@.len() && keys@[i]@
                    == map.slots@[slot].key@ ==> (#[trigger] stamps@[i]).tells(
                    (#[trigger] map.slots@[slot]).stamp,
                ),
            i <= stamps@.len(),
            numbered@.len() == i,
            forall|j: int|
                0 <= j < i ==> (#[trigger] numbered@[j]).stay == stamps@[j].stay
                    && numbered@[j].number <= map.slots@.len(),
            forall|j: int, slot: int|
                0 <= j < i && 0 <= slot < map.slots@.len() && keys@[j]@ == map.slots@[slot].key@ ==> ((
                #[trigger] numbered@[j]).number == slot + 1 <==> numbered@[j].stay@ == (
                #[trigger] map.slots@[slot]).stamp.stay@),
        decreases stamps@.len() - i,
    {
        let stamp = stamps[i];
        let number: u64 = match map.find(hashes[i], &keys[i]) {
            Some(slot) => {
                assert(stamps@[i as int].tells(map.slots@[slot as int].stamp));
                proof {
                    assert forall|other: int|
                        0 <= other < map.slots@.len() && (#[trigger] map.slots@[other]).key@
                            == keys@[i as int]@ implies other == slot by {
                        if other != slot {
                            map.lemma_unique(other, slot as int);
                        }
                    }
                }
                if map.slots[slot].stamp.number == stamp.number {
                    slot as u64 + 1
                } else {
                    0
                }
            },
            None => {
                proof {
                    assert forall|other: int|
                        0 <= other < map.slots@.len() implies (#[trigger] map.slots@[other]).key@
                        != keys@[i as int]@ by {
                        map.lemma_slot(other);
                    }
                }
                0
            },
        };
        numbered.push_back(Stamp { number, stay: stamp.stay });
        i = i + 1;
    }
    numbered
}

/// A queue of equal keys.
fn duplicate_keys<K: CacheKey>(keys: &VecDeque<K>) -> (copy: VecDeque<K>)
    ensures
        copy@.len() == keys@.len(),
        forall|i: int| 0 <= i < keys@.len() ==> (#[trigger] copy@[i])@ == keys@[i]@,
{
    let mut copy: VecDeque<K> = VecDeque::new();
    let mut i: usize = 0;
    while i < keys.len()
        invariant
            i <= keys@.len(),
            copy@.len() == i,
            forall|j: int| 0 <= j < i ==> (#[trigger] copy@[j])@ == keys@[j]@,
        decreases keys@.len() - i,
    {
        copy.push_back(keys[i].duplicate());
        i = i + 1;
    }
    copy
}

impl<K: CacheKey, V: Clone> Clone for ShardData<K, V> {
    /// A shard of clones of the entries, with the same eviction state.
    fn clone(&self) -> (copy: Self)
        ensures
            self.wf() ==> copy.wf() && self@.copied_to(copy@),
    {
        let copy = ShardData {
            map: self.map.duplicate(),
            small_hashes: self.small_hashes.clone(),
            small_keys: duplicate_keys(&self.small_keys),
            small_stamps: self.small_stamps.clone(),
            main_hashes: self.main_hashes.clone(),
            main_keys: duplicate_keys(&self.main_keys),
            main_stamps: self.main_stamps.clone(),
            ghost_set: ghost_duplicate(&self.ghost_set),
            small_live: self.small_live,
            main_live: self.main_live,
            shard_cap: self.shard_cap,
            small_cap: self.small_cap,
            main_cap: self.main_cap,
            ghost_cap: self.ghost_cap,
            next_stamp: self.next_stamp,
        };
        proof {
            if self.wf() {
                assert(copy.small_hashes@ =~= self.small_hashes@);
                assert(copy.main_hashes@ =~= self.main_hashes@);
                assert(copy.small_stamps@ =~= self.small_stamps@);
                assert(copy.main_stamps@ =~= self.main_stamps@);
                assert(copy@.small =~= self@.small);
                assert(copy@.main =~= self@.main);
                lemma_copied_inv(self@, copy@);
            }
        }
        copy
    }
}

} // verus!
