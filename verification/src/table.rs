//! The entries of a shard, found by key.
use crate::index::{indexed_pairs, SlotIndex, MAX_ENTRIES};
use crate::keys::{CacheKey, Lookup};
use crate::model::EntryState;
use crate::TryReserveError;
use crate::util::{bumped, CacheEntry, SharedValue};
use vstd::prelude::*;

verus! {

/// What tells one stay of a key in a shard from another: a number, which is
/// compared, and the stay for which it stands.
///
/// The numbers are given out anew when they run out; the stays are not.
#[derive(Clone, Copy)]
pub struct Stamp {
    pub number: u64,
    pub stay: Ghost<nat>,
}

impl Stamp {
    /// The two numbers tell whether the two stamps are of one stay.
    pub open spec fn tells(self, other: Stamp) -> bool {
        self.number == other.number <==> self.stay@ == other.stay@
    }
}

/// A stored entry: the key with its digest and its stamp, and the value with its
/// metadata.
pub struct Slot<K, V> {
    pub hash: u64,
    pub key: K,
    pub entry: CacheEntry<V>,
    pub stamp: Stamp,
}

impl<K, V> Slot<K, V> {
    /// What the slot holds.
    pub open spec fn state(self) -> EntryState<K, V> {
        EntryState {
            key: self.key,
            hash: self.hash,
            value: self.entry.value.value,
            freq: self.entry.freq,
            loc: self.entry.loc,
            stamp: self.stamp.stay@,
        }
    }
}

/// The slots hold the same stays of the same keys.
pub open spec fn same_stays<K: View, V>(after: Seq<Slot<K, V>>, before: Seq<Slot<K, V>>) -> bool {
    &&& after.len() == before.len()
    &&& forall|i: int|
        0 <= i < before.len() ==> (#[trigger] after[i]).key@ == before[i].key@ && after[i].stamp
            == before[i].stamp
}

/// The views of the keys, slot by slot.
pub open spec fn slot_keys<K: View, V>(slots: Seq<Slot<K, V>>) -> Seq<K::V> {
    slots.map_values(|slot: Slot<K, V>| slot.key@)
}

/// The slot in which the key with this view is stored.
pub open spec fn slot_of<K: View, V>(slots: Seq<Slot<K, V>>, key: K::V) -> int {
    slot_keys(slots).index_of(key)
}

/// The entries that the slots hold, by the view of their key.
pub open spec fn slot_entries<K: View, V>(slots: Seq<Slot<K, V>>) -> Map<K::V, EntryState<K, V>> {
    Map::new(
        |key: K::V| slot_keys(slots).contains(key),
        |key: K::V| slots[slot_of(slots, key)].state(),
    )
}

/// A hash table of entries: the entries stand in slots, without gaps, and an
/// index leads from a digest to the slot.
pub struct EntryTable<K, V> {
    pub(crate) index: SlotIndex,
    pub(crate) slots: Vec<Slot<K, V>>,
}

impl<K: CacheKey, V> View for EntryTable<K, V> {
    type V = Map<K::V, EntryState<K, V>>;

    closed spec fn view(&self) -> Map<K::V, EntryState<K, V>> {
        slot_entries(self.slots@)
    }
}

/// No key stands in two slots.
pub open spec fn keys_unique<K: View, V>(slots: Seq<Slot<K, V>>) -> bool {
    slot_keys(slots).no_duplicates()
}

/// The pair under which the slot is filed.
pub open spec fn pair_of<K, V>(slots: Seq<Slot<K, V>>, slot: usize) -> (u64, usize) {
    (slots[slot as int].hash, slot)
}

impl<K: CacheKey, V> EntryTable<K, V> {
    /// The index leads to every slot and to nothing else.
    pub closed spec fn index_wf(&self) -> bool {
        let pairs = indexed_pairs(self.index);
        &&& pairs.finite()
        &&& pairs.len() == self.slots@.len()
        &&& forall|slot: usize|
            slot < self.slots@.len() ==> #[trigger] pairs.contains(pair_of(self.slots@, slot))
        &&& forall|pair: (u64, usize)| #[trigger]
            pairs.contains(pair) ==> pair.1 < self.slots@.len() && pair.0
                == self.slots@[pair.1 as int].hash
    }

    /// The table's invariant.
    pub closed spec fn wf(&self) -> bool {
        &&& self.index_wf()
        &&& keys_unique(self.slots@)
        &&& self.slots@.len() <= MAX_ENTRIES
    }
}

/// A key stands in the entries exactly when it stands in a slot, and the entry
/// is what that slot holds.
pub proof fn lemma_slot_entry<K: View, V>(slots: Seq<Slot<K, V>>, slot: int)
    requires
        keys_unique(slots),
        0 <= slot < slots.len(),
    ensures
        slot_entries(slots).contains_key(slots[slot].key@),
        slot_entries(slots)[slots[slot].key@] == slots[slot].state(),
        slot_of(slots, slots[slot].key@) == slot,
{
    let keys = slot_keys(slots);
    assert(keys[slot] == slots[slot].key@);
    assert(keys.contains(slots[slot].key@));
    let found = keys.index_of(slots[slot].key@);
    assert(keys[found] == slots[slot].key@);
}

/// Every entry stands in a slot.
pub proof fn lemma_entry_slot<K: View, V>(slots: Seq<Slot<K, V>>, key: K::V)
    requires
        slot_entries(slots).contains_key(key),
    ensures
        0 <= slot_of(slots, key) < slots.len(),
        slots[slot_of(slots, key)].key@ == key,
{
    let keys = slot_keys(slots);
    assert(keys.contains(key));
}

/// There are as many entries as slots.
pub proof fn lemma_entries_len<K: View, V>(slots: Seq<Slot<K, V>>)
    requires
        keys_unique(slots),
    ensures
        slot_entries(slots).dom().finite(),
        slot_entries(slots).len() == slots.len(),
{
    let keys = slot_keys(slots);
    keys.unique_seq_to_set();
    assert(slot_entries(slots).dom() =~= keys.to_set());
}

/// Changing a slot without changing its key changes that key's entry alone.
pub proof fn lemma_slot_update<K: View, V>(slots: Seq<Slot<K, V>>, slot: int, new: Slot<K, V>)
    requires
        keys_unique(slots),
        0 <= slot < slots.len(),
        new.key@ == slots[slot].key@,
    ensures
        keys_unique(slots.update(slot, new)),
        slot_keys(slots.update(slot, new)) == slot_keys(slots),
        slot_entries(slots.update(slot, new)) == slot_entries(slots).insert(
            slots[slot].key@,
            new.state(),
        ),
{
    let after = slots.update(slot, new);
    assert(slot_keys(after) =~= slot_keys(slots));
    lemma_slot_entry(slots, slot);
    assert forall|key: K::V| slot_entries(slots).contains_key(key) implies slot_entries(after)[key]
        == slot_entries(slots).insert(slots[slot].key@, new.state())[key] by {
        lemma_entry_slot(slots, key);
        lemma_slot_entry(slots, slot_of(slots, key));
    }
    assert(slot_entries(after) =~= slot_entries(slots).insert(slots[slot].key@, new.state()));
}

/// Adding a slot with a new key adds that key's entry.
pub proof fn lemma_slot_push<K: View, V>(slots: Seq<Slot<K, V>>, new: Slot<K, V>)
    requires
        keys_unique(slots),
        !slot_entries(slots).contains_key(new.key@),
    ensures
        keys_unique(slots.push(new)),
        slot_entries(slots.push(new)) == slot_entries(slots).insert(new.key@, new.state()),
{
    let after = slots.push(new);
    assert(slot_keys(after) =~= slot_keys(slots).push(new.key@));
    assert(!slot_keys(slots).contains(new.key@));
    assert forall|i: int, j: int| 0 <= i < j < after.len() implies slot_keys(after)[i]
        != slot_keys(after)[j] by {
        if j == slots.len() {
            assert(slot_keys(slots)[i] == slot_keys(after)[i]);
            assert(slot_keys(slots).contains(slot_keys(slots)[i]));
        } else {
            assert(slot_keys(slots)[i] == slot_keys(after)[i]);
            assert(slot_keys(slots)[j] == slot_keys(after)[j]);
        }
    }
    lemma_slot_entry(after, slots.len() as int);
    let wanted = slot_entries(slots).insert(new.key@, new.state());
    assert forall|key: K::V| #[trigger] wanted.contains_key(key) implies slot_entries(
        after,
    ).contains_key(key) && slot_entries(after)[key] == wanted[key] by {
        if key != new.key@ {
            lemma_entry_slot(slots, key);
            lemma_slot_entry(slots, slot_of(slots, key));
            lemma_slot_entry(after, slot_of(slots, key));
        }
    }
    assert forall|key: K::V| #[trigger] slot_entries(after).contains_key(key) implies
        wanted.contains_key(key) by {
        lemma_entry_slot(after, key);
        let slot = slot_of(after, key);
        if slot < slots.len() {
            lemma_slot_entry(slots, slot);
        }
    }
    assert(slot_entries(after) =~= wanted);
}

/// The slots after one is taken out and the last one takes its place.
pub open spec fn without_slot<K, V>(slots: Seq<Slot<K, V>>, slot: int) -> Seq<Slot<K, V>> {
    slots.update(slot, slots.last()).drop_last()
}

/// Taking a slot out removes its key's entry.
pub proof fn lemma_slot_remove<K: View, V>(slots: Seq<Slot<K, V>>, slot: int)
    requires
        keys_unique(slots),
        0 <= slot < slots.len(),
    ensures
        keys_unique(without_slot(slots, slot)),
        slot_entries(without_slot(slots, slot)) == slot_entries(slots).remove(slots[slot].key@),
{
    let after = without_slot(slots, slot);
    let last = slots.len() - 1;
    assert forall|i: int, j: int| 0 <= i < j < after.len() implies slot_keys(after)[i]
        != slot_keys(after)[j] by {
        let i0 = if i == slot { last } else { i };
        let j0 = if j == slot { last } else { j };
        assert(slot_keys(slots)[i0] == slot_keys(after)[i]);
        assert(slot_keys(slots)[j0] == slot_keys(after)[j]);
    }
    lemma_slot_entry(slots, slot);
    let wanted = slot_entries(slots).remove(slots[slot].key@);
    assert forall|key: K::V| #[trigger] wanted.contains_key(key) implies slot_entries(
        after,
    ).contains_key(key) && slot_entries(after)[key] == wanted[key] by {
        lemma_entry_slot(slots, key);
        let at = slot_of(slots, key);
        lemma_slot_entry(slots, at);
        lemma_slot_entry(
            after,
            if at == last {
                slot
            } else {
                at
            },
        );
    }
    assert forall|key: K::V| #[trigger] slot_entries(after).contains_key(key) implies
        wanted.contains_key(key) by {
        lemma_entry_slot(after, key);
        let at = slot_of(after, key);
        let from = if at == slot { last } else { at };
        lemma_slot_entry(slots, from);
        assert(slot_keys(slots)[from] != slot_keys(slots)[slot]);
    }
    assert(slot_entries(after) =~= wanted);
}

impl<K: CacheKey, V> EntryTable<K, V> {
    /// Makes a table without entries.
    pub(crate) fn new() -> (table: Self)
        ensures
            table.wf(),
            table@ == Map::<K::V, EntryState<K, V>>::empty(),
    {
        let table = EntryTable { index: SlotIndex::new(), slots: Vec::new() };
        assert(slot_keys(table.slots@) =~= Seq::<K::V>::empty());
        assert(table@ =~= Map::<K::V, EntryState<K, V>>::empty());
        table
    }

    /// Finds the slot of a key that is filed under `hash`, if it is stored.
    pub(crate) fn find<Q: Lookup<K> + ?Sized>(&self, hash: u64, key: &Q) -> (found: Option<usize>)
        requires
            self.wf(),
            self@.contains_key(key@) ==> self@[key@].hash == hash,
        ensures
            match found {
                Some(slot) => {
                    &&& slot < self.slots@.len()
                    &&& self.slots@[slot as int].key@ == key@
                    &&& self@.contains_key(key@)
                    &&& self@[key@] == self.slots@[slot as int].state()
                },
                None => !self@.contains_key(key@),
            },
    {
        let found = self.index.get(hash, &self.slots, key);
        proof {
            match found {
                Some(slot) => {
                    lemma_slot_entry(self.slots@, slot as int);
                },
                None => {
                    if self@.contains_key(key@) {
                        lemma_entry_slot(self.slots@, key@);
                        let slot = slot_of(self.slots@, key@) as usize;
                        assert(indexed_pairs(self.index).contains(pair_of(self.slots@, slot)));
                        assert(indexed_pairs(self.index).contains((hash, slot)));
                    }
                },
            }
        }
        found
    }

    /// The number of entries.
    pub(crate) fn len(&self) -> (len: usize)
        requires
            self.wf(),
        ensures
            len == self@.len(),
            self@.dom().finite(),
            len <= MAX_ENTRIES,
            len == self.slots@.len(),
    {
        proof {
            lemma_entries_len(self.slots@);
        }
        self.slots.len()
    }

    /// Adds an entry under a key that is not stored.
    pub(crate) fn insert(&mut self, hash: u64, key: K, entry: CacheEntry<V>, stamp: Stamp)
        requires
            old(self).wf(),
            !old(self)@.contains_key(key@),
            old(self)@.len() < MAX_ENTRIES,
        ensures
            final(self).wf(),
            final(self).slots@ == old(self).slots@.push(Slot { hash, key, entry, stamp }),
            final(self)@ == old(self)@.insert(key@, (Slot { hash, key, entry, stamp }).state()),
    {
        let ghost before = self.slots@;
        let slot = Slot { hash, key, entry, stamp };
        proof {
            lemma_entries_len(before);
            lemma_slot_push(before, slot);
        }
        let at = self.slots.len();
        self.index.insert((hash, at));
        self.slots.push(slot);
        proof {
            let pairs = indexed_pairs(self.index);
            assert forall|i: usize| i < self.slots@.len() implies #[trigger] pairs.contains(
                pair_of(self.slots@, i),
            ) by {
                if i < at {
                    assert(indexed_pairs(old(self).index).contains(pair_of(before, i)));
                    assert(pair_of(before, i) == pair_of(self.slots@, i));
                }
            }
        }
    }

    /// Takes an entry out. The entry in the last slot moves to its slot.
    pub(crate) fn remove(&mut self, slot: usize) -> (removed: Slot<K, V>)
        requires
            old(self).wf(),
            slot < old(self).slots@.len(),
        ensures
            final(self).wf(),
            removed == old(self).slots@[slot as int],
            final(self).slots@ == without_slot(old(self).slots@, slot as int),
            final(self)@ == old(self)@.remove(removed.key@),
    {
        let ghost before = self.slots@;
        let ghost pairs0 = indexed_pairs(self.index);
        proof {
            lemma_slot_remove(before, slot as int);
        }
        let last: usize = self.slots.len() - 1;
        let hash = self.slots[slot].hash;
        assert(pairs0.contains(pair_of(before, slot)));
        assert(pairs0.contains(pair_of(before, last)));
        let _ = self.index.remove_entry((hash, slot));
        if slot != last {
            let moved = self.slots[last].hash;
            let _ = self.index.remove_entry((moved, last));
            assert(!indexed_pairs(self.index).contains((moved, slot)));
            self.index.insert((moved, slot));
        }
        let removed = self.slots.swap_remove(slot);
        proof {
            assert(self.slots@ =~= without_slot(before, slot as int));
            let pairs = indexed_pairs(self.index);
            assert forall|i: usize| i < self.slots@.len() implies #[trigger] pairs.contains(
                pair_of(self.slots@, i),
            ) by {
                assert(pairs0.contains(pair_of(before, i)));
            }
        }
        removed
    }

    /// Removes every entry.
    pub(crate) fn clear(&mut self)
        requires
            old(self).wf(),
        ensures
            final(self).wf(),
            final(self)@ == Map::<K::V, EntryState<K, V>>::empty(),
    {
        self.index.clear();
        self.slots.clear();
        assert(slot_keys(self.slots@) =~= Seq::<K::V>::empty());
        assert(self@ =~= Map::<K::V, EntryState<K, V>>::empty());
    }

    /// Puts another frequency and location into a slot.
    pub(crate) fn set_meta(&mut self, slot: usize, freq: u8, loc: u8)
        requires
            old(self).wf(),
            slot < old(self).slots@.len(),
        ensures
            final(self).wf(),
            same_stays(final(self).slots@, old(self).slots@),
            final(self).slots@[slot as int].key == old(self).slots@[slot as int].key,
            ({
                let key = old(self).slots@[slot as int].key@;
                let entry = old(self)@[key];
                &&& old(self)@.contains_key(key)
                &&& entry == old(self).slots@[slot as int].state()
                &&& final(self)@ == old(self)@.insert(key, EntryState { freq, loc, ..entry })
            }),
    {
        let ghost before = self.slots@;
        self.slots[slot].entry.freq = freq;
        self.slots[slot].entry.loc = loc;
        proof {
            lemma_slot_entry(before, slot as int);
            let new = self.slots@[slot as int];
            assert(self.slots@ =~= before.update(slot as int, new));
            lemma_slot_update(before, slot as int, new);
            self.lemma_index_kept(*old(self));
        }
    }

    /// Counts an access to the entry in a slot.
    pub(crate) fn bump(&mut self, slot: usize)
        requires
            old(self).wf(),
            slot < old(self).slots@.len(),
        ensures
            final(self).wf(),
            same_stays(final(self).slots@, old(self).slots@),
            forall|i: int|
                0 <= i < old(self).slots@.len() ==> (#[trigger] final(self).slots@[i]).key
                    == old(self).slots@[i].key && final(self).slots@[i].entry.value
                    == old(self).slots@[i].entry.value,
            ({
                let key = old(self).slots@[slot as int].key@;
                let entry = old(self)@[key];
                &&& old(self)@.contains_key(key)
                &&& entry == old(self).slots@[slot as int].state()
                &&& final(self)@ == old(self)@.insert(
                    key,
                    EntryState { freq: bumped(entry.freq), ..entry },
                )
            }),
    {
        self.slots[slot].entry.bump_freq();
        proof {
            self.lemma_slot_value(*old(self), slot as int);
        }
    }

    /// The index stays right as long as the digests stay in their slots.
    proof fn lemma_index_kept(&self, before: Self)
        requires
            before.index_wf(),
            self.index == before.index,
            self.slots@.len() == before.slots@.len(),
            forall|i: int|
                0 <= i < self.slots@.len() ==> (#[trigger] self.slots@[i]).hash
                    == before.slots@[i].hash,
        ensures
            self.index_wf(),
    {
        let pairs = indexed_pairs(self.index);
        assert forall|i: usize| i < self.slots@.len() implies #[trigger] pairs.contains(
            pair_of(self.slots@, i),
        ) by {
            assert(pairs.contains(pair_of(before.slots@, i)));
            assert(self.slots@[i as int].hash == before.slots@[i as int].hash);
        }
    }

    /// Another value in a slot is another value under the slot's key.
    proof fn lemma_slot_value(&self, before: Self, slot: int)
        requires
            before.wf(),
            0 <= slot < before.slots@.len(),
            self.index == before.index,
            self.slots@.len() == before.slots@.len(),
            forall|i: int|
                0 <= i < self.slots@.len() && i != slot ==> #[trigger] self.slots@[i]
                    == before.slots@[i],
            self.slots@[slot].hash == before.slots@[slot].hash,
            self.slots@[slot].key@ == before.slots@[slot].key@,
        ensures
            self.wf(),
            before@.contains_key(before.slots@[slot].key@),
            before@[before.slots@[slot].key@] == before.slots@[slot].state(),
            self@ == before@.insert(before.slots@[slot].key@, self.slots@[slot].state()),
    {
        lemma_slot_entry(before.slots@, slot);
        assert(self.slots@ =~= before.slots@.update(slot, self.slots@[slot]));
        lemma_slot_update(before.slots@, slot, self.slots@[slot]);
        self.lemma_index_kept(before);
    }

    /// The key and the value in a slot, the value for writing.
    pub(crate) fn pair_mut(&mut self, slot: usize) -> (pair: (&K, &mut V))
        requires
            old(self).wf(),
            slot < old(self).slots@.len(),
        ensures
            final(self).wf(),
            ({
                let before = old(self).slots@[slot as int];
                let entry = EntryState { value: *final(pair.1), ..before.state() };
                &&& *pair.0 == before.key
                &&& *pair.1 == before.entry.value.value
                &&& same_stays(final(self).slots@, old(self).slots@)
                &&& forall|i: int|
                    0 <= i < old(self).slots@.len() && i != slot ==> #[trigger] final(self).slots@[i]
                        == old(self).slots@[i]
                &&& final(self).slots@[slot as int].state() == entry
                &&& final(self)@ == old(self)@.insert(before.key@, entry)
            }),
    {
        proof {
            let before = *self;
            assert forall|after: Self|
                {
                    &&& after.index == before.index
                    &&& #[trigger] after.slots@ == before.slots@.update(
                        slot as int,
                        after.slots@[slot as int],
                    )
                    &&& after.slots@[slot as int].hash == before.slots@[slot as int].hash
                    &&& after.slots@[slot as int].key == before.slots@[slot as int].key
                    &&& after.slots@[slot as int].stamp == before.slots@[slot as int].stamp
                } implies after.wf() && same_stays(after.slots@, before.slots@) && after@
                == before@.insert(
                before.slots@[slot as int].key@,
                after.slots@[slot as int].state(),
            ) by {
                after.lemma_slot_value(before, slot as int);
            }
        }
        let place = &mut self.slots[slot];
        (&place.key, &mut place.entry.value.value)
    }

    /// Puts another value into a slot and hands out the old one.
    pub(crate) fn replace_value(&mut self, slot: usize, value: V) -> (old_value: V)
        requires
            old(self).wf(),
            slot < old(self).slots@.len(),
        ensures
            final(self).wf(),
            ({
                let before = old(self).slots@[slot as int];
                &&& old_value == before.entry.value.value
                &&& same_stays(final(self).slots@, old(self).slots@)
                &&& final(self).slots@[slot as int].key == before.key
                &&& final(self)@ == old(self)@.insert(
                    before.key@,
                    EntryState { value, ..before.state() },
                )
            }),
    {
        let mut swapped = value;
        let (_key, place) = self.pair_mut(slot);
        std::mem::swap(place, &mut swapped);
        swapped
    }

    /// Puts an equal key and another value into a slot and hands out the old
    /// ones. The metadata stays.
    pub(crate) fn replace_pair(&mut self, slot: usize, key: K, value: V) -> (old_pair: (K, V))
        requires
            old(self).wf(),
            slot < old(self).slots@.len(),
            key@ == old(self).slots@[slot as int].key@,
        ensures
            final(self).wf(),
            ({
                let before = old(self).slots@[slot as int];
                &&& old_pair == (before.key, before.entry.value.value)
                &&& same_stays(final(self).slots@, old(self).slots@)
                &&& final(self)@ == old(self)@.insert(
                    key@,
                    EntryState { key, value, ..before.state() },
                )
            }),
    {
        let mut swapped = key;
        let old_value = self.replace_value(slot, value);
        let ghost half = *self;
        std::mem::swap(&mut self.slots[slot].key, &mut swapped);
        proof {
            half.lemma_slot(slot as int);
            self.lemma_slot_value(half, slot as int);
            assert(self@ =~= old(self)@.insert(key@, self.slots@[slot as int].state()));
        }
        (swapped, old_value)
    }

    /// How many entries fit before the index grows: at least as many as there
    /// are.
    pub(crate) fn capacity(&self) -> (capacity: usize)
        requires
            self.wf(),
        ensures
            capacity >= self@.len(),
    {
        proof {
            self.lemma_len();
        }
        self.index.capacity()
    }

    /// Reserves space for more entries, or reports that it could not be had.
    /// The entries stay as they are.
    pub(crate) fn try_reserve(&mut self, additional: usize) -> (outcome: Result<(), TryReserveError>)
        requires
            old(self).wf(),
        ensures
            final(self).wf(),
            final(self).slots@ == old(self).slots@,
            final(self)@ == old(self)@,
            additional == 0 ==> outcome is Ok,
            additional > usize::MAX / 8 ==> outcome is Err,
    {
        let indexed = self.index.try_reserve(additional);
        let placed = additional == 0 || self.slots.try_reserve(additional).is_ok();
        reserve_outcome(indexed, placed)
    }

    /// Gives back space beyond what `size` entries or all that are there need.
    /// The entries stay as they are; how much space is left afterwards is the
    /// allocator's affair.
    pub(crate) fn shrink_to(&mut self, size: usize)
        requires
            old(self).wf(),
        ensures
            final(self).wf(),
            final(self).slots@ == old(self).slots@,
            final(self)@ == old(self)@,
    {
        self.index.shrink_to(size);
        slots_shrink_to(&mut self.slots, size);
    }

    /// Gives the stays in the slots the numbers from one on.
    pub(crate) fn renumber(&mut self)
        requires
            old(self).wf(),
        ensures
            final(self).wf(),
            final(self)@ == old(self)@,
            final(self).slots@.len() == old(self).slots@.len(),
            forall|i: int|
                0 <= i < old(self).slots@.len() ==> #[trigger] final(self).slots@[i] == (Slot {
                    stamp: Stamp { number: (i + 1) as u64, stay: old(self).slots@[i].stamp.stay },
                    ..old(self).slots@[i]
                }),
    {
        let ghost before = *self;
        let mut i: usize = 0;
        while i < self.slots.len()
            invariant
                before == *old(self),
                before.wf(),
                self.index == before.index,
                i <= self.slots@.len(),
                self.slots@.len() == before.slots@.len(),
                self.slots@.len() <= MAX_ENTRIES,
                forall|j: int|
                    0 <= j < i ==> #[trigger] self.slots@[j] == (Slot {
                        stamp: Stamp { number: (j + 1) as u64, stay: before.slots@[j].stamp.stay },
                        ..before.slots@[j]
                    }),
                forall|j: int|
                    i <= j < self.slots@.len() ==> #[trigger] self.slots@[j] == before.slots@[j],
            decreases self.slots@.len() - i,
        {
            self.slots[i].stamp.number = i as u64 + 1;
            i = i + 1;
        }
        proof {
            self.lemma_index_kept(before);
            assert(slot_keys(self.slots@) =~= slot_keys(before.slots@));
            assert forall|key: K::V| #[trigger] before@.contains_key(key) implies self@[key]
                == before@[key] by {
                lemma_entry_slot(before.slots@, key);
            }
            assert(self@ =~= before@);
        }
    }

    /// What a slot holds is the entry of its key.
    pub(crate) proof fn lemma_slot(&self, slot: int)
        requires
            self.wf(),
            0 <= slot < self.slots@.len(),
        ensures
            self@.contains_key(self.slots@[slot].key@),
            self@[self.slots@[slot].key@] == self.slots@[slot].state(),
    {
        lemma_slot_entry(self.slots@, slot);
    }

    /// No two slots hold the same key.
    pub(crate) proof fn lemma_unique(&self, left: int, right: int)
        requires
            self.wf(),
            0 <= left < self.slots@.len(),
            0 <= right < self.slots@.len(),
            left != right,
        ensures
            self.slots@[left].key@ != self.slots@[right].key@,
    {
        let keys = slot_keys(self.slots@);
        assert(keys[left] != keys[right]);
    }

    /// Every entry is what a slot holds.
    pub(crate) proof fn lemma_slot_of(&self, key: K::V)
        requires
            self.wf(),
            self@.contains_key(key),
        ensures
            0 <= slot_of(self.slots@, key) < self.slots@.len(),
            self.slots@[slot_of(self.slots@, key)].key@ == key,
    {
        lemma_entry_slot(self.slots@, key);
    }

    /// The number of entries is that of the slots, and is bounded.
    pub(crate) proof fn lemma_len(&self)
        requires
            self.wf(),
        ensures
            self@.dom().finite(),
            self@.len() == self.slots@.len(),
            self@.len() <= MAX_ENTRIES,
    {
        lemma_entries_len(self.slots@);
    }
}

/// What a reservation reports when its two allocations ended like this.
pub fn reserve_outcome(indexed: bool, placed: bool) -> (outcome: Result<(), TryReserveError>)
    ensures
        outcome is Ok <==> indexed && placed,
{
    if indexed && placed {
        Ok(())
    } else {
        Err(TryReserveError {  })
    }
}

/// Calls `Vec::shrink_to`, which gives back allocated space beyond `size`
/// elements. The elements stay as they are; how much space is left afterwards is
/// the allocator's affair and is not stated.
#[verifier::external_body]
fn slots_shrink_to<K, V>(slots: &mut Vec<Slot<K, V>>, size: usize)
    ensures
        final(slots)@ == old(slots)@,
{
    slots.shrink_to(size);
}

impl<K: CacheKey, V: Clone> EntryTable<K, V> {
    /// A table of clones of the entries.
    pub(crate) fn duplicate(&self) -> (copy: Self)
        ensures
            self.wf() ==> copy.wf(),
            copy@.dom() == self@.dom(),
            forall|key: K::V| #[trigger]
                self@.contains_key(key) ==> self@[key].copied_to(copy@[key]),
            same_stays(copy.slots@, self.slots@),
    {
        let mut slots: Vec<Slot<K, V>> = Vec::new();
        let mut i: usize = 0;
        while i < self.slots.len()
            invariant
                i <= self.slots@.len(),
                slots@.len() == i,
                forall|j: int|
                    0 <= j < i ==> self.slots@[j].state().copied_to(#[trigger] slots@[j].state()),
                forall|j: int| 0 <= j < i ==> (#[trigger] slots@[j]).stamp == self.slots@[j].stamp,
            decreases self.slots@.len() - i,
        {
            let slot = &self.slots[i];
            let entry = CacheEntry {
                value: SharedValue::new(slot.entry.value.value.clone()),
                freq: slot.entry.freq,
                loc: slot.entry.loc,
            };
            slots.push(Slot { hash: slot.hash, key: slot.key.duplicate(), entry, stamp: slot.stamp });
            i = i + 1;
        }
        let copy = EntryTable { index: self.index.duplicate(), slots };
        proof {
            assert(slot_keys(copy.slots@) =~= slot_keys(self.slots@)) by {
                assert forall|j: int| 0 <= j < copy.slots@.len() implies copy.slots@[j].key@
                    == self.slots@[j].key@ by {
                    assert(self.slots@[j].state().copied_to(copy.slots@[j].state()));
                }
            }
            assert forall|j: int| 0 <= j < self.slots@.len() implies (#[trigger] copy.slots@[j]).key@
                == self.slots@[j].key@ && copy.slots@[j].stamp == self.slots@[j].stamp by {
                assert(self.slots@[j].state().copied_to(copy.slots@[j].state()));
            }
            assert(copy@.dom() =~= self@.dom());
            assert forall|key: K::V| #[trigger] self@.contains_key(key) implies self@[key].copied_to(
                copy@[key],
            ) by {
                lemma_entry_slot(self.slots@, key);
                let slot = slot_of(self.slots@, key);
                assert(self.slots@[slot].state().copied_to(copy.slots@[slot].state()));
            }
            if self.wf() {
                let pairs = indexed_pairs(copy.index);
                assert forall|slot: usize| slot < copy.slots@.len() implies #[trigger] pairs.contains(
                    pair_of(copy.slots@, slot),
                ) by {
                    assert(self.slots@[slot as int].state().copied_to(copy.slots@[slot as int].state()));
                    assert(pairs.contains(pair_of(self.slots@, slot)));
                }
                assert forall|pair: (u64, usize)| #[trigger] pairs.contains(pair) implies pair.1
                    < copy.slots@.len() && pair.0 == copy.slots@[pair.1 as int].hash by {
                    assert(self.slots@[pair.1 as int].state().copied_to(
                        copy.slots@[pair.1 as int].state(),
                    ));
                }
            }
        }
        copy
    }
}

} // verus!
