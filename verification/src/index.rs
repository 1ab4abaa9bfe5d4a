//! The hash index of a shard: from a key's digest to the slot of its entry.
use crate::keys::{CacheKey, Lookup};
use crate::table::Slot;
use vstd::prelude::*;

verus! {

/// The number of entries that an index can hold without its allocation
/// reaching the largest size that the machine can address.
pub const MAX_ENTRIES: usize = usize::MAX / 256;

/// A [`hashbrown::raw::RawTable`] of `(digest, slot)` pairs.
///
/// Each pair is filed under its own digest.
#[verifier::external_body]
pub struct SlotIndex {
    pairs: hashbrown::raw::RawTable<(u64, usize)>,
}

/// The pairs that an index holds.
pub uninterp spec fn indexed_pairs(index: SlotIndex) -> Set<(u64, usize)>;

/// Tells whether `pair` is filed under `hash` and leads to a slot with this key.
fn leads_to<K: CacheKey, V, Q: Lookup<K> + ?Sized>(
    pair: &(u64, usize),
    hash: u64,
    slots: &Vec<Slot<K, V>>,
    key: &Q,
) -> (found: bool)
    requires
        pair.1 < slots@.len(),
    ensures
        found == (pair.0 == hash && slots@[pair.1 as int].key@ == key@),
{
    pair.0 == hash && key.names(&slots[pair.1].key)
}

/// Tells whether the two pairs are equal.
fn same_pair(left: &(u64, usize), right: &(u64, usize)) -> (same: bool)
    ensures
        same == (*left == *right),
{
    left.0 == right.0 && left.1 == right.1
}

impl SlotIndex {
    /// Calls `RawTable::new`, which makes an empty table.
    #[verifier::external_body]
    pub(crate) fn new() -> (index: Self)
        ensures
            indexed_pairs(index) == Set::<(u64, usize)>::empty(),
    {
        SlotIndex { pairs: hashbrown::raw::RawTable::new() }
    }

    /// Calls `RawTable::get`. It tests the pairs filed under `hash`, each of
    /// them unless an earlier one passes, and hands out one that passes.
    #[verifier::external_body]
    pub(crate) fn get<K: CacheKey, V, Q: Lookup<K> + ?Sized>(
        &self,
        hash: u64,
        slots: &Vec<Slot<K, V>>,
        key: &Q,
    ) -> (found: Option<usize>)
        requires
            forall|pair: (u64, usize)| #[trigger]
                indexed_pairs(*self).contains(pair) ==> pair.1 < slots@.len(),
        ensures
            match found {
                Some(slot) => {
                    &&& indexed_pairs(*self).contains((hash, slot))
                    &&& slots@[slot as int].key@ == key@
                },
                None => forall|slot: usize| #[trigger]
                    indexed_pairs(*self).contains((hash, slot)) ==> slots@[slot as int].key@
                        != key@,
            },
    {
        self.pairs.get(hash, |pair| leads_to(pair, hash, slots, key)).map(|pair| pair.1)
    }

    /// Calls `RawTable::insert`, which adds the pair under its digest. The bound
    /// keeps the table's allocation below the size at which the call panics.
    #[verifier::external_body]
    pub(crate) fn insert(&mut self, pair: (u64, usize))
        requires
            indexed_pairs(*old(self)).len() < MAX_ENTRIES,
            !indexed_pairs(*old(self)).contains(pair),
        ensures
            indexed_pairs(*final(self)) == indexed_pairs(*old(self)).insert(pair),
    {
        self.pairs.insert(pair.0, pair, |filed| filed.0);
    }

    /// Calls `RawTable::remove_entry`, which takes the pair out if it is there.
    #[verifier::external_body]
    pub(crate) fn remove_entry(&mut self, pair: (u64, usize)) -> (removed: Option<(u64, usize)>)
        ensures
            indexed_pairs(*final(self)) == indexed_pairs(*old(self)).remove(pair),
            removed == (if indexed_pairs(*old(self)).contains(pair) {
                Some(pair)
            } else {
                None
            }),
    {
        self.pairs.remove_entry(pair.0, |filed| same_pair(filed, &pair))
    }

    /// Calls `RawTable::clear`, which removes every pair.
    #[verifier::external_body]
    pub(crate) fn clear(&mut self)
        ensures
            indexed_pairs(*final(self)) == Set::<(u64, usize)>::empty(),
    {
        self.pairs.clear();
    }

    /// Calls `RawTable::capacity`: how many pairs fit before the table grows. It
    /// is never below the number of pairs; how far above is the allocator's
    /// affair and is not stated.
    #[verifier::external_body]
    pub(crate) fn capacity(&self) -> (capacity: usize)
        ensures
            capacity >= indexed_pairs(*self).len(),
    {
        self.pairs.capacity()
    }

    /// Calls `RawTable::try_reserve`, which grows the allocation or reports that
    /// it could not. The pairs stay as they are. Room for nothing more is always
    /// there, and room for more than an eighth of the machine's numbers never
    /// is; in between the allocator decides.
    #[verifier::external_body]
    pub(crate) fn try_reserve(&mut self, additional: usize) -> (reserved: bool)
        ensures
            indexed_pairs(*final(self)) == indexed_pairs(*old(self)),
            additional == 0 ==> reserved,
            additional > usize::MAX / 8 ==> !reserved,
    {
        self.pairs.try_reserve(additional, |filed| filed.0).is_ok()
    }

    /// Calls `RawTable::shrink_to`, which shrinks the allocation to fit `size`
    /// pairs or all that are there. The pairs stay as they are; how much space is
    /// left afterwards is the allocator's affair and is not stated.
    #[verifier::external_body]
    pub(crate) fn shrink_to(&mut self, size: usize)
        ensures
            indexed_pairs(*final(self)) == indexed_pairs(*old(self)),
    {
        self.pairs.shrink_to(size, |filed| filed.0);
    }

    /// Calls `RawTable::clone`, which makes a table of the same pairs.
    #[verifier::external_body]
    pub(crate) fn duplicate(&self) -> (copy: Self)
        ensures
            indexed_pairs(copy) == indexed_pairs(*self),
    {
        SlotIndex { pairs: self.pairs.clone() }
    }
}

} // verus!
