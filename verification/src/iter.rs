//! Iteration over the entries of a cache.
//!
//! An iterator hands out the entries one by one through `next`, shard by shard.
use crate::cache::NeoCache;
use crate::hashing::KeyHasher;
use crate::keys::CacheKey;
use crate::mapref::multiple::{RefMulti, RefMutMulti};
use crate::model::lists;
use crate::shard::{slot_pairs, ShardData};
use crate::table::Slot;
use ahash::RandomState;
use std::marker::PhantomData;
use vstd::prelude::*;

verus! {

/// The keys and values of each shard, in the order in which they stand.
pub closed spec fn rows<K: CacheKey, V>(shards: Seq<ShardData<K, V>>) -> Seq<Seq<(K, V)>> {
    shards.map_values(|shard: ShardData<K, V>| shard.pairs())
}

impl<K: CacheKey, V, S: KeyHasher<K>> NeoCache<K, V, S> {
    /// The keys and values, in the order in which an iterator meets them.
    pub closed spec fn pairs(&self) -> Seq<(K, V)> {
        rows(self.shards@).flatten()
    }

    /// The pairs are those of the entries, each once.
    pub proof fn lemma_pairs(&self)
        requires
            self.wf(),
        ensures
            self.pairs().len() == self.state().len(),
            lists(self.pairs(), self.state().entries()),
    {
        self.lemma_shards();
        let rows = rows(self.shards@);
        assert forall|i: int| 0 <= i < rows.len() implies lists(
            #[trigger] rows[i],
            self.state().shards[i].entries,
        ) && rows[i].len() == self.state().shards[i].entries.len() by {
            self.shards@[i].lemma_pairs();
        }
        self.state().lemma_lists(rows);
    }

    /// Returns an iterator over shared references to all entries.
    pub fn iter(&self) -> (iter: Iter<K, V, S>)
        requires
            self.wf(),
        ensures
            iter.remaining(*self) == self.pairs(),
            iter.remaining(*self).len() == self.state().len(),
            lists(iter.remaining(*self), self.state().entries()),
    {
        proof {
            self.lemma_pairs();
        }
        Iter::start()
    }

    /// Lists the keys and values, without counting accesses.
    pub(crate) fn list(&self) -> (pairs: Vec<(&K, &V)>)
        requires
            self.wf(),
        ensures
            pairs@.len() == self.pairs().len(),
            forall|i: int|
                0 <= i < pairs@.len() ==> (*(#[trigger] pairs@[i]).0, *pairs@[i].1)
                    == self.pairs()[i],
    {
        let mut pairs: Vec<(&K, &V)> = Vec::new();
        let mut shard_i: usize = 0;
        let mut slot_i: usize = 0;
        let ghost all = self.pairs();
        proof {
            lemma_pairs_from(self.shards@, 0);
            assert(rows(self.shards@).skip(0) =~= rows(self.shards@));
            assert(all.skip(0) =~= all);
        }
        while shard_i < self.shards.len()
            invariant
                self.wf(),
                all == self.pairs(),
                shard_i <= self.shards@.len(),
                shard_i < self.shards@.len() ==> slot_i
                    <= self.shards@[shard_i as int].pairs().len(),
                pairs@.len() <= all.len(),
                pairs_from(self.shards@, shard_i as int, slot_i as int) == all.skip(
                    pairs@.len() as int,
                ),
                forall|i: int|
                    0 <= i < pairs@.len() ==> (*(#[trigger] pairs@[i]).0, *pairs@[i].1) == all[i],
            decreases self.shards@.len() - shard_i, all.len() - pairs@.len(),
        {
            let shard = &self.shards[shard_i];
            proof {
                self.lemma_shards();
                shard.lemma_pairs();
            }
            if slot_i < shard.len() {
                let ghost n = pairs@.len() as int;
                proof {
                    lemma_pairs_next_slot(self.shards@, shard_i as int, slot_i as int);
                    assert(all.skip(n).skip(1) =~= all.skip(n + 1));
                }
                pairs.push(shard.pair_at(slot_i));
                slot_i = slot_i + 1;
            } else {
                proof {
                    lemma_pairs_next_shard(self.shards@, shard_i as int, slot_i as int);
                }
                shard_i = shard_i + 1;
                slot_i = 0;
            }
        }
        pairs
    }
}

/// Iterator over a map yielding immutable references. It is a position, and is
/// given the map at each step, because a step counts an access.
pub struct Iter<K, V, S = RandomState> {
    pub(crate) shard_i: usize,
    pub(crate) slot_i: usize,
    pub(crate) marker: PhantomData<(K, V, S)>,
}

/// The pairs from the given slot of the given shard on.
pub closed spec fn pairs_from<K: CacheKey, V>(
    shards: Seq<ShardData<K, V>>,
    shard_i: int,
    slot_i: int,
) -> Seq<(K, V)> {
    if shard_i < shards.len() {
        let row = rows(shards)[shard_i];
        (if slot_i <= row.len() {
            row.skip(slot_i)
        } else {
            Seq::empty()
        }) + rows(shards).skip(shard_i + 1).flatten()
    } else {
        Seq::empty()
    }
}

/// From the first slot of a shard on stand the pairs of this shard and of all
/// after it.
proof fn lemma_pairs_from<K: CacheKey, V>(shards: Seq<ShardData<K, V>>, shard_i: int)
    requires
        0 <= shard_i <= shards.len(),
    ensures
        pairs_from(shards, shard_i, 0) == rows(shards).skip(shard_i).flatten(),
{
    let rest = rows(shards).skip(shard_i);
    if shard_i < shards.len() {
        assert(rest.drop_first() =~= rows(shards).skip(shard_i + 1));
        assert(rest.first().skip(0) =~= rest.first());
    } else {
        assert(rest =~= Seq::empty());
    }
}

/// A shard's last slot is followed by the next shard's first.
proof fn lemma_pairs_next_shard<K: CacheKey, V>(
    shards: Seq<ShardData<K, V>>,
    shard_i: int,
    slot_i: int,
)
    requires
        0 <= shard_i < shards.len(),
        slot_i >= shards[shard_i].pairs().len(),
    ensures
        pairs_from(shards, shard_i, slot_i) == pairs_from(shards, shard_i + 1, 0),
{
    lemma_pairs_from(shards, shard_i + 1);
    let row = rows(shards)[shard_i];
    if slot_i <= row.len() {
        assert(row.skip(slot_i) =~= Seq::empty());
    }
    assert(pairs_from(shards, shard_i, slot_i) =~= rows(shards).skip(shard_i + 1).flatten());
}

/// A slot's pair is followed by the pairs from the next slot on.
proof fn lemma_pairs_next_slot<K: CacheKey, V>(
    shards: Seq<ShardData<K, V>>,
    shard_i: int,
    slot_i: int,
)
    requires
        0 <= shard_i < shards.len(),
        0 <= slot_i < shards[shard_i].pairs().len(),
    ensures
        pairs_from(shards, shard_i, slot_i).len() > 0,
        pairs_from(shards, shard_i, slot_i)[0] == shards[shard_i].pairs()[slot_i],
        pairs_from(shards, shard_i, slot_i).skip(1) == pairs_from(shards, shard_i, slot_i + 1),
{
    let row = rows(shards)[shard_i];
    assert(pairs_from(shards, shard_i, slot_i).skip(1) =~= pairs_from(shards, shard_i, slot_i + 1));
}

impl<K: CacheKey, V, S: KeyHasher<K>> Iter<K, V, S> {
    /// The pairs of `map` that are still to come.
    pub closed spec fn remaining(&self, map: NeoCache<K, V, S>) -> Seq<(K, V)> {
        pairs_from(map.shards@, self.shard_i as int, self.slot_i as int)
    }

    /// Starts at the first entry.
    fn start() -> (iter: Self)
        ensures
            forall|map: NeoCache<K, V, S>| #[trigger] iter.remaining(map) == map.pairs(),
    {
        let iter = Iter { shard_i: 0, slot_i: 0, marker: PhantomData };
        assert forall|map: NeoCache<K, V, S>| #[trigger] iter.remaining(map) == map.pairs() by {
            lemma_pairs_from(map.shards@, 0);
            assert(rows(map.shards@).skip(0) =~= rows(map.shards@));
        }
        iter
    }

    /// Hands out the next entry of `map`, bumping its frequency counter. Where
    /// other iterators stand in `map` does not change.
    pub fn next<'m>(&mut self, map: &'m mut NeoCache<K, V, S>) -> (next: Option<RefMulti<'m, K, V>>)
        requires
            old(map).wf(),
        ensures
            final(map).wf(),
            final(map).pairs() == old(map).pairs(),
            forall|other: Self| #[trigger]
                other.remaining(*final(map)) == other.remaining(*old(map)),
            match next {
                Some(r) => {
                    &&& old(self).remaining(*old(map)).len() > 0
                    &&& (*r.k, *r.v) == old(self).remaining(*old(map))[0]
                    &&& old(map).state().contains(r.k@)
                    &&& final(map).state() == old(map).state().bump(r.k@)
                    &&& final(self).remaining(*final(map)) == old(self).remaining(
                        *old(map),
                    ).skip(1)
                },
                None => {
                    &&& old(self).remaining(*old(map)).len() == 0
                    &&& *final(map) == *old(map)
                    &&& final(self).remaining(*final(map)).len() == 0
                },
            },
    {
        while self.shard_i < map.shards.len()
            invariant
                map.wf(),
                *map == *old(map),
                *final(map) == *final(old(map)),
                self.remaining(*map) == old(self).remaining(*old(map)),
            decreases map.shards@.len() - self.shard_i,
        {
            proof {
                map.lemma_shards();
                map.shards@[self.shard_i as int].lemma_pairs();
            }
            if self.slot_i < map.shards[self.shard_i].len() {
                let shard_i = self.shard_i;
                let slot_i = self.slot_i;
                self.slot_i = self.slot_i + 1;
                proof {
                    lemma_pairs_next_slot(map.shards@, shard_i as int, slot_i as int);
                }
                map.bump_at(shard_i, slot_i);
                assert(rows(map.shards@) =~= rows(old(map).shards@));
                let (k, v) = map.shards[shard_i].pair_at(slot_i);
                return Some(RefMulti::new(k, v));
            }
            proof {
                lemma_pairs_next_shard(map.shards@, self.shard_i as int, self.slot_i as int);
            }
            self.shard_i = self.shard_i + 1;
            self.slot_i = 0;
        }
        None
    }
}

impl<K: CacheKey, V, S: KeyHasher<K>> Clone for Iter<K, V, S> {
    /// An iterator from the first entry on.
    fn clone(&self) -> (copy: Self)
        ensures
            forall|map: NeoCache<K, V, S>| #[trigger] copy.remaining(map) == map.pairs(),
    {
        Self::start()
    }
}

/// Iterator over a map yielding mutable references.
///
/// Each reference has to be done with before the next is asked for.
pub struct IterMut<'a, K, V, S = RandomState> {
    pub map: &'a mut NeoCache<K, V, S>,
    pub shard_i: usize,
    pub slot_i: usize,
}

/// Writing to a pair changes nothing behind it.
proof fn lemma_pairs_written<K: CacheKey, V>(
    shards: Seq<ShardData<K, V>>,
    before: Seq<ShardData<K, V>>,
    shard_i: int,
    slot_i: int,
    pair: (K, V),
)
    requires
        0 <= shard_i < before.len(),
        0 <= slot_i < before[shard_i].pairs().len(),
        shards == before.update(shard_i, shards[shard_i]),
        shards[shard_i].pairs() == before[shard_i].pairs().update(slot_i, pair),
    ensures
        pairs_from(shards, shard_i, slot_i + 1) == pairs_from(before, shard_i, slot_i + 1),
        shards[shard_i].pairs().len() == before[shard_i].pairs().len(),
{
    assert(rows(shards)[shard_i].skip(slot_i + 1) =~= rows(before)[shard_i].skip(slot_i + 1));
    assert(rows(shards).skip(shard_i + 1) =~= rows(before).skip(shard_i + 1));
}

impl<'a, K: CacheKey, V, S: KeyHasher<K>> IterMut<'a, K, V, S> {
    /// The iterator stands at an entry or behind the last one of a shard.
    pub closed spec fn in_range(&self) -> bool {
        &&& self.shard_i <= self.map.shards@.len()
        &&& self.shard_i < self.map.shards@.len() ==> self.slot_i
            <= self.map.shards@[self.shard_i as int].pairs().len()
    }

    /// The iterator's invariant.
    pub open spec fn wf(&self) -> bool {
        &&& self.map.wf()
        &&& self.in_range()
    }

    /// The pairs that are still to come.
    pub closed spec fn remaining(&self) -> Seq<(K, V)> {
        pairs_from(self.map.shards@, self.shard_i as int, self.slot_i as int)
    }

    /// Starts at the first entry.
    pub(crate) fn new(map: &'a mut NeoCache<K, V, S>) -> (iter: Self)
        requires
            old(map).wf(),
        ensures
            iter.wf(),
            *iter.map == *old(map),
            *final(iter.map) == *final(map),
            iter.remaining() == old(map).pairs(),
    {
        proof {
            lemma_pairs_from(map.shards@, 0);
            assert(rows(map.shards@).skip(0) =~= rows(map.shards@));
        }
        IterMut { map, shard_i: 0, slot_i: 0 }
    }

    /// Hands out the next entry.
    pub fn next(&mut self) -> (next: Option<RefMutMulti<'_, K, V>>)
        requires
            old(self).wf(),
        ensures
            final(self).wf(),
            *final(final(self).map) == *final(old(self).map),
            match next {
                Some(r) => {
                    &&& old(self).remaining().len() > 0
                    &&& (*r.k, *r.v) == old(self).remaining()[0]
                    &&& old(self).map.state().contains(r.k@)
                    &&& final(self).map.state() == old(self).map.state().with_value(
                        r.k@,
                        *final(r.v),
                    )
                    &&& final(self).remaining() == old(self).remaining().skip(1)
                },
                None => {
                    &&& old(self).remaining().len() == 0
                    &&& final(self).remaining().len() == 0
                    &&& *final(self).map == *old(self).map
                },
            },
    {
        while self.shard_i < self.map.shards.len()
            invariant
                self.wf(),
                *self.map == *old(self).map,
                *final(self.map) == *final(old(self).map),
                self.remaining() == old(self).remaining(),
            decreases self.map.shards@.len() - self.shard_i,
        {
            proof {
                self.map.lemma_shards();
                self.map.shards@[self.shard_i as int].lemma_pairs();
            }
            if self.slot_i < self.map.shards[self.shard_i].len() {
                let shard_i = self.shard_i;
                let slot_i = self.slot_i;
                self.slot_i = self.slot_i + 1;
                proof {
                    let before = self.map.shards@;
                    lemma_pairs_next_slot(before, shard_i as int, slot_i as int);
                    let key = before[shard_i as int].pairs()[slot_i as int].0;
                    assert forall|shards: Seq<ShardData<K, V>>, value: V|
                        shards == before.update(shard_i as int, shards[shard_i as int])
                            && #[trigger] shards[shard_i as int].pairs()
                            == #[trigger] before[shard_i as int].pairs().update(
                            slot_i as int,
                            (key, value),
                        ) implies pairs_from(shards, shard_i as int, slot_i + 1) == pairs_from(
                        before,
                        shard_i as int,
                        slot_i + 1,
                    ) && shards[shard_i as int].pairs().len()
                        == before[shard_i as int].pairs().len() by {
                        lemma_pairs_written(
                            shards,
                            before,
                            shard_i as int,
                            slot_i as int,
                            (key, value),
                        );
                    }
                }
                let (k, v) = self.map.pair_at_mut(shard_i, slot_i);
                return Some(RefMutMulti::new(k, v));
            }
            proof {
                lemma_pairs_next_shard(
                    self.map.shards@,
                    self.shard_i as int,
                    self.slot_i as int,
                );
            }
            self.shard_i = self.shard_i + 1;
            self.slot_i = 0;
        }
        None
    }
}

impl<K: CacheKey, V, S: KeyHasher<K>> NeoCache<K, V, S> {
    /// Returns an iterator over mutable references to all entries.
    pub fn iter_mut(&mut self) -> (iter: IterMut<'_, K, V, S>)
        requires
            old(self).wf(),
        ensures
            iter.wf(),
            *iter.map == *old(self),
            *final(iter.map) == *final(self),
            iter.remaining() == old(self).pairs(),
            iter.remaining().len() == old(self).state().len(),
            lists(iter.remaining(), old(self).state().entries()),
    {
        proof {
            self.lemma_pairs();
        }
        IterMut::new(self)
    }
}

/// Iterator that consumes the map and yields `(K, V)` pairs.
pub struct OwningIter<K, V> {
    pub(crate) shards: Vec<ShardData<K, V>>,
    pub(crate) current: Vec<Slot<K, V>>,
}

impl<K: CacheKey, V> OwningIter<K, V> {
    /// The pairs that are still to come, the next one last.
    pub closed spec fn remaining(&self) -> Seq<(K, V)> {
        rows(self.shards@).flatten() + slot_pairs(self.current@)
    }

    /// Starts with all entries of the map.
    pub(crate) fn new<S: KeyHasher<K>>(map: NeoCache<K, V, S>) -> (iter: Self)
        ensures
            iter.remaining() == map.pairs(),
    {
        let iter = OwningIter { shards: map.shards, current: Vec::new() };
        assert(iter.remaining() =~= rows(iter.shards@).flatten());
        iter
    }

    /// Hands out the next entry.
    pub fn next(&mut self) -> (next: Option<(K, V)>)
        ensures
            match next {
                Some(pair) => {
                    &&& old(self).remaining().len() > 0
                    &&& pair == old(self).remaining().last()
                    &&& final(self).remaining() == old(self).remaining().drop_last()
                },
                None => {
                    &&& old(self).remaining().len() == 0
                    &&& final(self).remaining().len() == 0
                },
            },
    {
        loop
            invariant
                self.remaining() == old(self).remaining(),
            decreases self.shards@.len(),
        {
            let ghost before = *self;
            match self.current.pop() {
                Some(slot) => {
                    assert(self.remaining() =~= before.remaining().drop_last());
                    return Some((slot.key, slot.entry.value.into_inner()));
                },
                None => {},
            }
            match self.shards.pop() {
                Some(shard) => {
                    self.current = shard.into_slots();
                    proof {
                        let all = rows(before.shards@);
                        all.lemma_flatten_and_flatten_alt_are_equivalent();
                        all.drop_last().lemma_flatten_and_flatten_alt_are_equivalent();
                        assert(all.drop_last() =~= rows(self.shards@));
                        assert(self.remaining() =~= before.remaining());
                    }
                },
                None => {
                    assert(self.remaining() =~= Seq::empty());
                    return None;
                },
            }
        }
    }
}

impl<K: CacheKey, V, S: KeyHasher<K>> NeoCache<K, V, S> {
    /// Turns the map into an iterator over its `(key, value)` pairs.
    pub fn into_iter(self) -> (iter: OwningIter<K, V>)
        requires
            self.wf(),
        ensures
            iter.remaining().len() == self.state().len(),
            lists(iter.remaining(), self.state().entries()),
    {
        proof {
            self.lemma_pairs();
        }
        OwningIter::new(self)
    }
}

} // verus!
