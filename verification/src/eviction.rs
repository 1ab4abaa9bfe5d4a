//! What holds of a shard's eviction, whatever the shard holds.
use crate::model::{
    lemma_current_main, lemma_current_small, lemma_evict_from_main, lemma_evict_one,
    lemma_insert_new, lemma_live_insert, lemma_live_sum, lemma_make_room, lemma_patience_head,
    lemma_remove_inv, lemma_second_chance, lemma_stale_small_inv, lists, patience, small_cap_of,
    EntryState, ShardState,
};
use crate::util::{law_ceil_div, LOC_MAIN, LOC_SMALL, MAX_FREQ};
use vstd::prelude::*;

verus! {

/// Making room only evicts: every entry that is left was there before, with the
/// same value and no higher frequency. Afterwards there is a free place, and of
/// a full shard exactly one entry has gone.
pub proof fn law_make_room<K: View, V>(s: ShardState<K, V>)
    requires
        s.inv(),
    ensures
        s.make_room().inv(),
        s.make_room().kept_from(s),
        s.cap > 0 ==> s.make_room().entries.len() < s.cap,
        s.cap > 0 && s.entries.len() == s.cap ==> s.make_room().entries.len() == s.cap - 1,
        s.cap == 0 || s.entries.len() < s.cap ==> s.make_room() == s,
{
    lemma_make_room(s);
}

/// A new key starts in the main queue if its digest is in the ghost set, and in
/// the small queue if it is not. It starts with frequency zero, at the back.
pub proof fn law_ghost_hit<K: View, V>(s: ShardState<K, V>, hash: u64, key: K, value: V)
    requires
        s.inv(),
        !s.entries.contains_key(key@),
        s.knows_as(key@, hash),
    ensures
        ({
            let t = s.insert_new(hash, key, value);
            let record = (hash, key@, s.clock);
            &&& t.entries[key@].freq == 0
            &&& s.ghosts.contains(hash) ==> t.entries[key@].loc == LOC_MAIN && t.main.last()
                == record
            &&& !s.ghosts.contains(hash) ==> t.entries[key@].loc == LOC_SMALL && t.small.last()
                == record
        }),
{
    lemma_insert_new(s, hash, key, value);
}

/// Each entry has one current record, and it stands in the queue in whose care
/// the entry is.
pub proof fn law_one_record<K: View, V>(s: ShardState<K, V>, key: K::V)
    requires
        s.inv(),
        s.entries.contains_key(key),
    ensures
        ({
            let record = (s.entries[key].hash, key, s.entries[key].stamp);
            let loc = s.entries[key].loc;
            &&& s.current(record)
            &&& s.queue(loc).contains(record)
            &&& forall|i: int|
                0 <= i < s.small.len() && s.current(#[trigger] s.small[i]) && s.small[i].1 == key
                    ==> s.small[i] == record && loc == LOC_SMALL
            &&& forall|i: int|
                0 <= i < s.main.len() && s.current(#[trigger] s.main[i]) && s.main[i].1 == key
                    ==> s.main[i] == record && loc == LOC_MAIN
            &&& forall|i: int, j: int|
                0 <= i < j < s.queue(loc).len() ==> !((#[trigger] s.queue(loc)[i]) == record && (
                #[trigger] s.queue(loc)[j]) == record)
        }),
{
    assert(s.entry_ok(key));
    assert forall|i: int|
        0 <= i < s.small.len() && s.current(#[trigger] s.small[i]) && s.small[i].1 == key implies
        s.small[i] == (s.entries[key].hash, key, s.entries[key].stamp) && s.entries[key].loc
        == LOC_SMALL by {
        lemma_current_small(s, i);
    }
    assert forall|i: int|
        0 <= i < s.main.len() && s.current(#[trigger] s.main[i]) && s.main[i].1 == key implies
        s.main[i] == (s.entries[key].hash, key, s.entries[key].stamp) && s.entries[key].loc
        == LOC_MAIN by {
        lemma_current_main(s, i);
    }
}

/// A record whose key is removed becomes stale, and stays stale when the key
/// comes back: the new stay has a stamp that stands in no record from before.
pub proof fn law_stale_for_good<K: View, V>(
    s: ShardState<K, V>,
    hash: u64,
    key: K,
    value: V,
    record: (u64, K::V, nat),
)
    requires
        s.inv(),
        s.knows_as(key@, hash),
        record.1 == key@,
        s.small.contains(record) || s.main.contains(record),
    ensures
        s.remove(key@).inv(),
        s.remove(key@).small == s.small,
        s.remove(key@).main == s.main,
        !s.remove(key@).current(record),
        !s.remove(key@).insert_new(hash, key, value).current(record),
{
    let t = s.remove(key@);
    lemma_remove_inv(s, key@);
    lemma_insert_new(t, hash, key, value);
    if s.small.contains(record) {
        let i = choose|i: int| 0 <= i < s.small.len() && s.small[i] == record;
        assert(s.small[i].2 < s.clock);
    } else {
        let i = choose|i: int| 0 <= i < s.main.len() && s.main[i] == record;
        assert(s.main[i].2 < s.clock);
    }
}

/// A sweep drops a stale record, and goes on as if it had not been there.
pub proof fn law_stale_skipped<K: View, V>(s: ShardState<K, V>)
    ensures
        s.small.len() > 0 && !s.current(s.small[0]) ==> s.evict_from_small() == (ShardState {
            small: s.small.skip(1),
            ..s
        }).evict_from_small(),
        s.main.len() > 0 && !s.current(s.main[0]) ==> s.evict_from_main() == (ShardState {
            main: s.main.skip(1),
            ..s
        }).evict_from_main(),
{
}

/// A sweep of the small queue evicts nothing if the first entry that it meets
/// has a positive frequency: that entry moves to the back of the main queue, with
/// its frequency.
pub proof fn law_small_promotes<K: View, V>(s: ShardState<K, V>)
    requires
        s.inv(),
        s.small.len() > 0,
        s.current(s.small[0]),
        s.entries[s.small[0].1].freq > 0,
    ensures
        ({
            let key = s.small[0].1;
            let t = s.evict_from_small();
            &&& t.entries == s.entries.insert(
                key,
                EntryState { loc: LOC_MAIN, ..s.entries[key] },
            )
            &&& t.main == s.main.push(s.small[0])
            &&& t.small == s.small.skip(1)
            &&& t.ghosts == s.ghosts
        }),
{
}

/// A sweep of the small queue evicts the first entry that it meets if its
/// frequency is zero, and keeps its digest in the ghost set.
pub proof fn law_small_evicts<K: View, V>(s: ShardState<K, V>)
    requires
        s.inv(),
        s.small.len() > 0,
        s.current(s.small[0]),
        s.entries[s.small[0].1].freq == 0,
    ensures
        ({
            let t = s.evict_from_small();
            &&& t.entries == s.entries.remove(s.small[0].1)
            &&& t.ghosts.contains(s.small[0].0)
            &&& t.small == s.small.skip(1)
            &&& t.main == s.main
        }),
{
}

/// A sweep of the main queue leaves the small queue alone, with its count and
/// its entries, and makes no ghosts. It adds no key and moves no entry to
/// another queue. A main queue without entries ends empty, and nothing else
/// changes.
pub proof fn law_main_spares_small<K: View, V>(s: ShardState<K, V>)
    requires
        s.inv(),
    ensures
        ({
            let t = s.evict_from_main();
            &&& t.inv()
            &&& t.kept_from(s)
            &&& t.small == s.small
            &&& t.ghosts == s.ghosts
            &&& t.cap == s.cap
            &&& t.clock == s.clock
            &&& t.live(LOC_SMALL) == s.live(LOC_SMALL)
            &&& forall|key: K::V| #[trigger]
                s.entries.contains_key(key) && s.entries[key].loc == LOC_SMALL
                    ==> t.entries.contains_key(key) && t.entries[key] == s.entries[key]
            &&& forall|key: K::V| #[trigger]
                t.entries.contains_key(key) ==> t.entries[key].loc == s.entries[key].loc
            &&& s.live(LOC_MAIN) > 0 ==> t.live(LOC_MAIN) + 1 == s.live(LOC_MAIN)
                && t.entries.len() + 1 == s.entries.len()
            &&& s.live(LOC_MAIN) == 0 ==> t.entries == s.entries && t.main.len() == 0
        }),
{
    lemma_evict_from_main(s);
    lemma_live_sum(s);
    lemma_live_sum(s.evict_from_main());
    lemma_main_members(s);
}

/// The main queue holds a current record exactly when entries are in its care.
proof fn lemma_main_members<K: View, V>(s: ShardState<K, V>)
    requires
        s.inv(),
    ensures
        s.main_has_entry() <==> s.live(LOC_MAIN) > 0,
{
    lemma_live_sum(s);
    if s.live(LOC_MAIN) > 0 {
        let key = s.members(LOC_MAIN).choose();
        assert(s.members(LOC_MAIN).contains(key));
        assert(s.entries.contains_key(key));
        assert(s.entry_ok(key));
        let entry = s.entries[key];
        let i = choose|i: int| 0 <= i < s.main.len() && s.main[i] == (entry.hash, key, entry.stamp);
        assert(s.current(s.main[i]));
    }
    if s.main_has_entry() {
        let i = choose|i: int| 0 <= i < s.main.len() && s.current(#[trigger] s.main[i]);
        lemma_current_main(s, i);
        assert(s.members(LOC_MAIN).contains(s.main[i].1));
        if s.members(LOC_MAIN).len() == 0 {
            assert(s.members(LOC_MAIN) =~= Set::empty());
        }
    }
}

/// An entry in the small queue that was accessed survives a sweep of that queue.
pub proof fn law_hot_survives_small<K: View, V>(s: ShardState<K, V>, key: K::V)
    requires
        s.inv(),
        s.entries.contains_key(key),
        s.entries[key].loc == LOC_SMALL,
        s.entries[key].freq > 0,
    ensures
        s.evict_from_small().entries.contains_key(key),
        s.evict_from_small().entries[key].value == s.entries[key].value,
    decreases s.small.len(),
{
    assert(s.entry_ok(key));
    assert(s.small.contains((s.entries[key].hash, key, s.entries[key].stamp)));
    assert(s.small.len() > 0);
    if !s.current(s.small[0]) {
        lemma_stale_small_inv(s);
        law_hot_survives_small(ShardState { small: s.small.skip(1), ..s }, key);
    }
}

/// A stay that begins has a higher stamp than all that began before.
pub proof fn law_newest<K: View, V>(
    s: ShardState<K, V>,
    hash: u64,
    key: K,
    value: V,
    other: K::V,
)
    requires
        s.inv(),
        !s.entries.contains_key(key@),
        s.knows_as(key@, hash),
        s.insert_new(hash, key, value).entries.contains_key(other),
        other != key@,
    ensures
        ({
            let t = s.insert_new(hash, key, value);
            t.entries[other].stamp < t.entries[key@].stamp
        }),
{
    lemma_insert_new(s, hash, key, value);
    let t = s.insert_new(hash, key, value);
    assert(t.remove(key@).entries.contains_key(other));
    lemma_below_clock(s, other);
}

/// Every entry's stamp is below the clock.
proof fn lemma_below_clock<K: View, V>(s: ShardState<K, V>, key: K::V)
    requires
        s.inv(),
        s.entries.contains_key(key),
    ensures
        s.entries[key].stamp < s.clock,
{
    assert(s.entry_ok(key));
    let entry = s.entries[key];
    let queue = s.queue(entry.loc);
    let i = choose|i: int| 0 <= i < queue.len() && queue[i] == (entry.hash, key, entry.stamp);
    assert(queue[i].2 < s.clock);
}

/// A sweep of the small queue evicts no unread entry before an unread one whose
/// stay began earlier, and moves neither.
proof fn lemma_small_in_turn<K: View, V>(s: ShardState<K, V>, earlier: K::V, later: K::V)
    requires
        s.inv(),
        s.unread(earlier),
        s.unread(later),
        s.entries[earlier].stamp < s.entries[later].stamp,
    ensures
        ({
            let t = s.evict_from_small();
            &&& t.entries.contains_key(earlier) ==> t.unread(earlier) && t.entries[earlier]
                == s.entries[earlier]
            &&& t.entries.contains_key(earlier) ==> t.entries.contains_key(later) && t.entries[later]
                == s.entries[later]
        }),
    decreases s.small.len(),
{
    assert(s.entry_ok(earlier));
    assert(s.entry_ok(later));
    let first = (s.entries[earlier].hash, earlier, s.entries[earlier].stamp);
    let second = (s.entries[later].hash, later, s.entries[later].stamp);
    let i = choose|i: int| 0 <= i < s.small.len() && s.small[i] == first;
    let j = choose|j: int| 0 <= j < s.small.len() && s.small[j] == second;
    assert(s.small[i].2 < s.small[j].2);
    assert(i < j);
    if !s.current(s.small[0]) {
        lemma_stale_small_inv(s);
        lemma_small_in_turn(ShardState { small: s.small.skip(1), ..s }, earlier, later);
    } else if s.small[0].1 == later {
        assert(s.small[0].2 == s.small[j].2);
        assert(false);
    }
}

impl<K: View, V> ShardState<K, V> {
    /// The entry is in the small queue's care and was not accessed.
    pub open spec fn unread(self, key: K::V) -> bool {
        &&& self.entries.contains_key(key)
        &&& self.entries[key].loc == LOC_SMALL
        &&& self.entries[key].freq == 0
    }
}

/// Unread entries of the small queue leave in the order in which their stays
/// began: as long as the earlier one is there, so is the later one.
pub proof fn law_in_turn<K: View, V>(s: ShardState<K, V>, earlier: K::V, later: K::V)
    requires
        s.inv(),
        s.unread(earlier),
        s.unread(later),
        s.entries[earlier].stamp < s.entries[later].stamp,
    ensures
        s.make_room().entries.contains_key(earlier) ==> s.make_room().entries.contains_key(later)
            && s.make_room().unread(earlier) && s.make_room().unread(later),
    decreases s.entries.len(), s.small.len(),
{
    if s.cap > 0 && s.entries.len() >= s.cap {
        let t = s.evict_one();
        lemma_evict_one(s);
        if s.live(LOC_SMALL) >= small_cap_of(s.cap) {
            lemma_small_in_turn(s, earlier, later);
        } else {
            lemma_evict_from_main(s);
        }
        lemma_make_room(t);
        if t.entries.contains_key(earlier) {
            law_in_turn(t, earlier, later);
        }
    }
}

/// Of the unread entries of the small queue the one that came last leaves last,
/// also if its key was stored and removed before: where room is made for the
/// next entry, the newest stays as long as any other unread one does.
pub proof fn law_last_leaves_last<K: View, V>(
    s: ShardState<K, V>,
    hash: u64,
    key: K,
    value: V,
    other: K::V,
)
    requires
        s.inv(),
        !s.entries.contains_key(key@),
        s.knows_as(key@, hash),
        !s.ghosts.contains(hash),
        other != key@,
        s.insert_new(hash, key, value).unread(other),
    ensures
        s.insert_new(hash, key, value).unread(key@),
        ({
            let room = s.insert_new(hash, key, value).make_room();
            room.entries.contains_key(other) ==> room.entries.contains_key(key@)
        }),
{
    lemma_insert_new(s, hash, key, value);
    law_newest(s, hash, key, value, other);
    law_in_turn(s.insert_new(hash, key, value), other, key@);
}

impl<K: View, V> ShardState<K, V> {
    /// The current records of a queue, in their order.
    pub open spec fn current_of(self, queue: Seq<(u64, K::V, nat)>) -> Seq<(u64, K::V, nat)> {
        queue.filter(|record: (u64, K::V, nat)| self.current(record))
    }
}

/// No two records carry the same stamp.
spec fn stamps_differ<A>(queue: Seq<(u64, A, nat)>) -> bool {
    forall|i: int, j: int|
        0 <= i < j < queue.len() ==> (#[trigger] queue[i]).2 != (#[trigger] queue[j]).2
}

/// What is left of a queue stood in it, and its stamps still differ.
proof fn lemma_filter<A>(queue: Seq<(u64, A, nat)>, keep: spec_fn((u64, A, nat)) -> bool)
    requires
        stamps_differ(queue),
    ensures
        stamps_differ(queue.filter(keep)),
        forall|i: int|
            0 <= i < queue.filter(keep).len() ==> keep(#[trigger] queue.filter(keep)[i])
                && queue.contains(queue.filter(keep)[i]),
    decreases queue.len(),
{
    reveal(Seq::filter);
    if queue.len() > 0 {
        let front = queue.drop_last();
        let left = front.filter(keep);
        lemma_filter(front, keep);
        assert forall|i: int| 0 <= i < left.len() implies queue.contains(#[trigger] left[i])
            && left[i].2 != queue.last().2 by {
            let j = choose|j: int| 0 <= j < front.len() && front[j] == left[i];
            assert(queue[j] == left[i]);
            assert(queue[j].2 != queue[queue.len() - 1].2);
        }
        let all = queue.filter(keep);
        if keep(queue.last()) {
            assert(all == left.push(queue.last()));
            assert(queue[queue.len() - 1] == queue.last());
            assert forall|i: int| 0 <= i < all.len() implies keep(#[trigger] all[i])
                && queue.contains(all[i]) by {
                if i < left.len() {
                    assert(all[i] == left[i]);
                }
            }
            assert forall|i: int, j: int| 0 <= i < j < all.len() implies (#[trigger] all[i]).2 != (
            #[trigger] all[j]).2 by {
                assert(all[i] == left[i]);
                if j < left.len() {
                    assert(all[j] == left[j]);
                }
            }
        }
    }
}

/// Nothing is left out where everything is kept.
proof fn lemma_filter_all<A>(queue: Seq<A>, keep: spec_fn(A) -> bool)
    requires
        forall|i: int| 0 <= i < queue.len() ==> keep(#[trigger] queue[i]),
    ensures
        queue.filter(keep) == queue,
    decreases queue.len(),
{
    reveal(Seq::filter);
    if queue.len() > 0 {
        lemma_filter_all(queue.drop_last(), keep);
        assert(queue.drop_last().push(queue.last()) =~= queue);
    }
}

impl<K: View, V> ShardState<K, V> {
    /// The key has a current record among the first `n` of the main queue.
    spec fn passed(self, n: int, key: K::V) -> bool {
        exists|i: int|
            0 <= i < n && self.current(#[trigger] self.main[i]) && self.main[i].1 == key
    }

    /// The shard after a sweep has passed over the first `n` records of the main
    /// queue: the stale ones are gone, and the current ones stand at the back,
    /// with their entries' frequencies lowered by one.
    spec fn swept(self, n: int) -> Self {
        ShardState {
            entries: self.entries.map_entries(
                |key: K::V, entry: EntryState<K, V>|
                    if self.passed(n, key) {
                        EntryState { freq: (entry.freq - 1) as u8, ..entry }
                    } else {
                        entry
                    },
            ),
            main: self.main.skip(n) + self.current_of(self.main.take(n)),
            ..self
        }
    }
}

/// A sweep of the main queue passes over stale records and over those whose
/// entries have accesses left.
proof fn lemma_swept<K: View, V>(s: ShardState<K, V>, n: int)
    requires
        stamps_differ(s.main),
        0 <= n <= s.main.len(),
        forall|i: int|
            0 <= i < n && s.current(#[trigger] s.main[i]) ==> s.entries[s.main[i].1].freq > 0,
    ensures
        s.swept(n).evict_from_main() == s.evict_from_main(),
        forall|record: (u64, K::V, nat)| #[trigger] s.swept(n).current(record) == s.current(record),
    decreases n,
{
    reveal(Seq::filter);
    let after = s.swept(n);
    if n == 0 {
        assert(after.main =~= s.main);
        assert(after.entries =~= s.entries);
    } else {
        lemma_swept(s, n - 1);
        let before = s.swept(n - 1);
        let record = s.main[n - 1];
        let entry = s.entries[record.1];
        assert(before.main[0] == record);
        assert(s.main.take(n).drop_last() =~= s.main.take(n - 1));
        assert(s.main.take(n).last() == record);
        assert(before.current(record) == s.current(record));
        if s.current(record) {
            assert(!s.passed(n - 1, record.1)) by {
                assert forall|i: int| 0 <= i < n - 1 && s.current(#[trigger] s.main[i]) implies
                    s.main[i].1 != record.1 by {
                    assert(s.main[i].2 != s.main[n - 1].2);
                }
            }
            assert(before.entries[record.1] == entry);
            assert(after.main =~= before.main.skip(1).push(record));
            let lower = EntryState { freq: (entry.freq - 1) as u8, ..entry };
            assert forall|key: K::V| #[trigger] s.entries.contains_key(key) implies
                after.entries[key] == before.entries.insert(record.1, lower)[key] by {
                lemma_passed_next(s, n - 1, key);
            }
            assert(after.entries =~= before.entries.insert(record.1, lower));
        } else {
            assert(after.main =~= before.main.skip(1));
            assert forall|key: K::V| #[trigger] s.entries.contains_key(key) implies
                after.entries[key] == before.entries[key] by {
                lemma_passed_next(s, n - 1, key);
            }
            assert(after.entries =~= before.entries);
        }
    }
}

/// One record more is passed.
proof fn lemma_passed_next<K: View, V>(s: ShardState<K, V>, n: int, key: K::V)
    requires
        0 <= n < s.main.len(),
    ensures
        s.passed(n + 1, key) <==> s.passed(n, key) || s.current(s.main[n]) && s.main[n].1 == key,
{
    if s.passed(n, key) {
        let i = choose|i: int|
            0 <= i < n && s.current(#[trigger] s.main[i]) && s.main[i].1 == key;
        assert(s.current(s.main[i]) && s.main[i].1 == key);
    }
    if s.passed(n + 1, key) {
        let i = choose|i: int|
            0 <= i < n + 1 && s.current(#[trigger] s.main[i]) && s.main[i].1 == key;
        assert(s.current(s.main[i]) && s.main[i].1 == key);
    }
}

impl<K: View, V> ShardState<K, V> {
    /// The record is the first among the current ones of the main queue whose
    /// entry has the least frequency.
    pub open spec fn is_victim(self, victim: int) -> bool {
        let least = self.entries[self.main[victim].1].freq;
        &&& 0 <= victim < self.main.len()
        &&& self.current(self.main[victim])
        &&& forall|i: int|
            0 <= i < self.main.len() && self.current(#[trigger] self.main[i])
                ==> self.entries[self.main[i].1].freq >= least
        &&& forall|i: int|
            0 <= i < victim && self.current(#[trigger] self.main[i])
                ==> self.entries[self.main[i].1].freq > least
    }

    /// What a sweep of the main queue leaves if it evicts by this record.
    pub open spec fn evicts_at(self, victim: int, after: Self) -> bool {
        let least = self.entries[self.main[victim].1].freq;
        let behind = self.main.skip(victim + 1);
        &&& after.entries.dom() == self.entries.dom().remove(self.main[victim].1)
        &&& after.main == (if least == 0 {
            behind
        } else {
            self.current_of(behind)
        }) + self.current_of(self.main.take(victim))
        &&& forall|i: int|
            victim < i < self.main.len() && self.current(#[trigger] self.main[i])
                ==> after.entries[self.main[i].1] == (EntryState {
                freq: (self.entries[self.main[i].1].freq - least) as u8,
                ..self.entries[self.main[i].1]
            })
        &&& forall|i: int|
            0 <= i < victim && self.current(#[trigger] self.main[i])
                ==> after.entries[self.main[i].1] == (EntryState {
                freq: (self.entries[self.main[i].1].freq - least - 1) as u8,
                ..self.entries[self.main[i].1]
            })
        &&& forall|key: K::V| #[trigger]
            self.entries.contains_key(key) && (forall|i: int|
                0 <= i < self.main.len() && self.current(#[trigger] self.main[i])
                    ==> self.main[i].1 != key) ==> after.entries[key] == self.entries[key]
        &&& after.small == self.small
        &&& after.ghosts == self.ghosts
        &&& after.cap == self.cap
        &&& after.clock == self.clock
    }
}

/// The first current record of least frequency decides.
proof fn lemma_main_victim<K: View, V>(s: ShardState<K, V>, victim: int)
    requires
        stamps_differ(s.main),
        s.is_victim(victim),
    ensures
        s.evicts_at(victim, s.evict_from_main()),
    decreases s.entries[s.main[victim].1].freq,
{
    let least = s.entries[s.main[victim].1].freq;
    let len = s.main.len() as int;
    let key = s.main[victim].1;
    let t = s.evict_from_main();
    let keep = |record: (u64, K::V, nat)| s.current(record);
    // The keys of current records differ.
    assert forall|i: int, j: int|
        0 <= i < len && 0 <= j < len && i != j && s.current(#[trigger] s.main[i]) && s.current(
            #[trigger] s.main[j],
        ) implies s.main[i].1 != s.main[j].1 by {
        if i < j {
            assert(s.main[i].2 != s.main[j].2);
        } else {
            assert(s.main[j].2 != s.main[i].2);
        }
    }
    if least == 0 {
        lemma_swept(s, victim);
        let r = s.swept(victim);
        assert(r.main[0] == s.main[victim]);
        assert(r.current(s.main[victim]));
        assert(!s.passed(victim, key));
        assert(r.main.skip(1) =~= s.main.skip(victim + 1) + s.current_of(s.main.take(victim)));
        assert(t.entries =~= r.entries.remove(key));
        assert(t.entries.dom() =~= s.entries.dom().remove(key));
        assert forall|i: int| victim < i < len && s.current(#[trigger] s.main[i]) implies
            t.entries[s.main[i].1] == s.entries[s.main[i].1] by {
            assert(!s.passed(victim, s.main[i].1));
        }
        assert forall|i: int| 0 <= i < victim && s.current(#[trigger] s.main[i]) implies
            t.entries[s.main[i].1] == (EntryState {
                freq: (s.entries[s.main[i].1].freq - 1) as u8,
                ..s.entries[s.main[i].1]
            }) by {
            assert(s.passed(victim, s.main[i].1));
        }
        assert forall|k: K::V| #[trigger]
            s.entries.contains_key(k) && (forall|i: int|
                0 <= i < len && s.current(#[trigger] s.main[i]) ==> s.main[i].1 != k) implies
            t.entries[k] == s.entries[k] by {
            assert(s.current(s.main[victim]));
            assert(!s.passed(victim, k));
        }
    } else {
        lemma_swept(s, len);
        let r = s.swept(len);
        let before = s.main.take(victim).filter(keep);
        let behind = s.main.skip(victim + 1).filter(keep);
        let at = before.len() as int;
        lemma_filter(s.main, keep);
        assert(s.main.take(len) =~= s.main);
        assert(r.main =~= s.main.filter(keep));
        assert(s.main =~= s.main.take(victim) + (seq![s.main[victim]] + s.main.skip(victim + 1)));
        Seq::filter_distributes_over_add(
            s.main.take(victim),
            seq![s.main[victim]] + s.main.skip(victim + 1),
            keep,
        );
        Seq::filter_distributes_over_add(seq![s.main[victim]], s.main.skip(victim + 1), keep);
        lemma_filter_all(seq![s.main[victim]], keep);
        assert(r.main =~= before + (seq![s.main[victim]] + behind));
        assert(r.main[at] == s.main[victim]);
        assert(r.main.take(at) =~= before);
        assert(r.main.skip(at + 1) =~= behind);
        assert(r.entries.dom() =~= s.entries.dom());
        assert forall|i: int| 0 <= i < len && s.current(#[trigger] s.main[i]) implies
            r.entries[s.main[i].1] == (EntryState {
                freq: (s.entries[s.main[i].1].freq - 1) as u8,
                ..s.entries[s.main[i].1]
            }) by {
            assert(s.passed(len, s.main[i].1));
        }
        // Every record that is left is one of the records from before.
        assert forall|i: int| 0 <= i < r.main.len() implies s.current(#[trigger] r.main[i])
            && r.current(r.main[i]) && s.main.contains(r.main[i]) by {
            assert(r.main[i] == s.main.filter(keep)[i]);
        }
        lemma_filter(s.main.take(victim), keep);
        assert(r.is_victim(at)) by {
            assert forall|i: int| 0 <= i < r.main.len() && r.current(#[trigger] r.main[i]) implies
                r.entries[r.main[i].1].freq >= r.entries[r.main[at].1].freq by {
                let j = choose|j: int| 0 <= j < len && s.main[j] == r.main[i];
                assert(s.current(s.main[j]));
            }
            assert forall|i: int| 0 <= i < at && r.current(#[trigger] r.main[i]) implies
                r.entries[r.main[i].1].freq > r.entries[r.main[at].1].freq by {
                assert(r.main[i] == before[i]);
                let front = s.main.take(victim);
                let j = choose|j: int| 0 <= j < front.len() && front[j] == before[i];
                assert(s.main[j] == r.main[i]);
                assert(s.current(s.main[j]));
            }
        }
        lemma_main_victim(r, at);
        assert(t == r.evict_from_main());
        assert(r.current_of(behind) == behind) by {
            lemma_filter_all(behind, |record: (u64, K::V, nat)| r.current(record));
        }
        assert(r.current_of(before) == before) by {
            lemma_filter_all(before, |record: (u64, K::V, nat)| r.current(record));
        }
        assert(t.main == behind + before);
        assert forall|i: int| victim < i < len && s.current(#[trigger] s.main[i]) implies
            t.entries[s.main[i].1] == (EntryState {
                freq: (s.entries[s.main[i].1].freq - least) as u8,
                ..s.entries[s.main[i].1]
            }) by {
            assert(s.main.skip(victim + 1)[i - victim - 1] == s.main[i]);
            s.main.skip(victim + 1).lemma_filter_contains(keep, i - victim - 1);
            let j = choose|j: int| 0 <= j < behind.len() && behind[j] == s.main[i];
            assert(r.main[at + 1 + j] == s.main[i]);
            assert(r.current(r.main[at + 1 + j]));
        }
        assert forall|i: int| 0 <= i < victim && s.current(#[trigger] s.main[i]) implies
            t.entries[s.main[i].1] == (EntryState {
                freq: (s.entries[s.main[i].1].freq - least - 1) as u8,
                ..s.entries[s.main[i].1]
            }) by {
            assert(s.main.take(victim)[i] == s.main[i]);
            s.main.take(victim).lemma_filter_contains(keep, i);
            let j = choose|j: int| 0 <= j < before.len() && before[j] == s.main[i];
            assert(r.main[j] == s.main[i]);
            assert(r.current(r.main[j]));
        }
        assert forall|k: K::V| #[trigger]
            s.entries.contains_key(k) && (forall|i: int|
                0 <= i < len && s.current(#[trigger] s.main[i]) ==> s.main[i].1 != k) implies
            t.entries[k] == s.entries[k] by {
            assert(!s.passed(len, k));
            assert(r.entries.contains_key(k));
            assert forall|i: int| 0 <= i < r.main.len() && r.current(#[trigger] r.main[i]) implies
                r.main[i].1 != k by {
                let j = choose|j: int| 0 <= j < len && s.main[j] == r.main[i];
                assert(s.current(s.main[j]));
            }
        }
    }
}

/// The main queue evicts by frequency and, among equals, by age: a sweep evicts
/// the first of its entries whose frequency is the least. Stale records are
/// passed over and dropped. What stood behind the victim comes to the front, with
/// frequencies lower by that least one; what stood before it follows, with
/// frequencies lower by one more. Everything else stays.
pub proof fn law_main_victim<K: View, V>(s: ShardState<K, V>, victim: int)
    requires
        s.inv(),
        s.is_victim(victim),
    ensures
        s.evicts_at(victim, s.evict_from_main()),
{
    lemma_main_victim(s, victim);
}

/// A main queue with entries has a victim.
pub proof fn law_has_victim<K: View, V>(s: ShardState<K, V>)
    requires
        s.inv(),
        s.live(LOC_MAIN) > 0,
    ensures
        exists|victim: int| #[trigger] s.is_victim(victim),
{
    lemma_main_members(s);
    let victim = lemma_find_victim(s, s.main.len() as int);
    assert(s.is_victim(victim));
}

/// Finds the first current record of least frequency among the first `n`.
proof fn lemma_find_victim<K: View, V>(s: ShardState<K, V>, n: int) -> (victim: int)
    requires
        0 <= n <= s.main.len(),
        exists|i: int| 0 <= i < n && s.current(#[trigger] s.main[i]),
    ensures
        0 <= victim < n,
        s.current(s.main[victim]),
        forall|i: int|
            0 <= i < n && s.current(#[trigger] s.main[i]) ==> s.entries[s.main[i].1].freq
                >= s.entries[s.main[victim].1].freq,
        forall|i: int|
            0 <= i < victim && s.current(#[trigger] s.main[i]) ==> s.entries[s.main[i].1].freq
                > s.entries[s.main[victim].1].freq,
    decreases n,
{
    let last = n - 1;
    if exists|i: int| 0 <= i < last && s.current(#[trigger] s.main[i]) {
        let found = lemma_find_victim(s, last);
        if s.current(s.main[last]) && s.entries[s.main[last].1].freq
            < s.entries[s.main[found].1].freq {
            last
        } else {
            found
        }
    } else {
        last
    }
}

impl<K: View, V> ShardState<K, V> {
    /// The shard after `n` steps towards a free place.
    pub open spec fn steps(self, n: nat) -> Self
        decreases n,
    {
        if n == 0 {
            self
        } else {
            self.evict_one().steps((n - 1) as nat)
        }
    }
}

/// A sweep of a small queue with entries evicts one, or hands one over to the
/// main queue.
proof fn lemma_small_step<K: View, V>(s: ShardState<K, V>)
    requires
        s.inv(),
        s.live(LOC_SMALL) > 0,
    ensures
        ({
            let t = s.evict_from_small();
            ||| t.entries.len() + 1 == s.entries.len()
            ||| t.entries.len() == s.entries.len() && t.live(LOC_SMALL) + 1 == s.live(LOC_SMALL)
        }),
    decreases s.small.len(),
{
    lemma_live_sum(s);
    let member = s.members(LOC_SMALL).choose();
    assert(s.members(LOC_SMALL).contains(member));
    assert(s.entries.contains_key(member));
    assert(s.entry_ok(member));
    assert(s.small.contains((s.entries[member].hash, member, s.entries[member].stamp)));
    let record = s.small[0];
    let rest = ShardState { small: s.small.skip(1), ..s };
    if !s.current(record) {
        lemma_stale_small_inv(s);
        assert(rest.members(LOC_SMALL) =~= s.members(LOC_SMALL));
        lemma_small_step(rest);
    } else if s.entries[record.1].freq > 0 {
        lemma_current_small(s, 0);
        let entry = EntryState { loc: LOC_MAIN, ..s.entries[record.1] };
        let t = s.evict_from_small();
        lemma_live_insert(s, record.1, entry, LOC_SMALL);
        assert(t.members(LOC_SMALL) =~= s.with_entry(record.1, entry).members(LOC_SMALL));
        assert(t.entries.dom() =~= s.entries.dom());
    }
}

/// A full shard has a free place after at most one step more than it has entries
/// in the care of the small queue. These steps are all that making room takes.
pub proof fn law_steps_bound<K: View, V>(s: ShardState<K, V>)
    requires
        s.inv(),
        s.cap > 0,
        s.entries.len() == s.cap,
    ensures
        exists|n: nat|
            1 <= n <= s.live(LOC_SMALL) + 1 && (#[trigger] s.steps(n)) == s.make_room() && s.steps(
                n,
            ).entries.len() == s.cap - 1,
    decreases s.live(LOC_SMALL),
{
    let t = s.evict_one();
    lemma_evict_one(s);
    lemma_make_room(s);
    lemma_live_sum(s);
    reveal_with_fuel(ShardState::steps, 2);
    reveal_with_fuel(ShardState::make_room, 2);
    assert(s.steps(1) == t);
    if s.live(LOC_SMALL) >= small_cap_of(s.cap) {
        lemma_small_step(s);
    } else {
        lemma_evict_from_main(s);
    }
    if t.entries.len() < s.cap {
        assert(s.steps(1) == s.make_room());
    } else {
        law_steps_bound(t);
        let n = choose|n: nat|
            1 <= n <= t.live(LOC_SMALL) + 1 && (#[trigger] t.steps(n)) == t.make_room() && t.steps(
                n,
            ).entries.len() == t.cap - 1;
        assert(s.steps(n + 1) == t.steps(n));
    }
}

/// The entries in a queue's care are as many as its current records.
pub proof fn law_live<K: View, V>(s: ShardState<K, V>)
    requires
        s.inv(),
    ensures
        s.live(LOC_SMALL) == s.current_of(s.small).len(),
        s.live(LOC_MAIN) == s.current_of(s.main).len(),
        s.live(LOC_SMALL) + s.live(LOC_MAIN) == s.entries.len(),
{
    lemma_live_sum(s);
    lemma_live_records(s, LOC_SMALL);
    lemma_live_records(s, LOC_MAIN);
}

/// The members of a queue are the keys of its current records.
proof fn lemma_live_records<K: View, V>(s: ShardState<K, V>, loc: u8)
    requires
        s.inv(),
        loc == LOC_SMALL || loc == LOC_MAIN,
    ensures
        s.live(loc) == s.current_of(s.queue(loc)).len(),
{
    let queue = s.queue(loc);
    let keep = |record: (u64, K::V, nat)| s.current(record);
    let left = queue.filter(keep);
    assert(stamps_differ(queue));
    lemma_filter(queue, keep);
    let keys = left.map_values(|record: (u64, K::V, nat)| record.1);
    assert forall|i: int, j: int| 0 <= i < j < keys.len() implies keys[i] != keys[j] by {
        assert(left[i].2 != left[j].2);
        assert(keep(left[i]) && keep(left[j]));
    }
    assert(keys.no_duplicates());
    keys.unique_seq_to_set();
    assert forall|key: K::V| keys.to_set().contains(key) <==> s.members(loc).contains(key) by {
        if keys.to_set().contains(key) {
            let i = choose|i: int| 0 <= i < keys.len() && keys[i] == key;
            assert(keep(left[i]) && queue.contains(left[i]));
            let j = choose|j: int| 0 <= j < queue.len() && queue[j] == left[i];
            if loc == LOC_SMALL {
                lemma_current_small(s, j);
            } else {
                lemma_current_main(s, j);
            }
        }
        if s.members(loc).contains(key) {
            assert(s.entries.contains_key(key));
            assert(s.entry_ok(key));
            let entry = s.entries[key];
            let record = (entry.hash, key, entry.stamp);
            let j = choose|j: int| 0 <= j < queue.len() && queue[j] == record;
            queue.lemma_filter_contains(keep, j);
            let i = choose|i: int| 0 <= i < left.len() && left[i] == record;
            assert(keys[i] == key);
        }
    }
    assert(keys.to_set() =~= s.members(loc));
}

/// A sweep of the small queue takes its first current record and drops the stale
/// ones before it. An entry that was accessed is handed over to the back of the
/// main queue. One that was not is evicted: its digest joins the ghost set, which
/// keeps all that it holds as long as it holds less than the shard's capacity,
/// and is emptied first when it does not. Nothing else changes.
pub proof fn law_small_sweep<K: View, V>(s: ShardState<K, V>, first: int)
    requires
        s.inv(),
        0 <= first < s.small.len(),
        s.current(s.small[first]),
        forall|i: int| 0 <= i < first ==> !s.current(#[trigger] s.small[i]),
    ensures
        ({
            let t = s.evict_from_small();
            let (hash, key, stamp) = s.small[first];
            &&& t.small == s.small.skip(first + 1)
            &&& t.cap == s.cap
            &&& t.clock == s.clock
            &&& forall|other: K::V| #[trigger]
                s.entries.contains_key(other) && other != key ==> t.entries.contains_key(other)
                    && t.entries[other] == s.entries[other]
            &&& forall|other: K::V| #[trigger]
                t.entries.contains_key(other) ==> s.entries.contains_key(other)
            &&& s.entries[key].freq > 0 ==> {
                &&& t.entries.contains_key(key)
                &&& t.entries[key] == (EntryState { loc: LOC_MAIN, ..s.entries[key] })
                &&& t.main == s.main.push(s.small[first])
                &&& t.ghosts == s.ghosts
            }
            &&& s.entries[key].freq == 0 ==> {
                &&& !t.entries.contains_key(key)
                &&& t.main == s.main
                &&& t.ghosts.contains(hash)
                &&& forall|digest: u64|
                    t.ghosts.contains(digest) ==> digest == hash || s.ghosts.contains(digest)
                &&& s.ghosts.len() < s.cap ==> s.ghosts.subset_of(t.ghosts)
                &&& s.ghosts.len() >= s.cap ==> t.ghosts.len() == 1
            }
        }),
    decreases first,
{
    if first > 0 {
        lemma_stale_small_inv(s);
        let rest = ShardState { small: s.small.skip(1), ..s };
        assert(!s.current(s.small[0]));
        assert(rest.small[first - 1] == s.small[first]);
        assert forall|i: int| 0 <= i < first - 1 implies !rest.current(#[trigger] rest.small[i]) by {
            assert(rest.small[i] == s.small[i + 1]);
        }
        law_small_sweep(rest, first - 1);
        assert(rest.small.skip(first) =~= s.small.skip(first + 1));
        assert(s.evict_from_small() == rest.evict_from_small());
    }
}

/// A sweep of a small queue without current records empties it and sweeps the
/// main queue.
pub proof fn law_small_exhausted<K: View, V>(s: ShardState<K, V>)
    requires
        s.inv(),
        forall|i: int| 0 <= i < s.small.len() ==> !s.current(#[trigger] s.small[i]),
    ensures
        ({
            let t = s.evict_from_small();
            let u = s.evict_from_main();
            &&& t.small.len() == 0
            &&& t.entries == u.entries
            &&& t.main == u.main
            &&& t.ghosts == s.ghosts
            &&& t.cap == s.cap
            &&& t.clock == s.clock
        }),
    decreases s.small.len(),
{
    lemma_evict_from_main(s);
    if s.small.len() > 0 {
        lemma_stale_small_inv(s);
        let rest = ShardState { small: s.small.skip(1), ..s };
        assert(!s.current(s.small[0]));
        assert forall|i: int| 0 <= i < rest.small.len() implies !rest.current(
            #[trigger] rest.small[i],
        ) by {
            assert(rest.small[i] == s.small[i + 1]);
        }
        law_small_exhausted(rest);
        lemma_main_apart(s, rest.small, s.ghosts);
    }
}

/// What a sweep of the main queue does depends on nothing but the entries and the
/// main queue.
proof fn lemma_main_apart<K: View, V>(
    s: ShardState<K, V>,
    small: Seq<(u64, K::V, nat)>,
    ghosts: Set<u64>,
)
    ensures
        (ShardState { small, ghosts, ..s }).evict_from_main() == (ShardState {
            small,
            ghosts,
            ..s.evict_from_main()
        }),
    decreases patience(s.main, s.entries),
{
    if s.main.len() > 0 {
        let record = s.main[0];
        if !s.current(record) {
            lemma_patience_head(s.main, s.entries);
            lemma_main_apart(ShardState { main: s.main.skip(1), ..s }, small, ghosts);
        } else if s.entries[record.1].freq > 0 {
            let entry = s.entries[record.1];
            let lower = EntryState { freq: (entry.freq - 1) as u8, ..entry };
            lemma_second_chance(s);
            lemma_main_apart(
                ShardState {
                    entries: s.entries.insert(record.1, lower),
                    main: s.main.skip(1).push(record),
                    ..s
                },
                small,
                ghosts,
            );
        }
    }
}

/// What a sweep of the small queue does to the entries and to the queues does not
/// depend on the ghost set.
proof fn lemma_small_apart<K: View, V>(s: ShardState<K, V>, o: ShardState<K, V>)
    requires
        o == (ShardState { ghosts: o.ghosts, ..s }),
    ensures
        o.evict_from_small() == (ShardState {
            ghosts: o.evict_from_small().ghosts,
            ..s.evict_from_small()
        }),
    decreases s.small.len(),
{
    lemma_main_apart(s, s.small, s.ghosts);
    lemma_main_apart(s, s.small, o.ghosts);
    if s.small.len() > 0 && !s.current(s.small[0]) {
        lemma_small_apart(
            ShardState { small: s.small.skip(1), ..s },
            ShardState { small: o.small.skip(1), ..o },
        );
    }
}

/// What goes to make room does not depend on the ghost set: shards that differ in
/// nothing else give up the same entries and keep the same queues.
pub proof fn law_room_ignores_ghosts<K: View, V>(s: ShardState<K, V>, o: ShardState<K, V>)
    requires
        s.inv(),
        o.inv(),
        o == (ShardState { ghosts: o.ghosts, ..s }),
    ensures
        o.make_room().entries == s.make_room().entries,
        o.make_room().small == s.make_room().small,
        o.make_room().main == s.make_room().main,
        o.make_room().cap == s.cap,
        o.make_room().clock == s.clock,
        s.make_room().clock == s.clock,
    decreases s.entries.len(), s.small.len(),
{
    lemma_make_room(s);
    if s.cap > 0 && s.entries.len() >= s.cap {
        lemma_evict_one(s);
        lemma_evict_one(o);
        assert(o.members(LOC_SMALL) =~= s.members(LOC_SMALL));
        lemma_small_apart(s, o);
        lemma_main_apart(s, s.small, s.ghosts);
        lemma_main_apart(s, s.small, o.ghosts);
        law_room_ignores_ghosts(s.evict_one(), o.evict_one());
    }
}

/// Where at least a tenth of the shard's capacity is in the small queue's care, a
/// step towards a free place sweeps the small queue; where less is, it sweeps the
/// main queue.
pub proof fn law_step<K: View, V>(s: ShardState<K, V>)
    requires
        s.inv(),
        s.cap > 0,
    ensures
        10 * s.current_of(s.small).len() >= s.cap ==> s.evict_one() == s.evict_from_small(),
        10 * s.current_of(s.small).len() < s.cap ==> s.evict_one() == s.evict_from_main(),
{
    law_live(s);
    lemma_tenth(s.cap, s.live(LOC_SMALL));
}

/// A tenth, rounded up.
proof fn lemma_tenth(cap: nat, n: nat)
    requires
        cap > 0,
    ensures
        n >= small_cap_of(cap) <==> 10 * n >= cap,
{
    law_ceil_div(cap as int, 10);
}

impl<K: View, V> ShardState<K, V> {
    /// The key has a current record among the first `n` of the small queue.
    pub open spec fn among_first(self, n: int, key: K::V) -> bool {
        exists|i: int|
            0 <= i < n && self.current(#[trigger] self.small[i]) && self.small[i].1 == key
    }

    /// The shard with the first `n` records of the small queue handed over to the
    /// main queue, the stale ones dropped.
    pub open spec fn handed_over(self, n: int) -> Self {
        ShardState {
            entries: self.entries.map_entries(
                |key: K::V, entry: EntryState<K, V>|
                    if self.among_first(n, key) {
                        EntryState { loc: LOC_MAIN, ..entry }
                    } else {
                        entry
                    },
            ),
            small: self.small.skip(n),
            main: self.main + self.current_of(self.small.take(n)),
            ..self
        }
    }

    /// The record is the first of the small queue whose entry was not accessed,
    /// and at least a tenth of the capacity stands from it on to the back.
    pub open spec fn first_unread(self, victim: int) -> bool {
        &&& 0 <= victim < self.small.len()
        &&& self.current(self.small[victim])
        &&& self.entries[self.small[victim].1].freq == 0
        &&& forall|i: int|
            0 <= i < victim && self.current(#[trigger] self.small[i])
                ==> self.entries[self.small[i].1].freq > 0
        &&& 10 * self.current_of(self.small.skip(victim)).len() >= self.cap
    }

    /// The first `n` records of the small queue are those that have to leave it
    /// until less than a tenth of the capacity is left, and their entries were all
    /// accessed.
    pub open spec fn all_read(self, n: int) -> bool {
        &&& 0 <= n <= self.small.len()
        &&& forall|i: int|
            0 <= i < n && self.current(#[trigger] self.small[i])
                ==> self.entries[self.small[i].1].freq > 0
        &&& 10 * self.current_of(self.small.skip(n)).len() < self.cap
        &&& n > 0 ==> self.current(self.small[n - 1]) && 10 * self.current_of(
            self.small.skip(n - 1),
        ).len() >= self.cap
    }
}

/// Where the same records are current, they are so in a queue.
proof fn lemma_current_of<K: View, V>(
    s: ShardState<K, V>,
    o: ShardState<K, V>,
    queue: Seq<(u64, K::V, nat)>,
)
    requires
        forall|record: (u64, K::V, nat)| #[trigger] o.current(record) == s.current(record),
    ensures
        o.current_of(queue) == s.current_of(queue),
    decreases queue.len(),
{
    reveal(Seq::filter);
    if queue.len() > 0 {
        lemma_current_of(s, o, queue.drop_last());
        assert(o.current(queue.last()) == s.current(queue.last()));
    }
}

/// The current records of a queue are those of its front and of its back.
proof fn lemma_current_split<K: View, V>(
    s: ShardState<K, V>,
    queue: Seq<(u64, K::V, nat)>,
    n: int,
)
    requires
        0 <= n <= queue.len(),
    ensures
        s.current_of(queue) == s.current_of(queue.take(n)) + s.current_of(queue.skip(n)),
{
    assert(queue =~= queue.take(n) + queue.skip(n));
    Seq::filter_distributes_over_add(
        queue.take(n),
        queue.skip(n),
        |record: (u64, K::V, nat)| s.current(record),
    );
}

/// One record is a queue of its own.
proof fn lemma_current_one<K: View, V>(s: ShardState<K, V>, record: (u64, K::V, nat))
    ensures
        s.current_of(seq![record]) == (if s.current(record) {
            seq![record]
        } else {
            Seq::empty()
        }),
{
    reveal(Seq::filter);
    let queue = seq![record];
    assert(queue.drop_last() =~= Seq::empty());
    assert(queue.drop_last().filter(|r: (u64, K::V, nat)| s.current(r)) =~= Seq::empty());
    assert(Seq::<(u64, K::V, nat)>::empty().push(record) =~= queue);
}

/// Handing one record over does not change what making room leaves.
proof fn lemma_hand_over_one<K: View, V>(s: ShardState<K, V>)
    requires
        s.inv(),
        s.cap > 0,
        s.entries.len() == s.cap,
        s.small.len() > 0,
        10 * s.current_of(s.small).len() >= s.cap,
        s.current(s.small[0]) ==> s.entries[s.small[0].1].freq > 0,
    ensures
        ({
            let h = s.handed_over(1);
            &&& h.inv()
            &&& h.entries.len() == s.entries.len()
            &&& h.make_room() == s.make_room()
            &&& forall|record: (u64, K::V, nat)| #[trigger] h.current(record) == s.current(record)
        }),
{
    let h = s.handed_over(1);
    let record = s.small[0];
    let rest = s.small.skip(1);
    assert(s.small.take(1) =~= seq![record]);
    lemma_current_one(s, record);
    law_step(s);
    lemma_evict_one(s);
    assert(h.entries.dom() =~= s.entries.dom());
    if s.current(record) {
        let moved = EntryState { loc: LOC_MAIN, ..s.entries[record.1] };
        assert(h.main =~= s.main.push(record));
        assert(s.among_first(1, record.1)) by {
            assert(s.current(s.small[0]));
        }
        assert forall|key: K::V| key != record.1 implies !s.among_first(1, key) by {}
        assert(h.entries =~= s.entries.insert(record.1, moved));
        assert(h == s.evict_one());
    } else {
        lemma_stale_small_inv(s);
        assert(h.main =~= s.main);
        assert forall|key: K::V| !s.among_first(1, key) by {}
        assert(h.entries =~= s.entries);
        assert(h == ShardState { small: rest, ..s });
        assert(h.members(LOC_SMALL) =~= s.members(LOC_SMALL));
        law_live(s);
        law_live(h);
        law_step(h);
        lemma_evict_one(h);
        assert(h.evict_one() == s.evict_one());
    }
}

/// Handing the first records over does not change what making room leaves, as
/// long as the small queue is to be swept and their entries were accessed.
proof fn lemma_hand_over<K: View, V>(s: ShardState<K, V>, n: int)
    requires
        s.inv(),
        s.cap > 0,
        s.entries.len() == s.cap,
        0 <= n <= s.small.len(),
        forall|i: int|
            0 <= i < n && s.current(#[trigger] s.small[i]) ==> s.entries[s.small[i].1].freq > 0,
        n > 0 ==> 10 * s.current_of(s.small.skip(n - 1)).len() >= s.cap,
    ensures
        ({
            let h = s.handed_over(n);
            &&& h.inv()
            &&& h.entries.len() == s.entries.len()
            &&& h.make_room() == s.make_room()
            &&& forall|record: (u64, K::V, nat)| #[trigger] h.current(record) == s.current(record)
        }),
    decreases n,
{
    let end = s.handed_over(n);
    if n == 0 {
        reveal(Seq::filter);
        assert(s.small.take(0) =~= Seq::empty());
        assert(end.main =~= s.main);
        assert(end.small =~= s.small);
        assert forall|key: K::V| !s.among_first(0, key) by {}
        assert(end.entries =~= s.entries);
    } else {
        let h = s.handed_over(1);
        lemma_current_split(s, s.small, n - 1);
        lemma_hand_over_one(s);
        assert forall|i: int| 0 <= i < n - 1 && h.current(#[trigger] h.small[i]) implies
            h.entries[h.small[i].1].freq > 0 by {
            assert(h.small[i] == s.small[i + 1]);
            assert(s.current(s.small[i + 1]));
        }
        if n > 1 {
            assert(h.small.skip(n - 2) =~= s.small.skip(n - 1));
            lemma_current_of(s, h, s.small.skip(n - 1));
        }
        lemma_hand_over(h, n - 1);
        let far = h.handed_over(n - 1);
        assert(far.small =~= end.small);
        let front = h.small.take(n - 1);
        assert(s.small.take(n).take(1) =~= s.small.take(1));
        assert(s.small.take(n).skip(1) =~= front);
        lemma_current_split(s, s.small.take(n), 1);
        lemma_current_of(s, h, front);
        assert(far.main =~= end.main);
        assert forall|key: K::V| s.among_first(n, key) <==> s.among_first(1, key)
            || h.among_first(n - 1, key) by {
            if s.among_first(n, key) {
                let i = choose|i: int|
                    0 <= i < n && s.current(#[trigger] s.small[i]) && s.small[i].1 == key;
                if i > 0 {
                    assert(h.small[i - 1] == s.small[i]);
                    assert(h.current(h.small[i - 1]));
                } else {
                    assert(s.current(s.small[0]));
                }
            }
            if s.among_first(1, key) {
                assert(s.current(s.small[0]) && s.small[0].1 == key);
            }
            if h.among_first(n - 1, key) {
                let i = choose|i: int|
                    0 <= i < n - 1 && h.current(#[trigger] h.small[i]) && h.small[i].1 == key;
                assert(s.small[i + 1] == h.small[i]);
                assert(s.current(s.small[i + 1]));
            }
        }
        assert(far.entries =~= end.entries);
        assert(far == end);
    }
}

/// In a full shard, as long as at least a tenth of the capacity stands in the
/// small queue from its first entry on that was not accessed, that entry is the
/// one that goes: its digest joins the ghost set, what stood before it moves on
/// to the main queue, and nothing else changes. So no entry of the main queue and
/// none that was accessed goes.
pub proof fn law_room_from_small<K: View, V>(s: ShardState<K, V>, victim: int)
    requires
        s.inv(),
        s.cap > 0,
        s.entries.len() == s.cap,
        s.first_unread(victim),
    ensures
        ({
            let t = s.make_room();
            let (hash, key, stamp) = s.small[victim];
            &&& t.entries.dom() == s.entries.dom().remove(key)
            &&& forall|other: K::V| #[trigger]
                s.entries.contains_key(other) && other != key ==> t.entries[other] == (
                if s.among_first(victim, other) {
                    EntryState { loc: LOC_MAIN, ..s.entries[other] }
                } else {
                    s.entries[other]
                })
            &&& t.small == s.small.skip(victim + 1)
            &&& t.main == s.main + s.current_of(s.small.take(victim))
            &&& t.ghosts == (if s.ghosts.len() < s.cap {
                s.ghosts.insert(hash)
            } else {
                set![hash]
            })
            &&& t.cap == s.cap
            &&& t.clock == s.clock
        }),
{
    let (hash, key, stamp) = s.small[victim];
    if victim > 0 {
        assert(s.small.skip(victim - 1).skip(1) =~= s.small.skip(victim));
        lemma_current_split(s, s.small.skip(victim - 1), 1);
    }
    lemma_hand_over(s, victim);
    let h = s.handed_over(victim);
    assert(h.small[0] == s.small[victim]);
    assert(h.current(h.small[0]));
    lemma_current_of(s, h, h.small);
    law_step(h);
    lemma_evict_one(h);
    assert(!s.among_first(victim, key)) by {
        assert forall|i: int| 0 <= i < victim && s.current(#[trigger] s.small[i]) implies
            s.small[i].1 != key by {
            assert(s.small[i].2 < s.small[victim].2);
        }
    }
    assert(h.entries[key] == s.entries[key]);
    let t = h.evict_one();
    assert(t.entries =~= h.entries.remove(key));
    assert(h.entries.dom() =~= s.entries.dom());
    assert(t.entries.len() < t.cap);
    assert(t.make_room() == t);
    assert(s.make_room() == t);
    assert(t.entries.dom() =~= s.entries.dom().remove(key));
    assert(h.small.skip(1) =~= s.small.skip(victim + 1));
    assert(t.ghosts =~= (if s.ghosts.len() < s.cap {
        s.ghosts.insert(hash)
    } else {
        set![hash]
    }));
}

/// In a full shard whose small queue has only entries that were accessed, down to
/// less than a tenth of the capacity, these move on to the main queue, and the
/// main queue gives up its victim.
pub proof fn law_room_from_main<K: View, V>(s: ShardState<K, V>, n: int)
    requires
        s.inv(),
        s.cap > 0,
        s.entries.len() == s.cap,
        s.all_read(n),
    ensures
        exists|victim: int| #[trigger]
            s.handed_over(n).is_victim(victim) && s.handed_over(n).evicts_at(victim, s.make_room()),
{
    lemma_hand_over(s, n);
    let h = s.handed_over(n);
    lemma_current_of(s, h, h.small);
    law_step(h);
    law_live(h);
    lemma_evict_one(h);
    law_main_spares_small(h);
    law_has_victim(h);
    let victim = choose|victim: int| #[trigger] h.is_victim(victim);
    law_main_victim(h, victim);
    let t = h.evict_one();
    assert(t.entries.len() < t.cap);
    assert(t.make_room() == t);
    assert(h.is_victim(victim) && h.evicts_at(victim, s.make_room()));
}

/// A full shard with less than a tenth of its capacity in the small queue's care
/// gives up the main queue's victim.
pub proof fn law_main_goes_next<K: View, V>(s: ShardState<K, V>)
    requires
        s.inv(),
        s.cap > 0,
        s.entries.len() == s.cap,
        10 * s.live(LOC_SMALL) < s.cap,
    ensures
        exists|victim: int| #[trigger]
            s.is_victim(victim) && s.evicts_at(victim, s.make_room()),
{
    law_live(s);
    law_step(s);
    lemma_evict_one(s);
    law_main_spares_small(s);
    law_has_victim(s);
    let victim = choose|victim: int| #[trigger] s.is_victim(victim);
    law_main_victim(s, victim);
    let t = s.evict_one();
    assert(t.entries.len() < t.cap);
    assert(t.make_room() == t);
    assert(s.is_victim(victim) && s.evicts_at(victim, s.make_room()));
}

/// Every full shard is in one of the two cases.
pub proof fn law_room_cases<K: View, V>(s: ShardState<K, V>)
    requires
        s.inv(),
        s.cap > 0,
        s.entries.len() == s.cap,
    ensures
        (exists|victim: int| #[trigger] s.first_unread(victim)) || (exists|n: int| #[trigger]
            s.all_read(n)),
{
    lemma_room_case(s, 0);
}

/// Looks for the case from the `n`th record on.
proof fn lemma_room_case<K: View, V>(s: ShardState<K, V>, n: int)
    requires
        s.inv(),
        s.cap > 0,
        0 <= n <= s.small.len(),
        forall|i: int|
            0 <= i < n && s.current(#[trigger] s.small[i]) ==> s.entries[s.small[i].1].freq > 0,
        n > 0 ==> 10 * s.current_of(s.small.skip(n - 1)).len() >= s.cap,
    ensures
        (exists|victim: int| #[trigger] s.first_unread(victim)) || (exists|i: int| #[trigger]
            s.all_read(i)),
    decreases s.small.len() - n,
{
    if 10 * s.current_of(s.small.skip(n)).len() < s.cap {
        if n > 0 {
            let back = s.small.skip(n - 1);
            assert(back.take(1) =~= seq![s.small[n - 1]]);
            assert(back.skip(1) =~= s.small.skip(n));
            lemma_current_split(s, back, 1);
            lemma_current_one(s, s.small[n - 1]);
        }
        assert(s.all_read(n));
    } else if n == s.small.len() {
        reveal(Seq::filter);
        assert(s.small.skip(n) =~= Seq::empty());
        assert(false);
    } else if s.current(s.small[n]) && s.entries[s.small[n].1].freq == 0 {
        assert(s.first_unread(n));
    } else {
        lemma_room_case(s, n + 1);
    }
}

/// As long as an entry of the small queue that was not accessed has at least a
/// tenth of the capacity from it on to the back, room is made without the main
/// queue and without any entry that was accessed.
pub proof fn law_accessed_survive<K: View, V>(s: ShardState<K, V>, unread: int, key: K::V)
    requires
        s.inv(),
        s.cap > 0,
        s.entries.len() == s.cap,
        0 <= unread < s.small.len(),
        s.current(s.small[unread]),
        s.entries[s.small[unread].1].freq == 0,
        10 * s.current_of(s.small.skip(unread)).len() >= s.cap,
        s.entries.contains_key(key),
        s.entries[key].loc == LOC_MAIN || s.entries[key].freq > 0,
    ensures
        s.make_room().entries.contains_key(key),
        s.make_room().entries[key] == (EntryState { loc: LOC_MAIN, ..s.entries[key] })
            || s.make_room().entries[key] == s.entries[key],
{
    let victim = lemma_first_unread(s, unread);
    lemma_current_split(s, s.small.skip(victim), unread - victim);
    assert(s.small.skip(victim).skip(unread - victim) =~= s.small.skip(unread));
    assert(s.first_unread(victim));
    lemma_current_small(s, victim);
    law_room_from_small(s, victim);
    assert(s.make_room().entries.dom().contains(key));
}

/// Finds the first record up to `n` whose entry was not accessed.
proof fn lemma_first_unread<K: View, V>(s: ShardState<K, V>, n: int) -> (first: int)
    requires
        0 <= n < s.small.len(),
        s.current(s.small[n]),
        s.entries[s.small[n].1].freq == 0,
    ensures
        0 <= first <= n,
        s.current(s.small[first]),
        s.entries[s.small[first].1].freq == 0,
        forall|i: int|
            0 <= i < first && s.current(#[trigger] s.small[i]) ==> s.entries[s.small[i].1].freq > 0,
    decreases n,
{
    if exists|i: int|
        0 <= i < n && s.current(#[trigger] s.small[i]) && s.entries[s.small[i].1].freq == 0 {
        let i = choose|i: int|
            0 <= i < n && s.current(#[trigger] s.small[i]) && s.entries[s.small[i].1].freq == 0;
        lemma_first_unread(s, i)
    } else {
        n
    }
}

/// Inserting a new key makes room in the shard with the key's digest forgotten,
/// whichever queue the key goes to, and adds the entry, with one record at the
/// back of its queue. Nothing else changes.
pub proof fn law_insert_new<K: View, V>(s: ShardState<K, V>, hash: u64, key: K, value: V)
    requires
        s.inv(),
        !s.entries.contains_key(key@),
        s.knows_as(key@, hash),
    ensures
        ({
            let room = (ShardState { ghosts: s.ghosts.remove(hash), ..s }).make_room();
            let t = s.insert_new(hash, key, value);
            let remembered = s.ghosts.contains(hash);
            let record = (hash, key@, s.clock);
            &&& t.entries.dom() == room.entries.dom().insert(key@)
            &&& !room.entries.contains_key(key@)
            &&& forall|other: K::V| #[trigger]
                room.entries.contains_key(other) ==> t.entries[other] == room.entries[other]
            &&& t.entries[key@] == (EntryState {
                key,
                hash,
                value,
                freq: 0,
                loc: if remembered {
                    LOC_MAIN
                } else {
                    LOC_SMALL
                },
                stamp: s.clock,
            })
            &&& t.small == (if remembered {
                room.small
            } else {
                room.small.push(record)
            })
            &&& t.main == (if remembered {
                room.main.push(record)
            } else {
                room.main
            })
            &&& t.ghosts == room.ghosts
            &&& t.cap == s.cap
            &&& t.clock == s.clock + 1
        }),
{
    lemma_insert_new(s, hash, key, value);
    let t = s.insert_new(hash, key, value);
    let room = (ShardState { ghosts: s.ghosts.remove(hash), ..s }).make_room();
    assert(t.entries.dom() =~= room.entries.dom().insert(key@));
}

/// What an insertion of a new key evicts does not depend on what is remembered:
/// shards that differ in their ghosts alone keep the same other entries.
pub proof fn law_insert_evicts_alike<K: View, V>(
    s: ShardState<K, V>,
    o: ShardState<K, V>,
    hash: u64,
    key: K,
    value: V,
)
    requires
        s.inv(),
        o.inv(),
        o == (ShardState { ghosts: o.ghosts, ..s }),
        !s.entries.contains_key(key@),
        s.knows_as(key@, hash),
    ensures
        s.insert_new(hash, key, value).entries.dom() == o.insert_new(hash, key, value).entries.dom(),
        forall|other: K::V| #[trigger]
            s.insert_new(hash, key, value).entries.contains_key(other) && other != key@
                ==> s.insert_new(hash, key, value).entries[other] == o.insert_new(
                hash,
                key,
                value,
            ).entries[other],
{
    assert(o.knows_as(key@, hash));
    lemma_insert_new(s, hash, key, value);
    lemma_insert_new(o, hash, key, value);
    law_insert_new(s, hash, key, value);
    law_insert_new(o, hash, key, value);
    law_room_ignores_ghosts(
        ShardState { ghosts: s.ghosts.remove(hash), ..s },
        ShardState { ghosts: o.ghosts.remove(hash), ..o },
    );
}

/// A new shard holds nothing and remembers nothing.
pub proof fn law_empty<K: View, V>(cap: nat)
    ensures
        ({
            let s = ShardState::<K, V>::empty(cap);
            &&& s.inv()
            &&& s.entries.dom() == Set::<K::V>::empty()
            &&& s.small.len() == 0
            &&& s.main.len() == 0
            &&& s.ghosts == Set::<u64>::empty()
            &&& s.cap == cap
            &&& s.clock == 0
        }),
{
    let s = ShardState::<K, V>::empty(cap);
    assert(s.entries.dom() =~= Set::<K::V>::empty());
}

/// Storing a value under a stored key, writing to it, removing it and accessing it
/// change that entry alone, and nothing else of the shard.
pub proof fn law_one_entry<K: View, V>(
    s: ShardState<K, V>,
    hash: u64,
    key: K,
    value: V,
    entry: EntryState<K, V>,
    other: K::V,
)
    requires
        s.entries.contains_key(key@),
        other != key@,
    ensures
        s.insert(hash, key, value).lookup(key@) == Some(
            EntryState { value, ..s.entries[key@] },
        ),
        s.with_value(key@, value).lookup(key@) == Some(EntryState { value, ..s.entries[key@] }),
        s.with_entry(key@, entry).lookup(key@) == Some(entry),
        s.remove(key@).lookup(key@) == None::<EntryState<K, V>>,
        s.bump(key@).lookup(key@) == Some(
            EntryState {
                freq: if s.entries[key@].freq < MAX_FREQ {
                    (s.entries[key@].freq + 1) as u8
                } else {
                    s.entries[key@].freq
                },
                ..s.entries[key@]
            },
        ),
        forall|t: ShardState<K, V>|
            t == s.insert(hash, key, value) || t == s.with_value(key@, value) || t == s.with_entry(
                key@,
                entry,
            ) || t == s.remove(key@) || t == s.bump(key@) ==> {
                &&& t.entries.contains_key(other) <==> s.entries.contains_key(other)
                &&& s.entries.contains_key(other) ==> t.entries[other] == s.entries[other]
                &&& (#[trigger] t.small) == s.small
                &&& t.main == s.main
                &&& t.ghosts == s.ghosts
                &&& t.cap == s.cap
                &&& t.clock == s.clock
            },
{
}

/// Accessing or removing a key that is not stored changes nothing.
pub proof fn law_no_entry<K: View, V>(s: ShardState<K, V>, key: K::V)
    requires
        !s.entries.contains_key(key),
    ensures
        s.lookup(key) == None::<EntryState<K, V>>,
        s.bump(key) == s,
        s.remove(key) == s,
{
    assert(s.remove(key) =~= s);
}

/// A shard with other entries has the same eviction state.
pub proof fn law_other_entries<K: View, V>(
    s: ShardState<K, V>,
    entries: Map<K::V, EntryState<K, V>>,
)
    ensures
        s.with_entries(entries).entries == entries,
        s.with_entries(entries).small == s.small,
        s.with_entries(entries).main == s.main,
        s.with_entries(entries).ghosts == s.ghosts,
        s.with_entries(entries).cap == s.cap,
        s.with_entries(entries).clock == s.clock,
{
}

/// A list of entries holds each entry once, with its key and its value, and
/// nothing else.
pub proof fn law_lists<K: View, V>(pairs: Seq<(K, V)>, entries: Map<K::V, EntryState<K, V>>)
    requires
        lists(pairs, entries),
    ensures
        entries.dom().finite(),
        pairs.len() == entries.len(),
        pairs.map_values(|pair: (K, V)| pair.0@).no_duplicates(),
        pairs.map_values(|pair: (K, V)| pair.0@).to_set() == entries.dom(),
        forall|i: int|
            0 <= i < pairs.len() ==> entries[(#[trigger] pairs[i]).0@].key == pairs[i].0
                && entries[pairs[i].0@].value == pairs[i].1,
{
    let keys = pairs.map_values(|pair: (K, V)| pair.0@);
    assert forall|i: int, j: int| 0 <= i < j < keys.len() implies keys[i] != keys[j] by {
        assert(pairs[i].0@ != pairs[j].0@);
    }
    assert forall|key: K::V| keys.to_set().contains(key) <==> entries.dom().contains(key) by {
        if keys.to_set().contains(key) {
            let i = choose|i: int| 0 <= i < keys.len() && keys[i] == key;
            assert(entries.contains_key(pairs[i].0@));
        }
        if entries.contains_key(key) {
            let i = choose|i: int| 0 <= i < pairs.len() && (#[trigger] pairs[i]).0@ == key;
            assert(keys[i] == key);
        }
    }
    assert(keys.to_set() =~= entries.dom());
    keys.unique_seq_to_set();
}

/// A record is current as long as its key is stored with the record's stamp. The
/// current records of a queue are those of its records, in their order. A queue's
/// members are the stored keys whose entries say so.
pub proof fn law_current<K: View, V>(
    s: ShardState<K, V>,
    record: (u64, K::V, nat),
    queue: Seq<(u64, K::V, nat)>,
    key: K::V,
    loc: u8,
)
    ensures
        s.current(record) <==> s.entries.contains_key(record.1) && s.entries[record.1].stamp
            == record.2,
        s.current_of(queue) == queue.filter(
            |r: (u64, K::V, nat)| s.entries.contains_key(r.1) && s.entries[r.1].stamp == r.2,
        ),
        s.members(loc).contains(key) <==> s.entries.contains_key(key) && s.entries[key].loc == loc,
        s.live(loc) == s.members(loc).len(),
        LOC_SMALL != LOC_MAIN,
{
    let keep = |r: (u64, K::V, nat)| s.entries.contains_key(r.1) && s.entries[r.1].stamp == r.2;
    assert(keep =~= |r: (u64, K::V, nat)| s.current(r));
}

/// A sweep of the main queue evicts the first of its entries whose frequency is
/// the least, and no other. What stood behind it keeps its order and loses that
/// least frequency; what stood before it goes to the back and loses one more. All
/// else stays, the ghost set included.
pub proof fn law_main_sweep<K: View, V>(s: ShardState<K, V>, victim: int, other: int, key: K::V)
    requires
        s.inv(),
        0 <= victim < s.main.len(),
        s.entries.contains_key(s.main[victim].1),
        s.entries[s.main[victim].1].stamp == s.main[victim].2,
        forall|i: int|
            0 <= i < s.main.len() && s.entries.contains_key((#[trigger] s.main[i]).1)
                && s.entries[s.main[i].1].stamp == s.main[i].2 ==> s.entries[s.main[i].1].freq
                >= s.entries[s.main[victim].1].freq,
        forall|i: int|
            0 <= i < victim && s.entries.contains_key((#[trigger] s.main[i]).1)
                && s.entries[s.main[i].1].stamp == s.main[i].2 ==> s.entries[s.main[i].1].freq
                > s.entries[s.main[victim].1].freq,
    ensures
        ({
            let t = s.evict_from_main();
            let least = s.entries[s.main[victim].1].freq;
            let passed = s.entries[s.main[other].1];
            &&& t.entries.dom() == s.entries.dom().remove(s.main[victim].1)
            &&& 0 <= other < s.main.len() && other != victim && s.entries.contains_key(
                s.main[other].1,
            ) && passed.stamp == s.main[other].2 ==> t.entries[s.main[other].1] == (EntryState {
                freq: if other < victim {
                    (passed.freq - least - 1) as u8
                } else {
                    (passed.freq - least) as u8
                },
                ..passed
            })
            &&& s.entries.contains_key(key) && s.entries[key].loc == LOC_SMALL
                ==> t.entries.contains_key(key) && t.entries[key] == s.entries[key]
            &&& t.main.filter(
                |r: (u64, K::V, nat)| s.entries.contains_key(r.1) && s.entries[r.1].stamp == r.2,
            ) == s.main.skip(victim + 1).filter(
                |r: (u64, K::V, nat)| s.entries.contains_key(r.1) && s.entries[r.1].stamp == r.2,
            ) + s.main.take(victim).filter(
                |r: (u64, K::V, nat)| s.entries.contains_key(r.1) && s.entries[r.1].stamp == r.2,
            )
            &&& t.small == s.small
            &&& t.ghosts == s.ghosts
            &&& t.cap == s.cap
            &&& t.clock == s.clock
        }),
{
    assert(s.current(s.main[victim]));
    assert(s.is_victim(victim));
    law_main_victim(s, victim);
    let t = s.evict_from_main();
    if 0 <= other < s.main.len() && other != victim && s.entries.contains_key(s.main[other].1)
        && s.entries[s.main[other].1].stamp == s.main[other].2 {
        assert(s.current(s.main[other]));
    }
    if s.entries.contains_key(key) && s.entries[key].loc == LOC_SMALL {
        assert forall|i: int| 0 <= i < s.main.len() && s.current(#[trigger] s.main[i]) implies
            s.main[i].1 != key by {
            lemma_current_main(s, i);
        }
        assert(t.entries.dom().contains(key));
    }
    let keep = |r: (u64, K::V, nat)| s.entries.contains_key(r.1) && s.entries[r.1].stamp == r.2;
    assert(keep =~= |r: (u64, K::V, nat)| s.current(r));
    let behind = s.main.skip(victim + 1);
    let front = s.main.take(victim);
    Seq::filter_distributes_over_add(behind, front.filter(keep), keep);
    Seq::filter_distributes_over_add(behind.filter(keep), front.filter(keep), keep);
    lemma_filter_twice(behind, keep);
    lemma_filter_twice(front, keep);
}

/// What was filtered stays as it is when it is filtered again.
proof fn lemma_filter_twice<A>(queue: Seq<A>, keep: spec_fn(A) -> bool)
    ensures
        queue.filter(keep).filter(keep) == queue.filter(keep),
    decreases queue.len(),
{
    reveal(Seq::filter);
    if queue.len() > 0 {
        let front = queue.drop_last();
        lemma_filter_twice(front, keep);
        if keep(queue.last()) {
            let all = front.filter(keep).push(queue.last());
            assert(all.drop_last() =~= front.filter(keep));
        }
    }
}

/// A full shard with less than a tenth of its capacity in the small queue's care
/// gives up one entry of the main queue: the first of those whose frequency is
/// the least. All other entries stay, and so do the small queue and the ghosts.
pub proof fn law_main_gives_up<K: View, V>(s: ShardState<K, V>, victim: int)
    requires
        s.inv(),
        s.cap > 0,
        s.entries.len() == s.cap,
        10 * s.entries.dom().filter(|key: K::V| s.entries[key].loc == LOC_SMALL).len() < s.cap,
        0 <= victim < s.main.len(),
        s.entries.contains_key(s.main[victim].1),
        s.entries[s.main[victim].1].stamp == s.main[victim].2,
        forall|i: int|
            0 <= i < s.main.len() && s.entries.contains_key((#[trigger] s.main[i]).1)
                && s.entries[s.main[i].1].stamp == s.main[i].2 ==> s.entries[s.main[i].1].freq
                >= s.entries[s.main[victim].1].freq,
        forall|i: int|
            0 <= i < victim && s.entries.contains_key((#[trigger] s.main[i]).1)
                && s.entries[s.main[i].1].stamp == s.main[i].2 ==> s.entries[s.main[i].1].freq
                > s.entries[s.main[victim].1].freq,
    ensures
        s.make_room().entries.dom() == s.entries.dom().remove(s.main[victim].1),
        s.make_room().small == s.small,
        s.make_room().ghosts == s.ghosts,
        s.make_room() == s.evict_from_main(),
{
    law_live(s);
    law_step(s);
    lemma_evict_one(s);
    assert(s.current(s.main[victim]));
    assert(s.is_victim(victim));
    law_main_victim(s, victim);
    let t = s.evict_one();
    assert(t.entries.len() < t.cap);
    assert(t.make_room() == t);
}

/// A full shard whose small queue has an entry that was not accessed, with at
/// least a tenth of the capacity from it on to the back, gives up the first such
/// entry of the small queue, and no other. Its digest is remembered.
pub proof fn law_small_gives_up<K: View, V>(s: ShardState<K, V>, victim: int)
    requires
        s.inv(),
        s.cap > 0,
        s.entries.len() == s.cap,
        0 <= victim < s.small.len(),
        s.entries.contains_key(s.small[victim].1),
        s.entries[s.small[victim].1].stamp == s.small[victim].2,
        s.entries[s.small[victim].1].freq == 0,
        forall|i: int|
            0 <= i < victim && s.entries.contains_key((#[trigger] s.small[i]).1)
                && s.entries[s.small[i].1].stamp == s.small[i].2 ==> s.entries[s.small[i].1].freq
                > 0,
        10 * s.small.skip(victim).filter(
            |r: (u64, K::V, nat)| s.entries.contains_key(r.1) && s.entries[r.1].stamp == r.2,
        ).len() >= s.cap,
    ensures
        s.make_room().entries.dom() == s.entries.dom().remove(s.small[victim].1),
        s.make_room().small == s.small.skip(victim + 1),
        s.make_room().ghosts.contains(s.small[victim].0),
        s.ghosts.len() < s.cap ==> s.make_room().ghosts == s.ghosts.insert(s.small[victim].0),
        forall|key: K::V| #[trigger]
            s.entries.contains_key(key) && s.entries[key].loc == LOC_MAIN
                ==> s.make_room().entries[key] == s.entries[key],
        forall|i: int|
            victim < i < s.small.len() && s.entries.contains_key((#[trigger] s.small[i]).1)
                && s.entries[s.small[i].1].stamp == s.small[i].2
                ==> s.make_room().entries[s.small[i].1] == s.entries[s.small[i].1],
        forall|i: int|
            0 <= i < victim && s.entries.contains_key((#[trigger] s.small[i]).1)
                && s.entries[s.small[i].1].stamp == s.small[i].2
                ==> s.make_room().entries[s.small[i].1] == (EntryState {
                loc: LOC_MAIN,
                ..s.entries[s.small[i].1]
            }),
        s.make_room().main == s.main + s.small.take(victim).filter(
            |r: (u64, K::V, nat)| s.entries.contains_key(r.1) && s.entries[r.1].stamp == r.2,
        ),
{
    let keep = |r: (u64, K::V, nat)| s.entries.contains_key(r.1) && s.entries[r.1].stamp == r.2;
    assert(keep =~= |r: (u64, K::V, nat)| s.current(r));
    assert(s.current(s.small[victim]));
    assert(s.first_unread(victim));
    law_room_from_small(s, victim);
    lemma_current_small(s, victim);
    assert forall|key: K::V| #[trigger]
        s.entries.contains_key(key) && s.entries[key].loc == LOC_MAIN implies
        s.make_room().entries[key] == s.entries[key] by {
        if s.among_first(victim, key) {
            let i = choose|i: int|
                0 <= i < victim && s.current(#[trigger] s.small[i]) && s.small[i].1 == key;
            lemma_current_small(s, i);
        }
    }
    assert forall|i: int|
        victim < i < s.small.len() && s.entries.contains_key((#[trigger] s.small[i]).1)
            && s.entries[s.small[i].1].stamp == s.small[i].2 implies
        s.make_room().entries[s.small[i].1] == s.entries[s.small[i].1] by {
        assert(s.small[victim].2 < s.small[i].2);
        assert(!s.among_first(victim, s.small[i].1)) by {
            assert forall|j: int| 0 <= j < victim && s.current(#[trigger] s.small[j]) implies
                s.small[j].1 != s.small[i].1 by {
                assert(s.small[j].2 < s.small[i].2);
            }
        }
    }
    assert forall|i: int|
        0 <= i < victim && s.entries.contains_key((#[trigger] s.small[i]).1)
            && s.entries[s.small[i].1].stamp == s.small[i].2 implies
        s.make_room().entries[s.small[i].1] == (EntryState {
        loc: LOC_MAIN,
        ..s.entries[s.small[i].1]
    }) by {
        assert(s.current(s.small[i]));
        assert(s.small[i].2 < s.small[victim].2);
        assert(s.among_first(victim, s.small[i].1));
    }
}

/// A shard whose first records are handed over has the rest in its small queue and
/// the current ones at the back of its main queue, and the entries say so.
pub proof fn law_handed_over<K: View, V>(s: ShardState<K, V>, n: int, i: int, key: K::V)
    requires
        s.inv(),
        0 <= n <= s.small.len(),
    ensures
        s.handed_over(n).small == s.small.skip(n),
        s.handed_over(n).main == s.main + s.current_of(s.small.take(n)),
        s.handed_over(n).ghosts == s.ghosts,
        s.handed_over(n).cap == s.cap,
        s.handed_over(n).clock == s.clock,
        s.handed_over(n).entries.dom() == s.entries.dom(),
        s.entries.contains_key(key) && s.entries[key].loc == LOC_MAIN ==> s.handed_over(
            n,
        ).entries[key] == s.entries[key],
        0 <= i < n && s.current(s.small[i]) ==> s.handed_over(n).entries[s.small[i].1] == (
        EntryState { loc: LOC_MAIN, ..s.entries[s.small[i].1] }),
        n <= i < s.small.len() && s.current(s.small[i]) ==> s.handed_over(
            n,
        ).entries[s.small[i].1] == s.entries[s.small[i].1],
{
    let h = s.handed_over(n);
    assert(h.entries.dom() =~= s.entries.dom());
    if 0 <= i < n && s.current(s.small[i]) {
        assert(s.among_first(n, s.small[i].1));
    }
    if s.among_first(n, key) {
        let j = choose|j: int|
            0 <= j < n && s.current(#[trigger] s.small[j]) && s.small[j].1 == key;
        lemma_current_small(s, j);
    }
    if n <= i < s.small.len() && s.current(s.small[i]) && s.among_first(n, s.small[i].1) {
        let j = choose|j: int|
            0 <= j < n && s.current(#[trigger] s.small[j]) && s.small[j].1 == s.small[i].1;
        assert(s.small[j].2 < s.small[i].2);
    }
}

/// The ghost set only grows as long as it holds less than the shard's capacity:
/// making room forgets nothing, and remembers at most the digest of the entry that
/// goes.
pub proof fn law_ghosts_grow<K: View, V>(s: ShardState<K, V>, digest: u64)
    requires
        s.inv(),
        s.ghosts.len() < s.cap,
    ensures
        s.ghosts.contains(digest) ==> s.evict_from_small().ghosts.contains(digest),
        s.ghosts.contains(digest) ==> s.evict_one().ghosts.contains(digest),
        s.ghosts.contains(digest) ==> s.make_room().ghosts.contains(digest),
        !s.ghosts.contains(digest) && s.make_room().ghosts.contains(digest) ==> exists|key: K::V|
            #[trigger] s.entries.contains_key(key) && !s.make_room().entries.contains_key(key)
                && s.entries[key].hash == digest && s.entries[key].freq == 0,
        s.evict_from_main().ghosts == s.ghosts,
{
    lemma_main_apart(s, s.small, s.ghosts);
    if s.ghosts.contains(digest) {
        lemma_small_ghosts(s, digest);
    }
    law_make_room(s);
    if s.entries.len() == s.cap {
        law_room_cases(s);
        if exists|victim: int| #[trigger] s.first_unread(victim) {
            let victim = choose|victim: int| #[trigger] s.first_unread(victim);
            law_room_from_small(s, victim);
            lemma_current_small(s, victim);
            let key = s.small[victim].1;
            assert(!s.make_room().entries.dom().contains(key));
            assert(s.record_ok(s.small[victim]));
            assert(s.entries.contains_key(key) && !s.make_room().entries.contains_key(key));
        } else {
            let n = choose|n: int| #[trigger] s.all_read(n);
            law_room_from_main(s, n);
        }
    }
}

/// A sweep of the small queue forgets nothing as long as the ghost set is not full.
proof fn lemma_small_ghosts<K: View, V>(s: ShardState<K, V>, digest: u64)
    requires
        s.ghosts.len() < s.cap,
        s.ghosts.contains(digest),
    ensures
        s.evict_from_small().ghosts.contains(digest),
    decreases s.small.len(),
{
    lemma_main_apart(s, s.small, s.ghosts);
    if s.small.len() > 0 && !s.current(s.small[0]) {
        lemma_small_ghosts(ShardState { small: s.small.skip(1), ..s }, digest);
    }
}

/// A sweep of a main queue without current records empties it, and changes nothing
/// else.
pub proof fn law_main_exhausted<K: View, V>(s: ShardState<K, V>)
    requires
        forall|i: int| 0 <= i < s.main.len() ==> !s.current(#[trigger] s.main[i]),
    ensures
        s.evict_from_main() == (ShardState { main: Seq::empty(), ..s }),
    decreases s.main.len(),
{
    if s.main.len() > 0 {
        let rest = ShardState { main: s.main.skip(1), ..s };
        assert(!s.current(s.main[0]));
        assert forall|i: int| 0 <= i < rest.main.len() implies !rest.current(
            #[trigger] rest.main[i],
        ) by {
            assert(rest.main[i] == s.main[i + 1]);
        }
        law_main_exhausted(rest);
    } else {
        assert(s.main =~= Seq::empty());
    }
}

/// A full shard whose small queue has only entries at its front that were accessed,
/// down to less than a tenth of the capacity, hands these over to the main queue.
/// Of all that are then in the main queue's care, the first of those whose
/// frequency is the least goes, and no other entry. Nothing joins the ghosts.
pub proof fn law_accessed_pass_on<K: View, V>(s: ShardState<K, V>, n: int, victim: int)
    requires
        s.inv(),
        s.cap > 0,
        s.entries.len() == s.cap,
        0 <= n <= s.small.len(),
        forall|i: int|
            0 <= i < n && s.entries.contains_key((#[trigger] s.small[i]).1)
                && s.entries[s.small[i].1].stamp == s.small[i].2 ==> s.entries[s.small[i].1].freq
                > 0,
        10 * s.small.skip(n).filter(
            |r: (u64, K::V, nat)| s.entries.contains_key(r.1) && s.entries[r.1].stamp == r.2,
        ).len() < s.cap,
        n > 0 ==> 10 * s.small.skip(n - 1).filter(
            |r: (u64, K::V, nat)| s.entries.contains_key(r.1) && s.entries[r.1].stamp == r.2,
        ).len() >= s.cap,
        ({
            let queue = s.main + s.small.take(n).filter(
                |r: (u64, K::V, nat)| s.entries.contains_key(r.1) && s.entries[r.1].stamp == r.2,
            );
            &&& 0 <= victim < queue.len()
            &&& s.entries.contains_key(queue[victim].1)
            &&& s.entries[queue[victim].1].stamp == queue[victim].2
            &&& forall|i: int|
                0 <= i < queue.len() && s.entries.contains_key((#[trigger] queue[i]).1)
                    && s.entries[queue[i].1].stamp == queue[i].2 ==> s.entries[queue[i].1].freq
                    >= s.entries[queue[victim].1].freq
            &&& forall|i: int|
                0 <= i < victim && s.entries.contains_key((#[trigger] queue[i]).1)
                    && s.entries[queue[i].1].stamp == queue[i].2 ==> s.entries[queue[i].1].freq
                    > s.entries[queue[victim].1].freq
        }),
    ensures
        ({
            let queue = s.main + s.small.take(n).filter(
                |r: (u64, K::V, nat)| s.entries.contains_key(r.1) && s.entries[r.1].stamp == r.2,
            );
            let least = s.entries[queue[victim].1].freq;
            &&& s.make_room().entries.dom() == s.entries.dom().remove(queue[victim].1)
            &&& s.make_room().small == s.small.skip(n)
            &&& s.make_room().ghosts == s.ghosts
            &&& forall|i: int|
                0 <= i < queue.len() && i != victim && s.entries.contains_key(
                    (#[trigger] queue[i]).1,
                ) && s.entries[queue[i].1].stamp == queue[i].2 ==> {
                    let after = s.make_room().entries[queue[i].1];
                    &&& after.loc == LOC_MAIN
                    &&& after.value == s.entries[queue[i].1].value
                    &&& after.freq == s.entries[queue[i].1].freq - least - (if i < victim {
                        1int
                    } else {
                        0int
                    })
                }
        }),
{
    let keep = |r: (u64, K::V, nat)| s.entries.contains_key(r.1) && s.entries[r.1].stamp == r.2;
    assert(keep =~= |r: (u64, K::V, nat)| s.current(r));
    let queue = s.main + s.small.take(n).filter(keep);
    if n > 0 {
        let back = s.small.skip(n - 1);
        assert(back.take(1) =~= seq![s.small[n - 1]]);
        assert(back.skip(1) =~= s.small.skip(n));
        lemma_current_split(s, back, 1);
        lemma_current_one(s, s.small[n - 1]);
    }
    assert(s.all_read(n));
    lemma_hand_over(s, n);
    let h = s.handed_over(n);
    assert(h.main == queue);
    assert(h.entries.dom() =~= s.entries.dom());
    assert forall|i: int| 0 <= i < queue.len() implies h.current(#[trigger] queue[i]) == (
    s.entries.contains_key(queue[i].1) && s.entries[queue[i].1].stamp == queue[i].2) by {
        assert(h.current(queue[i]) == s.current(queue[i]));
    }
    assert(h.is_victim(victim));
    lemma_current_of(s, h, h.small);
    law_step(h);
    lemma_evict_one(h);
    law_main_victim(h, victim);
    let t = h.evict_one();
    assert(t.entries.len() < t.cap);
    assert(t.make_room() == t);
    assert(s.make_room() == t);
    assert forall|i: int|
        0 <= i < queue.len() && i != victim && s.entries.contains_key((#[trigger] queue[i]).1)
            && s.entries[queue[i].1].stamp == queue[i].2 implies {
        let after = s.make_room().entries[queue[i].1];
        &&& after.loc == LOC_MAIN
        &&& after.value == s.entries[queue[i].1].value
        &&& after.freq == s.entries[queue[i].1].freq - s.entries[queue[victim].1].freq - (
        if i < victim {
            1int
        } else {
            0int
        })
    } by {
        assert(h.current(h.main[i]));
        lemma_current_main(h, i);
    }
}

} // verus!
