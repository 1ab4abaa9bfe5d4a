//! The mathematical model of a shard: its entries, its two queues and its ghost
//! set, and how each operation changes them.
use crate::util::{bumped, ceil_div, LOC_MAIN, LOC_SMALL, MAX_FREQ};
use vstd::prelude::*;

verus! {

/// A stored entry.
pub struct EntryState<K, V> {
    pub key: K,
    pub hash: u64,
    pub value: V,
    pub freq: u8,
    pub loc: u8,
    pub stamp: nat,
}

impl<K: View, V: Clone> EntryState<K, V> {
    /// `copy` is a clone of this entry: it has an equal key, a cloned value, and
    /// the same metadata.
    pub open spec fn copied_to(self, copy: Self) -> bool {
        &&& copy.key@ == self.key@
        &&& copy.hash == self.hash
        &&& cloned(self.value, copy.value)
        &&& copy.freq == self.freq
        &&& copy.loc == self.loc
        &&& copy.stamp == self.stamp
    }
}

/// `pairs` holds the key and the value of each entry, once each, and no other
/// pair.
pub open spec fn lists<K: View, V>(
    pairs: Seq<(K, V)>,
    entries: Map<K::V, EntryState<K, V>>,
) -> bool {
    &&& forall|i: int|
        0 <= i < pairs.len() ==> {
            let (key, value) = #[trigger] pairs[i];
            &&& entries.contains_key(key@)
            &&& entries[key@].key == key
            &&& entries[key@].value == value
        }
    &&& forall|i: int, j: int|
        0 <= i < j < pairs.len() ==> (#[trigger] pairs[i]).0@ != (#[trigger] pairs[j]).0@
    &&& forall|key: K::V| #[trigger]
        entries.contains_key(key) ==> exists|i: int|
            0 <= i < pairs.len() && (#[trigger] pairs[i]).0@ == key
}

/// A shard.
///
/// A queue holds `(digest, key, stamp)` records, oldest first. Each stay of a key
/// in the shard has a stamp of its own, which no other stay has. A record is
/// current as long as the stay lasts that it was made for. After that it is
/// stale, also if the key comes back; it stays in its queue until a sweep meets
/// it. The clock is the stamp of the next stay.
#[verifier::ext_equal]
pub struct ShardState<K: View, V> {
    pub entries: Map<K::V, EntryState<K, V>>,
    pub small: Seq<(u64, K::V, nat)>,
    pub main: Seq<(u64, K::V, nat)>,
    pub ghosts: Set<u64>,
    pub cap: nat,
    pub clock: nat,
}

/// The number of entries in the small queue from which on it is swept: a tenth
/// of the shard's capacity, rounded up.
pub open spec fn small_cap_of(cap: nat) -> nat {
    if cap == 0 {
        0
    } else {
        ceil_div(cap as int, 10) as nat
    }
}

/// What is left of the shard's capacity for the main queue, and at least one.
pub open spec fn main_cap_of(cap: nat) -> nat {
    if cap == 0 {
        0
    } else if cap > small_cap_of(cap) {
        (cap - small_cap_of(cap)) as nat
    } else {
        1
    }
}

/// The record was made for the stay that its key is in.
pub open spec fn is_current<A, K, V>(entries: Map<A, EntryState<K, V>>, record: (u64, A, nat)) -> bool {
    entries.contains_key(record.1) && entries[record.1].stamp == record.2
}

/// How often a sweep of the main queue may still pass over the records of `queue`
/// before each has left it.
pub open spec fn patience<K: View, V>(
    queue: Seq<(u64, K::V, nat)>,
    entries: Map<K::V, EntryState<K, V>>,
) -> nat
    decreases queue.len(),
{
    if queue.len() == 0 {
        0
    } else {
        let key = queue.last().1;
        let more: nat = if is_current(entries, queue.last()) {
            entries[key].freq as nat
        } else {
            0
        };
        patience(queue.drop_last(), entries) + more + 1
    }
}

/// Lowering a frequency does not raise the patience.
pub proof fn lemma_patience_lower<K: View, V>(
    queue: Seq<(u64, K::V, nat)>,
    entries: Map<K::V, EntryState<K, V>>,
    key: K::V,
    lower: EntryState<K, V>,
)
    requires
        entries.contains_key(key),
        lower.freq <= entries[key].freq,
        lower.stamp == entries[key].stamp,
    ensures
        patience(queue, entries.insert(key, lower)) <= patience(queue, entries),
    decreases queue.len(),
{
    if queue.len() > 0 {
        lemma_patience_lower(queue.drop_last(), entries, key, lower);
    }
}

/// The patience of a queue is that of its head and of its rest.
pub proof fn lemma_patience_head<K: View, V>(
    queue: Seq<(u64, K::V, nat)>,
    entries: Map<K::V, EntryState<K, V>>,
)
    requires
        queue.len() > 0,
    ensures
        patience(queue, entries) == patience(queue.skip(1), entries) + 1 + (
        if is_current(entries, queue[0]) {
            entries[queue[0].1].freq as nat
        } else {
            0
        }),
    decreases queue.len(),
{
    if queue.len() == 1 {
        assert(queue.drop_last() =~= Seq::empty());
        assert(queue.skip(1) =~= Seq::empty());
    } else {
        lemma_patience_head(queue.drop_last(), entries);
        assert(queue.drop_last().skip(1) =~= queue.skip(1).drop_last());
        assert(queue.skip(1).last() == queue.last());
    }
}

impl<K: View, V> ShardState<K, V> {
    /// A shard without entries.
    pub open spec fn empty(cap: nat) -> Self {
        ShardState {
            entries: Map::empty(),
            small: Seq::empty(),
            main: Seq::empty(),
            ghosts: Set::empty(),
            cap,
            clock: 0,
        }
    }

    /// The record was made for the stay that its key is in.
    pub open spec fn current(self, record: (u64, K::V, nat)) -> bool {
        is_current(self.entries, record)
    }

    /// The entries in the given queue's care.
    pub open spec fn members(self, loc: u8) -> Set<K::V> {
        self.entries.dom().filter(|key: K::V| self.entries[key].loc == loc)
    }

    /// The number of entries in the given queue's care.
    pub open spec fn live(self, loc: u8) -> nat {
        self.members(loc).len()
    }

    /// What is stored under `key`.
    pub open spec fn lookup(self, key: K::V) -> Option<EntryState<K, V>> {
        if self.entries.contains_key(key) {
            Some(self.entries[key])
        } else {
            None
        }
    }

    /// The shard with other entries.
    pub open spec fn with_entries(self, entries: Map<K::V, EntryState<K, V>>) -> Self {
        ShardState { entries, ..self }
    }

    /// The shard with another entry under `key`.
    pub open spec fn with_entry(self, key: K::V, entry: EntryState<K, V>) -> Self {
        ShardState { entries: self.entries.insert(key, entry), ..self }
    }

    /// The shard without the entry under `key`. Its queue record becomes stale.
    pub open spec fn remove(self, key: K::V) -> Self {
        ShardState { entries: self.entries.remove(key), ..self }
    }

    /// The shard after an access to `key`: a stored key's frequency goes up by
    /// one, to at most [`MAX_FREQ`].
    pub open spec fn bump(self, key: K::V) -> Self {
        if self.entries.contains_key(key) {
            let entry = self.entries[key];
            self.with_entry(key, EntryState { freq: bumped(entry.freq), ..entry })
        } else {
            self
        }
    }

    /// The shard with another value under `key`.
    pub open spec fn with_value(self, key: K::V, value: V) -> Self {
        self.with_entry(key, EntryState { value, ..self.entries[key] })
    }

    /// The shard with a digest added to the ghost set. A full ghost set is
    /// emptied first.
    pub open spec fn add_ghost(self, hash: u64) -> Self {
        ShardState {
            ghosts: if self.ghosts.len() >= self.cap {
                Set::empty().insert(hash)
            } else {
                self.ghosts.insert(hash)
            },
            ..self
        }
    }

    /// One sweep of the main queue. Records leave it from the front. A stale record
    /// is dropped. An entry with a positive frequency gets another chance: the
    /// frequency goes down by one and the record goes to the back. The first
    /// entry with frequency zero is evicted, and the sweep ends.
    pub open spec fn evict_from_main(self) -> Self
        decreases patience(self.main, self.entries),
    {
        if self.main.len() == 0 {
            self
        } else {
            let record = self.main[0];
            let rest = ShardState { main: self.main.skip(1), ..self };
            if !self.current(record) {
                proof {
                    lemma_patience_head(self.main, self.entries);
                }
                rest.evict_from_main()
            } else if self.entries[record.1].freq > 0 {
                let entry = self.entries[record.1];
                let lower = EntryState { freq: (entry.freq - 1) as u8, ..entry };
                proof {
                    lemma_second_chance(self);
                }
                ShardState {
                    entries: self.entries.insert(record.1, lower),
                    main: self.main.skip(1).push(record),
                    ..self
                }.evict_from_main()
            } else {
                rest.remove(record.1)
            }
        }
    }

    /// One sweep of the small queue. Records leave it from the front. A stale record
    /// is dropped. The first stored entry ends the sweep: with a positive
    /// frequency it moves to the main queue, else it is evicted and its digest
    /// joins the ghost set. A queue without stored entries passes the sweep on
    /// to the main queue.
    pub open spec fn evict_from_small(self) -> Self
        decreases self.small.len(),
    {
        if self.small.len() == 0 {
            self.evict_from_main()
        } else {
            let record = self.small[0];
            let rest = ShardState { small: self.small.skip(1), ..self };
            if !self.current(record) {
                rest.evict_from_small()
            } else if self.entries[record.1].freq > 0 {
                let entry = self.entries[record.1];
                ShardState {
                    entries: self.entries.insert(record.1, EntryState { loc: LOC_MAIN, ..entry }),
                    main: self.main.push(record),
                    ..rest
                }
            } else {
                rest.remove(record.1).add_ghost(record.0)
            }
        }
    }

    /// One step towards a free place.
    pub open spec fn evict_one(self) -> Self {
        if self.live(LOC_SMALL) >= small_cap_of(self.cap) {
            self.evict_from_small()
        } else {
            self.evict_from_main()
        }
    }
}

/// Giving a second chance lowers the patience of the main queue.
pub proof fn lemma_second_chance<K: View, V>(s: ShardState<K, V>)
    requires
        s.main.len() > 0,
        s.current(s.main[0]),
        s.entries[s.main[0].1].freq > 0,
    ensures
        ({
            let record = s.main[0];
            let entry = s.entries[record.1];
            let lower = EntryState { freq: (entry.freq - 1) as u8, ..entry };
            patience(s.main.skip(1).push(record), s.entries.insert(record.1, lower)) < patience(
                s.main,
                s.entries,
            )
        }),
{
    let record = s.main[0];
    let entry = s.entries[record.1];
    let lower = EntryState { freq: (entry.freq - 1) as u8, ..entry };
    lemma_patience_head(s.main, s.entries);
    lemma_patience_lower(s.main.skip(1), s.entries, record.1, lower);
    let back = s.main.skip(1).push(record);
    assert(back.drop_last() =~= s.main.skip(1));
}

/// The records' stamps are in order: no stamp stands twice, all are below the
/// clock, and in the small queue they rise from front to back.
pub open spec fn in_order<A>(small: Seq<(u64, A, nat)>, main: Seq<(u64, A, nat)>, clock: nat) -> bool {
    &&& forall|i: int| 0 <= i < small.len() ==> (#[trigger] small[i]).2 < clock
    &&& forall|i: int| 0 <= i < main.len() ==> (#[trigger] main[i]).2 < clock
    &&& forall|i: int, j: int|
        0 <= i < j < small.len() ==> (#[trigger] small[i]).2 < (#[trigger] small[j]).2
    &&& forall|i: int, j: int|
        0 <= i < j < main.len() ==> (#[trigger] main[i]).2 != (#[trigger] main[j]).2
    &&& forall|i: int, j: int|
        0 <= i < small.len() && 0 <= j < main.len() ==> (#[trigger] small[i]).2 != (
        #[trigger] main[j]).2
}

impl<K: View, V> ShardState<K, V> {
    /// The queue in whose care an entry with this location is.
    pub open spec fn queue(self, loc: u8) -> Seq<(u64, K::V, nat)> {
        if loc == LOC_SMALL {
            self.small
        } else {
            self.main
        }
    }

    /// The entry under `key` is sound: it is filed under its own key, its
    /// metadata is in range, and its record stands in its queue.
    pub open spec fn entry_ok(self, key: K::V) -> bool {
        let entry = self.entries[key];
        &&& entry.key@ == key
        &&& entry.freq <= MAX_FREQ
        &&& entry.loc == LOC_SMALL || entry.loc == LOC_MAIN
        &&& self.queue(entry.loc).contains((entry.hash, key, entry.stamp))
    }

    /// A record whose key is stored carries the digest of that entry.
    pub open spec fn record_ok(self, record: (u64, K::V, nat)) -> bool {
        self.entries.contains_key(record.1) ==> self.entries[record.1].hash == record.0
    }

    /// The shard's invariant.
    pub open spec fn inv(self) -> bool {
        &&& self.entries.dom().finite()
        &&& self.ghosts.finite()
        &&& self.cap > 0 ==> self.entries.len() <= self.cap
        &&& self.cap > 0 ==> self.ghosts.len() <= self.cap
        &&& forall|key: K::V| #[trigger] self.entries.contains_key(key) ==> self.entry_ok(key)
        &&& forall|i: int| 0 <= i < self.small.len() ==> self.record_ok(#[trigger] self.small[i])
        &&& forall|i: int| 0 <= i < self.main.len() ==> self.record_ok(#[trigger] self.main[i])
        &&& in_order(self.small, self.main, self.clock)
    }

    /// Every entry of this shard was an entry of `before`, in the same stay, with
    /// the same key, digest and value, and with a frequency that was not lower.
    pub open spec fn kept_from(self, before: Self) -> bool {
        forall|key: K::V| #[trigger]
            self.entries.contains_key(key) ==> {
                &&& before.entries.contains_key(key)
                &&& self.entries[key].key == before.entries[key].key
                &&& self.entries[key].hash == before.entries[key].hash
                &&& self.entries[key].value == before.entries[key].value
                &&& self.entries[key].freq <= before.entries[key].freq
                &&& self.entries[key].stamp == before.entries[key].stamp
            }
    }

    /// No entry is kept twice.
    pub proof fn lemma_kept_len(self, before: Self)
        requires
            self.kept_from(before),
            before.entries.dom().finite(),
        ensures
            self.entries.len() <= before.entries.len(),
    {
        assert(self.entries.dom().subset_of(before.entries.dom())) by {
            assert forall|key: K::V| self.entries.dom().contains(key) implies before.entries.dom().contains(
                key,
            ) by {
                assert(self.entries.contains_key(key));
            }
        }
        vstd::set_lib::lemma_len_subset(self.entries.dom(), before.entries.dom());
    }

    /// The main queue holds a current record.
    pub open spec fn main_has_entry(self) -> bool {
        exists|i: int| 0 <= i < self.main.len() && self.current(#[trigger] self.main[i])
    }
}

/// An element other than the first is still there when the first is gone.
proof fn lemma_skip_contains<A>(queue: Seq<A>, element: A)
    requires
        queue.contains(element),
        queue[0] != element,
    ensures
        queue.skip(1).contains(element),
{
    let i = choose|i: int| 0 <= i < queue.len() && queue[i] == element;
    assert(queue.skip(1)[i - 1] == element);
}

/// An element is still there when another has joined.
proof fn lemma_push_contains<A>(queue: Seq<A>, element: A, other: A)
    requires
        queue.contains(element),
    ensures
        queue.push(other).contains(element),
{
    let i = choose|i: int| 0 <= i < queue.len() && queue[i] == element;
    assert(queue.push(other)[i] == element);
}

/// The last element to join is there.
proof fn lemma_pushed_contains<A>(queue: Seq<A>, element: A)
    ensures
        queue.push(element).contains(element),
{
    assert(queue.push(element)[queue.len() as int] == element);
}

/// Taking the head of the main queue, dropping it or sending it to the back,
/// keeps the order.
proof fn lemma_order_main<A>(small: Seq<(u64, A, nat)>, main: Seq<(u64, A, nat)>, clock: nat)
    requires
        in_order(small, main, clock),
        main.len() > 0,
    ensures
        in_order(small, main.skip(1), clock),
        in_order(small, main.skip(1).push(main[0]), clock),
{
    let rest = main.skip(1);
    let back = rest.push(main[0]);
    assert forall|i: int| 0 <= i < rest.len() implies #[trigger] rest[i] == main[i + 1] by {}
    assert forall|i: int| 0 <= i < back.len() implies #[trigger] back[i] == main[(if i < rest.len() {
        i + 1
    } else {
        0
    })] by {}
}

/// Taking the head of the small queue, dropping it or handing it over to the
/// main queue, keeps the order.
proof fn lemma_order_small<A>(small: Seq<(u64, A, nat)>, main: Seq<(u64, A, nat)>, clock: nat)
    requires
        in_order(small, main, clock),
        small.len() > 0,
    ensures
        in_order(small.skip(1), main, clock),
        in_order(small.skip(1), main.push(small[0]), clock),
{
    let rest = small.skip(1);
    let more = main.push(small[0]);
    assert forall|i: int| 0 <= i < rest.len() implies #[trigger] rest[i] == small[i + 1] by {}
    assert forall|i: int| 0 <= i < main.len() implies #[trigger] more[i] == main[i] by {}
}

/// A current record of the small queue is that of an entry in its care.
pub proof fn lemma_current_small<K: View, V>(s: ShardState<K, V>, i: int)
    requires
        s.inv(),
        0 <= i < s.small.len(),
        s.current(s.small[i]),
    ensures
        s.entries[s.small[i].1].loc == LOC_SMALL,
        s.entries[s.small[i].1].hash == s.small[i].0,
{
    let key = s.small[i].1;
    let entry = s.entries[key];
    assert(s.entry_ok(key));
    assert(s.record_ok(s.small[i]));
    if entry.loc == LOC_MAIN {
        let j = choose|j: int| 0 <= j < s.main.len() && s.main[j] == (entry.hash, key, entry.stamp);
        assert(s.small[i].2 != s.main[j].2);
    }
}

/// A current record of the main queue is that of an entry in its care.
pub proof fn lemma_current_main<K: View, V>(s: ShardState<K, V>, i: int)
    requires
        s.inv(),
        0 <= i < s.main.len(),
        s.current(s.main[i]),
    ensures
        s.entries[s.main[i].1].loc == LOC_MAIN,
        s.entries[s.main[i].1].hash == s.main[i].0,
{
    let key = s.main[i].1;
    let entry = s.entries[key];
    assert(s.entry_ok(key));
    assert(s.record_ok(s.main[i]));
    if entry.loc == LOC_SMALL {
        let j = choose|j: int| 0 <= j < s.small.len() && s.small[j] == (entry.hash, key, entry.stamp);
        assert(s.small[j].2 != s.main[i].2);
    }
}

/// Dropping a stale record from the main queue keeps the invariant.
pub proof fn lemma_stale_main_inv<K: View, V>(s: ShardState<K, V>)
    requires
        s.inv(),
        s.main.len() > 0,
        !s.current(s.main[0]),
    ensures
        (ShardState { main: s.main.skip(1), ..s }).inv(),
{
    lemma_order_main(s.small, s.main, s.clock);
    let rest = ShardState { main: s.main.skip(1), ..s };
    assert forall|key: K::V| #[trigger] rest.entries.contains_key(key) implies rest.entry_ok(
        key,
    ) by {
        assert(s.entry_ok(key));
        if s.entries[key].loc != LOC_SMALL {
            lemma_skip_contains(s.main, (s.entries[key].hash, key, s.entries[key].stamp));
        }
    }
    assert forall|i: int| 0 <= i < rest.main.len() implies rest.record_ok(#[trigger] rest.main[i]) by {
        assert(s.record_ok(s.main[i + 1]));
    }
}

/// Evicting the head of the main queue keeps the invariant.
pub proof fn lemma_evicted_main_inv<K: View, V>(s: ShardState<K, V>)
    requires
        s.inv(),
        s.main.len() > 0,
    ensures
        (ShardState { main: s.main.skip(1), ..s }).remove(s.main[0].1).inv(),
{
    lemma_order_main(s.small, s.main, s.clock);
    let t = (ShardState { main: s.main.skip(1), ..s }).remove(s.main[0].1);
    assert forall|key: K::V| #[trigger] t.entries.contains_key(key) implies t.entry_ok(key) by {
        assert(s.entry_ok(key));
        if s.entries[key].loc != LOC_SMALL {
            lemma_skip_contains(s.main, (s.entries[key].hash, key, s.entries[key].stamp));
        }
    }
    assert forall|i: int| 0 <= i < t.main.len() implies t.record_ok(#[trigger] t.main[i]) by {
        assert(s.record_ok(s.main[i + 1]));
    }
    assert forall|i: int| 0 <= i < t.small.len() implies t.record_ok(#[trigger] t.small[i]) by {
        assert(s.record_ok(s.small[i]));
    }
}

/// Dropping a stale record from the small queue keeps the invariant.
pub proof fn lemma_stale_small_inv<K: View, V>(s: ShardState<K, V>)
    requires
        s.inv(),
        s.small.len() > 0,
        !s.current(s.small[0]),
    ensures
        (ShardState { small: s.small.skip(1), ..s }).inv(),
{
    lemma_order_small(s.small, s.main, s.clock);
    let rest = ShardState { small: s.small.skip(1), ..s };
    assert forall|key: K::V| #[trigger] rest.entries.contains_key(key) implies rest.entry_ok(
        key,
    ) by {
        assert(s.entry_ok(key));
        if s.entries[key].loc == LOC_SMALL {
            lemma_skip_contains(s.small, (s.entries[key].hash, key, s.entries[key].stamp));
        }
    }
    assert forall|i: int| 0 <= i < rest.small.len() implies rest.record_ok(
        #[trigger] rest.small[i],
    ) by {
        assert(s.record_ok(s.small[i + 1]));
    }
}

/// Evicting the head of the small queue keeps the invariant.
pub proof fn lemma_evicted_small_inv<K: View, V>(s: ShardState<K, V>)
    requires
        s.inv(),
        s.small.len() > 0,
    ensures
        (ShardState { small: s.small.skip(1), ..s }).remove(s.small[0].1).add_ghost(
            s.small[0].0,
        ).inv(),
{
    lemma_order_small(s.small, s.main, s.clock);
    let t = (ShardState { small: s.small.skip(1), ..s }).remove(s.small[0].1).add_ghost(
        s.small[0].0,
    );
    assert forall|key: K::V| #[trigger] t.entries.contains_key(key) implies t.entry_ok(key) by {
        assert(s.entry_ok(key));
        if s.entries[key].loc == LOC_SMALL {
            lemma_skip_contains(s.small, (s.entries[key].hash, key, s.entries[key].stamp));
        }
    }
    assert forall|i: int| 0 <= i < t.main.len() implies t.record_ok(#[trigger] t.main[i]) by {
        assert(s.record_ok(s.main[i]));
    }
    assert forall|i: int| 0 <= i < t.small.len() implies t.record_ok(#[trigger] t.small[i]) by {
        assert(s.record_ok(s.small[i + 1]));
    }
}

/// A sweep of the main queue keeps the invariant, touches neither the small
/// queue nor the ghost set nor an entry in the small queue's care, moves no entry
/// to another queue, and evicts exactly one entry, unless the queue holds none.
pub proof fn lemma_evict_from_main<K: View, V>(s: ShardState<K, V>)
    requires
        s.inv(),
    ensures
        ({
            let t = s.evict_from_main();
            &&& t.inv()
            &&& t.kept_from(s)
            &&& t.small == s.small
            &&& t.ghosts == s.ghosts
            &&& t.cap == s.cap
            &&& t.clock == s.clock
            &&& forall|key: K::V| #[trigger]
                t.entries.contains_key(key) ==> t.entries[key].loc == s.entries[key].loc
            &&& forall|key: K::V| #[trigger]
                s.entries.contains_key(key) && s.entries[key].loc == LOC_SMALL
                    ==> t.entries.contains_key(key) && t.entries[key] == s.entries[key]
            &&& t.live(LOC_SMALL) == s.live(LOC_SMALL)
            &&& s.main_has_entry() ==> t.entries.len() + 1 == s.entries.len()
            &&& !s.main_has_entry() ==> t.entries == s.entries && t.main.len() == 0
        }),
    decreases patience(s.main, s.entries),
{
    if s.main.len() > 0 {
        let record = s.main[0];
        let rest = ShardState { main: s.main.skip(1), ..s };
        if s.current(record) {
            lemma_current_main(s, 0);
        }
        if !s.current(record) {
            lemma_patience_head(s.main, s.entries);
            lemma_stale_main_inv(s);
            lemma_evict_from_main(rest);
            if s.main_has_entry() {
                let i = choose|i: int|
                    0 <= i < s.main.len() && s.current(#[trigger] s.main[i]);
                assert(rest.main[i - 1] == s.main[i]);
            }
            if rest.main_has_entry() {
                let i = choose|i: int|
                    0 <= i < rest.main.len() && rest.current(#[trigger] rest.main[i]);
                assert(s.main[i + 1] == rest.main[i]);
            }
        } else if s.entries[record.1].freq > 0 {
            let entry = s.entries[record.1];
            let lower = EntryState { freq: (entry.freq - 1) as u8, ..entry };
            let next = ShardState {
                entries: s.entries.insert(record.1, lower),
                main: s.main.skip(1).push(record),
                ..s
            };
            lemma_second_chance(s);
            lemma_rotate_inv(s);
            lemma_evict_from_main(next);
            assert(next.main[next.main.len() - 1] == record);
            assert(next.main_has_entry());
            assert(s.main_has_entry());
            assert(next.entries.dom() =~= s.entries.dom());
        } else {
            assert(s.main_has_entry());
            lemma_evicted_main_inv(s);
        }
    }
    assert(s.evict_from_main().members(LOC_SMALL) =~= s.members(LOC_SMALL));
}

/// Giving a second chance keeps the invariant.
pub proof fn lemma_rotate_inv<K: View, V>(s: ShardState<K, V>)
    requires
        s.inv(),
        s.main.len() > 0,
        s.current(s.main[0]),
        s.entries[s.main[0].1].freq > 0,
    ensures
        ({
            let record = s.main[0];
            let entry = s.entries[record.1];
            let lower = EntryState { freq: (entry.freq - 1) as u8, ..entry };
            ShardState {
                entries: s.entries.insert(record.1, lower),
                main: s.main.skip(1).push(record),
                ..s
            }.inv()
        }),
{
    lemma_order_main(s.small, s.main, s.clock);
    let record = s.main[0];
    let entry = s.entries[record.1];
    let lower = EntryState { freq: (entry.freq - 1) as u8, ..entry };
    let next = ShardState {
        entries: s.entries.insert(record.1, lower),
        main: s.main.skip(1).push(record),
        ..s
    };
    assert(s.record_ok(s.main[0]));
    assert(next.entries.dom() =~= s.entries.dom());
    assert forall|key: K::V| #[trigger] next.entries.contains_key(key) implies next.entry_ok(key) by {
        assert(s.entries.contains_key(key));
        assert(s.entry_ok(key));
        let tuple = (s.entries[key].hash, key, s.entries[key].stamp);
        if s.entries[key].loc != LOC_SMALL {
            if tuple == record {
                lemma_pushed_contains(s.main.skip(1), record);
            } else {
                lemma_skip_contains(s.main, tuple);
                lemma_push_contains(s.main.skip(1), tuple, record);
            }
        }
    }
    assert forall|i: int| 0 <= i < next.main.len() implies next.record_ok(#[trigger] next.main[i]) by {
        if i < next.main.len() - 1 {
            assert(s.record_ok(s.main[i + 1]));
        }
    }
    assert forall|i: int| 0 <= i < next.small.len() implies next.record_ok(
        #[trigger] next.small[i],
    ) by {
        assert(s.record_ok(s.small[i]));
    }
}

/// Every entry is in the care of one of the two queues.
pub proof fn lemma_live_sum<K: View, V>(s: ShardState<K, V>)
    requires
        s.inv(),
    ensures
        s.members(LOC_SMALL).finite(),
        s.members(LOC_MAIN).finite(),
        s.live(LOC_SMALL) + s.live(LOC_MAIN) == s.entries.len(),
{
    let small = s.members(LOC_SMALL);
    let main = s.members(LOC_MAIN);
    s.entries.dom().lemma_len_filter(|key: K::V| s.entries[key].loc == LOC_SMALL);
    s.entries.dom().lemma_len_filter(|key: K::V| s.entries[key].loc == LOC_MAIN);
    assert(small.union(main) =~= s.entries.dom()) by {
        assert forall|key: K::V| s.entries.dom().contains(key) implies small.union(main).contains(
            key,
        ) by {
            assert(s.entries.contains_key(key));
            assert(s.entry_ok(key));
        }
    }
    assert(small.disjoint(main));
    vstd::set_lib::lemma_set_disjoint_lens(small, main);
}

/// A sweep of the small queue keeps the invariant and evicts at most one entry.
/// When it evicts none, every entry stays and the small queue gets shorter.
pub proof fn lemma_evict_from_small<K: View, V>(s: ShardState<K, V>)
    requires
        s.inv(),
    ensures
        ({
            let t = s.evict_from_small();
            &&& t.inv()
            &&& t.kept_from(s)
            &&& t.cap == s.cap
            &&& t.clock == s.clock
            &&& t.entries.len() <= s.entries.len() <= t.entries.len() + 1
            &&& t.entries.len() == s.entries.len() ==> t.entries.dom() == s.entries.dom()
            &&& s.entries.len() > 0 && t.entries.len() == s.entries.len() ==> t.small.len()
                < s.small.len()
        }),
    decreases s.small.len(),
{
    if s.small.len() == 0 {
        lemma_evict_from_main(s);
        if s.entries.len() > 0 && !s.main_has_entry() {
            let key = s.entries.dom().choose();
            assert(s.entries.contains_key(key));
            assert(s.entry_ok(key));
            let i = choose|i: int|
                0 <= i < s.main.len() && s.main[i] == (s.entries[key].hash, key, s.entries[key].stamp);
            assert(s.current(s.main[i]));
        }
    } else {
        let record = s.small[0];
        let rest = ShardState { small: s.small.skip(1), ..s };
        if !s.current(record) {
            lemma_stale_small_inv(s);
            lemma_evict_from_small(rest);
        } else if s.entries[record.1].freq > 0 {
            lemma_promote_inv(s);
            let entry = s.entries[record.1];
            assert(s.entries.insert(record.1, EntryState { loc: LOC_MAIN, ..entry }).dom()
                =~= s.entries.dom());
        } else {
            lemma_evicted_small_inv(s);
        }
    }
}

/// Moving the head of the small queue to the main queue keeps the invariant.
pub proof fn lemma_promote_inv<K: View, V>(s: ShardState<K, V>)
    requires
        s.inv(),
        s.small.len() > 0,
        s.current(s.small[0]),
    ensures
        ({
            let record = s.small[0];
            let entry = s.entries[record.1];
            ShardState {
                entries: s.entries.insert(record.1, EntryState { loc: LOC_MAIN, ..entry }),
                small: s.small.skip(1),
                main: s.main.push(record),
                ..s
            }.inv()
        }),
{
    lemma_order_small(s.small, s.main, s.clock);
    let record = s.small[0];
    let entry = s.entries[record.1];
    let next = ShardState {
        entries: s.entries.insert(record.1, EntryState { loc: LOC_MAIN, ..entry }),
        small: s.small.skip(1),
        main: s.main.push(record),
        ..s
    };
    assert(s.record_ok(s.small[0]));
    assert(next.entries.dom() =~= s.entries.dom());
    assert forall|key: K::V| #[trigger] next.entries.contains_key(key) implies next.entry_ok(key) by {
        assert(s.entries.contains_key(key));
        assert(s.entry_ok(key));
        let tuple = (s.entries[key].hash, key, s.entries[key].stamp);
        if key == record.1 {
            lemma_pushed_contains(s.main, record);
        } else if s.entries[key].loc == LOC_SMALL {
            lemma_skip_contains(s.small, tuple);
        } else {
            lemma_push_contains(s.main, tuple, record);
        }
    }
    assert forall|i: int| 0 <= i < next.main.len() implies next.record_ok(#[trigger] next.main[i]) by {
        if i < next.main.len() - 1 {
            assert(s.record_ok(s.main[i]));
        }
    }
    assert forall|i: int| 0 <= i < next.small.len() implies next.record_ok(
        #[trigger] next.small[i],
    ) by {
        assert(s.record_ok(s.small[i + 1]));
    }
}

/// In a full shard each step makes progress: it evicts one entry, or it keeps
/// them all and shortens the small queue.
pub proof fn lemma_evict_one<K: View, V>(s: ShardState<K, V>)
    requires
        s.inv(),
        s.cap > 0,
        s.entries.len() >= s.cap,
    ensures
        ({
            let t = s.evict_one();
            &&& t.inv()
            &&& t.kept_from(s)
            &&& t.cap == s.cap
            &&& t.clock == s.clock
            &&& t.entries.len() <= s.entries.len() <= t.entries.len() + 1
            &&& t.entries.len() == s.entries.len() ==> t.entries.dom() == s.entries.dom()
                && t.small.len() < s.small.len()
        }),
{
    lemma_live_sum(s);
    if s.live(LOC_SMALL) >= small_cap_of(s.cap) {
        lemma_evict_from_small(s);
    } else {
        lemma_evict_from_main(s);
        let main = s.members(LOC_MAIN);
        assert(main.len() > 0);
        let key = main.choose();
        assert(main.contains(key));
        assert(s.entries.contains_key(key));
        assert(s.entry_ok(key));
        let i = choose|i: int| 0 <= i < s.main.len() && s.main[i] == (s.entries[key].hash, key, s.entries[key].stamp);
        assert(s.current(s.main[i]));
        assert(s.main_has_entry());
    }
}

impl<K: View, V> ShardState<K, V> {
    /// The shard after as many steps as it takes until there is a free place.
    pub open spec fn make_room(self) -> Self
        decreases self.entries.len(), self.small.len(),
        when self.inv()
    {
        if self.cap > 0 && self.entries.len() >= self.cap {
            proof {
                lemma_evict_one(self);
            }
            self.evict_one().make_room()
        } else {
            self
        }
    }

    /// The queue in which a new entry starts: the main queue if its digest was
    /// evicted lately, else the small queue.
    pub open spec fn entry_loc(self, hash: u64) -> u8 {
        if self.ghosts.contains(hash) {
            LOC_MAIN
        } else {
            LOC_SMALL
        }
    }

    /// The shard with a new entry, whose record joins the back of its queue.
    pub open spec fn enqueue(self, entry: EntryState<K, V>) -> Self {
        let record = (entry.hash, entry.key@, entry.stamp);
        ShardState {
            entries: self.entries.insert(entry.key@, entry),
            small: if entry.loc == LOC_MAIN {
                self.small
            } else {
                self.small.push(record)
            },
            main: if entry.loc == LOC_MAIN {
                self.main.push(record)
            } else {
                self.main
            },
            clock: self.clock + 1,
            ..self
        }
    }

    /// The shard without this digest among the ghosts.
    pub open spec fn forget_ghost(self, hash: u64) -> Self {
        ShardState { ghosts: self.ghosts.remove(hash), ..self }
    }

    /// The shard after a new key is inserted: its digest leaves the ghost set, a
    /// place is made free, and the entry starts with frequency zero and a stamp
    /// that no other stay has.
    pub open spec fn insert_new(self, hash: u64, key: K, value: V) -> Self {
        let loc = self.entry_loc(hash);
        self.forget_ghost(hash).make_room().enqueue(
            EntryState { key, hash, value, freq: 0, loc, stamp: self.clock },
        )
    }

    /// The shard after a key is inserted. A stored key gets the new value and
    /// keeps everything else.
    pub open spec fn insert(self, hash: u64, key: K, value: V) -> Self {
        if self.entries.contains_key(key@) {
            self.with_value(key@, value)
        } else {
            self.insert_new(hash, key, value)
        }
    }

    /// Whatever the shard holds about `key` carries this digest.
    pub open spec fn knows_as(self, key: K::V, hash: u64) -> bool {
        &&& self.entries.contains_key(key) ==> self.entries[key].hash == hash
        &&& forall|i: int|
            0 <= i < self.small.len() && (#[trigger] self.small[i]).1 == key ==> self.small[i].0
                == hash
        &&& forall|i: int|
            0 <= i < self.main.len() && (#[trigger] self.main[i]).1 == key ==> self.main[i].0
                == hash
    }
}

/// Making room keeps the invariant, evicts nothing where there is room, and one
/// entry where the shard is full.
pub proof fn lemma_make_room<K: View, V>(s: ShardState<K, V>)
    requires
        s.inv(),
    ensures
        ({
            let t = s.make_room();
            &&& t.inv()
            &&& t.kept_from(s)
            &&& t.cap == s.cap
            &&& t.clock == s.clock
            &&& s.cap > 0 ==> t.entries.len() < s.cap
            &&& s.cap == 0 || s.entries.len() < s.cap ==> t == s
            &&& s.cap > 0 && s.entries.len() == s.cap ==> t.entries.len() == s.cap - 1
        }),
    decreases s.entries.len(), s.small.len(),
{
    if s.cap > 0 && s.entries.len() >= s.cap {
        lemma_evict_one(s);
        lemma_make_room(s.evict_one());
    }
}

impl<K: View, V> ShardState<K, V> {
    /// Every record in the two queues satisfies `p`.
    pub open spec fn all_records(self, p: spec_fn((u64, K::V, nat)) -> bool) -> bool {
        &&& forall|i: int| 0 <= i < self.small.len() ==> p(#[trigger] self.small[i])
        &&& forall|i: int| 0 <= i < self.main.len() ==> p(#[trigger] self.main[i])
    }
}

/// A sweep of the main queue brings no new record into a queue.
pub proof fn lemma_evict_from_main_records<K: View, V>(
    s: ShardState<K, V>,
    p: spec_fn((u64, K::V, nat)) -> bool,
)
    requires
        s.all_records(p),
    ensures
        s.evict_from_main().all_records(p),
    decreases patience(s.main, s.entries),
{
    if s.main.len() > 0 {
        let record = s.main[0];
        let rest = ShardState { main: s.main.skip(1), ..s };
        assert(rest.all_records(p)) by {
            assert forall|i: int| 0 <= i < rest.main.len() implies p(#[trigger] rest.main[i]) by {
                assert(p(s.main[i + 1]));
            }
        }
        if !s.current(record) {
            lemma_patience_head(s.main, s.entries);
            lemma_evict_from_main_records(rest, p);
        } else if s.entries[record.1].freq > 0 {
            let entry = s.entries[record.1];
            let lower = EntryState { freq: (entry.freq - 1) as u8, ..entry };
            let next = ShardState {
                entries: s.entries.insert(record.1, lower),
                main: s.main.skip(1).push(record),
                ..s
            };
            lemma_second_chance(s);
            assert(next.all_records(p)) by {
                assert forall|i: int| 0 <= i < next.main.len() implies p(
                    #[trigger] next.main[i],
                ) by {
                    if i < next.main.len() - 1 {
                        assert(p(rest.main[i]));
                    }
                }
            }
            lemma_evict_from_main_records(next, p);
        }
    }
}

/// A sweep of the small queue brings no new record into the queues.
pub proof fn lemma_evict_from_small_records<K: View, V>(
    s: ShardState<K, V>,
    p: spec_fn((u64, K::V, nat)) -> bool,
)
    requires
        s.all_records(p),
    ensures
        s.evict_from_small().all_records(p),
    decreases s.small.len(),
{
    if s.small.len() == 0 {
        lemma_evict_from_main_records(s, p);
    } else {
        let record = s.small[0];
        let rest = ShardState { small: s.small.skip(1), ..s };
        assert(rest.all_records(p)) by {
            assert forall|i: int| 0 <= i < rest.small.len() implies p(#[trigger] rest.small[i]) by {
                assert(p(s.small[i + 1]));
            }
        }
        if !s.current(record) {
            lemma_evict_from_small_records(rest, p);
        }
    }
}

/// Making room brings no new record into the queues.
pub proof fn lemma_make_room_records<K: View, V>(
    s: ShardState<K, V>,
    p: spec_fn((u64, K::V, nat)) -> bool,
)
    requires
        s.inv(),
        s.all_records(p),
    ensures
        s.make_room().all_records(p),
    decreases s.entries.len(), s.small.len(),
{
    if s.cap > 0 && s.entries.len() >= s.cap {
        lemma_evict_one(s);
        if s.live(LOC_SMALL) >= small_cap_of(s.cap) {
            lemma_evict_from_small_records(s, p);
        } else {
            lemma_evict_from_main_records(s, p);
        }
        lemma_make_room_records(s.evict_one(), p);
    }
}

/// Inserting a new key keeps the invariant. The key is stored, and every other
/// entry was there before; one is gone if the shard was full, else none is.
pub proof fn lemma_insert_new<K: View, V>(s: ShardState<K, V>, hash: u64, key: K, value: V)
    requires
        s.inv(),
        !s.entries.contains_key(key@),
        s.knows_as(key@, hash),
    ensures
        s.forget_ghost(hash).inv(),
        ({
            let room = s.forget_ghost(hash).make_room();
            let t = s.insert_new(hash, key, value);
            &&& room.inv()
            &&& room.kept_from(s)
            &&& room.knows_as(key@, hash)
            &&& !room.entries.contains_key(key@)
            &&& t.inv()
            &&& t.cap == s.cap
            &&& t.entries.contains_key(key@)
            &&& t.entries[key@] == (EntryState {
                key,
                hash,
                value,
                freq: 0,
                loc: s.entry_loc(hash),
                stamp: s.clock,
            })
            &&& t.clock == s.clock + 1
            &&& room.clock == s.clock
            &&& t.remove(key@).kept_from(s)
            &&& s.cap > 0 && s.entries.len() == s.cap ==> t.entries.len() == s.entries.len()
            &&& s.cap == 0 || s.entries.len() < s.cap ==> t.entries == s.entries.insert(
                key@,
                t.entries[key@],
            ) && t.entries.len() == s.entries.len() + 1
        }),
{
    let forgot = s.forget_ghost(hash);
    assert(forgot.inv()) by {
        assert forall|k: K::V| #[trigger] forgot.entries.contains_key(k) implies forgot.entry_ok(k) by {
            assert(s.entry_ok(k));
        }
        assert forall|i: int| 0 <= i < forgot.small.len() implies forgot.record_ok(
            #[trigger] forgot.small[i],
        ) by {
            assert(s.record_ok(s.small[i]));
        }
        assert forall|i: int| 0 <= i < forgot.main.len() implies forgot.record_ok(
            #[trigger] forgot.main[i],
        ) by {
            assert(s.record_ok(s.main[i]));
        }
    }
    lemma_make_room(forgot);
    let p = |record: (u64, K::V, nat)| record.1 == key@ ==> record.0 == hash;
    assert(forgot.all_records(p));
    lemma_make_room_records(forgot, p);
    let room = forgot.make_room();
    assert(room.knows_as(key@, hash)) by {
        assert forall|i: int|
            0 <= i < room.small.len() && (#[trigger] room.small[i]).1 == key@ implies
            room.small[i].0 == hash by {
            assert(p(room.small[i]));
        }
        assert forall|i: int|
            0 <= i < room.main.len() && (#[trigger] room.main[i]).1 == key@ implies
            room.main[i].0 == hash by {
            assert(p(room.main[i]));
        }
    }
    let entry = EntryState {
        key,
        hash,
        value,
        freq: 0,
        loc: s.entry_loc(hash),
        stamp: s.clock,
    };
    lemma_enqueue_inv(room, entry);
    let t = room.enqueue(entry);
    assert forall|k: K::V| #[trigger] t.remove(key@).entries.contains_key(k) implies
        room.entries.contains_key(k) by {}
    assert(t.entries.len() == room.entries.len() + 1);
}

/// Adding an entry where there is room keeps the invariant.
pub proof fn lemma_enqueue_inv<K: View, V>(s: ShardState<K, V>, entry: EntryState<K, V>)
    requires
        s.inv(),
        s.cap > 0 ==> s.entries.len() < s.cap,
        !s.entries.contains_key(entry.key@),
        s.knows_as(entry.key@, entry.hash),
        entry.freq <= MAX_FREQ,
        entry.loc == LOC_SMALL || entry.loc == LOC_MAIN,
        entry.stamp == s.clock,
    ensures
        s.enqueue(entry).inv(),
{
    let t = s.enqueue(entry);
    let record = (entry.hash, entry.key@, entry.stamp);
    assert forall|k: K::V| #[trigger] t.entries.contains_key(k) implies t.entry_ok(k) by {
        if k == entry.key@ {
            lemma_pushed_contains(s.queue(entry.loc), record);
        } else {
            assert(s.entries.contains_key(k));
            assert(s.entry_ok(k));
            lemma_push_contains(s.queue(s.entries[k].loc), (s.entries[k].hash, k, s.entries[k].stamp), record);
        }
    }
    assert forall|i: int| 0 <= i < t.small.len() implies t.record_ok(#[trigger] t.small[i]) by {
        if i < s.small.len() {
            assert(s.record_ok(s.small[i]));
        }
    }
    assert forall|i: int| 0 <= i < t.main.len() implies t.record_ok(#[trigger] t.main[i]) by {
        if i < s.main.len() {
            assert(s.record_ok(s.main[i]));
        }
    }
}

/// Changing an entry's value or frequency keeps the invariant.
pub proof fn lemma_with_entry_inv<K: View, V>(s: ShardState<K, V>, key: K::V, entry: EntryState<K, V>)
    requires
        s.inv(),
        s.entries.contains_key(key),
        entry.key@ == key,
        entry.hash == s.entries[key].hash,
        entry.loc == s.entries[key].loc,
        entry.stamp == s.entries[key].stamp,
        entry.freq <= MAX_FREQ,
    ensures
        s.with_entry(key, entry).inv(),
        s.with_entry(key, entry).entries.dom() == s.entries.dom(),
{
    let t = s.with_entry(key, entry);
    assert(t.entries.dom() =~= s.entries.dom());
    assert forall|k: K::V| #[trigger] t.entries.contains_key(k) implies t.entry_ok(k) by {
        assert(s.entries.contains_key(k));
        assert(s.entry_ok(k));
    }
    assert forall|i: int| 0 <= i < t.small.len() implies t.record_ok(#[trigger] t.small[i]) by {
        assert(s.record_ok(s.small[i]));
    }
    assert forall|i: int| 0 <= i < t.main.len() implies t.record_ok(#[trigger] t.main[i]) by {
        assert(s.record_ok(s.main[i]));
    }
}

/// Removing an entry keeps the invariant.
pub proof fn lemma_remove_inv<K: View, V>(s: ShardState<K, V>, key: K::V)
    requires
        s.inv(),
    ensures
        s.remove(key).inv(),
{
    let t = s.remove(key);
    assert forall|k: K::V| #[trigger] t.entries.contains_key(k) implies t.entry_ok(k) by {
        assert(s.entries.contains_key(k));
        assert(s.entry_ok(k));
    }
    assert forall|i: int| 0 <= i < t.small.len() implies t.record_ok(#[trigger] t.small[i]) by {
        assert(s.record_ok(s.small[i]));
    }
    assert forall|i: int| 0 <= i < t.main.len() implies t.record_ok(#[trigger] t.main[i]) by {
        assert(s.record_ok(s.main[i]));
    }
}

/// One, if the entry under `key` is in the given queue's care, else zero.
pub open spec fn share<K, V, A>(entries: Map<A, EntryState<K, V>>, key: A, loc: u8) -> int {
    if entries.contains_key(key) && entries[key].loc == loc {
        1
    } else {
        0
    }
}

/// The live counts change with the entry that is removed, and with no other.
pub proof fn lemma_live_remove<K: View, V>(s: ShardState<K, V>, key: K::V, loc: u8)
    requires
        s.entries.dom().finite(),
    ensures
        s.remove(key).live(loc) == s.live(loc) - share(s.entries, key, loc),
{
    s.entries.dom().lemma_len_filter(|k: K::V| s.entries[k].loc == loc);
    assert(s.remove(key).members(loc) =~= s.members(loc).remove(key));
}

/// The live counts change with the entry that is set, and with no other.
pub proof fn lemma_live_insert<K: View, V>(
    s: ShardState<K, V>,
    key: K::V,
    entry: EntryState<K, V>,
    loc: u8,
)
    requires
        s.entries.dom().finite(),
    ensures
        s.with_entry(key, entry).live(loc) == s.live(loc) - share(s.entries, key, loc) + (
        if entry.loc == loc {
            1int
        } else {
            0
        }),
{
    s.entries.dom().lemma_len_filter(|k: K::V| s.entries[k].loc == loc);
    let t = s.with_entry(key, entry);
    if entry.loc == loc {
        assert(t.members(loc) =~= s.members(loc).insert(key));
    } else {
        assert(t.members(loc) =~= s.members(loc).remove(key));
    }
}

impl<K: View, V: Clone> ShardState<K, V> {
    /// `copy` is a clone of this shard: it has clones of the entries, and the
    /// same queues, ghosts and capacity.
    pub open spec fn copied_to(self, copy: Self) -> bool {
        &&& copy.entries.dom() == self.entries.dom()
        &&& forall|key: K::V| #[trigger]
            self.entries.contains_key(key) ==> self.entries[key].copied_to(copy.entries[key])
        &&& copy.small == self.small
        &&& copy.main == self.main
        &&& copy.ghosts == self.ghosts
        &&& copy.cap == self.cap
        &&& copy.clock == self.clock
    }
}

/// A clone of a sound shard is sound, with as many entries in each queue's care.
pub proof fn lemma_copied_inv<K: View, V: Clone>(s: ShardState<K, V>, copy: ShardState<K, V>)
    requires
        s.inv(),
        s.copied_to(copy),
    ensures
        copy.inv(),
        forall|loc: u8| #[trigger] copy.live(loc) == s.live(loc),
{
    assert forall|key: K::V| #[trigger] copy.entries.contains_key(key) implies copy.entry_ok(key) by {
        assert(s.entries.contains_key(key));
        assert(s.entry_ok(key));
        assert(s.entries[key].copied_to(copy.entries[key]));
    }
    assert forall|record: (u64, K::V, nat)| #[trigger] s.record_ok(record) implies copy.record_ok(record) by {
        if s.entries.contains_key(record.1) {
            assert(s.entries[record.1].copied_to(copy.entries[record.1]));
        }
    }
    assert forall|i: int| 0 <= i < copy.small.len() implies copy.record_ok(#[trigger] copy.small[i]) by {
        assert(s.record_ok(s.small[i]));
    }
    assert forall|i: int| 0 <= i < copy.main.len() implies copy.record_ok(#[trigger] copy.main[i]) by {
        assert(s.record_ok(s.main[i]));
    }
    assert forall|loc: u8| #[trigger] copy.live(loc) == s.live(loc) by {
        assert forall|key: K::V| s.entries.contains_key(key) implies copy.entries[key].loc
            == s.entries[key].loc by {
            assert(s.entries[key].copied_to(copy.entries[key]));
        }
        assert(copy.members(loc) =~= s.members(loc));
    }
}

/// Two lists of entries under different keys make up a list of all of them.
pub proof fn lemma_lists_add<K: View, V>(
    left: Seq<(K, V)>,
    left_entries: Map<K::V, EntryState<K, V>>,
    right: Seq<(K, V)>,
    right_entries: Map<K::V, EntryState<K, V>>,
    entries: Map<K::V, EntryState<K, V>>,
)
    requires
        lists(left, left_entries),
        lists(right, right_entries),
        forall|key: K::V| #[trigger]
            entries.contains_key(key) <==> left_entries.contains_key(key)
                || right_entries.contains_key(key),
        forall|key: K::V| #[trigger]
            left_entries.contains_key(key) ==> !right_entries.contains_key(key) && entries[key]
                == left_entries[key],
        forall|key: K::V| #[trigger]
            right_entries.contains_key(key) ==> entries[key] == right_entries[key],
    ensures
        lists(left + right, entries),
{
    let pairs = left + right;
    assert forall|i: int| 0 <= i < pairs.len() implies ({
        let (key, value) = #[trigger] pairs[i];
        &&& entries.contains_key(key@)
        &&& entries[key@].key == key
        &&& entries[key@].value == value
    }) by {
        if i < left.len() {
            assert(pairs[i] == left[i]);
            assert(left_entries.contains_key(left[i].0@));
        } else {
            assert(pairs[i] == right[i - left.len()]);
            assert(right_entries.contains_key(right[i - left.len()].0@));
        }
    }
    assert forall|i: int, j: int| 0 <= i < j < pairs.len() implies (#[trigger] pairs[i]).0@ != (
    #[trigger] pairs[j]).0@ by {
        if j < left.len() {
            assert(pairs[i] == left[i] && pairs[j] == left[j]);
        } else if i >= left.len() {
            assert(pairs[i] == right[i - left.len()] && pairs[j] == right[j - left.len()]);
        } else {
            assert(pairs[i] == left[i] && pairs[j] == right[j - left.len()]);
            assert(left_entries.contains_key(left[i].0@));
            assert(right_entries.contains_key(right[j - left.len()].0@));
        }
    }
    assert forall|key: K::V| #[trigger] entries.contains_key(key) implies exists|i: int|
        0 <= i < pairs.len() && (#[trigger] pairs[i]).0@ == key by {
        if left_entries.contains_key(key) {
            let i = choose|i: int| 0 <= i < left.len() && (#[trigger] left[i]).0@ == key;
            assert(pairs[i].0@ == key);
        } else {
            let i = choose|i: int| 0 <= i < right.len() && (#[trigger] right[i]).0@ == key;
            assert(pairs[left.len() + i].0@ == key);
        }
    }
}

} // verus!
