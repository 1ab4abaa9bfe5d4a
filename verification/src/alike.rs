//! Caches that hold the same and go on holding the same when the same is done to
//! them, such as a cache and its clone.
use crate::hashing::KeyHasher;
use crate::model::{
    lemma_evict_one, lemma_insert_new, lemma_patience_head, lemma_second_chance, patience,
    small_cap_of, EntryState, ShardState,
};
use crate::state::CacheState;
use crate::util::{LOC_MAIN, LOC_SMALL};
use vstd::prelude::*;

verus! {

impl<K: View, V> EntryState<K, V> {
    /// The other entry has an equal key, the same metadata, and the same value in
    /// the sense of `same`.
    pub open spec fn like(self, other: Self, same: spec_fn(V, V) -> bool) -> bool {
        &&& other.key@ == self.key@
        &&& other.hash == self.hash
        &&& same(self.value, other.value)
        &&& other.freq == self.freq
        &&& other.loc == self.loc
        &&& other.stamp == self.stamp
    }
}

impl<K: View, V> ShardState<K, V> {
    /// The other shard has like entries and the same eviction state.
    pub open spec fn like(self, other: Self, same: spec_fn(V, V) -> bool) -> bool {
        &&& other.entries.dom() == self.entries.dom()
        &&& forall|key: K::V| #[trigger]
            self.entries.contains_key(key) ==> self.entries[key].like(other.entries[key], same)
        &&& other.small == self.small
        &&& other.main == self.main
        &&& other.ghosts == self.ghosts
        &&& other.cap == self.cap
        &&& other.clock == self.clock
    }
}

impl<K: View, V, S: KeyHasher<K>> CacheState<K, V, S> {
    /// The other cache has like shards, the same capacity, and a hasher with the
    /// same digests.
    pub open spec fn like(self, other: Self, same: spec_fn(V, V) -> bool) -> bool {
        &&& other.shift == self.shift
        &&& other.capacity == self.capacity
        &&& other.shards.len() == self.shards.len()
        &&& forall|i: int|
            0 <= i < self.shards.len() ==> (#[trigger] self.shards[i]).like(other.shards[i], same)
        &&& forall|key: K::V| #[trigger] other.digest(key) == self.digest(key)
    }
}

/// Like shards with like entries under a key are like.
pub proof fn lemma_like_entry<K: View, V>(
    s: ShardState<K, V>,
    o: ShardState<K, V>,
    same: spec_fn(V, V) -> bool,
    key: K::V,
    entry: EntryState<K, V>,
    other: EntryState<K, V>,
)
    requires
        s.like(o, same),
        entry.like(other, same),
    ensures
        s.with_entry(key, entry).like(o.with_entry(key, other), same),
{
    let t = s.with_entry(key, entry);
    let u = o.with_entry(key, other);
    assert(u.entries.dom() =~= t.entries.dom());
    assert forall|k: K::V| #[trigger] t.entries.contains_key(k) implies t.entries[k].like(
        u.entries[k],
        same,
    ) by {
        if k != key {
            assert(s.entries.contains_key(k));
        }
    }
}

/// Like shards without the same key are like.
pub proof fn lemma_like_remove<K: View, V>(
    s: ShardState<K, V>,
    o: ShardState<K, V>,
    same: spec_fn(V, V) -> bool,
    key: K::V,
)
    requires
        s.like(o, same),
    ensures
        s.remove(key).like(o.remove(key), same),
{
    let t = s.remove(key);
    let u = o.remove(key);
    assert(u.entries.dom() =~= t.entries.dom());
    assert forall|k: K::V| #[trigger] t.entries.contains_key(k) implies t.entries[k].like(
        u.entries[k],
        same,
    ) by {
        assert(s.entries.contains_key(k));
    }
}

/// Like shards have as many entries in each queue's care.
proof fn lemma_like_live<K: View, V>(
    s: ShardState<K, V>,
    o: ShardState<K, V>,
    same: spec_fn(V, V) -> bool,
    loc: u8,
)
    requires
        s.like(o, same),
    ensures
        o.live(loc) == s.live(loc),
        o.entries.len() == s.entries.len(),
{
    assert forall|key: K::V| s.entries.contains_key(key) implies o.entries[key].loc
        == s.entries[key].loc by {
        assert(s.entries[key].like(o.entries[key], same));
    }
    assert(o.members(loc) =~= s.members(loc));
}

/// In like shards the same records are current.
proof fn lemma_like_current<K: View, V>(
    s: ShardState<K, V>,
    o: ShardState<K, V>,
    same: spec_fn(V, V) -> bool,
    record: (u64, K::V, nat),
)
    requires
        s.like(o, same),
    ensures
        o.current(record) == s.current(record),
        s.current(record) ==> s.entries[record.1].like(o.entries[record.1], same),
{
    if s.entries.contains_key(record.1) {
        assert(s.entries[record.1].like(o.entries[record.1], same));
        assert(o.entries.contains_key(record.1));
    } else {
        assert(!o.entries.contains_key(record.1));
    }
}

/// Sweeps of the main queues of like shards leave them alike.
pub proof fn lemma_like_main<K: View, V>(
    s: ShardState<K, V>,
    o: ShardState<K, V>,
    same: spec_fn(V, V) -> bool,
)
    requires
        s.like(o, same),
    ensures
        s.evict_from_main().like(o.evict_from_main(), same),
    decreases patience(s.main, s.entries),
{
    if s.main.len() > 0 {
        let record = s.main[0];
        let key = record.1;
        let rest = ShardState { main: s.main.skip(1), ..s };
        let rest_o = ShardState { main: o.main.skip(1), ..o };
        lemma_like_current(s, o, same, record);
        assert(rest.like(rest_o, same));
        if !s.current(record) {
            lemma_patience_head(s.main, s.entries);
            lemma_like_main(rest, rest_o, same);
        } else if s.entries[key].freq > 0 {
            let entry = s.entries[key];
            let other = o.entries[key];
            let lower = EntryState { freq: (entry.freq - 1) as u8, ..entry };
            let lower_o = EntryState { freq: (other.freq - 1) as u8, ..other };
            let next = ShardState {
                entries: s.entries.insert(key, lower),
                main: s.main.skip(1).push(record),
                ..s
            };
            let next_o = ShardState {
                entries: o.entries.insert(key, lower_o),
                main: o.main.skip(1).push(record),
                ..o
            };
            lemma_second_chance(s);
            lemma_like_entry(s, o, same, key, lower, lower_o);
            assert(next.like(next_o, same)) by {
                let t = s.with_entry(key, lower);
                assert forall|k: K::V| #[trigger] next.entries.contains_key(k) implies
                    next.entries[k].like(next_o.entries[k], same) by {
                    assert(t.entries.contains_key(k));
                }
            }
            lemma_like_main(next, next_o, same);
        } else {
            lemma_like_remove(rest, rest_o, same, key);
        }
    }
}

/// Sweeps of the small queues of like shards leave them alike.
pub proof fn lemma_like_small<K: View, V>(
    s: ShardState<K, V>,
    o: ShardState<K, V>,
    same: spec_fn(V, V) -> bool,
)
    requires
        s.like(o, same),
    ensures
        s.evict_from_small().like(o.evict_from_small(), same),
    decreases s.small.len(),
{
    if s.small.len() == 0 {
        lemma_like_main(s, o, same);
    } else {
        let record = s.small[0];
        let key = record.1;
        let rest = ShardState { small: s.small.skip(1), ..s };
        let rest_o = ShardState { small: o.small.skip(1), ..o };
        lemma_like_current(s, o, same, record);
        assert(rest.like(rest_o, same));
        if !s.current(record) {
            lemma_like_small(rest, rest_o, same);
        } else if s.entries[key].freq > 0 {
            let moved = EntryState { loc: LOC_MAIN, ..s.entries[key] };
            let moved_o = EntryState { loc: LOC_MAIN, ..o.entries[key] };
            lemma_like_entry(rest, rest_o, same, key, moved, moved_o);
            let half = rest.with_entry(key, moved);
            let t = s.evict_from_small();
            let u = o.evict_from_small();
            assert forall|k: K::V| #[trigger] t.entries.contains_key(k) implies t.entries[k].like(
                u.entries[k],
                same,
            ) by {
                assert(half.entries.contains_key(k));
            }
        } else {
            lemma_like_remove(rest, rest_o, same, key);
            let half = rest.remove(key);
            let t = s.evict_from_small();
            let u = o.evict_from_small();
            assert forall|k: K::V| #[trigger] t.entries.contains_key(k) implies t.entries[k].like(
                u.entries[k],
                same,
            ) by {
                assert(half.entries.contains_key(k));
            }
        }
    }
}

/// Making room in like shards leaves them alike: the same entries go.
pub proof fn law_alike_make_room<K: View, V>(
    s: ShardState<K, V>,
    o: ShardState<K, V>,
    same: spec_fn(V, V) -> bool,
)
    requires
        s.inv(),
        o.inv(),
        s.like(o, same),
    ensures
        s.make_room().like(o.make_room(), same),
    decreases s.entries.len(), s.small.len(),
{
    lemma_like_live(s, o, same, LOC_SMALL);
    if s.cap > 0 && s.entries.len() >= s.cap {
        lemma_evict_one(s);
        lemma_evict_one(o);
        if s.live(LOC_SMALL) >= small_cap_of(s.cap) {
            lemma_like_small(s, o, same);
        } else {
            lemma_like_main(s, o, same);
        }
        law_alike_make_room(s.evict_one(), o.evict_one(), same);
    }
}

/// Inserting equal keys with the same values into like shards leaves them alike.
pub proof fn lemma_like_insert<K: View, V>(
    s: ShardState<K, V>,
    o: ShardState<K, V>,
    same: spec_fn(V, V) -> bool,
    hash: u64,
    key: K,
    key_o: K,
    value: V,
    value_o: V,
)
    requires
        s.inv(),
        o.inv(),
        s.like(o, same),
        s.knows_as(key@, hash),
        key_o@ == key@,
        same(value, value_o),
    ensures
        s.insert(hash, key, value).like(o.insert(hash, key_o, value_o), same),
{
    if s.entries.contains_key(key@) {
        assert(s.entries[key@].like(o.entries[key@], same));
        assert(o.entries.contains_key(key@));
        lemma_like_entry(
            s,
            o,
            same,
            key@,
            EntryState { value, ..s.entries[key@] },
            EntryState { value: value_o, ..o.entries[key@] },
        );
    } else {
        assert(!o.entries.contains_key(key@));
        assert(o.knows_as(key@, hash));
        lemma_insert_new(s, hash, key, value);
        lemma_insert_new(o, hash, key_o, value_o);
        let forgot = s.forget_ghost(hash);
        let forgot_o = o.forget_ghost(hash);
        assert(forgot.like(forgot_o, same)) by {
            assert forall|k: K::V| #[trigger] forgot.entries.contains_key(k) implies
                forgot.entries[k].like(forgot_o.entries[k], same) by {
                assert(s.entries.contains_key(k));
            }
        }
        law_alike_make_room(forgot, forgot_o, same);
        let room = forgot.make_room();
        let room_o = forgot_o.make_room();
        let loc = s.entry_loc(hash);
        let entry = EntryState { key, hash, value, freq: 0, loc, stamp: s.clock };
        let other = EntryState { key: key_o, hash, value: value_o, freq: 0, loc, stamp: s.clock };
        lemma_like_entry(room, room_o, same, key@, entry, other);
        let half = room.with_entry(key@, entry);
        let t = s.insert_new(hash, key, value);
        let u = o.insert_new(hash, key_o, value_o);
        assert(t == room.enqueue(entry));
        assert(u == room_o.enqueue(other));
        assert forall|k: K::V| #[trigger] t.entries.contains_key(k) implies t.entries[k].like(
            u.entries[k],
            same,
        ) by {
            assert(half.entries.contains_key(k));
        }
    }
}

/// A cache and its clone are alike. They hold equal values where cloning a value
/// makes an equal one.
pub proof fn law_clone_alike<K: View, V: Clone, S: KeyHasher<K>>(
    c: CacheState<K, V, S>,
    copy: CacheState<K, V, S>,
)
    requires
        c.copied_to(copy),
    ensures
        c.like(copy, |value: V, other: V| cloned(value, other)),
        (forall|value: V, other: V| #[trigger] cloned(value, other) ==> other == value) ==> c.like(
            copy,
            |value: V, other: V| other == value,
        ),
{
    let same = |value: V, other: V| cloned(value, other);
    let equal = |value: V, other: V| other == value;
    assert forall|i: int| 0 <= i < c.shards.len() implies (#[trigger] c.shards[i]).like(
        copy.shards[i],
        same,
    ) && ((forall|value: V, other: V| #[trigger] cloned(value, other) ==> other == value)
        ==> c.shards[i].like(copy.shards[i], equal)) by {
        let s = c.shards[i];
        let o = copy.shards[i];
        assert(s.copied_to(o));
        assert forall|key: K::V| #[trigger] s.entries.contains_key(key) implies s.entries[key].like(
            o.entries[key],
            same,
        ) && ((forall|value: V, other: V| #[trigger] cloned(value, other) ==> other == value)
            ==> s.entries[key].like(o.entries[key], equal)) by {
            assert(s.entries[key].copied_to(o.entries[key]));
        }
    }
}

/// Like caches hold the same keys, with the same values, at the same places.
pub proof fn law_alike_lookup<K: View, V, S: KeyHasher<K>>(
    c: CacheState<K, V, S>,
    d: CacheState<K, V, S>,
    same: spec_fn(V, V) -> bool,
    key: K::V,
)
    requires
        c.inv(),
        c.like(d, same),
    ensures
        d.home(key) == c.home(key),
        c.at_home(key).like(d.at_home(key), same),
        d.contains(key) <==> c.contains(key),
        c.contains(key) ==> c.entry(key).like(d.entry(key), same),
{
    c.lemma_home(key);
    assert(d.digest(key) == c.digest(key));
    let s = c.at_home(key);
    assert(s.like(d.at_home(key), same));
    if c.contains(key) {
        assert(s.entries.contains_key(key));
    }
}

/// Like caches with like home shards of a key are alike.
pub proof fn lemma_like_home<K: View, V, S: KeyHasher<K>>(
    c: CacheState<K, V, S>,
    d: CacheState<K, V, S>,
    same: spec_fn(V, V) -> bool,
    key: K::V,
    shard: ShardState<K, V>,
    other: ShardState<K, V>,
)
    requires
        c.inv(),
        c.like(d, same),
        shard.like(other, same),
    ensures
        c.with_home(key, shard).like(d.with_home(key, other), same),
{
    law_alike_lookup(c, d, same, key);
    c.lemma_home(key);
    let t = c.with_home(key, shard);
    let u = d.with_home(key, other);
    assert forall|i: int| 0 <= i < t.shards.len() implies (#[trigger] t.shards[i]).like(
        u.shards[i],
        same,
    ) by {
        assert(c.shards[i].like(d.shards[i], same));
    }
    assert forall|k: K::V| #[trigger] u.digest(k) == t.digest(k) by {
        assert(d.digest(k) == c.digest(k));
    }
}

} // verus!
