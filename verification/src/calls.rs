//! What holds of a cache after any sequence of calls.
use crate::alike::{
    law_alike_lookup, law_clone_alike, lemma_like_entry, lemma_like_home, lemma_like_insert,
    lemma_like_remove,
};
use crate::hashing::KeyHasher;
use crate::index::MAX_ENTRIES;
use crate::laws::{
    law_access, law_capacity, law_cleared, law_insert_sound, law_len, law_removed, law_written,
};
use crate::model::EntryState;
use crate::state::CacheState;
use crate::util::{bumped, ceil_div};
use vstd::prelude::*;

verus! {

/// What a call does to a cache. Every call of a cache does one of these or some
/// of them in turn: `retain` writes and removes, `get_mut` accesses and writes,
/// an iterator accesses one key after the other.
pub enum Call<K: View, V> {
    /// Stores a value under a key.
    Insert(K, V),
    /// Removes the entry of a key.
    Remove(K::V),
    /// Counts an access to a key.
    Access(K::V),
    /// Writes another value to the entry of a key.
    Write(K::V, V),
    /// Puts an equal key and another value into the entry of a key.
    Replace(K, V),
    /// Removes everything.
    Clear,
}

impl<K: View, V> Call<K, V> {
    /// The key that the call is about.
    pub open spec fn key(self) -> Option<K::V> {
        match self {
            Call::Insert(key, _) => Some(key@),
            Call::Remove(key) => Some(key),
            Call::Access(key) => Some(key),
            Call::Write(key, _) => Some(key),
            Call::Replace(key, _) => Some(key@),
            Call::Clear => None,
        }
    }
}

impl<K: View, V, S: KeyHasher<K>> CacheState<K, V, S> {
    /// The cache after a call.
    pub open spec fn after(self, call: Call<K, V>) -> Self {
        match call {
            Call::Insert(key, value) => self.insert(key, value),
            Call::Remove(key) => self.remove(key),
            Call::Access(key) => self.bump(key),
            Call::Write(key, value) => if self.contains(key) {
                self.with_value(key, value)
            } else {
                self
            },
            Call::Replace(key, value) => if self.contains(key@) {
                self.with_home(
                    key@,
                    self.at_home(key@).with_entry(
                        key@,
                        EntryState { key, value, ..self.entry(key@) },
                    ),
                )
            } else {
                self
            },
            Call::Clear => self.cleared(),
        }
    }

    /// What a call finds: the key and the value that are stored under its key.
    pub open spec fn answer(self, call: Call<K, V>) -> Option<(K::V, V)> {
        match call.key() {
            Some(key) => if self.contains(key) {
                Some((key, self.entry(key).value))
            } else {
                None
            },
            None => None,
        }
    }

    /// The call is within the machine's limits: a new key finds room.
    pub open spec fn takes(self, call: Call<K, V>) -> bool {
        call matches Call::Insert(key, _) ==> self.contains(key@) || self.len() < MAX_ENTRIES
    }

    /// The cache after calls, one after the other.
    pub open spec fn after_all(self, calls: Seq<Call<K, V>>) -> Self
        decreases calls.len(),
    {
        if calls.len() == 0 {
            self
        } else {
            self.after_all(calls.drop_last()).after(calls.last())
        }
    }

    /// Each call is within the machine's limits in its turn.
    pub open spec fn takes_all(self, calls: Seq<Call<K, V>>) -> bool
        decreases calls.len(),
    {
        calls.len() > 0 ==> {
            &&& self.takes_all(calls.drop_last())
            &&& self.after_all(calls.drop_last()).takes(calls.last())
        }
    }
}

/// A call keeps a cache sound, and its capacity, its hasher and its number of
/// shards as they are.
pub proof fn law_call_sound<K: View, V, S: KeyHasher<K>>(c: CacheState<K, V, S>, call: Call<K, V>)
    requires
        c.inv(),
        c.takes(call),
    ensures
        c.after(call).inv(),
        c.after(call).capacity == c.capacity,
        c.after(call).hasher == c.hasher,
        c.after(call).shift == c.shift,
        c.after(call).shards.len() == c.shards.len(),
{
    match call {
        Call::Insert(key, value) => {
            law_insert_sound(c, key, value);
        },
        Call::Remove(key) => {
            law_removed(c, key);
        },
        Call::Access(key) => {
            law_access(c, key);
        },
        Call::Write(key, value) => {
            if c.contains(key) {
                law_written(c, key, value);
            }
        },
        Call::Replace(key, value) => {
            if c.contains(key@) {
                let s = c.at_home(key@);
                let entry = EntryState { key, value, ..c.entry(key@) };
                c.lemma_home(key@);
                assert(s.entry_ok(key@));
                c.lemma_with_entry_fits(c.home(key@), s, key@, entry);
                c.lemma_with_shard(c.home(key@), s.with_entry(key@, entry));
            }
        },
        Call::Clear => {
            law_cleared(c);
        },
    }
}

/// Whatever is done to a cache, it stays sound, with the capacity and the shards
/// that it was made with.
pub proof fn law_always_sound<K: View, V, S: KeyHasher<K>>(
    c: CacheState<K, V, S>,
    calls: Seq<Call<K, V>>,
)
    requires
        c.inv(),
        c.takes_all(calls),
    ensures
        c.after_all(calls).inv(),
        c.after_all(calls).capacity == c.capacity,
        c.after_all(calls).hasher == c.hasher,
        c.after_all(calls).shift == c.shift,
        c.after_all(calls).shards.len() == c.shards.len(),
    decreases calls.len(),
{
    if calls.len() > 0 {
        law_always_sound(c, calls.drop_last());
        law_call_sound(c.after_all(calls.drop_last()), calls.last());
    }
}

/// Whatever is done to a new cache with a capacity, no shard ever holds more than
/// its share of the capacity, rounded up. So the cache never holds as much as its
/// capacity and its number of shards together, and no more than its capacity
/// where that number divides it.
pub proof fn law_capacity_always<K: View, V, S: KeyHasher<K>>(
    c: CacheState<K, V, S>,
    capacity: nat,
    shard_amount: int,
    calls: Seq<Call<K, V>>,
)
    requires
        c.inv(),
        c.is_fresh(capacity, shard_amount),
        capacity > 0,
        c.takes_all(calls),
    ensures
        ({
            let t = c.after_all(calls);
            let n = c.shards.len();
            &&& t.inv()
            &&& t.shards.len() == n
            &&& forall|i: int|
                0 <= i < n ==> (#[trigger] t.shards[i]).entries.len() <= ceil_div(
                    capacity as int,
                    n as int,
                )
            &&& t.len() <= capacity + n - 1
            &&& capacity % n == 0 ==> t.len() <= capacity
        }),
{
    law_always_sound(c, calls);
    let t = c.after_all(calls);
    law_capacity(t);
    assert forall|i: int| 0 <= i < t.shards.len() implies (#[trigger] t.shards[i]).entries.len()
        <= ceil_div(capacity as int, t.shards.len() as int) by {
        assert(t.fits(i, t.shards[i]));
        assert(t.shard_cap() > 0) by (nonlinear_arith)
            requires
                t.shard_cap() * t.shards.len() >= t.capacity,
                t.capacity > 0,
        ;
    }
}

impl<K: View, V> Call<K, V> {
    /// The other call does the same with an equal key, and with the same value in
    /// the sense of `same`.
    pub open spec fn like(self, other: Self, same: spec_fn(V, V) -> bool) -> bool {
        match (self, other) {
            (Call::Insert(key, value), Call::Insert(key_o, value_o)) => key_o@ == key@ && same(
                value,
                value_o,
            ),
            (Call::Remove(key), Call::Remove(key_o)) => key_o == key,
            (Call::Access(key), Call::Access(key_o)) => key_o == key,
            (Call::Write(key, value), Call::Write(key_o, value_o)) => key_o == key && same(
                value,
                value_o,
            ),
            (Call::Replace(key, value), Call::Replace(key_o, value_o)) => key_o@ == key@ && same(
                value,
                value_o,
            ),
            (Call::Clear, Call::Clear) => true,
            _ => false,
        }
    }
}

/// Like calls of like caches find the same, and leave the caches alike, evictions
/// included.
pub proof fn law_alike_call<K: View, V, S: KeyHasher<K>>(
    c: CacheState<K, V, S>,
    d: CacheState<K, V, S>,
    same: spec_fn(V, V) -> bool,
    call: Call<K, V>,
    other: Call<K, V>,
)
    requires
        c.inv(),
        d.inv(),
        c.like(d, same),
        call.like(other, same),
    ensures
        c.after(call).like(d.after(other), same),
        match (c.answer(call), d.answer(other)) {
            (Some((key, value)), Some((key_o, value_o))) => key_o == key && same(value, value_o),
            (None, None) => true,
            _ => false,
        },
        d.takes(other) <==> c.takes(call),
{
    lemma_alike_len(c, d, same);
    match call.key() {
        Some(key) => {
            law_alike_lookup(c, d, same, key);
            c.lemma_home(key);
            d.lemma_home(key);
            assert(d.digest(key) == c.digest(key));
            let s = c.at_home(key);
            let o = d.at_home(key);
            match (call, other) {
                (Call::Insert(k, value), Call::Insert(k_o, value_o)) => {
                    let hash = c.digest(key);
                    lemma_like_insert(s, o, same, hash, k, k_o, value, value_o);
                    lemma_like_home(
                        c,
                        d,
                        same,
                        key,
                        s.insert(hash, k, value),
                        o.insert(hash, k_o, value_o),
                    );
                },
                (Call::Remove(_), Call::Remove(_)) => {
                    lemma_like_remove(s, o, same, key);
                    lemma_like_home(c, d, same, key, s.remove(key), o.remove(key));
                },
                (Call::Access(_), Call::Access(_)) => {
                    if c.contains(key) {
                        lemma_like_entry(
                            s,
                            o,
                            same,
                            key,
                            EntryState { freq: bumped(s.entries[key].freq), ..s.entries[key] },
                            EntryState { freq: bumped(o.entries[key].freq), ..o.entries[key] },
                        );
                    }
                    lemma_like_home(c, d, same, key, s.bump(key), o.bump(key));
                },
                (Call::Write(_, value), Call::Write(_, value_o)) => {
                    if c.contains(key) {
                        lemma_like_entry(
                            s,
                            o,
                            same,
                            key,
                            EntryState { value, ..s.entries[key] },
                            EntryState { value: value_o, ..o.entries[key] },
                        );
                        lemma_like_home(
                            c,
                            d,
                            same,
                            key,
                            s.with_value(key, value),
                            o.with_value(key, value_o),
                        );
                    }
                },
                (Call::Replace(k, value), Call::Replace(k_o, value_o)) => {
                    if c.contains(key) {
                        assert(s.entry_ok(key));
                        let entry = EntryState { key: k, value, ..s.entries[key] };
                        let entry_o = EntryState { key: k_o, value: value_o, ..o.entries[key] };
                        lemma_like_entry(s, o, same, key, entry, entry_o);
                        lemma_like_home(
                            c,
                            d,
                            same,
                            key,
                            s.with_entry(key, entry),
                            o.with_entry(key, entry_o),
                        );
                    }
                },
                _ => {},
            }
        },
        None => {
            let t = c.cleared();
            let u = d.cleared();
            assert forall|i: int| 0 <= i < t.shards.len() implies (#[trigger] t.shards[i]).like(
                u.shards[i],
                same,
            ) by {
                assert(c.shards[i].like(d.shards[i], same));
            }
            assert forall|key: K::V| #[trigger] u.digest(key) == t.digest(key) by {
                assert(d.digest(key) == c.digest(key));
            }
        },
    }
}

/// Like caches have as many entries.
proof fn lemma_alike_len<K: View, V, S: KeyHasher<K>>(
    c: CacheState<K, V, S>,
    d: CacheState<K, V, S>,
    same: spec_fn(V, V) -> bool,
)
    requires
        c.inv(),
        d.inv(),
        c.like(d, same),
    ensures
        d.len() == c.len(),
{
    assert forall|key: K::V| #[trigger] d.contains(key) <==> c.contains(key) by {
        law_alike_lookup(c, d, same, key);
    }
    assert(d.contents().dom() =~= c.contents().dom());
    law_len(c);
    law_len(d);
}

/// The same calls of like caches find the same at every turn and leave the caches
/// alike.
pub proof fn law_alike_always<K: View, V, S: KeyHasher<K>>(
    c: CacheState<K, V, S>,
    d: CacheState<K, V, S>,
    calls: Seq<Call<K, V>>,
)
    requires
        c.inv(),
        d.inv(),
        c.like(d, |value: V, other: V| other == value),
        c.takes_all(calls),
    ensures
        d.takes_all(calls),
        d.after_all(calls).inv(),
        c.after_all(calls).like(d.after_all(calls), |value: V, other: V| other == value),
        forall|n: int|
            0 <= n < calls.len() ==> d.after_all(#[trigger] calls.take(n)).answer(calls[n])
                == c.after_all(calls.take(n)).answer(calls[n]),
    decreases calls.len(),
{
    let equal = |value: V, other: V| other == value;
    if calls.len() > 0 {
        let front = calls.drop_last();
        let call = calls.last();
        law_alike_always(c, d, front);
        law_always_sound(c, front);
        assert(call.like(call, equal));
        law_alike_call(c.after_all(front), d.after_all(front), equal, call, call);
        law_call_sound(d.after_all(front), call);
        assert forall|n: int| 0 <= n < calls.len() implies d.after_all(
            #[trigger] calls.take(n),
        ).answer(calls[n]) == c.after_all(calls.take(n)).answer(calls[n]) by {
            if n < front.len() {
                assert(front.take(n) =~= calls.take(n));
                assert(front[n] == calls[n]);
            } else {
                assert(calls.take(n) =~= front);
            }
        }
    }
}

/// The same calls of a cache and of its clone find the same at every turn,
/// evictions included, where cloning a value makes an equal one.
pub proof fn law_clone_answers_alike<K: View, V: Clone, S: KeyHasher<K>>(
    c: CacheState<K, V, S>,
    copy: CacheState<K, V, S>,
    calls: Seq<Call<K, V>>,
)
    requires
        c.inv(),
        copy.inv(),
        c.copied_to(copy),
        forall|value: V, other: V| #[trigger] cloned(value, other) ==> other == value,
        c.takes_all(calls),
    ensures
        copy.takes_all(calls),
        c.after_all(calls).like(copy.after_all(calls), |value: V, other: V| other == value),
        copy.after_all(calls).contents() == c.after_all(calls).contents(),
        copy.after_all(calls).len() == c.after_all(calls).len(),
        forall|n: int|
            0 <= n < calls.len() ==> copy.after_all(#[trigger] calls.take(n)).answer(calls[n])
                == c.after_all(calls.take(n)).answer(calls[n]),
{
    let equal = |value: V, other: V| other == value;
    law_clone_alike(c, copy);
    law_alike_always(c, copy, calls);
    law_always_sound(c, calls);
    let t = c.after_all(calls);
    let u = copy.after_all(calls);
    lemma_alike_len(t, u, equal);
    assert forall|key: K::V|
        (#[trigger] u.contains(key) <==> t.contains(key)) && (t.contains(key) ==> u.entry(key).value
            == t.entry(key).value) by {
        law_alike_lookup(t, u, equal, key);
    }
    assert(u.contents() =~= t.contents());
}

/// The same calls of a cache and of its clone, the values of the latter cloned,
/// leave the cache and a clone of it.
pub proof fn law_clone_call<K: View, V: Clone, S: KeyHasher<K>>(
    c: CacheState<K, V, S>,
    copy: CacheState<K, V, S>,
    call: Call<K, V>,
    other: Call<K, V>,
)
    requires
        c.inv(),
        copy.inv(),
        c.copied_to(copy),
        call.like(other, |value: V, value_o: V| cloned(value, value_o)),
    ensures
        c.after(call).copied_to(copy.after(other)),
        match (c.answer(call), copy.answer(other)) {
            (Some((key, value)), Some((key_o, value_o))) => key_o == key && cloned(value, value_o),
            (None, None) => true,
            _ => false,
        },
{
    let same = |value: V, value_o: V| cloned(value, value_o);
    law_clone_alike(c, copy);
    law_alike_call(c, copy, same, call, other);
    let t = c.after(call);
    let u = copy.after(other);
    assert forall|i: int| 0 <= i < t.shards.len() implies (#[trigger] t.shards[i]).copied_to(
        u.shards[i],
    ) by {
        assert(t.shards[i].like(u.shards[i], same));
        assert forall|key: K::V| #[trigger] t.shards[i].entries.contains_key(key) implies
            t.shards[i].entries[key].copied_to(u.shards[i].entries[key]) by {
            assert(t.shards[i].entries[key].like(u.shards[i].entries[key], same));
        }
    }
}

} // verus!
