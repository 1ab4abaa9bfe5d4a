//! What holds of a cache across its operations, whatever it holds.
use crate::hashing::KeyHasher;
use crate::index::MAX_ENTRIES;
use crate::model::{lemma_insert_new, lists, main_cap_of, small_cap_of, EntryState, ShardState};
use crate::sharding::{law_route, law_shard_amount, law_shard_cap, law_shift};
use crate::state::{lemma_total_update, lemma_total_zero, total, CacheState};
use crate::util::{bumped, ceil_div, LOC_MAIN, LOC_SMALL, MAX_FREQ};
use vstd::arithmetic::power2::{is_pow2, pow2};
use vstd::prelude::*;

verus! {

/// A key stands in its home shard alone.
pub proof fn law_one_shard<K: View, V, S: KeyHasher<K>>(c: CacheState<K, V, S>, key: K::V, i: int)
    requires
        c.inv(),
        0 <= i < c.shards.len(),
    ensures
        c.shards[i].entries.contains_key(key) <==> c.contains(key) && i == c.home(key),
{
    if c.shards[i].entries.contains_key(key) {
        c.lemma_entry_home(i, key);
    }
}

/// No shard has more than its share, so the entries in all are no more than the
/// shards' capacities together.
proof fn lemma_total_cap<K: View, V>(shards: Seq<ShardState<K, V>>, cap: nat)
    requires
        forall|i: int| 0 <= i < shards.len() ==> (#[trigger] shards[i]).entries.len() <= cap,
    ensures
        total(shards) <= cap * shards.len(),
    decreases shards.len(),
{
    if shards.len() > 0 {
        lemma_total_cap(shards.drop_last(), cap);
        assert(cap * shards.len() == cap * (shards.len() - 1) + cap) by (nonlinear_arith)
            requires
                shards.len() > 0,
        ;
    }
}

/// A cache with a capacity never holds more entries than its shards' capacities
/// together. These exceed the cache's capacity by less than the number of
/// shards, and not at all where that number divides the capacity.
pub proof fn law_capacity<K: View, V, S: KeyHasher<K>>(c: CacheState<K, V, S>)
    requires
        c.inv(),
        c.capacity > 0,
    ensures
        c.len() <= c.shard_cap() * c.shards.len(),
        c.capacity <= c.shard_cap() * c.shards.len() <= c.capacity + c.shards.len() - 1,
        c.capacity % c.shards.len() == 0 ==> c.len() <= c.capacity,
{
    let n = c.shards.len();
    vstd::arithmetic::power2::lemma_pow2_pos((usize::BITS - c.shift) as nat);
    assert(n > 0);
    let cap = ceil_div(c.capacity as int, n as int);
    vstd::arithmetic::div_mod::lemma_fundamental_div_mod(c.capacity + n - 1, n as int);
    assert(n * cap == cap * n) by (nonlinear_arith);
    let rest = (c.capacity + n - 1) % (n as int);
    assert(c.capacity <= cap * n <= c.capacity + n - 1);
    assert(cap >= 1) by (nonlinear_arith)
        requires
            cap * n >= c.capacity,
            c.capacity > 0,
            n > 0,
    ;
    assert(c.shard_cap() == cap);
    assert forall|i: int| 0 <= i < c.shards.len() implies (#[trigger] c.shards[i]).entries.len()
        <= c.shard_cap() by {
        assert(c.fits(i, c.shards[i]));
    }
    lemma_total_cap(c.shards, c.shard_cap());
    if c.capacity % n == 0 {
        let q = c.capacity / n;
        vstd::arithmetic::div_mod::lemma_fundamental_div_mod(c.capacity as int, n as int);
        assert(n * q == q * n) by (nonlinear_arith);
        if cap > q {
            assert(cap * n >= q * n + n) by (nonlinear_arith)
                requires
                    cap >= q + 1,
                    n > 0,
            ;
        }
        if cap < q {
            assert(cap * n + n <= q * n) by (nonlinear_arith)
                requires
                    cap + 1 <= q,
                    n > 0,
            ;
        }
        assert(cap == q);
    }
}

/// A new cache is empty.
pub proof fn law_fresh<K: View, V, S: KeyHasher<K>>(
    c: CacheState<K, V, S>,
    capacity: nat,
    shard_amount: int,
)
    requires
        c.inv(),
        c.is_fresh(capacity, shard_amount),
    ensures
        c.len() == 0,
        forall|key: K::V| !#[trigger] c.contains(key),
        c.contents() == Map::<K::V, V>::empty(),
{
    lemma_total_zero(c.shards);
    assert forall|key: K::V| !#[trigger] c.contains(key) by {
        c.lemma_home(key);
    }
    assert(c.contents() =~= Map::<K::V, V>::empty());
}

/// A cleared cache is empty.
pub proof fn law_cleared<K: View, V, S: KeyHasher<K>>(c: CacheState<K, V, S>)
    requires
        c.inv(),
    ensures
        c.cleared().inv(),
        c.cleared().len() == 0,
        forall|key: K::V| !#[trigger] c.cleared().contains(key),
        c.cleared().contents() == Map::<K::V, V>::empty(),
{
    let t = c.cleared();
    lemma_total_zero(t.shards);
    assert forall|i: int| 0 <= i < t.shards.len() implies t.fits(i, #[trigger] t.shards[i]) by {
        assert(c.fits(i, c.shards[i]));
    }
    assert forall|key: K::V| !#[trigger] t.contains(key) by {
        c.lemma_home(key);
    }
    assert(t.contents() =~= Map::<K::V, V>::empty());
}

/// Changing a key's home shard leaves the keys alone that are at home elsewhere.
proof fn lemma_elsewhere<K: View, V, S: KeyHasher<K>>(
    c: CacheState<K, V, S>,
    key: K::V,
    shard: ShardState<K, V>,
    other: K::V,
)
    requires
        c.inv(),
    ensures
        c.with_home(key, shard).home(other) == c.home(other),
        c.with_home(key, shard).lookup(other) == (if c.home(other) == c.home(key) {
            shard.lookup(other)
        } else {
            c.lookup(other)
        }),
        c.with_home(key, shard).contains(other) <==> c.with_home(key, shard).lookup(other) is Some,
{
    c.lemma_home(key);
    c.lemma_home(other);
}

/// What was inserted is found: the key is stored with the value. Whatever else
/// is stored afterwards was stored before, with the same value.
pub proof fn law_insert_found<K: View, V, S: KeyHasher<K>>(
    c: CacheState<K, V, S>,
    key: K,
    value: V,
)
    requires
        c.inv(),
    ensures
        c.insert(key, value).contains(key@),
        c.insert(key, value).entry(key@).value == value,
        forall|other: K::V|
            other != key@ && #[trigger] c.insert(key, value).contains(other) ==> c.contains(other)
                && c.insert(key, value).entry(other).value == c.entry(other).value,
{
    let s = c.at_home(key@);
    let t = s.insert(c.digest(key@), key, value);
    c.lemma_home(key@);
    lemma_elsewhere(c, key@, t, key@);
    if !s.entries.contains_key(key@) {
        lemma_insert_new(s, c.digest(key@), key, value);
    }
    assert forall|other: K::V|
        other != key@ && #[trigger] c.insert(key, value).contains(other) implies c.contains(other)
        && c.insert(key, value).entry(other).value == c.entry(other).value by {
        lemma_elsewhere(c, key@, t, other);
        if c.home(other) == c.home(key@) && !s.entries.contains_key(key@) {
            assert(t.remove(key@).entries.contains_key(other));
            assert(t.remove(key@).kept_from(s));
        }
    }
}

/// Inserting a stored key evicts nothing. The key keeps its place in the
/// eviction order: its queue and its frequency stay.
pub proof fn law_replace_keeps<K: View, V, S: KeyHasher<K>>(
    c: CacheState<K, V, S>,
    key: K,
    value: V,
)
    requires
        c.inv(),
        c.contains(key@),
    ensures
        c.insert(key, value).contents() == c.contents().insert(key@, value),
        c.insert(key, value).entry(key@) == (EntryState { value, ..c.entry(key@) }),
        c.insert(key, value).at_home(key@).small == c.at_home(key@).small,
        c.insert(key, value).at_home(key@).main == c.at_home(key@).main,
        c.insert(key, value).at_home(key@).ghosts == c.at_home(key@).ghosts,
        c.insert(key, value).len() == c.len(),
{
    let s = c.at_home(key@);
    let t = s.insert(c.digest(key@), key, value);
    c.lemma_home(key@);
    c.lemma_insert_len(key, value);
    assert forall|other: K::V| #[trigger]
        c.insert(key, value).contents().contains_key(other) <==> c.contents().insert(
            key@,
            value,
        ).contains_key(other) by {
        lemma_elsewhere(c, key@, t, other);
    }
    assert forall|other: K::V| #[trigger]
        c.insert(key, value).contents().contains_key(other) implies c.insert(
        key,
        value,
    ).contents()[other] == c.contents().insert(key@, value)[other] by {
        lemma_elsewhere(c, key@, t, other);
    }
    assert(c.insert(key, value).contents() =~= c.contents().insert(key@, value));
}

/// Inserting a new key evicts nothing as long as its home shard has a free
/// place, and one entry if it has none.
pub proof fn law_insert_evicts<K: View, V, S: KeyHasher<K>>(
    c: CacheState<K, V, S>,
    key: K,
    value: V,
)
    requires
        c.inv(),
        !c.contains(key@),
    ensures
        c.capacity == 0 || c.at_home(key@).entries.len() < c.shard_cap() ==> {
            &&& c.insert(key, value).contents() == c.contents().insert(key@, value)
            &&& c.insert(key, value).len() == c.len() + 1
        },
        c.capacity > 0 && c.at_home(key@).entries.len() == c.shard_cap() ==> c.insert(
            key,
            value,
        ).len() == c.len(),
{
    let s = c.at_home(key@);
    let t = s.insert(c.digest(key@), key, value);
    c.lemma_home(key@);
    lemma_insert_new(s, c.digest(key@), key, value);
    lemma_total_update(c.shards, c.home(key@), t);
    if c.capacity > 0 {
        law_capacity(c);
        assert(c.shard_cap() > 0) by (nonlinear_arith)
            requires
                c.shard_cap() * c.shards.len() >= c.capacity,
                c.capacity > 0,
        ;
    }
    if c.capacity == 0 || s.entries.len() < c.shard_cap() {
        assert(t.entries == s.entries.insert(key@, t.entries[key@]));
        assert forall|other: K::V| #[trigger]
            c.insert(key, value).contents().contains_key(other) <==> c.contents().insert(
                key@,
                value,
            ).contains_key(other) by {
            lemma_elsewhere(c, key@, t, other);
        }
        assert forall|other: K::V| #[trigger]
            c.insert(key, value).contents().contains_key(other) implies c.insert(
            key,
            value,
        ).contents()[other] == c.contents().insert(key@, value)[other] by {
            lemma_elsewhere(c, key@, t, other);
        }
        assert(c.insert(key, value).contents() =~= c.contents().insert(key@, value));
    }
}

/// An unbounded cache never evicts: a key that was inserted stays, whatever is
/// inserted after it.
pub proof fn law_unbounded_keeps<K: View, V, S: KeyHasher<K>>(
    c: CacheState<K, V, S>,
    key: K,
    value: V,
)
    requires
        c.inv(),
        c.capacity == 0,
    ensures
        c.insert(key, value).contents() == c.contents().insert(key@, value),
{
    if c.contains(key@) {
        law_replace_keeps(c, key, value);
    } else {
        law_insert_evicts(c, key, value);
    }
}

/// The map after every pair is put into it, in order.
pub open spec fn put_all<K: View, V>(map: Map<K::V, V>, pairs: Seq<(K, V)>) -> Map<K::V, V>
    decreases pairs.len(),
{
    if pairs.len() == 0 {
        map
    } else {
        put_all(map, pairs.drop_last()).insert(pairs.last().0@, pairs.last().1)
    }
}

/// Pairs inserted in order into an unbounded cache are all there; of two with
/// the same key the later one counts.
pub proof fn law_unbounded_insert_all<K: View, V, S: KeyHasher<K>>(
    c: CacheState<K, V, S>,
    pairs: Seq<(K, V)>,
)
    requires
        c.inv(),
        c.capacity == 0,
        c.len() + pairs.len() <= MAX_ENTRIES,
    ensures
        c.insert_all(pairs).inv(),
        c.insert_all(pairs).capacity == 0,
        c.insert_all(pairs).len() <= c.len() + pairs.len(),
        c.insert_all(pairs).contents() == put_all(c.contents(), pairs),
    decreases pairs.len(),
{
    if pairs.len() > 0 {
        law_unbounded_insert_all(c, pairs.drop_last());
        let before = c.insert_all(pairs.drop_last());
        let (key, value) = pairs.last();
        law_unbounded_keeps(before, key, value);
        law_insert_sound(before, key, value);
    }
}

/// A cache stays sound when a key is inserted, as long as it is not too full for
/// the machine.
pub proof fn law_insert_sound<K: View, V, S: KeyHasher<K>>(
    c: CacheState<K, V, S>,
    key: K,
    value: V,
)
    requires
        c.inv(),
        c.contains(key@) || c.len() < MAX_ENTRIES,
    ensures
        c.insert(key, value).inv(),
        c.insert(key, value).len() <= c.len() + 1,
{
    let s = c.at_home(key@);
    c.lemma_home(key@);
    c.lemma_insert_len(key, value);
    c.lemma_insert_fits(c.home(key@), s, key, value);
    lemma_total_update(c.shards, c.home(key@), s.insert(c.digest(key@), key, value));
    c.lemma_with_shard(c.home(key@), s.insert(c.digest(key@), key, value));
}

/// What an entry view leaves in its shard when it stores a new value keeps the
/// cache sound, and is what an insertion leaves there.
pub proof fn law_entry_insert_accepted<K: View, V, S: KeyHasher<K>>(
    c: CacheState<K, V, S>,
    key: K,
    value: V,
    last: V,
)
    requires
        c.inv(),
        !c.contains(key@),
        c.len() < MAX_ENTRIES,
    ensures
        c.accepts(
            key@,
            c.at_home(key@).insert_new(c.digest(key@), key, value).with_value(key@, last),
        ),
        c.with_home(key@, c.at_home(key@).insert_new(c.digest(key@), key, value)) == c.insert(
            key,
            value,
        ),
{
    let s = c.at_home(key@);
    let t = s.insert_new(c.digest(key@), key, value);
    c.lemma_home(key@);
    c.lemma_insert_new_fits(c.home(key@), s, key, value);
    lemma_insert_new(s, c.digest(key@), key, value);
    c.lemma_with_value_fits(c.home(key@), t, key@, last);
}

/// What an entry view leaves in its shard when it changes or removes a stored
/// entry keeps the cache sound.
pub proof fn law_entry_change_accepted<K: View, V, S: KeyHasher<K>>(
    c: CacheState<K, V, S>,
    key: K,
    value: V,
)
    requires
        c.inv(),
        c.contains(key@),
    ensures
        c.accepts(key@, c.at_home(key@)),
        c.accepts(key@, c.at_home(key@).with_value(key@, value)),
        c.accepts(
            key@,
            c.at_home(key@).with_entry(key@, EntryState { key, value, ..c.entry(key@) }),
        ),
        c.accepts(key@, c.at_home(key@).remove(key@)),
{
    let i = c.home(key@);
    let s = c.at_home(key@);
    c.lemma_home(key@);
    c.lemma_with_value_fits(i, s, key@, value);
    assert(s.entry_ok(key@));
    c.lemma_with_entry_fits(i, s, key@, EntryState { key, value, ..c.entry(key@) });
    c.lemma_remove_fits(i, s, key@);
}

/// Every operation on a key acts on its home shard alone.
pub proof fn law_home_alone<K: View, V, S: KeyHasher<K>>(
    c: CacheState<K, V, S>,
    key: K,
    value: V,
    i: int,
)
    requires
        c.inv(),
        0 <= i < c.shards.len(),
        i != c.home(key@),
    ensures
        c.insert(key, value).shards[i] == c.shards[i],
        c.remove(key@).shards[i] == c.shards[i],
        c.bump(key@).shards[i] == c.shards[i],
        c.with_value(key@, value).shards[i] == c.shards[i],
{
    c.lemma_home(key@);
}

/// Removal is lazy: the queues and the ghost set stay as they are.
pub proof fn law_lazy_removal<K: View, V, S: KeyHasher<K>>(c: CacheState<K, V, S>, key: K::V)
    requires
        c.inv(),
    ensures
        c.remove(key).at_home(key).small == c.at_home(key).small,
        c.remove(key).at_home(key).main == c.at_home(key).main,
        c.remove(key).at_home(key).ghosts == c.at_home(key).ghosts,
{
    c.lemma_home(key);
}

/// The small queue is swept from a tenth of the capacity on, rounded up; the
/// rest of the capacity is the main queue's.
pub proof fn law_queue_sizes(cap: nat)
    requires
        cap > 0,
    ensures
        1 <= small_cap_of(cap) <= cap,
        cap <= 10 * small_cap_of(cap) < cap + 10,
        main_cap_of(cap) >= 1,
        cap > 1 ==> small_cap_of(cap) + main_cap_of(cap) == cap,
        cap == 1 ==> small_cap_of(cap) == 1 && main_cap_of(cap) == 1,
        small_cap_of(0) == 0,
        main_cap_of(0) == 0,
{
}

/// A removed key is gone, and nothing else is.
pub proof fn law_removed<K: View, V, S: KeyHasher<K>>(c: CacheState<K, V, S>, key: K::V)
    requires
        c.inv(),
    ensures
        c.remove(key).inv(),
        !c.remove(key).contains(key),
        c.remove(key).contents() == c.contents().remove(key),
        c.contains(key) ==> c.remove(key).len() == c.len() - 1,
{
    let s = c.at_home(key);
    let t = s.remove(key);
    c.lemma_home(key);
    c.lemma_remove_fits(c.home(key), s, key);
    c.lemma_with_shard(c.home(key), t);
    assert forall|other: K::V| #[trigger]
        c.remove(key).contents().contains_key(other) <==> c.contents().remove(key).contains_key(
            other,
        ) by {
        lemma_elsewhere(c, key, t, other);
    }
    assert forall|other: K::V| #[trigger]
        c.remove(key).contents().contains_key(other) implies c.remove(key).contents()[other]
        == c.contents().remove(key)[other] by {
        lemma_elsewhere(c, key, t, other);
    }
    lemma_elsewhere(c, key, t, key);
    assert(c.remove(key).contents() =~= c.contents().remove(key));
}

/// A removed key can be inserted again, and is found with its new value.
pub proof fn law_remove_then_insert<K: View, V, S: KeyHasher<K>>(
    c: CacheState<K, V, S>,
    key: K,
    value: V,
)
    requires
        c.inv(),
    ensures
        c.remove(key@).insert(key, value).contains(key@),
        c.remove(key@).insert(key, value).entry(key@).value == value,
{
    law_removed(c, key@);
    law_insert_found(c.remove(key@), key, value);
}

/// A lookup changes no contents; it counts the access of a stored key, up to the
/// highest frequency.
pub proof fn law_access<K: View, V, S: KeyHasher<K>>(c: CacheState<K, V, S>, key: K::V)
    requires
        c.inv(),
    ensures
        c.bump(key).inv(),
        c.bump(key).contents() == c.contents(),
        c.bump(key).len() == c.len(),
        c.contains(key) ==> c.bump(key).entry(key) == (EntryState {
            freq: bumped(c.entry(key).freq),
            ..c.entry(key)
        }),
        !c.contains(key) ==> c.bump(key) == c,
{
    let s = c.at_home(key);
    let t = s.bump(key);
    c.lemma_home(key);
    c.lemma_bump_fits(c.home(key), s, key);
    c.lemma_with_shard(c.home(key), t);
    assert forall|other: K::V| #[trigger]
        c.bump(key).contents().contains_key(other) <==> c.contents().contains_key(other) by {
        lemma_elsewhere(c, key, t, other);
    }
    assert forall|other: K::V| #[trigger]
        c.bump(key).contents().contains_key(other) implies c.bump(key).contents()[other]
        == c.contents()[other] by {
        lemma_elsewhere(c, key, t, other);
    }
    assert(c.bump(key).contents() =~= c.contents());
    assert(c.with_home(key, s) =~= c) by {
        assert(c.shards.update(c.home(key), s) =~= c.shards);
    }
}

/// The cache after `n` accesses to `key`.
pub open spec fn accessed<K: View, V, S: KeyHasher<K>>(
    c: CacheState<K, V, S>,
    key: K::V,
    n: nat,
) -> CacheState<K, V, S>
    decreases n,
{
    if n == 0 {
        c
    } else {
        accessed(c, key, (n - 1) as nat).bump(key)
    }
}

/// The frequency counts accesses and stops at the highest frequency.
pub proof fn law_frequency<K: View, V, S: KeyHasher<K>>(
    c: CacheState<K, V, S>,
    key: K::V,
    n: nat,
)
    requires
        c.inv(),
        c.contains(key),
    ensures
        accessed(c, key, n).inv(),
        accessed(c, key, n).contains(key),
        accessed(c, key, n).contents() == c.contents(),
        accessed(c, key, n).entry(key).freq == (if c.entry(key).freq + n < MAX_FREQ {
            c.entry(key).freq + n
        } else {
            MAX_FREQ as int
        }),
    decreases n,
{
    c.lemma_home(key);
    assert(c.at_home(key).entry_ok(key));
    if n > 0 {
        law_frequency(c, key, (n - 1) as nat);
        let before = accessed(c, key, (n - 1) as nat);
        law_access(before, key);
        before.lemma_home(key);
        lemma_elsewhere(before, key, before.at_home(key).bump(key), key);
    }
}

/// The cache after the keys of `pairs` are accessed one by one, as an iterator
/// does that hands the pairs out.
pub open spec fn walked<K: View, V, S: KeyHasher<K>>(
    c: CacheState<K, V, S>,
    pairs: Seq<(K, V)>,
) -> CacheState<K, V, S>
    decreases pairs.len(),
{
    if pairs.len() == 0 {
        c
    } else {
        walked(c.bump(pairs[0].0@), pairs.skip(1))
    }
}

/// Accessing different keys one by one counts one access of each.
proof fn lemma_walked<K: View, V, S: KeyHasher<K>>(c: CacheState<K, V, S>, pairs: Seq<(K, V)>)
    requires
        c.inv(),
        forall|i: int, j: int|
            0 <= i < j < pairs.len() ==> (#[trigger] pairs[i]).0@ != (#[trigger] pairs[j]).0@,
    ensures
        walked(c, pairs).inv(),
        walked(c, pairs).same_but_entries(c),
        walked(c, pairs).contents() == c.contents(),
        forall|i: int|
            0 <= i < pairs.len() && c.contains((#[trigger] pairs[i]).0@) ==> walked(c, pairs).entry(
                pairs[i].0@,
            ) == (EntryState {
                freq: bumped(c.entry(pairs[i].0@).freq),
                ..c.entry(pairs[i].0@)
            }),
        forall|key: K::V|
            (forall|i: int| 0 <= i < pairs.len() ==> (#[trigger] pairs[i]).0@ != key)
                ==> #[trigger] walked(c, pairs).lookup(key) == c.lookup(key),
    decreases pairs.len(),
{
    if pairs.len() > 0 {
        let first = pairs[0].0@;
        let t = c.bump(first);
        let rest = pairs.skip(1);
        law_access(c, first);
        c.lemma_home(first);
        assert forall|i: int, j: int| 0 <= i < j < rest.len() implies (#[trigger] rest[i]).0@ != (
        #[trigger] rest[j]).0@ by {
            assert(rest[i] == pairs[i + 1] && rest[j] == pairs[j + 1]);
        }
        lemma_walked(t, rest);
        let w = walked(t, rest);
        assert forall|i: int| 0 <= i < c.shards.len() implies #[trigger] w.shards[i]
            == c.shards[i].with_entries(w.shards[i].entries) by {
            assert(w.shards[i] == t.shards[i].with_entries(w.shards[i].entries));
        }
        assert forall|key: K::V|
            (forall|i: int| 0 <= i < pairs.len() ==> (#[trigger] pairs[i]).0@ != key) implies
            #[trigger] w.lookup(key) == c.lookup(key) by {
            assert(pairs[0].0@ != key);
            assert forall|i: int| 0 <= i < rest.len() implies (#[trigger] rest[i]).0@ != key by {
                assert(rest[i] == pairs[i + 1]);
            }
            lemma_elsewhere(c, first, c.at_home(first).bump(first), key);
            assert(t.lookup(key) == c.lookup(key));
        }
        assert forall|i: int| 0 <= i < pairs.len() && c.contains((#[trigger] pairs[i]).0@) implies
            w.entry(pairs[i].0@) == (EntryState {
                freq: bumped(c.entry(pairs[i].0@).freq),
                ..c.entry(pairs[i].0@)
            }) by {
            let key = pairs[i].0@;
            if i == 0 {
                assert forall|j: int| 0 <= j < rest.len() implies (#[trigger] rest[j]).0@ != key by {
                    assert(rest[j] == pairs[j + 1]);
                }
                assert(w.lookup(key) == t.lookup(key));
                assert(t.contains(key)) by {
                    assert(t.contents().contains_key(key) <==> c.contents().contains_key(key));
                }
                assert(w.contains(key));
            } else {
                assert(rest[i - 1] == pairs[i]);
                assert(pairs[0].0@ != pairs[i].0@);
                lemma_elsewhere(c, first, c.at_home(first).bump(first), key);
                assert(t.lookup(key) == c.lookup(key));
            }
        }
    }
}

/// Handing out each pair of a cache once counts one access of each entry, up to
/// the highest frequency. Nothing else changes: the entries keep their values
/// and their places, and the queues and ghost sets stay.
pub proof fn law_iteration<K: View, V, S: KeyHasher<K>>(
    c: CacheState<K, V, S>,
    pairs: Seq<(K, V)>,
)
    requires
        c.inv(),
        lists(pairs, c.entries()),
    ensures
        walked(c, pairs).inv(),
        walked(c, pairs).same_but_entries(c),
        walked(c, pairs).contents() == c.contents(),
        forall|key: K::V| #[trigger]
            c.contains(key) ==> walked(c, pairs).entry(key) == (EntryState {
                freq: bumped(c.entry(key).freq),
                ..c.entry(key)
            }),
{
    lemma_walked(c, pairs);
    assert forall|key: K::V| #[trigger] c.contains(key) implies walked(c, pairs).entry(key) == (
    EntryState { freq: bumped(c.entry(key).freq), ..c.entry(key) }) by {
        assert(c.entries().contains_key(key));
        let i = choose|i: int| 0 <= i < pairs.len() && (#[trigger] pairs[i]).0@ == key;
        assert(c.contains(pairs[i].0@));
    }
}

/// A value that was written is read back, and no other value changes.
pub proof fn law_written<K: View, V, S: KeyHasher<K>>(
    c: CacheState<K, V, S>,
    key: K::V,
    value: V,
)
    requires
        c.inv(),
        c.contains(key),
    ensures
        c.with_value(key, value).inv(),
        c.with_value(key, value).contents() == c.contents().insert(key, value),
        c.with_value(key, value).entry(key) == (EntryState { value, ..c.entry(key) }),
        c.with_value(key, value).len() == c.len(),
{
    let s = c.at_home(key);
    let t = s.with_value(key, value);
    c.lemma_home(key);
    c.lemma_with_value_fits(c.home(key), s, key, value);
    c.lemma_with_shard(c.home(key), t);
    assert forall|other: K::V| #[trigger]
        c.with_value(key, value).contents().contains_key(other) <==> c.contents().insert(
            key,
            value,
        ).contains_key(other) by {
        lemma_elsewhere(c, key, t, other);
    }
    assert forall|other: K::V| #[trigger]
        c.with_value(key, value).contents().contains_key(other) implies c.with_value(
        key,
        value,
    ).contents()[other] == c.contents().insert(key, value)[other] by {
        lemma_elsewhere(c, key, t, other);
    }
    assert(c.with_value(key, value).contents() =~= c.contents().insert(key, value));
}

/// The number of entries is the number of stored keys.
pub proof fn law_len<K: View, V, S: KeyHasher<K>>(c: CacheState<K, V, S>)
    requires
        c.inv(),
    ensures
        c.contents().dom().finite(),
        c.contents().len() == c.len(),
{
    lemma_keys_below(c, c.shards.len() as int);
    let n = c.shards.len() as int;
    assert(c.shards.take(n) =~= c.shards);
    assert(keys_below(c, n) =~= c.contents().dom()) by {
        assert forall|key: K::V| #[trigger] c.contains(key) implies c.home(key) < n by {
            c.lemma_home(key);
        }
    }
}

/// The keys that are at home in the first `n` shards.
spec fn keys_below<K: View, V, S: KeyHasher<K>>(c: CacheState<K, V, S>, n: int) -> Set<K::V> {
    Set::new(|key: K::V| c.contains(key) && c.home(key) < n)
}

/// The first shards' keys are as many as their entries.
proof fn lemma_keys_below<K: View, V, S: KeyHasher<K>>(c: CacheState<K, V, S>, n: int)
    requires
        c.inv(),
        0 <= n <= c.shards.len(),
    ensures
        keys_below(c, n).finite(),
        keys_below(c, n).len() == total(c.shards.take(n)),
    decreases n,
{
    if n == 0 {
        assert(c.shards.take(0) =~= Seq::empty());
        assert forall|key: K::V| !#[trigger] keys_below(c, 0).contains(key) by {
            c.lemma_home(key);
        }
        assert(keys_below(c, 0) =~= Set::empty());
    } else {
        lemma_keys_below(c, n - 1);
        let shard = c.shards[n - 1];
        assert(c.fits(n - 1, shard));
        assert(c.shards.take(n).drop_last() =~= c.shards.take(n - 1));
        let before = keys_below(c, n - 1);
        let more = shard.entries.dom();
        assert forall|key: K::V| #[trigger] more.contains(key) implies c.contains(key) && c.home(key)
            == n - 1 by {
            assert(shard.entries.contains_key(key));
            c.lemma_entry_home(n - 1, key);
        }
        assert(keys_below(c, n) =~= before.union(more));
        assert(before.disjoint(more));
        vstd::set_lib::lemma_set_disjoint_lens(before, more);
    }
}

/// A clone holds the same keys, with clones of the values.
pub proof fn law_clone<K: View, V: Clone, S: KeyHasher<K>>(
    c: CacheState<K, V, S>,
    copy: CacheState<K, V, S>,
)
    requires
        c.inv(),
        copy.inv(),
        c.copied_to(copy),
    ensures
        copy.len() == c.len(),
        copy.contents().dom() == c.contents().dom(),
        forall|key: K::V| #[trigger]
            c.contains(key) ==> cloned(c.contents()[key], copy.contents()[key]),
{
    assert forall|key: K::V|
        (#[trigger] copy.contains(key) <==> c.contains(key)) && (c.contains(key) ==> cloned(
            c.contents()[key],
            copy.contents()[key],
        )) by {
        c.lemma_home(key);
        assert(copy.digest(key) == c.digest(key));
        let i = c.home(key);
        assert(c.shards[i].copied_to(copy.shards[i]));
        if c.contains(key) {
            assert(c.shards[i].entries[key].copied_to(copy.shards[i].entries[key]));
        }
    }
    assert(copy.contents().dom() =~= c.contents().dom());
    assert forall|key: K::V| #[trigger] c.contains(key) implies cloned(
        c.contents()[key],
        copy.contents()[key],
    ) by {
        assert(copy.contains(key));
    }
    law_len(c);
    law_len(copy);
}

/// The ghost set holds no more digests than the shard may hold entries, and no
/// frequency is above the highest.
pub proof fn law_bounds<K: View, V, S: KeyHasher<K>>(c: CacheState<K, V, S>, key: K::V)
    requires
        c.inv(),
    ensures
        c.capacity > 0 ==> c.at_home(key).ghosts.len() <= c.shard_cap(),
        c.contains(key) ==> c.entry(key).freq <= MAX_FREQ,
        c.contains(key) ==> c.entry(key).loc == LOC_SMALL || c.entry(key).loc == LOC_MAIN,
        c.contains(key) ==> c.entry(key).hash == c.digest(key),
{
    c.lemma_home(key);
    if c.capacity > 0 {
        law_capacity(c);
        assert(c.shard_cap() > 0) by (nonlinear_arith)
            requires
                c.shard_cap() * c.shards.len() >= c.capacity,
                c.capacity > 0,
        ;
    }
    if c.contains(key) {
        assert(c.at_home(key).entry_ok(key));
    }
}

/// A key's home is told by its digest: the seven highest bits are left out, and
/// of the others the highest count.
pub proof fn law_home<K: View, V, S: KeyHasher<K>>(c: CacheState<K, V, S>, key: K::V)
    requires
        c.inv(),
    ensures
        0 <= c.home(key) < c.shards.len(),
        c.shards.len() * pow2(c.shift as nat) == usize::MAX + 1,
        c.shift >= 7 ==> c.home(key) == (c.hasher.digest(key) as usize as nat % pow2(
            (usize::BITS - 7) as nat,
        )) / pow2((c.shift - 7) as nat),
        c.shift < 7 ==> c.home(key) == (c.hasher.digest(key) as usize as nat % pow2(
            (usize::BITS - 7) as nat,
        )) * pow2((7 - c.shift) as nat),
{
    c.lemma_home(key);
    law_shift(c.shift, c.shards.len() as int);
    law_route(c.digest(key) as usize, c.shift);
}

/// What a cache holds under a key is what the key's home shard holds under it.
pub proof fn law_reads<K: View, V, S: KeyHasher<K>>(c: CacheState<K, V, S>, key: K::V)
    requires
        c.inv(),
    ensures
        ({
            let s = c.shards[c.home(key)];
            &&& c.at_home(key) == s
            &&& c.digest(key) == c.hasher.digest(key)
            &&& c.contains(key) <==> s.entries.contains_key(key)
            &&& c.entries().contains_key(key) <==> s.entries.contains_key(key)
            &&& c.contents().contains_key(key) <==> s.entries.contains_key(key)
            &&& s.entries.contains_key(key) ==> {
                &&& c.entry(key) == s.entries[key]
                &&& c.lookup(key) == Some(s.entries[key])
                &&& c.entries()[key] == s.entries[key]
                &&& c.contents()[key] == s.entries[key].value
                &&& s.entries[key].key@ == key
            }
            &&& !s.entries.contains_key(key) ==> c.lookup(key) == None::<EntryState<K, V>>
        }),
{
    c.lemma_home(key);
    let s = c.shards[c.home(key)];
    if s.entries.contains_key(key) {
        assert(s.entry_ok(key));
    }
}

/// What an operation on a key does to the key's home shard. The number of shards,
/// the other shards, the hasher and the capacity stay as they are.
pub proof fn law_on_home<K: View, V, S: KeyHasher<K>>(
    c: CacheState<K, V, S>,
    key: K,
    value: V,
    shard: ShardState<K, V>,
)
    requires
        c.inv(),
    ensures
        ({
            let s = c.shards[c.home(key@)];
            let home = c.home(key@);
            &&& c.with_home(key@, shard).shards[home] == shard
            &&& s.entries.contains_key(key@) ==> {
                &&& c.insert(key, value).shards[home] == (ShardState {
                    entries: s.entries.insert(
                        key@,
                        EntryState { value, ..s.entries[key@] },
                    ),
                    ..s
                })
                &&& c.with_value(key@, value).shards[home] == (ShardState {
                    entries: s.entries.insert(
                        key@,
                        EntryState { value, ..s.entries[key@] },
                    ),
                    ..s
                })
                &&& c.bump(key@).shards[home] == (ShardState {
                    entries: s.entries.insert(
                        key@,
                        EntryState {
                            freq: if s.entries[key@].freq < 3 {
                                (s.entries[key@].freq + 1) as u8
                            } else {
                                3
                            },
                            ..s.entries[key@]
                        },
                    ),
                    ..s
                })
            }
            &&& !s.entries.contains_key(key@) ==> {
                &&& c.insert(key, value).shards[home] == s.insert_new(
                    c.hasher.digest(key@),
                    key,
                    value,
                )
                &&& c.bump(key@).shards[home] == s
            }
            &&& c.remove(key@).shards[home] == (ShardState {
                entries: s.entries.remove(key@),
                ..s
            })
            &&& forall|t: CacheState<K, V, S>|
                t == c.insert(key, value) || t == c.remove(key@) || t == c.bump(key@) || t
                    == c.with_value(key@, value) || t == c.with_home(key@, shard) ==> {
                    &&& (#[trigger] t.shards).len() == c.shards.len()
                    &&& t.shift == c.shift
                    &&& t.hasher == c.hasher
                    &&& t.capacity == c.capacity
                    &&& forall|i: int|
                        0 <= i < c.shards.len() && i != home ==> t.shards[i] == c.shards[i]
                }
        }),
{
    c.lemma_home(key@);
    let s = c.shards[c.home(key@)];
    if s.entries.contains_key(key@) {
        assert(s.entry_ok(key@));
    }
}

/// A stored key's entry changes alone: no operation on a key that is stored
/// touches what is stored under another key.
pub proof fn law_others_untouched<K: View, V, S: KeyHasher<K>>(
    c: CacheState<K, V, S>,
    key: K,
    value: V,
    other: K::V,
)
    requires
        c.inv(),
        other != key@,
    ensures
        c.contains(key@) ==> c.insert(key, value).lookup(other) == c.lookup(other),
        c.contains(key@) ==> c.with_value(key@, value).lookup(other) == c.lookup(other),
        c.remove(key@).lookup(other) == c.lookup(other),
        c.bump(key@).lookup(other) == c.lookup(other),
{
    let s = c.at_home(key@);
    lemma_elsewhere(c, key@, s.insert(c.digest(key@), key, value), other);
    lemma_elsewhere(c, key@, s.with_value(key@, value), other);
    lemma_elsewhere(c, key@, s.remove(key@), other);
    lemma_elsewhere(c, key@, s.bump(key@), other);
}

/// An insertion touches no key that is at home in another shard.
pub proof fn law_insert_elsewhere<K: View, V, S: KeyHasher<K>>(
    c: CacheState<K, V, S>,
    key: K,
    value: V,
    other: K::V,
)
    requires
        c.inv(),
        c.home(other) != c.home(key@),
    ensures
        c.insert(key, value).lookup(other) == c.lookup(other),
{
    lemma_elsewhere(c, key@, c.at_home(key@).insert(c.digest(key@), key, value), other);
}

/// Clearing empties each shard with its queues and its ghost set, and changes
/// nothing else.
pub proof fn law_cleared_shards<K: View, V, S: KeyHasher<K>>(c: CacheState<K, V, S>, i: int)
    requires
        c.inv(),
        0 <= i < c.shards.len(),
    ensures
        c.cleared().shards.len() == c.shards.len(),
        c.cleared().shift == c.shift,
        c.cleared().hasher == c.hasher,
        c.cleared().capacity == c.capacity,
        c.cleared().shards[i].entries == Map::<K::V, EntryState<K, V>>::empty(),
        c.cleared().shards[i].small.len() == 0,
        c.cleared().shards[i].main.len() == 0,
        c.cleared().shards[i].ghosts == Set::<u64>::empty(),
        c.cleared().shards[i].cap == c.shards[i].cap,
{
}

/// Each shard has an equal share of the capacity, rounded up; a cache without a
/// capacity has shards without one.
pub proof fn law_share<K: View, V, S: KeyHasher<K>>(c: CacheState<K, V, S>, i: int)
    requires
        c.inv(),
        0 <= i < c.shards.len(),
    ensures
        c.capacity == 0 ==> c.shards[i].cap == 0,
        c.capacity <= c.shards[i].cap * c.shards.len(),
        c.capacity > 0 ==> (c.shards[i].cap - 1) * c.shards.len() < c.capacity,
        c.shards[i].cap == c.shard_cap(),
{
    assert(c.fits(i, c.shards[i]));
    law_shard_cap(c.capacity as int, c.shards.len() as int);
    if c.capacity > 0 {
        law_capacity(c);
    }
}

/// A new cache has the shards that it was asked for if its capacity is at least
/// four times their number, or if it has none. Otherwise it has as many as a
/// fourth of the capacity, rounded up to a power of two, and at least two. They
/// are all empty.
pub proof fn law_fresh_shards<K: View, V, S: KeyHasher<K>>(
    c: CacheState<K, V, S>,
    capacity: nat,
    shard_amount: int,
    i: int,
)
    requires
        c.inv(),
        shard_amount > 1,
        is_pow2(shard_amount),
        c.is_fresh(capacity, shard_amount),
        0 <= i < c.shards.len(),
    ensures
        c.capacity == capacity,
        capacity == 0 || capacity >= 4 * shard_amount ==> c.shards.len() == shard_amount,
        0 < capacity < 4 * shard_amount ==> {
            let n = c.shards.len() as int;
            n >= 2 && n >= capacity / 4 && (n == 2 || n < 2 * (capacity / 4))
        },
        capacity <= c.shards[i].cap * c.shards.len(),
        capacity > 0 ==> (c.shards[i].cap - 1) * c.shards.len() < capacity,
        capacity == 0 ==> c.shards[i].cap == 0,
        c.shards[i].entries == Map::<K::V, EntryState<K, V>>::empty(),
        c.shards[i].small.len() == 0,
        c.shards[i].main.len() == 0,
        c.shards[i].ghosts == Set::<u64>::empty(),
{
    law_shard_amount(capacity as int, shard_amount);
    law_share(c, i);
    assert(c.shards[i] == ShardState::<K, V>::empty(c.shard_cap()));
}

/// Where nothing but the entries differs, the shards have the same queues, the
/// same ghosts, and the same capacity.
pub proof fn law_same_but_entries<K: View, V, S: KeyHasher<K>>(
    c: CacheState<K, V, S>,
    before: CacheState<K, V, S>,
)
    requires
        c.same_but_entries(before),
    ensures
        c.shift == before.shift,
        c.hasher == before.hasher,
        c.capacity == before.capacity,
        c.shards.len() == before.shards.len(),
        forall|i: int|
            0 <= i < c.shards.len() ==> {
                &&& (#[trigger] c.shards[i]).small == before.shards[i].small
                &&& c.shards[i].main == before.shards[i].main
                &&& c.shards[i].ghosts == before.shards[i].ghosts
                &&& c.shards[i].cap == before.shards[i].cap
                &&& c.shards[i].clock == before.shards[i].clock
            },
{
    assert forall|i: int| 0 <= i < c.shards.len() implies {
        &&& (#[trigger] c.shards[i]).small == before.shards[i].small
        &&& c.shards[i].main == before.shards[i].main
        &&& c.shards[i].ghosts == before.shards[i].ghosts
        &&& c.shards[i].cap == before.shards[i].cap
        &&& c.shards[i].clock == before.shards[i].clock
    } by {
        assert(c.shards[i] == before.shards[i].with_entries(c.shards[i].entries));
    }
}

/// A clone has the eviction state of its source: the same shards with the same
/// queues, ghosts and capacities, and entries with the same frequencies in the
/// same queues.
pub proof fn law_clone_shards<K: View, V: Clone, S: KeyHasher<K>>(
    c: CacheState<K, V, S>,
    copy: CacheState<K, V, S>,
    i: int,
)
    requires
        c.copied_to(copy),
        0 <= i < c.shards.len(),
    ensures
        copy.shift == c.shift,
        copy.capacity == c.capacity,
        copy.shards.len() == c.shards.len(),
        forall|key: K::V| #[trigger] copy.hasher.digest(key) == c.hasher.digest(key),
        copy.shards[i].small == c.shards[i].small,
        copy.shards[i].main == c.shards[i].main,
        copy.shards[i].ghosts == c.shards[i].ghosts,
        copy.shards[i].cap == c.shards[i].cap,
        copy.shards[i].clock == c.shards[i].clock,
        copy.shards[i].entries.dom() == c.shards[i].entries.dom(),
        forall|key: K::V| #[trigger]
            c.shards[i].entries.contains_key(key) ==> {
                let entry = c.shards[i].entries[key];
                let twin = copy.shards[i].entries[key];
                &&& cloned(entry.value, twin.value)
                &&& twin.key@ == entry.key@
                &&& twin.hash == entry.hash
                &&& twin.freq == entry.freq
                &&& twin.loc == entry.loc
                &&& twin.stamp == entry.stamp
            },
{
    assert(c.shards[i].copied_to(copy.shards[i]));
    assert forall|key: K::V| #[trigger] copy.hasher.digest(key) == c.hasher.digest(key) by {
        assert(copy.digest(key) == c.digest(key));
    }
}

/// What a map holds after pairs were put into it: the value of the last pair with
/// the key, or what it held before if there is none.
pub proof fn law_put_all<K: View, V>(map: Map<K::V, V>, pairs: Seq<(K, V)>, key: K::V)
    ensures
        (forall|i: int| 0 <= i < pairs.len() ==> (#[trigger] pairs[i]).0@ != key) ==> {
            &&& put_all(map, pairs).contains_key(key) <==> map.contains_key(key)
            &&& map.contains_key(key) ==> put_all(map, pairs)[key] == map[key]
        },
        forall|i: int|
            0 <= i < pairs.len() && (#[trigger] pairs[i]).0@ == key && (forall|j: int|
                i < j < pairs.len() ==> (#[trigger] pairs[j]).0@ != key) ==> put_all(
                map,
                pairs,
            ).contains_key(key) && put_all(map, pairs)[key] == pairs[i].1,
    decreases pairs.len(),
{
    if pairs.len() > 0 {
        let front = pairs.drop_last();
        law_put_all(map, front, key);
        assert forall|i: int|
            0 <= i < pairs.len() && (#[trigger] pairs[i]).0@ == key && (forall|j: int|
                i < j < pairs.len() ==> (#[trigger] pairs[j]).0@ != key) implies put_all(
            map,
            pairs,
        ).contains_key(key) && put_all(map, pairs)[key] == pairs[i].1 by {
            if i < pairs.len() - 1 {
                assert(pairs[pairs.len() - 1].0@ != key);
                assert(front[i] == pairs[i]);
                assert forall|j: int| i < j < front.len() implies (#[trigger] front[j]).0@
                    != key by {
                    assert(front[j] == pairs[j]);
                }
            }
        }
        if forall|i: int| 0 <= i < pairs.len() ==> (#[trigger] pairs[i]).0@ != key {
            assert(pairs[pairs.len() - 1].0@ != key);
            assert forall|i: int| 0 <= i < front.len() implies (#[trigger] front[i]).0@ != key by {
                assert(front[i] == pairs[i]);
            }
        }
    }
}

/// Storing no pairs changes nothing, storing one pair is an insertion, and storing
/// pairs and then more pairs is storing them all.
pub proof fn law_insert_all<K: View, V, S: KeyHasher<K>>(
    c: CacheState<K, V, S>,
    left: Seq<(K, V)>,
    right: Seq<(K, V)>,
    key: K,
    value: V,
)
    ensures
        c.insert_all(Seq::empty()) == c,
        c.insert_all(seq![(key, value)]) == c.insert(key, value),
        c.insert_all(left + right) == c.insert_all(left).insert_all(right),
    decreases right.len(),
{
    reveal_with_fuel(CacheState::insert_all, 2);
    let one = seq![(key, value)];
    assert(one.drop_last() =~= Seq::empty());
    if right.len() == 0 {
        assert(left + right =~= left);
        assert(right =~= Seq::empty());
    } else {
        assert((left + right).drop_last() =~= left + right.drop_last());
        assert((left + right).last() == right.last());
        law_insert_all(c, left, right.drop_last(), key, value);
    }
}

/// A cache stays sound when pairs are stored, as long as it is not too full for
/// the machine.
proof fn lemma_insert_all<K: View, V, S: KeyHasher<K>>(
    c: CacheState<K, V, S>,
    pairs: Seq<(K, V)>,
)
    requires
        c.inv(),
        c.len() + pairs.len() <= MAX_ENTRIES,
    ensures
        c.insert_all(pairs).inv(),
        c.insert_all(pairs).len() <= c.len() + pairs.len(),
    decreases pairs.len(),
{
    if pairs.len() > 0 {
        lemma_insert_all(c, pairs.drop_last());
        law_insert_sound(c.insert_all(pairs.drop_last()), pairs.last().0, pairs.last().1);
    }
}

/// Of pairs that are stored in order the last is found afterwards, whatever the
/// capacity, and what else is found comes from the pairs or was there before.
pub proof fn law_last_pair_found<K: View, V, S: KeyHasher<K>>(
    c: CacheState<K, V, S>,
    pairs: Seq<(K, V)>,
)
    requires
        c.inv(),
        c.len() + pairs.len() <= MAX_ENTRIES,
    ensures
        c.insert_all(pairs).inv(),
        pairs.len() > 0 ==> c.insert_all(pairs).contains(pairs.last().0@) && c.insert_all(
            pairs,
        ).entry(pairs.last().0@).value == pairs.last().1,
        forall|key: K::V| #[trigger]
            c.insert_all(pairs).contains(key) ==> put_all(c.contents(), pairs).contains_key(key)
                && c.insert_all(pairs).entry(key).value == put_all(c.contents(), pairs)[key],
    decreases pairs.len(),
{
    lemma_insert_all(c, pairs);
    if pairs.len() > 0 {
        let before = c.insert_all(pairs.drop_last());
        let (key, value) = pairs.last();
        law_last_pair_found(c, pairs.drop_last());
        law_insert_found(before, key, value);
        assert forall|other: K::V| #[trigger] c.insert_all(pairs).contains(other) implies put_all(
            c.contents(),
            pairs,
        ).contains_key(other) && c.insert_all(pairs).entry(other).value == put_all(
            c.contents(),
            pairs,
        )[other] by {
            if other != key@ {
                assert(before.contains(other));
            }
        }
    } else {
        assert forall|key: K::V| #[trigger] c.contains(key) implies c.contents().contains_key(key)
            && c.entry(key).value == c.contents()[key] by {}
    }
}

/// Where each pair finds its key stored, or a free place in the key's home shard,
/// nothing is evicted: all pairs are there, and all that was there before.
pub proof fn law_pairs_all_there<K: View, V, S: KeyHasher<K>>(
    c: CacheState<K, V, S>,
    pairs: Seq<(K, V)>,
)
    requires
        c.inv(),
        c.len() + pairs.len() <= MAX_ENTRIES,
        forall|i: int|
            0 <= i < pairs.len() ==> {
                let before = c.insert_all(pairs.take(i));
                let key = (#[trigger] pairs[i]).0@;
                before.contains(key) || before.at_home(key).cap == 0
                    || before.at_home(key).entries.len() < before.at_home(key).cap
            },
    ensures
        c.insert_all(pairs).contents() == put_all(c.contents(), pairs),
    decreases pairs.len(),
{
    if pairs.len() > 0 {
        let front = pairs.drop_last();
        let before = c.insert_all(front);
        let (key, value) = pairs.last();
        assert forall|i: int| 0 <= i < front.len() implies {
            let before = c.insert_all(front.take(i));
            let key = (#[trigger] front[i]).0@;
            before.contains(key) || before.at_home(key).cap == 0
                || before.at_home(key).entries.len() < before.at_home(key).cap
        } by {
            assert(front[i] == pairs[i]);
            assert(front.take(i) =~= pairs.take(i));
        }
        law_pairs_all_there(c, front);
        lemma_insert_all(c, front);
        assert(pairs.take(pairs.len() - 1) =~= front);
        assert(pairs[pairs.len() - 1] == (key, value));
        before.lemma_home(key@);
        law_share(before, before.home(key@));
        if before.contains(key@) {
            law_replace_keeps(before, key, value);
        } else {
            if before.at_home(key@).cap == 0 && before.capacity > 0 {
                assert(before.shards[before.home(key@)].cap * before.shards.len() == 0)
                    by (nonlinear_arith)
                    requires
                        before.shards[before.home(key@)].cap == 0,
                ;
            }
            law_insert_evicts(before, key, value);
        }
    }
}

/// Storing pairs whose keys are all stored gives those keys the new values, of two
/// with the same key the later one, and evicts nothing, whatever the capacity.
pub proof fn law_stored_pairs<K: View, V, S: KeyHasher<K>>(
    c: CacheState<K, V, S>,
    pairs: Seq<(K, V)>,
)
    requires
        c.inv(),
        forall|i: int| 0 <= i < pairs.len() ==> c.contains((#[trigger] pairs[i]).0@),
    ensures
        c.insert_all(pairs).inv(),
        c.insert_all(pairs).contents() == put_all(c.contents(), pairs),
        c.insert_all(pairs).len() == c.len(),
        forall|key: K::V| #[trigger] c.insert_all(pairs).contains(key) <==> c.contains(key),
    decreases pairs.len(),
{
    if pairs.len() > 0 {
        let front = pairs.drop_last();
        let before = c.insert_all(front);
        let (key, value) = pairs.last();
        assert forall|i: int| 0 <= i < front.len() implies c.contains((#[trigger] front[i]).0@) by {
            assert(front[i] == pairs[i]);
        }
        law_stored_pairs(c, front);
        assert(c.contains(pairs[pairs.len() - 1].0@));
        assert(before.contains(key@));
        law_replace_keeps(before, key, value);
        law_insert_sound(before, key, value);
        let after = c.insert_all(pairs);
        assert forall|other: K::V| #[trigger] after.contains(other) <==> c.contains(other) by {
            assert(after.contents().contains_key(other) <==> before.contents().insert(
                key@,
                value,
            ).contains_key(other));
            assert(before.contains(other) <==> c.contains(other));
        }
    }
}

/// The frequency of a key counts its accesses up to three, whatever order the
/// accesses of other keys come in.
pub proof fn law_frequency_apart<K: View, V, S: KeyHasher<K>>(
    c: CacheState<K, V, S>,
    key: K::V,
    other: K::V,
)
    requires
        c.inv(),
        c.contains(key),
        key != other,
    ensures
        c.bump(key).bump(other).lookup(key) == c.bump(key).lookup(key),
        c.bump(other).bump(key).lookup(key) == c.bump(key).lookup(key),
        c.bump(key).entry(key).freq == (if c.entry(key).freq < 3 {
            c.entry(key).freq + 1
        } else {
            3
        }),
{
    law_access(c, key);
    law_access(c, other);
    c.lemma_home(key);
    assert(c.at_home(key).entry_ok(key));
    lemma_elsewhere(c, other, c.at_home(other).bump(other), key);
    let d = c.bump(key);
    lemma_elsewhere(d, other, d.at_home(other).bump(other), key);
    let e = c.bump(other);
    lemma_elsewhere(e, key, e.at_home(key).bump(key), key);
    lemma_elsewhere(c, key, c.at_home(key).bump(key), key);
}

} // verus!
