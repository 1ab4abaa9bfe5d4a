//! How many shards a cache has, how large each is, and which shard a digest
//! leads to.
use crate::util::{ceil_div, div_ceil, law_ceil_div, ptr_size_bits};
use vstd::arithmetic::power2::{
    is_pow2, lemma_pow2, lemma_pow2_adds, lemma_pow2_pos, lemma_pow2_strictly_increases,
    lemma_pow2_unfold, pow2,
};
use vstd::prelude::*;

verus! {

/// `p` is the least power of two that is not below `n`.
pub open spec fn is_next_pow2(n: int, p: int) -> bool {
    &&& is_pow2(p)
    &&& n <= p
    &&& forall|q: int| #[trigger] is_pow2(q) && n <= q ==> p <= q
}

/// The least power of two that is not below `n`.
pub open spec fn next_pow2(n: int) -> int {
    choose|p: int| is_next_pow2(n, p)
}

/// There is only one least power of two.
proof fn lemma_next_pow2(n: int, p: int)
    requires
        is_next_pow2(n, p),
    ensures
        next_pow2(n) == p,
{
    let q = next_pow2(n);
    assert(is_next_pow2(n, q));
}

/// A power of two is two to the power of something.
proof fn lemma_pow2_exponent(n: int) -> (e: nat)
    requires
        is_pow2(n),
    ensures
        n == pow2(e),
{
    vstd::arithmetic::power2::is_pow2_equiv(n);
    let e = choose|i: nat| vstd::arithmetic::power::pow(2, i) == n;
    lemma_pow2(e);
    e
}

/// Two to the power of something is a power of two.
pub proof fn lemma_is_pow2(e: nat)
    ensures
        is_pow2(pow2(e) as int),
{
    lemma_pow2(e);
    assert(vstd::arithmetic::power::pow(2, e) == pow2(e));
    vstd::arithmetic::power2::is_pow2_equiv(pow2(e) as int);
}

/// The machine's numbers are those below a power of two.
proof fn lemma_usize_range()
    ensures
        usize::MAX + 1 == pow2(usize::BITS as nat),
        usize::MAX / 2 + 1 == pow2((usize::BITS - 1) as nat),
        usize::BITS >= 32,
{
    vstd::layout::unsigned_int_max_values();
    lemma_pow2_unfold(usize::BITS as nat);
}

/// The least power of two that is not below `n`.
pub fn next_power_of_two(n: usize) -> (p: usize)
    requires
        n <= usize::MAX / 2 + 1,
    ensures
        p == next_pow2(n as int),
        is_next_pow2(n as int, p as int),
        n > 0 ==> n <= p < 2 * n,
        n == 0 ==> p == 1,
{
    let mut p: usize = 1;
    let ghost mut e: nat = 0;
    proof {
        lemma_pow2_adds(0, 0);
        lemma_pow2_pos(0);
        assert(pow2(0) == 1) by {
            vstd::arithmetic::power2::lemma2_to64();
        }
    }
    while p < n
        invariant
            n <= usize::MAX / 2 + 1,
            p == pow2(e),
            e > 0 ==> pow2((e - 1) as nat) < n,
            e == 0 ==> p == 1,
            p > 0,
        decreases usize::MAX - p,
    {
        proof {
            lemma_pow2_unfold(e + 1);
        }
        p = p * 2;
        proof {
            e = e + 1;
        }
    }
    proof {
        lemma_is_pow2(e);
        assert forall|q: int| #[trigger] is_pow2(q) && n <= q implies p <= q by {
            let k = lemma_pow2_exponent(q);
            if k < e {
                if k < e - 1 {
                    lemma_pow2_strictly_increases(k, (e - 1) as nat);
                }
            } else if k > e {
                lemma_pow2_strictly_increases(e, k);
            }
        }
        lemma_next_pow2(n as int, p as int);
        if e > 0 {
            lemma_pow2_unfold(e);
        }
    }
    p
}

/// The default number of shards for this many hardware threads: four per
/// thread, rounded up to a power of two.
pub fn default_shard_amount(parallelism: usize) -> (amount: usize)
    requires
        1 <= parallelism <= usize::MAX / 8,
    ensures
        amount == next_pow2(4 * parallelism),
        amount > 1,
        is_pow2(amount as int),
        4 * parallelism <= amount < 8 * parallelism,
{
    proof {
        law_next_pow2(4 * parallelism);
    }
    next_power_of_two(parallelism * 4)
}

/// The exponent of a power of two.
pub fn ncb(shard_amount: usize) -> (bits: usize)
    requires
        is_pow2(shard_amount as int),
    ensures
        shard_amount == pow2(bits as nat),
        bits < usize::BITS,
{
    let mut rest: usize = shard_amount;
    let mut bits: usize = 0;
    proof {
        reveal(is_pow2);
        vstd::arithmetic::power2::lemma2_to64();
        lemma_usize_range();
    }
    while rest > 1
        invariant
            is_pow2(rest as int),
            rest * pow2(bits as nat) == shard_amount,
            bits < usize::BITS,
            usize::MAX + 1 == pow2(usize::BITS as nat),
        decreases rest,
    {
        proof {
            reveal(is_pow2);
            lemma_pow2_unfold((bits + 1) as nat);
            lemma_pow2_pos((bits + 1) as nat);
            assert(rest * pow2(bits as nat) == (rest / 2) * pow2((bits + 1) as nat)) by (nonlinear_arith)
                requires
                    rest % 2 == 0,
                    pow2((bits + 1) as nat) == 2 * pow2(bits as nat),
            ;
            assert(pow2((bits + 1) as nat) <= shard_amount) by (nonlinear_arith)
                requires
                    (rest / 2) * pow2((bits + 1) as nat) == shard_amount,
                    rest / 2 >= 1,
                    pow2((bits + 1) as nat) > 0,
            ;
            if bits + 1 >= usize::BITS {
                assert(bits + 1 == usize::BITS);
            }
        }
        rest = rest / 2;
        bits = bits + 1;
    }
    proof {
        reveal(is_pow2);
        assert(rest == 1);
        assert(rest * pow2(bits as nat) == pow2(bits as nat)) by (nonlinear_arith)
            requires
                rest == 1,
        ;
    }
    bits
}

/// The number of shards of a cache with this capacity, when `shard_amount` are
/// asked for. Where a shard would hold less than four entries, there are fewer
/// shards: a fourth of the capacity, rounded up to a power of two, and at least
/// two.
pub open spec fn shards_for(cache_capacity: int, shard_amount: int) -> int {
    if cache_capacity > 0 && cache_capacity / shard_amount < 4 {
        let reduced = next_pow2(cache_capacity / 4);
        if reduced > 2 {
            reduced
        } else {
            2
        }
    } else {
        shard_amount
    }
}

/// The capacity of each of `shard_amount` shards: an equal share, rounded up.
pub open spec fn shard_cap_for(cache_capacity: int, shard_amount: int) -> int {
    if cache_capacity == 0 {
        0
    } else {
        ceil_div(cache_capacity, shard_amount)
    }
}

/// The number of shards of a cache, as [`shards_for`] says.
pub fn effective_shard_amount(cache_capacity: usize, shard_amount: usize) -> (amount: usize)
    requires
        shard_amount > 1,
        is_pow2(shard_amount as int),
    ensures
        amount == shards_for(cache_capacity as int, shard_amount as int),
        amount > 1,
        is_pow2(amount as int),
        cache_capacity == 0 || cache_capacity >= 4 * shard_amount ==> amount == shard_amount,
        0 < cache_capacity < 4 * shard_amount ==> amount >= cache_capacity / 4 && (amount == 2
            || amount < 2 * (cache_capacity / 4)),
{
    proof {
        law_shard_amount(cache_capacity as int, shard_amount as int);
    }
    if cache_capacity > 0 && cache_capacity / shard_amount < 4 {
        let reduced = next_power_of_two(cache_capacity / 4);
        if reduced > 2 {
            reduced
        } else {
            assert(is_pow2(2)) by {
                reveal(is_pow2);
                reveal_with_fuel(is_pow2, 2);
            }
            2
        }
    } else {
        shard_amount
    }
}

/// The capacity of each shard, as [`shard_cap_for`] says.
pub fn per_shard_capacity(cache_capacity: usize, shard_amount: usize) -> (cap: usize)
    requires
        shard_amount > 0,
    ensures
        cap == shard_cap_for(cache_capacity as int, shard_amount as int),
        cap > 0 <==> cache_capacity > 0,
        cap * shard_amount >= cache_capacity,
        cap > 0 ==> (cap - 1) * shard_amount < cache_capacity,
{
    if cache_capacity == 0 {
        0
    } else {
        let cap = div_ceil(cache_capacity, shard_amount);
        proof {
            law_ceil_div(cache_capacity as int, shard_amount as int);
            vstd::arithmetic::div_mod::lemma_div_is_ordered(
                shard_amount as int,
                cache_capacity + shard_amount - 1,
                shard_amount as int,
            );
            vstd::arithmetic::div_mod::lemma_div_basics(shard_amount as int);
        }
        cap
    }
}

/// The shift that leaves as many bits of a digest as the number of shards needs.
pub open spec fn shift_fits(shift: usize, shard_amount: int) -> bool {
    &&& 0 < shift < usize::BITS
    &&& shard_amount == pow2((usize::BITS - shift) as nat)
}

/// The shard that a digest leads to. The seven highest bits are left to the
/// index of the shard.
pub open spec fn route(hash: usize, shift: usize) -> usize {
    (hash << 7) >> shift
}

/// The shift for this many shards.
pub fn shift_for(shard_amount: usize) -> (shift: usize)
    requires
        shard_amount > 1,
        is_pow2(shard_amount as int),
    ensures
        shift_fits(shift, shard_amount as int),
        0 < shift < usize::BITS,
        shard_amount * pow2(shift as nat) == usize::MAX + 1,
{
    let bits = ncb(shard_amount);
    proof {
        vstd::arithmetic::power2::lemma2_to64();
        if bits == 0 {
            assert(pow2(0) == 1);
        }
        lemma_usize_range();
        lemma_pow2_adds(bits as nat, (usize::BITS - bits) as nat);
    }
    ptr_size_bits() - bits
}

/// A digest leads to one of the shards.
pub proof fn lemma_route(hash: usize, shift: usize, shard_amount: int)
    requires
        shift_fits(shift, shard_amount),
    ensures
        0 <= route(hash, shift) < shard_amount,
{
    let x = hash << 7;
    let bits = (usize::BITS - shift) as nat;
    lemma_usize_range();
    lemma_pow2_adds(shift as nat, bits);
    lemma_pow2_pos(shift as nat);
    vstd::bits::lemma_usize_shr_is_div(x, shift);
    vstd::arithmetic::div_mod::lemma_multiply_divide_lt(
        x as int,
        pow2(shift as nat) as int,
        pow2(bits) as int,
    );
}

/// The shard that a digest leads to, as [`route`] says.
pub fn shard_index(hash: usize, shift: usize) -> (index: usize)
    requires
        0 < shift < usize::BITS,
    ensures
        index == route(hash, shift),
        shift >= 7 ==> index == (hash as nat % pow2((usize::BITS - 7) as nat)) / pow2(
            (shift - 7) as nat,
        ),
        shift < 7 ==> index == (hash as nat % pow2((usize::BITS - 7) as nat)) * pow2(
            (7 - shift) as nat,
        ),
{
    proof {
        law_route(hash, shift);
    }
    (hash << 7) >> shift
}

/// The sum of numbers.
pub open spec fn sum_of(numbers: Seq<usize>) -> nat
    decreases numbers.len(),
{
    if numbers.len() == 0 {
        0
    } else {
        sum_of(numbers.drop_last()) + numbers.last() as nat
    }
}

/// The sum of numbers, or the largest machine number where the sum is larger.
pub open spec fn capped_sum(numbers: Seq<usize>) -> nat {
    if sum_of(numbers) <= usize::MAX {
        sum_of(numbers)
    } else {
        usize::MAX as nat
    }
}

/// Adds the shards' capacities up. A sum that no machine number holds is reported
/// as the largest one.
pub fn total_capacity(caps: &Vec<usize>) -> (sum: usize)
    ensures
        sum == capped_sum(caps@),
{
    let mut sum: usize = 0;
    let mut i: usize = 0;
    assert(caps@.take(0) =~= Seq::empty());
    while i < caps.len()
        invariant
            i <= caps@.len(),
            sum == capped_sum(caps@.take(i as int)),
        decreases caps@.len() - i,
    {
        assert(caps@.take(i + 1).drop_last() =~= caps@.take(i as int));
        sum = sum.saturating_add(caps[i]);
        i = i + 1;
    }
    assert(caps@.take(i as int) =~= caps@);
    sum
}

/// The shard of a digest is the number that its bits form below the seven
/// highest ones, as many bits as the number of shards needs. Nothing else of the
/// digest counts.
pub proof fn law_route(hash: usize, shift: usize)
    requires
        0 < shift < usize::BITS,
    ensures
        shift >= 7 ==> route(hash, shift) == (hash as nat % pow2((usize::BITS - 7) as nat)) / pow2(
            (shift - 7) as nat,
        ),
        shift < 7 ==> route(hash, shift) == (hash as nat % pow2((usize::BITS - 7) as nat)) * pow2(
            (7 - shift) as nat,
        ),
{
    let bits = (usize::BITS - 7) as nat;
    let low = hash & (!0usize >> 7usize);
    lemma_usize_range();
    lemma_pow2_adds(7, bits);
    lemma_pow2_pos(bits);
    vstd::arithmetic::power2::lemma2_to64();
    let top: usize = usize::MAX;
    assert(top <= !0usize) by (bit_vector);
    vstd::bits::lemma_usize_shr_is_div(!0usize, 7usize);
    let mask = !0usize >> 7usize;
    assert(mask == pow2(bits) - 1) by {
        vstd::arithmetic::div_mod::lemma_fundamental_div_mod_converse(
            usize::MAX as int,
            128,
            pow2(bits) - 1,
            127,
        );
    }
    vstd::bits::lemma_usize_low_bits_mask_is_mod(hash, bits);
    assert(low == hash as nat % pow2(bits));
    assert(hash << 7usize == (hash & (!0usize >> 7usize)) << 7usize) by (bit_vector);
    assert(low <= mask) by (bit_vector)
        requires
            low == hash & (!0usize >> 7usize),
            mask == !0usize >> 7usize,
    ;
    vstd::bits::lemma_usize_shl_is_mul(low, 7usize);
    let x = hash << 7usize;
    assert(x == low * 128);
    vstd::bits::lemma_usize_shr_is_div(x, shift);
    lemma_pow2_pos(shift as nat);
    if shift >= 7 {
        lemma_pow2_adds(7, (shift - 7) as nat);
        lemma_pow2_pos((shift - 7) as nat);
        vstd::arithmetic::div_mod::lemma_div_denominator(
            low * 128,
            128,
            pow2((shift - 7) as nat) as int,
        );
        vstd::arithmetic::div_mod::lemma_div_by_multiple(low as int, 128);
    } else {
        let up = pow2((7 - shift) as nat) as int;
        let down = pow2(shift as nat) as int;
        lemma_pow2_adds(shift as nat, (7 - shift) as nat);
        assert(low * 128 == (low * up) * down) by (nonlinear_arith)
            requires
                down * up == 128,
        ;
        vstd::arithmetic::div_mod::lemma_div_by_multiple(low * up, down);
    }
}

/// Every shard is the home of some digest, as long as there are no more shards
/// than digests can tell apart.
pub proof fn law_route_reaches(shift: usize, shard_amount: int, i: int) -> (hash: usize)
    requires
        shift_fits(shift, shard_amount),
        shift >= 7,
        0 <= i < shard_amount,
    ensures
        route(hash, shift) == i,
{
    let bits = (usize::BITS - 7) as nat;
    let step = pow2((shift - 7) as nat) as int;
    lemma_usize_range();
    lemma_pow2_pos((shift - 7) as nat);
    lemma_pow2_adds((usize::BITS - shift) as nat, (shift - 7) as nat);
    lemma_pow2_adds(7, bits);
    lemma_pow2_pos(7);
    lemma_pow2_pos(bits);
    assert(0 <= i * step < shard_amount * step) by (nonlinear_arith)
        requires
            0 <= i < shard_amount,
            step > 0,
    ;
    vstd::arithmetic::power2::lemma2_to64();
    assert(pow2(bits) <= usize::MAX) by (nonlinear_arith)
        requires
            pow2(7) * pow2(bits) == usize::MAX + 1,
            pow2(7) > 1,
            pow2(bits) > 0,
    ;
    let hash = (i * step) as usize;
    law_route(hash, shift);
    vstd::arithmetic::div_mod::lemma_small_mod(hash as nat, pow2(bits));
    vstd::arithmetic::div_mod::lemma_div_by_multiple(i, step);
    hash
}

/// Two digests have the same home exactly when they agree in the bits that
/// choose it.
pub proof fn law_route_tells_apart(left: usize, right: usize, shift: usize)
    requires
        7 <= shift < usize::BITS,
    ensures
        route(left, shift) == route(right, shift) <==> (left as nat % pow2(
            (usize::BITS - 7) as nat,
        )) / pow2((shift - 7) as nat) == (right as nat % pow2((usize::BITS - 7) as nat)) / pow2(
            (shift - 7) as nat,
        ),
{
    law_route(left, shift);
    law_route(right, shift);
}

/// The shift is that of the number of shards: the shards divide the digests
/// evenly.
pub proof fn law_shift(shift: usize, shard_amount: int)
    requires
        shift_fits(shift, shard_amount),
    ensures
        0 < shift < usize::BITS,
        shard_amount * pow2(shift as nat) == usize::MAX + 1,
{
    lemma_usize_range();
    lemma_pow2_adds((usize::BITS - shift) as nat, shift as nat);
}

/// A number has a least power of two that is not below it.
proof fn lemma_some_pow2(n: int) -> (e: nat)
    requires
        n >= 1,
    ensures
        is_next_pow2(n, pow2(e) as int),
        n <= pow2(e) < 2 * n,
    decreases n,
{
    vstd::arithmetic::power2::lemma2_to64();
    if n == 1 {
        lemma_is_pow2(0);
        assert forall|q: int| #[trigger] is_pow2(q) && 1 <= q implies 1 <= q by {}
        0
    } else {
        let half = (n + 1) / 2;
        let d = lemma_some_pow2(half);
        let e = d + 1;
        lemma_pow2_unfold(e);
        lemma_is_pow2(e);
        assert forall|q: int| #[trigger] is_pow2(q) && n <= q implies pow2(e) <= q by {
            let k = lemma_pow2_exponent(q);
            if k == 0 {
                assert(q == 1);
            } else {
                lemma_pow2_unfold(k);
                lemma_is_pow2((k - 1) as nat);
                assert(half <= pow2((k - 1) as nat));
            }
        }
        e
    }
}

/// Rounding up to a power of two gives a power of two that is not below the
/// number and below its double.
pub proof fn law_next_pow2(n: int) -> (e: nat)
    requires
        n >= 1,
    ensures
        next_pow2(n) == pow2(e),
        n <= next_pow2(n) < 2 * n,
{
    let e = lemma_some_pow2(n);
    lemma_next_pow2(n, pow2(e) as int);
    e
}

/// A cache without a capacity, or with one of at least four entries for each
/// shard, has the shards that were asked for. Otherwise their number is a fourth
/// of the capacity, rounded up to a power of two, and at least two.
pub proof fn law_shard_amount(cache_capacity: int, shard_amount: int) -> (e: nat)
    requires
        cache_capacity >= 0,
        shard_amount > 1,
        is_pow2(shard_amount),
    ensures
        shards_for(cache_capacity, shard_amount) == pow2(e),
        shards_for(cache_capacity, shard_amount) >= 2,
        cache_capacity == 0 || cache_capacity >= 4 * shard_amount ==> shards_for(
            cache_capacity,
            shard_amount,
        ) == shard_amount,
        0 < cache_capacity < 4 * shard_amount ==> {
            let n = shards_for(cache_capacity, shard_amount);
            n >= cache_capacity / 4 && (n == 2 || n < 2 * (cache_capacity / 4))
        },
{
    vstd::arithmetic::power2::lemma2_to64();
    vstd::arithmetic::div_mod::lemma_fundamental_div_mod(cache_capacity, shard_amount);
    let q = cache_capacity / shard_amount;
    let r = cache_capacity % shard_amount;
    vstd::arithmetic::div_mod::lemma_mod_bound(cache_capacity, shard_amount);
    assert(q < 4 <==> cache_capacity < 4 * shard_amount) by (nonlinear_arith)
        requires
            cache_capacity == shard_amount * q + r,
            0 <= r < shard_amount,
    ;
    let own = lemma_pow2_exponent(shard_amount);
    if 0 < cache_capacity < 4 * shard_amount {
        let fourth = cache_capacity / 4;
        if fourth >= 1 {
            let e = law_next_pow2(fourth);
            if next_pow2(fourth) > 2 {
                e
            } else {
                1
            }
        } else {
            let e = lemma_some_pow2(1);
            lemma_is_pow2(0);
            assert(is_next_pow2(0, 1)) by {
                assert forall|p: int| #[trigger] is_pow2(p) && 0 <= p implies 1 <= p by {
                    let k = lemma_pow2_exponent(p);
                    lemma_pow2_pos(k);
                }
            }
            lemma_next_pow2(0, 1);
            1
        }
    } else {
        own
    }
}

/// The capacity of each shard is the least share with which the shards hold the
/// cache's capacity.
pub proof fn law_shard_cap(cache_capacity: int, shard_amount: int)
    requires
        cache_capacity >= 0,
        shard_amount > 0,
    ensures
        cache_capacity == 0 ==> shard_cap_for(cache_capacity, shard_amount) == 0,
        cache_capacity <= shard_cap_for(cache_capacity, shard_amount) * shard_amount,
        cache_capacity > 0 ==> (shard_cap_for(cache_capacity, shard_amount) - 1) * shard_amount
            < cache_capacity,
{
    if cache_capacity > 0 {
        law_ceil_div(cache_capacity, shard_amount);
    }
}

/// The sums of two lists add up.
proof fn lemma_sum_add(left: Seq<usize>, right: Seq<usize>)
    ensures
        sum_of(left + right) == sum_of(left) + sum_of(right),
    decreases right.len(),
{
    if right.len() == 0 {
        assert(left + right =~= left);
    } else {
        lemma_sum_add(left, right.drop_last());
        assert((left + right).drop_last() =~= left + right.drop_last());
    }
}

/// Capacities add up: nothing makes nothing, one capacity is itself, and the
/// capacity of two groups of shards is that of both together, unless the machine
/// has no such number; then it is the largest one.
pub proof fn law_capacities_add_up(left: Seq<usize>, right: Seq<usize>, one: usize)
    ensures
        capped_sum(Seq::empty()) == 0,
        capped_sum(seq![one]) == one,
        capped_sum(left + right) == (if capped_sum(left) + capped_sum(right) <= usize::MAX {
            capped_sum(left) + capped_sum(right)
        } else {
            usize::MAX as nat
        }),
{
    lemma_sum_add(left, right);
    reveal_with_fuel(sum_of, 2);
    assert(seq![one].drop_last() =~= Seq::<usize>::empty());
}

} // verus!
