//! The value cell and the per-entry eviction metadata.
use vstd::prelude::*;

verus! {

/// Maximum value the `freq` counter saturates at.
///
/// Capped at 3 so that entries with a burst of popularity don't become
/// permanently immune to eviction once their access pattern changes.
pub const MAX_FREQ: u8 = 3;

/// [`CacheEntry::loc`] value: the entry is in the small queue.
pub const LOC_SMALL: u8 = 0;

/// [`CacheEntry::loc`] value: the entry is in the main queue.
pub const LOC_MAIN: u8 = 1;

/// Returns the number of bits in a pointer-sized integer.
///
/// Used to compute the bit-shift for shard selection.
pub fn ptr_size_bits() -> (bits: usize)
    ensures
        bits == usize::BITS,
{
    usize::BITS as usize
}

/// The least whole number that is not below `n / d`.
pub open spec fn ceil_div(n: int, d: int) -> int
    recommends
        d > 0,
{
    (n + d - 1) / d
}

/// Dividing and rounding up gives the least number whose multiple is not below.
pub proof fn law_ceil_div(n: int, d: int)
    requires
        d > 0,
    ensures
        (ceil_div(n, d) - 1) * d < n <= ceil_div(n, d) * d,
{
    let q = ceil_div(n, d);
    vstd::arithmetic::div_mod::lemma_fundamental_div_mod(n + d - 1, d);
    vstd::arithmetic::div_mod::lemma_mod_bound(n + d - 1, d);
    let r = (n + d - 1) % d;
    assert((q - 1) * d < n <= q * d) by (nonlinear_arith)
        requires
            n + d - 1 == d * q + r,
            0 <= r < d,
    ;
}

/// Divides, rounding up.
pub fn div_ceil(n: usize, d: usize) -> (quotient: usize)
    requires
        d > 0,
    ensures
        quotient == ceil_div(n as int, d as int),
        (quotient - 1) * d < n <= quotient * d,
{
    proof {
        law_ceil_div(n as int, d as int);
    }
    let quotient = n / d;
    let rest = n % d;
    proof {
        vstd::arithmetic::div_mod::lemma_fundamental_div_mod(n as int, d as int);
        let up: int = if rest > 0 { rest - 1 } else { d - 1 };
        let q: int = if rest > 0 { quotient + 1 } else { quotient as int };
        assert(n + d - 1 == d * q + up) by {
            vstd::arithmetic::mul::lemma_mul_is_distributive_add(d as int, quotient as int, 1);
        }
        vstd::arithmetic::div_mod::lemma_fundamental_div_mod_converse(n + d - 1, d as int, q, up);
        assert(quotient < usize::MAX || rest == 0) by {
            if quotient == usize::MAX && rest > 0 {
                assert(d * quotient >= quotient) by (nonlinear_arith)
                    requires
                        d >= 1,
                        quotient >= 0,
                ;
            }
        }
    }
    if rest > 0 {
        quotient + 1
    } else {
        quotient
    }
}

/// Replaces the value of the pair by `f(k, v)` and returns the new value.
pub fn map_in_place_2<T, U, F: FnOnce(U, T) -> T>(pair: (U, T), f: F) -> (new_value: T)
    requires
        call_requires(f, pair),
    ensures
        call_ensures(f, pair, new_value),
{
    f(pair.0, pair.1)
}

/// The cell that holds a stored value.
pub struct SharedValue<T> {
    pub value: T,
}

impl<T> SharedValue<T> {
    /// Creates a new `SharedValue` wrapping `value`.
    pub fn new(value: T) -> (cell: Self)
        ensures
            cell.value == value,
    {
        Self { value }
    }

    /// Returns a shared reference to the inner value.
    pub fn get(&self) -> (inner: &T)
        ensures
            *inner == self.value,
    {
        &self.value
    }

    /// Returns a mutable reference to the inner value.
    pub fn get_mut(&mut self) -> (inner: &mut T)
        ensures
            *inner == old(self).value,
            final(self).value == *final(inner),
    {
        &mut self.value
    }

    /// Consumes the wrapper and returns the inner value.
    pub fn into_inner(self) -> (inner: T)
        ensures
            inner == self.value,
    {
        self.value
    }
}

/// Per-entry metadata for S3-FIFO eviction, stored next to the value.
pub struct CacheEntry<V> {
    pub value: SharedValue<V>,
    pub freq: u8,
    pub loc: u8,
}

/// The frequency counter after one more access.
pub open spec fn bumped(freq: u8) -> u8 {
    if freq < MAX_FREQ {
        (freq + 1) as u8
    } else {
        freq
    }
}

impl<V> CacheEntry<V> {
    /// Creates a new entry with `freq = 0` in the given eviction queue location.
    pub fn new(value: V, loc: u8) -> (entry: Self)
        ensures
            entry.value.value == value,
            entry.freq == 0,
            entry.loc == loc,
    {
        Self { value: SharedValue::new(value), freq: 0, loc }
    }

    /// Increments the frequency counter, saturating at [`MAX_FREQ`].
    pub fn bump_freq(&mut self)
        ensures
            final(self).value == old(self).value,
            final(self).loc == old(self).loc,
            final(self).freq == bumped(old(self).freq),
            old(self).freq < MAX_FREQ ==> final(self).freq == old(self).freq + 1,
            old(self).freq >= MAX_FREQ ==> final(self).freq == old(self).freq,
    {
        if self.freq < MAX_FREQ {
            self.freq = self.freq + 1;
        }
    }
}

} // verus!
