//! Hash builders: how a key becomes the 64-bit number that picks its shard and
//! its place in the table.
use crate::keys::{CacheKey, Lookup};
use crate::sealed::Sealed;
use ahash::RandomState;
use vstd::prelude::*;

verus! {

/// A hash builder for keys of type `K`.
///
/// The digest depends on the builder and on the key's view alone, so a key that
/// was stored is looked up under the number it was stored with.
pub trait KeyHasher<K: View> {
    /// The digest of a key with the given view.
    spec fn digest(&self, key: K::V) -> u64;

    /// Computes the digest of `key`.
    fn hash_one(&self, key: &K) -> (hash: u64)
        ensures
            hash == self.digest(key@),
    ;

    /// A builder of the same digests.
    fn duplicate(&self) -> (copy: Self) where Self: Sized
        ensures
            forall|key: K::V| #[trigger] copy.digest(key) == self.digest(key),
    ;
}

/// A hash builder that can hash what names a key in a lookup.
pub trait LookupHasher<K: CacheKey, Q: Lookup<K> + ?Sized>: KeyHasher<K> {
    /// Computes the digest of the key that `name` names.
    fn hash_name(&self, name: &Q) -> (hash: u64)
        ensures
            hash == self.digest(name@),
    ;
}

impl<K: CacheKey, S: KeyHasher<K>> LookupHasher<K, K> for S {
    fn hash_name(&self, name: &K) -> (hash: u64) {
        self.hash_one(name)
    }
}

/// A hash builder of [`ahash`], seeded with four 64-bit numbers.
#[verifier::external_type_specification]
#[verifier::external_body]
pub struct ExRandomState(ahash::RandomState);

/// What a key feeds to a hash builder: its type and its view.
pub enum KeyImage {
    U8(u8),
    U16(u16),
    U32(u32),
    U64(u64),
    U128(u128),
    Usize(usize),
    I8(i8),
    I16(i16),
    I32(i32),
    I64(i64),
    I128(i128),
    Isize(isize),
    Bool(bool),
    Char(char),
    Text(Seq<char>),
    Bytes(Seq<u8>),
    Pair(Box<KeyImage>, Box<KeyImage>),
    Triple(Box<KeyImage>, Box<KeyImage>, Box<KeyImage>),
}

/// A type that [`ahash::RandomState`] can hash. Another crate's key types come
/// with a [`KeyHasher`] of their own.
pub trait HashImage: View + core::hash::Hash + Sealed {
    /// The image of a key with the given view.
    spec fn image(key: Self::V) -> KeyImage;
}

impl HashImage for u8 {
    open spec fn image(key: u8) -> KeyImage {
        KeyImage::U8(key)
    }
}

impl HashImage for u16 {
    open spec fn image(key: u16) -> KeyImage {
        KeyImage::U16(key)
    }
}

impl HashImage for u32 {
    open spec fn image(key: u32) -> KeyImage {
        KeyImage::U32(key)
    }
}

impl HashImage for u64 {
    open spec fn image(key: u64) -> KeyImage {
        KeyImage::U64(key)
    }
}

impl HashImage for u128 {
    open spec fn image(key: u128) -> KeyImage {
        KeyImage::U128(key)
    }
}

impl HashImage for usize {
    open spec fn image(key: usize) -> KeyImage {
        KeyImage::Usize(key)
    }
}

impl HashImage for i8 {
    open spec fn image(key: i8) -> KeyImage {
        KeyImage::I8(key)
    }
}

impl HashImage for i16 {
    open spec fn image(key: i16) -> KeyImage {
        KeyImage::I16(key)
    }
}

impl HashImage for i32 {
    open spec fn image(key: i32) -> KeyImage {
        KeyImage::I32(key)
    }
}

impl HashImage for i64 {
    open spec fn image(key: i64) -> KeyImage {
        KeyImage::I64(key)
    }
}

impl HashImage for i128 {
    open spec fn image(key: i128) -> KeyImage {
        KeyImage::I128(key)
    }
}

impl HashImage for isize {
    open spec fn image(key: isize) -> KeyImage {
        KeyImage::Isize(key)
    }
}

impl HashImage for bool {
    open spec fn image(key: bool) -> KeyImage {
        KeyImage::Bool(key)
    }
}

impl HashImage for char {
    open spec fn image(key: char) -> KeyImage {
        KeyImage::Char(key)
    }
}

impl HashImage for String {
    open spec fn image(key: Seq<char>) -> KeyImage {
        KeyImage::Text(key)
    }
}

impl HashImage for &'static str {
    open spec fn image(key: Seq<char>) -> KeyImage {
        KeyImage::Text(key)
    }
}

impl HashImage for str {
    open spec fn image(key: Seq<char>) -> KeyImage {
        KeyImage::Text(key)
    }
}

impl HashImage for Vec<u8> {
    open spec fn image(key: Seq<u8>) -> KeyImage {
        KeyImage::Bytes(key)
    }
}

impl HashImage for [u8] {
    open spec fn image(key: Seq<u8>) -> KeyImage {
        KeyImage::Bytes(key)
    }
}

impl<A: HashImage, B: HashImage> HashImage for (A, B) {
    open spec fn image(key: (A::V, B::V)) -> KeyImage {
        KeyImage::Pair(Box::new(A::image(key.0)), Box::new(B::image(key.1)))
    }
}

impl<A: HashImage, B: HashImage, C: HashImage> HashImage for (A, B, C) {
    open spec fn image(key: (A::V, B::V, C::V)) -> KeyImage {
        KeyImage::Triple(
            Box::new(A::image(key.0)),
            Box::new(B::image(key.1)),
            Box::new(C::image(key.2)),
        )
    }
}

/// The number that [`ahash::RandomState::hash_one`] returns for a key with the
/// given image. The builder stands for the seeds that it holds and for the
/// algorithm with which it was built.
pub uninterp spec fn ahash_digest(state: RandomState, image: KeyImage) -> u64;

/// Calls [`ahash::RandomState::hash_one`]. It reads the seeds and the key and
/// nothing else, so its result is a function of the seeds, the key's type and
/// the key's view. It is handed a reference. Of a reference to a `String`, to a
/// `str` or to a `&str` it reads the characters alone, and of one to a `Vec<u8>`
/// or to a `[u8]` the length and the bytes, so these count as one type each. A
/// tuple is hashed part by part.
#[verifier::external_body]
fn ahash_hash_one<K: HashImage + ?Sized>(state: &RandomState, key: &K) -> (hash: u64)
    ensures
        hash == ahash_digest(*state, K::image(key@)),
{
    state.hash_one(key)
}

/// Calls [`ahash::RandomState::new`], which draws new seeds. Nothing is said of
/// the seeds.
#[verifier::external_body]
pub(crate) fn new_random_state() -> RandomState {
    RandomState::new()
}

/// Calls `ahash::RandomState::clone`, which copies the seeds, so the copy gives
/// the same digests.
#[verifier::external_body]
fn ahash_clone(state: &RandomState) -> (copy: RandomState)
    ensures
        forall|image: KeyImage| #[trigger]
            ahash_digest(copy, image) == ahash_digest(*state, image),
{
    state.clone()
}

impl<K: HashImage + CacheKey> KeyHasher<K> for RandomState {
    open spec fn digest(&self, key: K::V) -> u64 {
        ahash_digest(*self, K::image(key))
    }

    fn hash_one(&self, key: &K) -> (hash: u64) {
        ahash_hash_one(self, key)
    }

    fn duplicate(&self) -> (copy: Self) {
        ahash_clone(self)
    }
}

/// The digest of a key is the number that the hash builder gives for the key's
/// image, all 64 bits of it.
pub proof fn law_digest<K: HashImage + CacheKey>(state: RandomState, key: K::V)
    ensures
        <RandomState as KeyHasher<K>>::digest(&state, key) == ahash_digest(state, K::image(key)),
{
}

impl LookupHasher<String, str> for RandomState {
    fn hash_name(&self, name: &str) -> (hash: u64) {
        ahash_hash_one(self, name)
    }
}

impl LookupHasher<&'static str, str> for RandomState {
    fn hash_name(&self, name: &str) -> (hash: u64) {
        ahash_hash_one(self, name)
    }
}

impl LookupHasher<Vec<u8>, [u8]> for RandomState {
    fn hash_name(&self, name: &[u8]) -> (hash: u64) {
        ahash_hash_one(self, name)
    }
}

} // verus!
