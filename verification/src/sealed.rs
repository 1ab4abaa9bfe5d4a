//! Keeps the set of key types closed whose hash is spoken for.
use vstd::prelude::*;

verus! {

/// A key type of the standard library whose hash depends on its view alone.
pub trait Sealed {

}

impl Sealed for u8 {

}

impl Sealed for u16 {

}

impl Sealed for u32 {

}

impl Sealed for u64 {

}

impl Sealed for u128 {

}

impl Sealed for usize {

}

impl Sealed for i8 {

}

impl Sealed for i16 {

}

impl Sealed for i32 {

}

impl Sealed for i64 {

}

impl Sealed for i128 {

}

impl Sealed for isize {

}

impl Sealed for bool {

}

impl Sealed for char {

}

impl Sealed for String {

}

impl Sealed for &'static str {

}

impl Sealed for str {

}

impl Sealed for Vec<u8> {

}

impl Sealed for [u8] {

}

impl<A: Sealed, B: Sealed> Sealed for (A, B) {

}

impl<A: Sealed, B: Sealed, C: Sealed> Sealed for (A, B, C) {

}

} // verus!
