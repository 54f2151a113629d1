//! Keeps the set of record types closed to this crate.
use vstd::prelude::*;

verus! {

/// A marker that only this crate can implement.
pub trait Sealed {}

impl Sealed for bool {}

impl Sealed for u32 {}

impl Sealed for u64 {}

impl Sealed for i32 {}

impl Sealed for i64 {}

impl Sealed for String {}

impl<A: Sealed, B: Sealed> Sealed for (A, B) {}

} // verus!
