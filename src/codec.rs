//! Serialization of records, by the bitcode crate's serde support.
use vstd::prelude::*;

verus! {

/// A type whose values the store can hold: integers, booleans, strings and
/// pairs of these. Their serde impls give every sequence its length and keep
/// one shape for every value, which bitcode needs in order not to panic; the
/// set is closed, so no other impl can reach bitcode through this crate.
pub trait Record: crate::sealed::Sealed {}

impl Record for bool {}

impl Record for u32 {}

impl Record for u64 {}

impl Record for i32 {}

impl Record for i64 {}

impl Record for String {}

impl<A: Record, B: Record> Record for (A, B) {}

/// Relies on bitcode::serialize: turns a value into bytes, or reports that it
/// cannot (`None` stands for bitcode's error, which carries no more than that).
#[verifier::external_body]
pub(crate) fn encode<S: serde::Serialize + Record>(row: &S) -> (r: Option<Vec<u8>>) {
    bitcode::serialize(row).ok()
}

/// Relies on bitcode::deserialize: reads a value back from bytes, or reports
/// that it cannot (`None` stands for bitcode's error).
#[verifier::external_body]
pub(crate) fn decode<T: serde::de::DeserializeOwned + Record>(bytes: &[u8]) -> (r: Option<T>) {
    bitcode::deserialize(bytes).ok()
}

} // verus!
