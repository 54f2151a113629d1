//! A paged, append-oriented record store.
//!
//! Records are serialized to bytes and packed into fixed-size slots of
//! fixed-size pages; a log of pages can be replayed back in insertion order.
pub mod balance;
pub mod codec;
pub mod header;
pub mod ledger;
pub mod log;
pub mod page;
mod sealed;

pub use codec::Record;
pub use log::{decode_rows, decode_rows_strict, Log, PageWrite, MAX_OFFSET};
pub use page::{Error, Page, HEADER_SIZE, PAGE_SIZE};
