//! A small log-structured key-value store: a write-ahead log of records, an
//! in-memory table rebuilt from it, and immutable segments with a sparse index.
//!
//! The library works on plain values: the bytes of a log or of a segment, the
//! records, the table. Reading and writing files is left to the caller.

pub mod engine;
pub mod error;
pub mod lookup;
pub mod memtable;
pub mod order;
pub mod query;
pub mod record;
pub mod segment;
pub mod wal;
