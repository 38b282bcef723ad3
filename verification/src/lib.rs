//! Read and durability core of a log-structured merge tree storage engine:
//! iterators over immutable sorted tables, a concatenating iterator over a
//! run of range-disjoint tables, and a write-ahead log codec with replay.

pub mod concat;
pub mod entries;
pub mod keys;
pub mod table;
pub mod wal;
