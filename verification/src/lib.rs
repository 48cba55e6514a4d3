//! An embedded log-structured merge-tree (LSM-tree) key-value storage engine.
//!
//! The engine maps opaque byte-string keys to opaque byte-string values with
//! monotonic sequence numbers.  It supports point and range reads, atomic
//! multi-key write batches, compare-and-swap, point-in-time snapshots, and
//! crash recovery from a CRC-framed write-ahead journal.
//!
//! All state that this crate manages lives in memory; a thin shell around
//! it performs the actual file reads, writes and syncs and feeds the bytes
//! back into the verified core.

pub mod batch;
pub mod config;
pub mod crc;
pub mod flush_manager;
pub mod journal;
pub mod lookup;
pub mod marker;
pub mod memtable;
pub mod recovery;
pub mod tree;
pub mod value;
