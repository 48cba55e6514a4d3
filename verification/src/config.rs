//! Engine configuration.

use vstd::prelude::*;

verus! {

/// The smallest journalling cap accepted: one shard needs room to grow.
pub const MIN_JOURNALING_SIZE: u32 = 25165824;

/// Tree and keyspace configuration.
#[derive(Debug, Clone)]
pub struct Config {
    /// Base path of the database.
    pub path: String,
    /// Capacity of the shared block cache, in bytes.
    pub block_cache_capacity: u32,
    /// Cap on the total size of all journals, in bytes.
    pub max_journaling_size_in_bytes: u32,
    /// Cap on the total size of all active memtables, in bytes.
    pub max_write_buffer_size_in_bytes: u32,
    /// Cap on one active memtable before it is sealed and flushed.
    pub max_memtable_size: u32,
    /// Sync the journal every this many milliseconds, if set.
    pub fsync_ms: Option<u16>,
}

impl Config {
    /// A configuration with the defaults and the given path.
    pub fn new(path: String) -> (r: Config)
        ensures
            r.path == path,
            r.block_cache_capacity == 16777216u32,
            r.max_journaling_size_in_bytes == 134217728u32,
            r.max_write_buffer_size_in_bytes == 67108864u32,
            r.max_memtable_size == 67108864u32,
            r.fsync_ms == Some(1000u16),
    {
        Config {
            path,
            block_cache_capacity: 16 * 1024 * 1024,
            max_journaling_size_in_bytes: 128 * 1024 * 1024,
            max_write_buffer_size_in_bytes: 64 * 1024 * 1024,
            max_memtable_size: 64 * 1024 * 1024,
            fsync_ms: Some(1000),
        }
    }

    /// Sets the block cache capacity in bytes.
    pub fn block_cache(self, capacity_in_bytes: u32) -> (r: Config)
        ensures
            r == (Config { block_cache_capacity: capacity_in_bytes, ..self }),
    {
        Config { block_cache_capacity: capacity_in_bytes, ..self }
    }

    /// Sets the cap on the total size of all journals.  Anything below
    /// [`MIN_JOURNALING_SIZE`] would stall the engine and is rejected.
    pub fn max_journaling_size(self, bytes: u32) -> (r: Config)
        requires
            bytes >= MIN_JOURNALING_SIZE,
        ensures
            r == (Config { max_journaling_size_in_bytes: bytes, ..self }),
    {
        Config { max_journaling_size_in_bytes: bytes, ..self }
    }

    /// Sets the cap on the total size of all active memtables.
    pub fn max_write_buffer_size(self, bytes: u32) -> (r: Config)
        ensures
            r == (Config { max_write_buffer_size_in_bytes: bytes, ..self }),
    {
        Config { max_write_buffer_size_in_bytes: bytes, ..self }
    }

    /// Sets the background sync cadence; `None` disables it.  A cadence of
    /// zero is meaningless and rejected.
    pub fn fsync_ms(self, ms: Option<u16>) -> (r: Config)
        requires
            ms is Some ==> ms.unwrap() > 0,
        ensures
            r == (Config { fsync_ms: ms, ..self }),
    {
        Config { fsync_ms: ms, ..self }
    }
}

} // verus!
