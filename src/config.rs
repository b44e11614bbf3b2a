//! Construction parameters of a store.
use crate::error::owned;
use vstd::prelude::*;

verus! {

/// Which backend to build.
#[derive(Debug, Clone, Copy, PartialEq, Eq)]
pub enum StorageType {
    /// Volatile, in memory.
    Memory,
    /// In memory, made durable by a write-ahead log.
    Persistent,
}

/// Parameters of a store.
#[derive(Debug, Clone)]
pub struct StorageConfig {
    /// Which backend to build.
    pub storage_type: StorageType,
    /// Number of pairs to reserve room for.
    pub memory_capacity: Option<usize>,
    /// Path of the log file; needed for a persistent store.
    pub wal_file_path: Option<String>,
    /// Whether log entries carry checksums.
    pub use_checksums: bool,
}

impl Default for StorageConfig {
    fn default() -> (r: StorageConfig)
        ensures
            r.storage_type == StorageType::Memory,
            r.memory_capacity is None,
            r.wal_file_path is None,
            r.use_checksums,
    {
        StorageConfig::memory()
    }
}

impl StorageConfig {
    /// A persistent store logging to `wal_file_path`, with checksums.
    pub fn persistent(wal_file_path: &str) -> (r: StorageConfig)
        ensures
            r.storage_type == StorageType::Persistent,
            r.memory_capacity is None,
            r.wal_file_path matches Some(p) && p@ == wal_file_path@,
            r.use_checksums,
    {
        StorageConfig {
            storage_type: StorageType::Persistent,
            memory_capacity: None,
            wal_file_path: Some(owned(wal_file_path)),
            use_checksums: true,
        }
    }

    /// An in-memory store.
    pub fn memory() -> (r: StorageConfig)
        ensures
            r.storage_type == StorageType::Memory,
            r.memory_capacity is None,
            r.wal_file_path is None,
            r.use_checksums,
    {
        StorageConfig {
            storage_type: StorageType::Memory,
            memory_capacity: None,
            wal_file_path: None,
            use_checksums: true,
        }
    }

    /// The same parameters, reserving room for `capacity` pairs.
    pub fn with_memory_capacity(self, capacity: usize) -> (r: StorageConfig)
        ensures
            r == (StorageConfig { memory_capacity: Some(capacity), ..self }),
    {
        let mut c = self;
        c.memory_capacity = Some(capacity);
        c
    }

    /// The same parameters, with or without checksums.
    pub fn with_checksums(self, use_checksums: bool) -> (r: StorageConfig)
        ensures
            r == (StorageConfig { use_checksums, ..self }),
    {
        let mut c = self;
        c.use_checksums = use_checksums;
        c
    }
}

} // verus!
