//! An embeddable key-value store: a validated in-memory map, a write-ahead
//! log with checksummed records and replay, and the building blocks of a
//! page-oriented on-disk format (pages, page allocation, an LRU page cache,
//! a key-to-location index and the file header).

pub mod buffer;
pub mod config;
pub mod engine;
pub mod error;
pub mod header;
pub mod index;
pub mod memory;
pub mod page;
pub mod page_manager;
pub mod persistent;
pub mod text;
pub mod validation;
pub mod wal;

pub use buffer::{BufferPool, BufferPoolStats};
pub use config::{StorageConfig, StorageType};
pub use engine::{current_timestamp, Stats, StorageEngine, Value, ValueMetadata};
pub use error::{error_code, http_status, StorageError, StorageResult};
pub use header::{FileHeader, FORMAT_VERSION, HEADER_SIZE, ZEPHYRITE};
pub use index::{Index, IndexEntry, IndexStats};
pub use memory::{storage, storage_with_capacity, MemoryStorage};
pub use page::{Page, PAGE_SIZE};
pub use page_manager::PageManager;
pub use persistent::{
    log_line, persistent_storage, persistent_storage_with_options, persistent_storage_with_wal,
    CompactionResult, DetailedStats, PersistentStorage, RecoveryCounts,
};
pub use validation::{validate_key, validate_key_strict, validate_value};
pub use wal::{WalEntry, WalManager, WalOperation};
