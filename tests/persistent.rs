use zephyrite::{
    log_line, persistent_storage_with_options, persistent_storage_with_wal, PersistentStorage,
    StorageConfig, StorageError, StorageResult, StorageType, WalEntry, WalManager, WalOperation,
};

/// Logs `op` to `file` and then applies it, as a caller that owns the file does.
fn apply(store: &mut PersistentStorage, file: &mut Vec<u8>, op: WalOperation) -> StorageResult<bool> {
    let entry = store.prepare(op, zephyrite::current_timestamp())?;
    file.extend_from_slice(&log_line(&entry));
    store.apply_logged(&entry)
}

fn put(store: &mut PersistentStorage, file: &mut Vec<u8>, key: &str, value: &str) -> StorageResult<bool> {
    apply(
        store,
        file,
        WalOperation::Put {
            key: key.to_string(),
            value: value.to_string(),
        },
    )
}

fn delete(store: &mut PersistentStorage, file: &mut Vec<u8>, key: &str) -> StorageResult<bool> {
    apply(store, file, WalOperation::Delete { key: key.to_string() })
}

#[test]
fn test_persistent_storage_basic_operations() {
    let mut file = Vec::new();
    let mut storage = PersistentStorage::new("test.wal", &file).unwrap();

    let was_new = put(&mut storage, &mut file, "test_key", "test_value").unwrap();
    assert!(was_new);

    let retrieved = storage.get("test_key").unwrap();
    assert_eq!(retrieved.value, "test_value");

    assert!(storage.key_exists("test_key").unwrap());
    assert!(!storage.key_exists("nonexistent").unwrap());

    let was_deleted = delete(&mut storage, &mut file, "test_key").unwrap();
    assert!(was_deleted);
    assert!(!storage.key_exists("test_key").unwrap());
}

#[test]
fn test_persistent_storage_recovery() {
    let mut file = Vec::new();
    {
        let mut storage = PersistentStorage::new("test.wal", &file).unwrap();
        put(&mut storage, &mut file, "key1", "value1").unwrap();
        put(&mut storage, &mut file, "key2", "value2").unwrap();
        delete(&mut storage, &mut file, "key1").unwrap();
    }

    let mut recovered_storage = PersistentStorage::new("test.wal", &file).unwrap();

    assert!(!recovered_storage.key_exists("key1").unwrap());
    assert!(recovered_storage.key_exists("key2").unwrap());

    let retrieved = recovered_storage.get("key2").unwrap();
    assert_eq!(retrieved.value, "value2");
}

#[test]
fn test_persistent_storage_clear_operation() {
    let mut file = Vec::new();
    let mut storage = PersistentStorage::new("test.wal", &file).unwrap();

    put(&mut storage, &mut file, "key1", "value1").unwrap();
    put(&mut storage, &mut file, "key2", "value2").unwrap();

    assert_eq!(storage.keys().unwrap().len(), 2);

    apply(&mut storage, &mut file, WalOperation::Clear).unwrap();

    assert_eq!(storage.keys().unwrap().len(), 0);
    assert!(!storage.key_exists("key1").unwrap());
    assert!(!storage.key_exists("key2").unwrap());
}

#[test]
fn test_persistent_storage_detailed_stats() {
    let mut file = Vec::new();
    let mut storage = PersistentStorage::new("test.wal", &file).unwrap();

    put(&mut storage, &mut file, "test", "value").unwrap();

    let detailed_stats = storage.detailed_stats().unwrap();
    assert_eq!(detailed_stats.memory_stats.key_count, 1);
    assert!(detailed_stats.wal_sequence_number > 0);
    assert!(!detailed_stats.wal_file_path.is_empty());
}

#[test]
fn test_persistent_storage_compaction() {
    let mut file = Vec::new();
    let mut storage = PersistentStorage::new("test.wal", &file).unwrap();

    put(&mut storage, &mut file, "key1", "value1").unwrap();
    put(&mut storage, &mut file, "key2", "value2").unwrap();
    delete(&mut storage, &mut file, "key1").unwrap();
    put(&mut storage, &mut file, "key3", "value3").unwrap();
    put(&mut storage, &mut file, "key2", "updated_value2").unwrap();

    let entries_before = WalManager::new("test.wal").read_all_entries(&file).unwrap().len();
    assert_eq!(entries_before, 5);

    let (compaction_result, new_file) = storage.compact_wal(&file, &zephyrite::current_timestamp()).unwrap();
    file = new_file;
    assert_eq!(compaction_result.entries_before, 5);
    assert_eq!(compaction_result.entries_after, 2);

    assert!(!storage.key_exists("key1").unwrap());
    assert!(storage.key_exists("key2").unwrap());
    assert!(storage.key_exists("key3").unwrap());

    let key2_value = storage.get("key2").unwrap();
    assert_eq!(key2_value.value, "updated_value2");

    let key3_value = storage.get("key3").unwrap();
    assert_eq!(key3_value.value, "value3");

    assert_eq!(WalManager::new("test.wal").read_all_entries(&file).unwrap().len(), 2);
}

#[test]
fn test_persistent_storage_recovery_after_compaction() {
    let mut file = Vec::new();
    {
        let mut storage = PersistentStorage::new("test.wal", &file).unwrap();
        put(&mut storage, &mut file, "key1", "value1").unwrap();
        put(&mut storage, &mut file, "key2", "value2").unwrap();
        delete(&mut storage, &mut file, "key1").unwrap();
        let (_, compacted) = storage.compact_wal(&file, &zephyrite::current_timestamp()).unwrap();
        file = compacted;
    }

    let mut recovered_storage = PersistentStorage::new("test.wal", &file).unwrap();

    assert!(!recovered_storage.key_exists("key1").unwrap());
    assert!(recovered_storage.key_exists("key2").unwrap());

    let retrieved = recovered_storage.get("key2").unwrap();
    assert_eq!(retrieved.value, "value2");
}

#[test]
fn reopen_gives_the_replayed_state() {
    let mut file = Vec::new();
    let mut s = PersistentStorage::new("w", &file).unwrap();
    put(&mut s, &mut file, "a", "1").unwrap();
    put(&mut s, &mut file, "b", "2").unwrap();
    delete(&mut s, &mut file, "a").unwrap();
    put(&mut s, &mut file, "c", "3").unwrap();

    let mut r = persistent_storage_with_wal("w", &file).unwrap();
    assert!(!r.key_exists("a").unwrap());
    assert_eq!(r.get("b").unwrap().value, "2");
    assert_eq!(r.get("c").unwrap().value, "3");
    assert_eq!(r.detailed_stats().unwrap().wal_sequence_number, 4);
}

#[test]
fn compaction_keeps_reads_and_shrinks_the_log() {
    let mut file = Vec::new();
    let mut s = PersistentStorage::new("w", &file).unwrap();
    put(&mut s, &mut file, "x", "1").unwrap();
    put(&mut s, &mut file, "y", "2").unwrap();
    put(&mut s, &mut file, "z", "3").unwrap();
    delete(&mut s, &mut file, "y").unwrap();
    put(&mut s, &mut file, "x", "4").unwrap();
    let before: Vec<Option<String>> = ["x", "y", "z"].iter().map(|k| s.get(k).ok().map(|v| v.value)).collect();

    let (result, new_file) = s.compact_wal(&file, &"now".to_string()).unwrap();
    assert_eq!((result.entries_before, result.entries_after), (5, 2));
    assert!(new_file.len() < file.len());
    let after: Vec<Option<String>> = ["x", "y", "z"].iter().map(|k| s.get(k).ok().map(|v| v.value)).collect();
    assert_eq!(before, after);
    assert_eq!(s.detailed_stats().unwrap().wal_sequence_number, 2);

    let mut reopened = PersistentStorage::new("w", &new_file).unwrap();
    let again: Vec<Option<String>> = ["x", "y", "z"].iter().map(|k| reopened.get(k).ok().map(|v| v.value)).collect();
    assert_eq!(before, again);
}

#[test]
fn invalid_operations_are_not_logged() {
    let mut file = Vec::new();
    let mut s = PersistentStorage::new("w", &file).unwrap();
    assert!(matches!(put(&mut s, &mut file, "", "v"), Err(StorageError::InvalidKey(_))));
    assert!(matches!(put(&mut s, &mut file, "k", &"v".repeat(1_048_577)), Err(StorageError::InvalidValue(_))));
    assert!(matches!(delete(&mut s, &mut file, "a..b"), Err(StorageError::InvalidKey(_))));
    assert!(file.is_empty());
}

#[test]
fn corrupt_log_refuses_to_open() {
    let mut file = Vec::new();
    let mut s = PersistentStorage::new("w", &file).unwrap();
    put(&mut s, &mut file, "k", "v").unwrap();
    let last = file.len() - 3;
    file[last] ^= 1;
    assert!(matches!(PersistentStorage::new("w", &file), Err(StorageError::Internal(_))));
    assert!(persistent_storage_with_options("w", 8, false, b"garbage\n").is_err());
}

#[test]
fn config_builders() {
    let c = StorageConfig::persistent("data.wal").with_memory_capacity(10).with_checksums(false);
    assert_eq!(c.storage_type, StorageType::Persistent);
    assert_eq!(c.memory_capacity, Some(10));
    assert_eq!(c.wal_file_path.as_deref(), Some("data.wal"));
    assert!(!c.use_checksums);
    let m = StorageConfig::default();
    assert_eq!(m.storage_type, StorageType::Memory);
    assert!(m.use_checksums && m.wal_file_path.is_none() && m.memory_capacity.is_none());
}

#[test]
fn rejected_entries_are_counted_and_skipped() {
    let mut file = Vec::new();
    for (seq, key) in [(1u64, "good"), (2, ""), (3, "also_good")] {
        let e = WalEntry::new(
            seq,
            WalOperation::Put {
                key: key.to_string(),
                value: "v".to_string(),
            },
        );
        file.extend_from_slice(&log_line(&e));
    }
    let mut s = PersistentStorage::new("w", &file).unwrap();
    let counts = s.recovery_counts();
    assert_eq!((counts.recovered, counts.failed), (2, 1));
    assert!(s.key_exists("good").unwrap());
    assert_eq!(s.get("also_good").unwrap().value, "v");
    assert_eq!(s.keys().unwrap().len(), 2);
}

#[test]
fn persistent_get_reports_the_byte_size() {
    let mut file = Vec::new();
    let mut s = PersistentStorage::new("w", &file).unwrap();
    put(&mut s, &mut file, "k", "\u{E9}t\u{E9}").unwrap();
    let v = s.get("k").unwrap();
    assert_eq!(v.value, "\u{E9}t\u{E9}");
    assert_eq!(v.metadata.size, 5);
    assert_eq!(s.size_of_value("k").unwrap(), 5);
}
