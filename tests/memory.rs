use zephyrite::engine::timestamp_text;
use zephyrite::{error_code, http_status, storage, storage_with_capacity, MemoryStorage, StorageEngine, StorageError};

#[test]
fn test_new_storage() {
    let storage = MemoryStorage::new();
    let stats = storage.stats().unwrap();
    assert_eq!(stats.key_count, 0);
    assert_eq!(stats.memory_usage, 0);
}

#[test]
fn test_put_and_get() {
    let mut storage = MemoryStorage::new();

    let was_new = storage.put("test_key", "test_value").unwrap();
    assert!(was_new);

    let stored_value = storage.get("test_key").unwrap();
    assert_eq!(stored_value.value, "test_value");

    let was_new = storage.put("test_key", "updated_value").unwrap();
    assert!(!was_new);

    let stored_value = storage.get("test_key").unwrap();
    assert_eq!(stored_value.value, "updated_value");
}

#[test]
fn test_delete() {
    let mut storage = MemoryStorage::new();

    storage.put("test_key", "test_value").unwrap();
    assert!(storage.key_exists("test_key").unwrap());

    let existed = storage.delete("test_key").unwrap();
    assert!(existed);
    assert!(!storage.key_exists("test_key").unwrap());

    let existed = storage.delete("non_existent").unwrap();
    assert!(!existed);
}

#[test]
fn test_list_operations() {
    let mut storage = MemoryStorage::new();

    storage.put("key1", "value1").unwrap();
    storage.put("key2", "value2").unwrap();
    storage.put("key3", "value3").unwrap();

    let keys = storage.keys().unwrap();
    assert_eq!(keys.len(), 3);
    assert!(keys.contains(&"key1".to_string()));
    assert!(keys.contains(&"key2".to_string()));
    assert!(keys.contains(&"key3".to_string()));

    let all_data = storage.all().unwrap();
    assert_eq!(all_data.len(), 3);
    let key1 = all_data.iter().find(|(k, _)| k == "key1").unwrap();
    assert_eq!(key1.1.value, "value1");
}

#[test]
fn memory_test_clear() {
    let mut storage = MemoryStorage::new();

    storage.put("key1", "value1").unwrap();
    storage.put("key2", "value2").unwrap();

    assert_eq!(storage.stats().unwrap().key_count, 2);

    storage.clear().unwrap();
    assert_eq!(storage.stats().unwrap().key_count, 0);
}

#[test]
fn memory_test_stats() {
    let mut storage = MemoryStorage::new();

    storage.put("key1", "value1").unwrap();
    storage.get("key1").unwrap();
    storage.delete("key1").unwrap();

    let stats = storage.stats().unwrap();
    assert_eq!(stats.get_operations_count, 1);
    assert_eq!(stats.put_operations_count, 1);
    assert_eq!(stats.delete_operations_count, 1);
}

#[test]
fn test_invalid_key() {
    let mut storage = MemoryStorage::new();

    let result = storage.put("", "value");
    assert!(matches!(result, Err(StorageError::InvalidKey(_))));

    let result = storage.put("key\0", "value");
    assert!(matches!(result, Err(StorageError::InvalidKey(_))));
}

#[test]
fn test_key_not_found() {
    let mut storage = MemoryStorage::new();

    let result = storage.get("non_existent");
    assert!(matches!(result, Err(StorageError::KeyNotFound(_))));
}

#[test]
fn test_create_default_storage() {
    let storage = storage();
    let stats = storage.stats().unwrap();
    assert_eq!(stats.key_count, 0);
}

#[test]
fn test_create_storage_with_capacity() {
    let storage = storage_with_capacity(100);
    let stats = storage.stats().unwrap();
    assert_eq!(stats.key_count, 0);
}

#[test]
fn test_basic_operations_through_trait() {
    let mut storage = storage();

    storage.put("test", "value").unwrap();
    assert!(storage.key_exists("test").unwrap());

    let retrieved = storage.get("test").unwrap();
    assert_eq!(retrieved.value, "value");

    let deleted = storage.delete("test").unwrap();
    assert!(deleted);
    assert!(!storage.key_exists("test").unwrap());
}

#[test]
fn put_then_get_returns_value_and_byte_size() {
    let mut s = MemoryStorage::new();
    assert!(s.put("k", "h\u{E9}llo").unwrap());
    let v = s.get("k").unwrap();
    assert_eq!(v.value, "h\u{E9}llo");
    assert_eq!(v.metadata.size, 6);
    assert_eq!(s.size_of_value("k").unwrap(), 6);
    assert!(matches!(s.size_of_value("other"), Err(StorageError::KeyNotFound(_))));
}

#[test]
fn delete_is_idempotent() {
    let mut s = MemoryStorage::new();
    assert!(!s.delete("absent").unwrap());
    s.put("k", "v").unwrap();
    assert!(s.delete("k").unwrap());
    assert!(!s.delete("k").unwrap());
}

#[test]
fn rejected_put_changes_nothing() {
    let mut s = MemoryStorage::new();
    let big = "x".repeat(1_048_577);
    assert!(matches!(s.put("k", &big), Err(StorageError::InvalidValue(_))));
    assert!(matches!(s.put("bad..key", "v"), Err(StorageError::InvalidKey(_))));
    let stats = s.stats().unwrap();
    assert_eq!(stats.key_count, 0);
    assert_eq!(stats.put_operations_count, 0);
}

#[test]
fn overwrite_keeps_creation_time() {
    let mut s = MemoryStorage::new();
    s.put("k", "one").unwrap();
    let first = s.get("k").unwrap();
    s.put("k", "two").unwrap();
    let second = s.get("k").unwrap();
    assert_eq!(second.value, "two");
    assert_eq!(second.metadata.created_at, first.metadata.created_at);
    assert_eq!(second.metadata.size, 3);
}

#[test]
fn memory_usage_counts_keys_values_and_overhead() {
    let mut s = MemoryStorage::new();
    s.put("ab", "xyz").unwrap();
    let overhead = std::mem::size_of::<zephyrite::Value>();
    assert_eq!(s.stats().unwrap().memory_usage, 2 + 3 + overhead);
    let all = s.all().unwrap();
    assert_eq!(MemoryStorage::calculate_memory_usage(&all), 2 + 3 + overhead);
    assert_eq!(s.values().unwrap()[0].value, "xyz");
}

#[test]
fn timestamps_are_iso_8601() {
    let t = zephyrite::current_timestamp();
    assert_eq!(t.len(), 24);
    assert!(t.ends_with('Z'));
    assert_eq!(&t[4..5], "-");
    assert_eq!(&t[10..11], "T");
}

#[test]
fn errors_map_to_http_statuses() {
    let cases = [
        (StorageError::KeyNotFound("k".to_string()), 404, "key_not_found"),
        (StorageError::InvalidKey("k".to_string()), 400, "invalid_key"),
        (StorageError::InvalidValue("v".to_string()), 400, "invalid_value"),
        (StorageError::Internal("x".to_string()), 500, "internal_error"),
        (StorageError::KeyAlreadyExists("k".to_string()), 500, "internal_error"),
        (StorageError::UnsupportedOperation("x".to_string()), 500, "internal_error"),
    ];
    for (e, status, code) in cases {
        assert_eq!(http_status(&e), status);
        assert_eq!(error_code(&e), code);
    }
}

#[test]
fn update_at_refreshes_only_size_and_update_time() {
    let mut m = zephyrite::ValueMetadata::new(3);
    let created = m.created_at.clone();
    m.update_at(7, "2030-01-01T00:00:00.000Z".to_string());
    assert_eq!(m.size, 7);
    assert_eq!(m.created_at, created);
    assert_eq!(m.updated_at, "2030-01-01T00:00:00.000Z");
    m.update(9);
    assert_eq!(m.size, 9);
    assert_eq!(m.created_at, created);
    assert_eq!(m.updated_at.len(), 24);
}

#[test]
fn timestamp_text_of_clock_readings() {
    assert_eq!(timestamp_text(None), "1970-01-01T00:00:00.000Z");
    assert_eq!(timestamp_text(Some((0, 0))), "1970-01-01T00:00:00.000Z");
    assert_eq!(timestamp_text(Some((1_431_648_000, 123_456_789))), "2015-05-15T00:00:00.123Z");
    assert_eq!(timestamp_text(Some((u64::MAX, 0))), "1970-01-01T00:00:00.000Z");
}
