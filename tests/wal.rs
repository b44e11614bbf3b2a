use zephyrite::{StorageError, WalEntry, WalManager, WalOperation};

fn line_of(entry: &WalEntry) -> Vec<u8> {
    zephyrite::log_line(entry)
}

#[test]
fn test_wal_entry_creation() {
    let operation = WalOperation::Put {
        key: "test".to_string(),
        value: "value".to_string(),
    };
    let entry = WalEntry::new(1, operation.clone());

    assert_eq!(entry.sequence_number, 1);
    assert_eq!(entry.operation, operation);
    assert!(entry.checksum.is_none());
}

#[test]
fn test_wal_entry_with_checksum() {
    let operation = WalOperation::Put {
        key: "test".to_string(),
        value: "value".to_string(),
    };
    let entry = WalEntry::new_with_checksum(1, operation.clone());

    assert_eq!(entry.sequence_number, 1);
    assert_eq!(entry.operation, operation);
    assert!(entry.checksum.is_some());
    assert!(entry.verify_checksum());
}

#[test]
fn test_wal_entry_serialization() {
    let operation = WalOperation::Delete {
        key: "test".to_string(),
    };
    let entry = WalEntry::new_with_checksum(42, operation);

    let json = entry.to_json().unwrap();
    let deserialized = WalEntry::from_json(&json).unwrap();

    assert_eq!(entry, deserialized);
    assert!(deserialized.verify_checksum());
}

#[test]
fn test_wal_manager_basic_operations() {
    let mut wal_manager = WalManager::new("test.wal");
    let mut file: Vec<u8> = Vec::new();

    let e1 = wal_manager
        .prepare_entry(
            WalOperation::Put {
                key: "key1".to_string(),
                value: "value1".to_string(),
            },
            zephyrite::current_timestamp(),
        )
        .unwrap();
    file.extend_from_slice(&line_of(&e1));
    wal_manager.record_appended(e1.sequence_number);

    let e2 = wal_manager
        .prepare_entry(
            WalOperation::Delete {
                key: "key2".to_string(),
            },
            zephyrite::current_timestamp(),
        )
        .unwrap();
    file.extend_from_slice(&line_of(&e2));
    wal_manager.record_appended(e2.sequence_number);

    assert_eq!(e1.sequence_number, 1);
    assert_eq!(e2.sequence_number, 2);

    let entries = wal_manager.read_all_entries(&file).unwrap();
    assert_eq!(entries.len(), 2);
    assert_eq!(entries[0].sequence_number, 1);
    assert_eq!(entries[1].sequence_number, 2);

    match &entries[0].operation {
        WalOperation::Put { key, value } => {
            assert_eq!(key, "key1");
            assert_eq!(value, "value1");
        }
        _ => panic!("Expected Put operation"),
    }

    match &entries[1].operation {
        WalOperation::Delete { key } => {
            assert_eq!(key, "key2");
        }
        _ => panic!("Expected Delete operation"),
    }
}

#[test]
fn test_wal_manager_truncate() {
    let mut wal_manager = WalManager::new("test.wal");
    let mut file: Vec<u8> = Vec::new();

    for op in [
        WalOperation::Put {
            key: "key1".to_string(),
            value: "value1".to_string(),
        },
        WalOperation::Clear,
    ] {
        let e = wal_manager.prepare_entry(op, zephyrite::current_timestamp()).unwrap();
        file.extend_from_slice(&line_of(&e));
        wal_manager.record_appended(e.sequence_number);
    }

    assert_eq!(wal_manager.read_all_entries(&file).unwrap().len(), 2);

    file.clear();
    wal_manager.truncate();

    assert_eq!(wal_manager.read_all_entries(&file).unwrap().len(), 0);
    assert_eq!(wal_manager.current_sequence_number(), 0);
}

#[test]
fn record_round_trip_with_awkward_text() {
    let op = WalOperation::Put {
        key: "k\"e\\y \u{00E9}\u{1F680}".to_string(),
        value: "line\nbreak\ttab\u{0001}\u{001F} \"q\" \\".to_string(),
    };
    for checksum in [false, true] {
        let e = if checksum {
            WalEntry::new_with_checksum(u64::MAX, op.clone())
        } else {
            WalEntry::new(0, op.clone())
        };
        let record = e.to_record();
        assert!(!record.contains(&b'\n'));
        let back = WalEntry::from_record(&record).unwrap();
        assert_eq!(back, e);
        assert!(back.verify_checksum());
    }
}

#[test]
fn record_is_json_with_the_expected_fields() {
    let e = WalEntry::new_with_checksum(
        7,
        WalOperation::Put {
            key: "a\"b".to_string(),
            value: "x\ny".to_string(),
        },
    );
    let record = e.to_record();
    let text = String::from_utf8(record.clone()).unwrap();
    assert!(text.starts_with("{\"sequence_number\":7,\"operation\":{\"Put\":{\"key\":\"a\\\"b\",\"value\":\"x\\u000ay\"}}"));
    let json: serde_json::Value = serde_json::from_slice(&record).unwrap();
    assert_eq!(json["sequence_number"], 7);
    assert_eq!(json["operation"]["Put"]["key"], "a\"b");
    assert_eq!(json["operation"]["Put"]["value"], "x\ny");
    assert_eq!(json["checksum"], e.checksum.clone().unwrap().as_str());

    let clear = WalEntry::new(1, WalOperation::Clear).to_record();
    let json: serde_json::Value = serde_json::from_slice(&clear).unwrap();
    assert_eq!(json["operation"], "Clear");
    assert!(json["checksum"].is_null());
}

#[test]
fn checksum_is_fnv1a_of_the_unchecked_record() {
    let e = WalEntry {
        sequence_number: 1,
        operation: WalOperation::Clear,
        timestamp: "t".to_string(),
        checksum: None,
    };
    let mut h: u64 = 0xcbf29ce484222325;
    for b in e.to_record() {
        h = (h ^ b as u64).wrapping_mul(0x100000001b3);
    }
    let c = WalEntry::new_with_checksum_at(1, WalOperation::Clear, "t".to_string());
    assert_eq!(c.checksum, Some(format!("{h:x}")));
}

#[test]
fn tampered_record_fails_its_checksum() {
    let mut wal = WalManager::new("w");
    let e = WalEntry::new_with_checksum_at(
        1,
        WalOperation::Put {
            key: "k".to_string(),
            value: "v1".to_string(),
        },
        "2025-01-01T00:00:00.000Z".to_string(),
    );
    let line = String::from_utf8(line_of(&e)).unwrap().replace("v1", "v2");
    let result = wal.read_all_entries(line.as_bytes());
    assert!(matches!(result, Err(StorageError::Internal(_))));
    assert!(result.unwrap_err().to_string().contains("Checksum verification failed"));
}

#[test]
fn malformed_line_fails_the_whole_read() {
    let mut wal = WalManager::new("w");
    let good = line_of(&WalEntry::new(1, WalOperation::Clear));
    let mut file = good.clone();
    file.extend_from_slice(b"not a record\n");
    file.extend_from_slice(&good);
    assert!(matches!(wal.read_all_entries(&file), Err(StorageError::Internal(_))));
    assert!(WalEntry::from_record(b"{\"sequence_number\":01,\"operation\":\"Clear\",\"timestamp\":\"t\",\"checksum\":null}").is_err());
    assert!(WalEntry::from_record(b"{\"sequence_number\":1,\"operation\":\"Clear\",\"timestamp\":\"t\",\"checksum\":null}").is_ok());
}

#[test]
fn blank_lines_are_skipped_and_numbering_resumes() {
    let mut wal = WalManager::new_with_options("w", false);
    let mut file = b"\n  \n".to_vec();
    file.extend_from_slice(&line_of(&WalEntry::new(5, WalOperation::Clear)));
    file.extend_from_slice(b"\t\r\n");
    file.extend_from_slice(&line_of(&WalEntry::new(3, WalOperation::Clear)));
    let entries = wal.read_all_entries(&file).unwrap();
    assert_eq!(entries.len(), 2);
    assert_eq!(wal.current_sequence_number(), 5);
    let next = wal.prepare_entry(WalOperation::Clear, "t".to_string()).unwrap();
    assert_eq!(next.sequence_number, 6);
    assert!(next.checksum.is_none());
}

#[test]
fn reader_accepts_standard_json_escapes() {
    let text = "{\"sequence_number\":3,\"operation\":{\"Put\":{\"key\":\"a\\/b\",\"value\":\"x\\ny\\t\\r\\b\\f\\u001F\\u0041\\\"\"}},\"timestamp\":\"t\",\"checksum\":null}";
    let e = WalEntry::from_json(text).unwrap();
    assert_eq!(e.sequence_number, 3);
    assert_eq!(
        e.operation,
        WalOperation::Put {
            key: "a/b".to_string(),
            value: "x\ny\t\r\u{8}\u{c}\u{1f}A\"".to_string(),
        }
    );
    let json = e.to_json().unwrap();
    assert!(!json.contains('\n'));
    assert_eq!(WalEntry::from_json(&json).unwrap(), e);
    assert!(WalEntry::from_json(&text.replace("\\u0041", "\\u00C9")).is_err());
}

#[test]
fn whitespace_only_lines_are_blank() {
    let mut wal = WalManager::new("w");
    let mut file = b" \x0b\x0c\t\r\n".to_vec();
    file.extend_from_slice(&line_of(&WalEntry::new(1, WalOperation::Clear)));
    assert_eq!(wal.read_all_entries(&file).unwrap().len(), 1);
}
