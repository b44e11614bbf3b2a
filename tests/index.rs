use zephyrite::{Index, IndexEntry};

#[test]
fn test_index_entry_new() {
    let entry = IndexEntry::new("test_key".to_string(), 1, 100, 50);
    assert_eq!(entry.key, "test_key");
    assert_eq!(entry.page_id, 1);
    assert_eq!(entry.offset, 100);
    assert_eq!(entry.size, 50);
}

#[test]
fn test_index_entry_end_offset() {
    let entry = IndexEntry::new("test".to_string(), 1, 100, 50);
    assert_eq!(entry.end_offset(), 150);
}

#[test]
fn test_index_entry_end_offset_overflow() {
    let entry = IndexEntry::new("test".to_string(), 1, u16::MAX - 10, 20);
    assert_eq!(entry.end_offset(), u16::MAX);
}

#[test]
fn test_index_entry_overlaps_with_different_pages() {
    let entry1 = IndexEntry::new("key1".to_string(), 1, 100, 50);
    let entry2 = IndexEntry::new("key2".to_string(), 2, 100, 50);
    assert!(!entry1.overlaps_with(&entry2));
}

#[test]
fn test_index_entry_overlaps_with_same_page_no_overlap() {
    let entry1 = IndexEntry::new("key1".to_string(), 1, 100, 50);
    let entry2 = IndexEntry::new("key2".to_string(), 1, 150, 50);
    assert!(!entry1.overlaps_with(&entry2));
}

#[test]
fn test_index_entry_overlaps_with_same_page_overlap() {
    let entry1 = IndexEntry::new("key1".to_string(), 1, 100, 50);
    let entry2 = IndexEntry::new("key2".to_string(), 1, 120, 50);
    assert!(entry1.overlaps_with(&entry2));
}

#[test]
fn test_index_entry_overlaps_with_adjacent_entries() {
    let entry1 = IndexEntry::new("key1".to_string(), 1, 100, 50);
    let entry2 = IndexEntry::new("key2".to_string(), 1, 150, 50);
    assert!(!entry1.overlaps_with(&entry2));
}

#[test]
fn test_index_new() {
    let index = Index::new();
    assert!(index.is_empty());
    assert_eq!(index.len(), 0);
}

#[test]
fn test_index_with_capacity() {
    let index = Index::with_capacity(10);
    assert!(index.is_empty());
    assert_eq!(index.len(), 0);
}

#[test]
fn test_index_insert_and_get() {
    let mut index = Index::new();
    let entry = IndexEntry::new("test_key".to_string(), 1, 100, 50);

    assert!(index.insert("test_key".to_string(), entry.clone()).is_none());
    assert_eq!(index.len(), 1);
    assert!(!index.is_empty());

    let retrieved = index.get("test_key").unwrap();
    assert_eq!(retrieved.key, "test_key");
    assert_eq!(retrieved.page_id, 1);
    assert_eq!(retrieved.offset, 100);
    assert_eq!(retrieved.size, 50);
}

#[test]
fn test_index_insert_duplicate_key() {
    let mut index = Index::new();
    let entry1 = IndexEntry::new("test_key".to_string(), 1, 100, 50);
    let entry2 = IndexEntry::new("test_key".to_string(), 2, 200, 75);

    assert!(index.insert("test_key".to_string(), entry1.clone()).is_none());
    let old_entry = index.insert("test_key".to_string(), entry2.clone()).unwrap();

    assert_eq!(old_entry.page_id, 1);
    assert_eq!(index.get("test_key").unwrap().page_id, 2);
}

#[test]
fn test_index_get_nonexistent() {
    let index = Index::new();
    assert!(index.get("nonexistent").is_none());
}

#[test]
fn test_index_contains_key() {
    let mut index = Index::new();
    let entry = IndexEntry::new("test_key".to_string(), 1, 100, 50);

    assert!(!index.contains_key("test_key"));
    index.insert("test_key".to_string(), entry);
    assert!(index.contains_key("test_key"));
}

#[test]
fn test_index_remove() {
    let mut index = Index::new();
    let entry = IndexEntry::new("test_key".to_string(), 1, 100, 50);

    index.insert("test_key".to_string(), entry.clone());
    assert!(index.contains_key("test_key"));

    let removed = index.remove("test_key").unwrap();
    assert_eq!(removed.key, "test_key");
    assert!(!index.contains_key("test_key"));
    assert!(index.is_empty());
}

#[test]
fn test_index_remove_nonexistent() {
    let mut index = Index::new();
    assert!(index.remove("nonexistent").is_none());
}

#[test]
fn test_index_keys() {
    let mut index = Index::new();
    let entry1 = IndexEntry::new("key1".to_string(), 1, 100, 50);
    let entry2 = IndexEntry::new("key2".to_string(), 2, 200, 75);

    index.insert("key1".to_string(), entry1);
    index.insert("key2".to_string(), entry2);

    let keys = index.keys();
    assert_eq!(keys.len(), 2);
    assert!(keys.contains(&"key1".to_string()));
    assert!(keys.contains(&"key2".to_string()));
}

#[test]
fn test_index_entries() {
    let mut index = Index::new();
    let entry = IndexEntry::new("test_key".to_string(), 1, 100, 50);

    index.insert("test_key".to_string(), entry.clone());

    let entries = index.entries();
    assert_eq!(entries.len(), 1);
    assert!(entries.iter().any(|(k, _)| k == "test_key"));
}

#[test]
fn test_index_clear() {
    let mut index = Index::new();
    let entry = IndexEntry::new("test_key".to_string(), 1, 100, 50);

    index.insert("test_key".to_string(), entry);
    assert!(!index.is_empty());

    index.clear();
    assert!(index.is_empty());
    assert_eq!(index.len(), 0);
}

#[test]
fn test_index_entries_on_page() {
    let mut index = Index::new();
    let entry1 = IndexEntry::new("key1".to_string(), 1, 100, 50);
    let entry2 = IndexEntry::new("key2".to_string(), 1, 200, 75);
    let entry3 = IndexEntry::new("key3".to_string(), 2, 100, 50);

    index.insert("key1".to_string(), entry1);
    index.insert("key2".to_string(), entry2);
    index.insert("key3".to_string(), entry3);

    let page1_entries = index.entries_on_page(1);
    assert_eq!(page1_entries.len(), 2);

    let page2_entries = index.entries_on_page(2);
    assert_eq!(page2_entries.len(), 1);

    let page3_entries = index.entries_on_page(3);
    assert_eq!(page3_entries.len(), 0);
}

#[test]
fn test_index_used_pages() {
    let mut index = Index::new();
    let entry1 = IndexEntry::new("key1".to_string(), 3, 100, 50);
    let entry2 = IndexEntry::new("key2".to_string(), 1, 200, 75);
    let entry3 = IndexEntry::new("key3".to_string(), 3, 300, 25);
    let entry4 = IndexEntry::new("key4".to_string(), 2, 100, 50);

    index.insert("key1".to_string(), entry1);
    index.insert("key2".to_string(), entry2);
    index.insert("key3".to_string(), entry3);
    index.insert("key4".to_string(), entry4);

    let used_pages = index.used_pages();
    assert_eq!(used_pages, vec![1, 2, 3]);
}

#[test]
fn test_index_validate_no_errors() {
    let mut index = Index::new();
    let entry1 = IndexEntry::new("key1".to_string(), 1, 100, 50);
    let entry2 = IndexEntry::new("key2".to_string(), 1, 200, 50);
    let entry3 = IndexEntry::new("key3".to_string(), 2, 100, 50);

    index.insert("key1".to_string(), entry1);
    index.insert("key2".to_string(), entry2);
    index.insert("key3".to_string(), entry3);

    let errors = index.validate();
    assert!(errors.is_empty());
}

#[test]
fn test_index_validate_overlapping_entries() {
    let mut index = Index::new();
    let entry1 = IndexEntry::new("key1".to_string(), 1, 100, 50);
    let entry2 = IndexEntry::new("key2".to_string(), 1, 120, 50);

    index.insert("key1".to_string(), entry1);
    index.insert("key2".to_string(), entry2);

    let errors = index.validate();
    assert_eq!(errors.len(), 1);
    assert!(errors[0].contains("Overlapping entries on page 1"));
    assert!(errors[0].contains("key1"));
    assert!(errors[0].contains("key2"));
}

#[test]
fn test_index_validate_multiple_overlapping_entries() {
    let mut index = Index::new();
    let entry1 = IndexEntry::new("key1".to_string(), 1, 100, 50);
    let entry2 = IndexEntry::new("key2".to_string(), 1, 120, 50);
    let entry3 = IndexEntry::new("key3".to_string(), 1, 140, 50);

    index.insert("key1".to_string(), entry1);
    index.insert("key2".to_string(), entry2);
    index.insert("key3".to_string(), entry3);

    let errors = index.validate();
    assert!(errors.len() >= 2);
}

#[test]
fn test_index_validate_empty_index() {
    let index = Index::new();
    let errors = index.validate();
    assert!(errors.is_empty());
}

#[test]
fn test_index_entry_clone() {
    let entry1 = IndexEntry::new("test".to_string(), 1, 100, 50);
    let entry2 = entry1.clone();

    assert_eq!(entry1.key, entry2.key);
    assert_eq!(entry1.page_id, entry2.page_id);
    assert_eq!(entry1.offset, entry2.offset);
    assert_eq!(entry1.size, entry2.size);
}

#[test]
fn test_index_default() {
    let index = Index::default();
    assert!(index.is_empty());
    assert_eq!(index.len(), 0);
}

#[test]
fn overlap_reports_name_page_and_both_keys() {
    let mut index = Index::new();
    index.insert("a".to_string(), IndexEntry::new("a".to_string(), 12, 0, 10));
    index.insert("b".to_string(), IndexEntry::new("b".to_string(), 12, 9, 1));
    index.insert("c".to_string(), IndexEntry::new("c".to_string(), 12, 10, 5));
    index.insert("d".to_string(), IndexEntry::new("d".to_string(), 13, 0, 10));
    let errors = index.validate();
    assert_eq!(errors, vec!["Overlapping entries on page 12: a and b".to_string()]);
}

fn average(total: usize, count: usize) -> f64 {
    if count == 0 {
        0.0
    } else {
        total as f64 / count as f64
    }
}

#[test]
fn test_index_stats_empty() {
    let index = Index::new();
    let stats = index.stats();

    assert_eq!(stats.entry_count, 0);
    assert_eq!(stats.page_count, 0);
    assert_eq!(stats.total_data_size, 0);
    assert!((average(stats.total_key_length, stats.entry_count) - 0.0).abs() < f64::EPSILON);
    assert!((average(stats.total_data_size, stats.entry_count) - 0.0).abs() < f64::EPSILON);
    assert_eq!(stats.max_value_size, 0);
    assert_eq!(stats.min_value_size, 0);
    assert!((average(stats.entry_count, stats.page_count) - 0.0).abs() < f64::EPSILON);
}

#[test]
fn test_index_stats_single_entry() {
    let mut index = Index::new();
    let entry = IndexEntry::new("test".to_string(), 1, 100, 50);
    index.insert("test".to_string(), entry);

    let stats = index.stats();
    assert_eq!(stats.entry_count, 1);
    assert_eq!(stats.page_count, 1);
    assert_eq!(stats.total_data_size, 50);
    assert!((average(stats.total_key_length, stats.entry_count) - 4.0).abs() < f64::EPSILON);
    assert!((average(stats.total_data_size, stats.entry_count) - 50.0).abs() < f64::EPSILON);
    assert_eq!(stats.max_value_size, 50);
    assert_eq!(stats.min_value_size, 50);
    assert!((average(stats.entry_count, stats.page_count) - 1.0).abs() < f64::EPSILON);
}

#[test]
fn test_index_stats_multiple_entries() {
    let mut index = Index::new();
    let entry1 = IndexEntry::new("key1".to_string(), 1, 100, 50);
    let entry2 = IndexEntry::new("key22".to_string(), 1, 200, 75);
    let entry3 = IndexEntry::new("key333".to_string(), 2, 100, 25);

    index.insert("key1".to_string(), entry1);
    index.insert("key22".to_string(), entry2);
    index.insert("key333".to_string(), entry3);

    let stats = index.stats();
    assert_eq!(stats.entry_count, 3);
    assert_eq!(stats.page_count, 2);
    assert_eq!(stats.total_data_size, 150);
    assert!((average(stats.total_key_length, stats.entry_count) - 5.0).abs() < f64::EPSILON);
    assert!((average(stats.total_data_size, stats.entry_count) - 50.0).abs() < f64::EPSILON);
    assert_eq!(stats.max_value_size, 75);
    assert_eq!(stats.min_value_size, 25);
    assert!((average(stats.entry_count, stats.page_count) - 1.5).abs() < f64::EPSILON);
}

#[test]
fn test_index_stats_clone() {
    let mut index = Index::new();
    let entry = IndexEntry::new("test".to_string(), 1, 100, 50);
    index.insert("test".to_string(), entry);

    let stats1 = index.stats();
    let stats2 = stats1.clone();

    assert_eq!(stats1.entry_count, stats2.entry_count);
    assert_eq!(stats1.page_count, stats2.page_count);
    assert_eq!(stats1.total_data_size, stats2.total_data_size);
}

#[test]
fn empty_range_overlaps_nothing() {
    let inner = IndexEntry::new("z".to_string(), 1, 120, 0);
    let outer = IndexEntry::new("o".to_string(), 1, 100, 50);
    assert!(!inner.overlaps_with(&outer));
    assert!(!outer.overlaps_with(&inner));
    let one = IndexEntry::new("b".to_string(), 1, 149, 1);
    assert!(one.overlaps_with(&outer));
    let mut index = Index::new();
    index.insert("z".to_string(), inner);
    index.insert("o".to_string(), outer);
    assert!(index.validate().is_empty());
}
