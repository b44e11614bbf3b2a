use zephyrite::{Page, PageManager, PAGE_SIZE};

#[test]
fn test_page_new() {
    let page = Page::new(42);

    assert_eq!(page.id, 42);
    assert_eq!(page.data.len(), PAGE_SIZE as usize);
    assert!(!page.dirty);
    assert!(!page.is_dirty());
    assert_eq!(page.size(), PAGE_SIZE as usize);
    assert_eq!(page.free_space(), 0);

    assert!(page.data.iter().all(|&x| x == 0));
}

#[test]
fn test_page_from_data() {
    let data = vec![1, 2, 3, 4, 5];
    let page = Page::from_data(99, data.clone());

    assert_eq!(page.id, 99);
    assert_eq!(page.data.len(), PAGE_SIZE as usize);
    assert!(!page.dirty);
    assert!(!page.is_dirty());

    assert_eq!(&page.data[0..5], &data);

    assert!(page.data[5..].iter().all(|&x| x == 0));
}

#[test]
fn test_page_from_data_exact_size() {
    let data = vec![42; PAGE_SIZE as usize];
    let page = Page::from_data(1, data.clone());

    assert_eq!(page.id, 1);
    assert_eq!(page.data.len(), PAGE_SIZE as usize);
    assert_eq!(page.data, data);
    assert!(!page.dirty);
}

#[test]
fn test_page_mark_dirty() {
    let mut page = Page::new(1);

    assert!(!page.is_dirty());

    page.mark_dirty();
    assert!(page.is_dirty());
    assert!(page.dirty);
}

#[test]
fn test_page_clear_dirty() {
    let mut page = Page::new(1);

    page.mark_dirty();
    assert!(page.is_dirty());

    page.clear_dirty();
    assert!(!page.is_dirty());
    assert!(!page.dirty);
}

#[test]
fn test_page_write_data() {
    let mut page = Page::new(1);
    let data = b"hello world";

    assert!(!page.is_dirty());

    let result = page.write_data(0, data);
    assert!(result.is_ok());
    assert!(page.is_dirty());

    assert_eq!(&page.data[0..data.len()], data);
    assert_eq!(page.data[data.len()], 0);
}

#[test]
fn test_page_write_data_with_offset() {
    let mut page = Page::new(1);
    let data = b"test";
    let offset = 100;

    let result = page.write_data(offset, data);
    assert!(result.is_ok());
    assert!(page.is_dirty());

    assert_eq!(&page.data[offset..offset + data.len()], data);
    assert_eq!(page.data[offset - 1], 0);
    assert_eq!(page.data[offset + data.len()], 0);
}

#[test]
fn test_page_write_data_exceeds_size() {
    let mut page = Page::new(1);
    let data = b"test";
    let offset = PAGE_SIZE as usize - 2;

    let result = page.write_data(offset, data);
    assert!(result.is_err());
    assert_eq!(result.unwrap_err(), "Data exceeds page size");
    assert!(!page.is_dirty());
}

#[test]
fn test_page_read_data() {
    let mut page = Page::new(1);
    let data = b"hello world";

    page.write_data(0, data).unwrap();

    let read_result = page.read_data(0, data.len());
    assert!(read_result.is_ok());
    assert_eq!(read_result.unwrap(), data);
}

#[test]
fn test_page_read_data_with_offset() {
    let mut page = Page::new(1);
    let data = b"test data";
    let offset = 50;

    page.write_data(offset, data).unwrap();

    let read_result = page.read_data(offset, data.len());
    assert!(read_result.is_ok());
    assert_eq!(read_result.unwrap(), data);
}

#[test]
fn test_page_read_data_exceeds_size() {
    let page = Page::new(1);
    let offset = PAGE_SIZE as usize - 2;
    let length = 5;

    let result = page.read_data(offset, length);
    assert!(result.is_err());
    assert_eq!(result.unwrap_err(), "Read exceeds page size");
}

#[test]
fn test_page_read_empty_data() {
    let page = Page::new(1);

    let result = page.read_data(0, 0);
    assert!(result.is_ok());
    assert_eq!(result.unwrap(), &[] as &[u8]);
}

#[test]
fn test_page_size() {
    let page = Page::new(1);
    assert_eq!(page.size(), PAGE_SIZE as usize);
}

#[test]
fn test_page_free_space() {
    let page = Page::new(1);
    assert_eq!(page.free_space(), 0);

    let data = vec![1, 2, 3];
    let page2 = Page::from_data(1, data);
    assert_eq!(page2.free_space(), 0);
}

#[test]
fn test_page_multiple_writes() {
    let mut page = Page::new(1);

    page.write_data(0, b"hello").unwrap();
    page.write_data(10, b"world").unwrap();

    assert_eq!(page.read_data(0, 5).unwrap(), b"hello");
    assert_eq!(page.read_data(10, 5).unwrap(), b"world");
    assert_eq!(page.data[5], 0);
    assert_eq!(page.data[9], 0);
}

#[test]
fn test_page_overwrite_data() {
    let mut page = Page::new(1);

    page.write_data(0, b"hello").unwrap();
    page.write_data(0, b"world").unwrap();

    assert_eq!(page.read_data(0, 5).unwrap(), b"world");
}

#[test]
fn test_page_clone() {
    let mut page = Page::new(42);
    page.write_data(0, b"test").unwrap();

    let cloned = page.clone();

    assert_eq!(cloned.id, page.id);
    assert_eq!(cloned.data, page.data);
    assert_eq!(cloned.dirty, page.dirty);
    assert_eq!(cloned.is_dirty(), page.is_dirty());
}

#[test]
fn test_page_debug_format() {
    let page = Page::new(123);
    let debug_str = format!("{page:?}");

    assert!(debug_str.contains("Page"));
    assert!(debug_str.contains("id: 123"));
    assert!(debug_str.contains("dirty: false"));
}

#[test]
fn page_write_at_the_very_end() {
    let mut page = Page::new(7);
    assert!(page.write_data(PAGE_SIZE as usize - 3, b"end").is_ok());
    assert_eq!(page.read_data(PAGE_SIZE as usize - 3, 3).unwrap(), b"end");
    assert!(page.read_data(PAGE_SIZE as usize, 0).is_ok());
    assert!(page.read_data(PAGE_SIZE as usize, 1).is_err());
    assert!(page.write_data(usize::MAX, b"x").is_err());
}

#[test]
fn test_page_manager_new() {
    let manager = PageManager::new();

    assert_eq!(manager.next_page_id(), 1);
    assert_eq!(manager.free_page_count(), 0);
    assert_eq!(manager.free_pages().len(), 0);
    assert_eq!(manager.total_pages(), 0);
}

#[test]
fn test_page_manager_with_state() {
    let free_pages = vec![5, 10, 15];
    let manager = PageManager::with_state(20, free_pages.clone());

    assert_eq!(manager.next_page_id(), 20);
    assert_eq!(manager.free_page_count(), 3);
    assert_eq!(manager.free_pages(), &[5, 10, 15]);
    assert_eq!(manager.total_pages(), 22);
}

#[test]
fn test_page_manager_allocate_page() {
    let mut manager = PageManager::new();

    let page_id1 = manager.allocate_page();
    assert_eq!(page_id1, 1);
    assert_eq!(manager.next_page_id(), 2);

    let page_id2 = manager.allocate_page();
    assert_eq!(page_id2, 2);
    assert_eq!(manager.next_page_id(), 3);

    assert_eq!(manager.total_pages(), 2);
}

#[test]
fn test_page_manager_free_page() {
    let mut manager = PageManager::new();

    let _page1 = manager.allocate_page();
    let _page2 = manager.allocate_page();
    let _page3 = manager.allocate_page();

    assert_eq!(manager.free_page_count(), 0);

    manager.free_page(2);
    assert_eq!(manager.free_page_count(), 1);
    assert_eq!(manager.free_pages(), &[2]);

    manager.free_page(1);
    assert_eq!(manager.free_page_count(), 2);
    assert_eq!(manager.free_pages(), &[1, 2]);
}

#[test]
fn test_page_manager_allocate_from_free_list() {
    let mut manager = PageManager::new();

    let _page1 = manager.allocate_page();
    let _page2 = manager.allocate_page();
    let _page3 = manager.allocate_page();

    manager.free_page(2);
    manager.free_page(1);

    assert_eq!(manager.free_page_count(), 2);

    let reused_page = manager.allocate_page();
    assert_eq!(reused_page, 2);
    assert_eq!(manager.free_page_count(), 1);
    assert_eq!(manager.free_pages(), &[1]);

    let reused_page2 = manager.allocate_page();
    assert_eq!(reused_page2, 1);
    assert_eq!(manager.free_page_count(), 0);
    assert_eq!(manager.free_pages().len(), 0);

    let new_page = manager.allocate_page();
    assert_eq!(new_page, 4);
    assert_eq!(manager.next_page_id(), 5);
}

#[test]
fn test_page_manager_free_page_no_duplicates() {
    let mut manager = PageManager::new();

    let _page = manager.allocate_page();
    manager.free_page(1);
    manager.free_page(1);

    assert_eq!(manager.free_page_count(), 1);
    assert_eq!(manager.free_pages(), &[1]);
}

#[test]
fn test_page_manager_free_pages_sorted() {
    let mut manager = PageManager::new();

    manager.free_page(10);
    manager.free_page(5);
    manager.free_page(15);
    manager.free_page(1);

    assert_eq!(manager.free_pages(), &[1, 5, 10, 15]);
}

#[test]
fn test_page_manager_total_pages() {
    let mut manager = PageManager::new();

    assert_eq!(manager.total_pages(), 0);

    let _page1 = manager.allocate_page();
    assert_eq!(manager.total_pages(), 1);

    let _page2 = manager.allocate_page();
    assert_eq!(manager.total_pages(), 2);

    manager.free_page(1);
    assert_eq!(manager.total_pages(), 3);

    let _reused_page = manager.allocate_page();
    assert_eq!(manager.total_pages(), 2);
}

#[test]
fn test_page_manager_complex_allocation_pattern() {
    let mut manager = PageManager::new();

    let page1 = manager.allocate_page();
    let page2 = manager.allocate_page();
    let page3 = manager.allocate_page();
    let page4 = manager.allocate_page();

    assert_eq!(page1, 1);
    assert_eq!(page2, 2);
    assert_eq!(page3, 3);
    assert_eq!(page4, 4);

    manager.free_page(page2);
    manager.free_page(page4);

    assert_eq!(manager.free_page_count(), 2);
    assert_eq!(manager.free_pages(), &[2, 4]);

    let reused1 = manager.allocate_page();
    let reused2 = manager.allocate_page();

    assert_eq!(reused1, 4);
    assert_eq!(reused2, 2);
    assert_eq!(manager.free_page_count(), 0);

    let new_page = manager.allocate_page();
    assert_eq!(new_page, 5);
    assert_eq!(manager.next_page_id(), 6);
}

#[test]
fn test_page_manager_page_zero_reserved() {
    let manager = PageManager::new();

    assert_eq!(manager.next_page_id(), 1);

    let mut manager = manager;
    let first_page = manager.allocate_page();
    assert_eq!(first_page, 1);
    assert_ne!(first_page, 0);
}
