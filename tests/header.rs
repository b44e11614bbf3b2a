use zephyrite::{FileHeader, FORMAT_VERSION, HEADER_SIZE, PAGE_SIZE, ZEPHYRITE};

#[test]
fn test_file_header_new() {
    let header = FileHeader::new();

    assert_eq!(header.zephyrite_file_id, ZEPHYRITE);
    assert_eq!(header.version, FORMAT_VERSION);
    assert_eq!(header.page_size, PAGE_SIZE);
    assert_eq!(header.next_page, 1);
    assert_eq!(header.free_pages_count, 0);
    assert_eq!(header.index_page_id, 0);
}

#[test]
fn test_file_header_serialize() {
    let header = FileHeader::new();
    let serialized = header.serialize().unwrap();

    assert_eq!(serialized.len(), HEADER_SIZE);
    assert_eq!(&serialized[0..9], &ZEPHYRITE);
    assert_ne!(serialized, [0u8; HEADER_SIZE]);
}

#[test]
fn test_file_header_serialize_vec() {
    let header = FileHeader::new();
    let serialized = header.serialize_vec().unwrap();

    assert_eq!(serialized.len(), HEADER_SIZE);
    assert_eq!(&serialized[0..9], &ZEPHYRITE);
}

#[test]
fn test_file_header_serialize_deserialize_roundtrip() {
    let original = FileHeader::new();
    let serialized = original.serialize().unwrap();
    let deserialized = FileHeader::deserialize(&serialized).unwrap();

    assert_eq!(original.zephyrite_file_id, deserialized.zephyrite_file_id);
    assert_eq!(original.version, deserialized.version);
    assert_eq!(original.page_size, deserialized.page_size);
    assert_eq!(original.next_page, deserialized.next_page);
    assert_eq!(original.free_pages_count, deserialized.free_pages_count);
    assert_eq!(original.index_page_id, deserialized.index_page_id);
}

#[test]
fn test_file_header_deserialize_invalid_size() {
    let short_bytes = vec![0u8; HEADER_SIZE - 1];
    let result = FileHeader::deserialize(&short_bytes);

    assert!(result.is_err());
    assert!(result.unwrap_err().to_string().contains("Invalid header size"));
}

#[test]
fn test_file_header_deserialize_invalid_identifier() {
    let mut bytes = [0u8; HEADER_SIZE];
    bytes[0..9].copy_from_slice(b"WRONGFILE");

    let result = FileHeader::deserialize(&bytes);

    assert!(result.is_err());
    assert!(
        result
            .unwrap_err()
            .to_string()
            .contains("Invalid Zephyrite file identifier")
    );
}

#[test]
fn test_file_header_validate_invalid_version() {
    let mut header = FileHeader::new();
    header.version = 0;

    let result = header.validate();
    assert!(result.is_err());
    assert!(result.unwrap_err().to_string().contains("Unsupported format version"));

    header.version = FORMAT_VERSION + 1;
    let result = header.validate();
    assert!(result.is_err());
    assert!(result.unwrap_err().to_string().contains("Unsupported format version"));
}

#[test]
fn test_file_header_validate_invalid_page_size() {
    let mut header = FileHeader::new();

    header.page_size = 0;
    let result = header.validate();
    assert!(result.is_err());
    assert!(result.unwrap_err().to_string().contains("Invalid page size"));

    header.page_size = 1000;
    let result = header.validate();
    assert!(result.is_err());
    assert!(result.unwrap_err().to_string().contains("Invalid page size"));

    for page_size in [512, 1024, 2048, 4096, 8192] {
        header.page_size = page_size;
        assert!(header.validate().is_ok());
    }
}

#[test]
fn test_file_header_validate_invalid_next_page() {
    let mut header = FileHeader::new();
    header.next_page = 0;

    let result = header.validate();
    assert!(result.is_err());
    assert!(
        result
            .unwrap_err()
            .to_string()
            .contains("Invalid next_page: cannot be 0")
    );
}

#[test]
fn test_file_header_read_u16_le() {
    let bytes = [0x34, 0x12, 0x78, 0x56];

    let value = FileHeader::read_u16_le(&bytes, 0).unwrap();
    assert_eq!(value, 0x1234);

    let value = FileHeader::read_u16_le(&bytes, 2).unwrap();
    assert_eq!(value, 0x5678);

    let result = FileHeader::read_u16_le(&bytes, 3);
    assert!(result.is_err());
    assert!(result.unwrap_err().to_string().contains("Buffer too short for u16"));
}

#[test]
fn test_file_header_read_u64_le() {
    let bytes = [0x78, 0x56, 0x34, 0x12, 0xBC, 0x9A, 0x78, 0x56, 0xFF];

    let value = FileHeader::read_u64_le(&bytes, 0).unwrap();
    assert_eq!(value, 0x5678_9ABC_1234_5678);

    let result = FileHeader::read_u64_le(&bytes, 2);
    assert!(result.is_err());
    assert!(result.unwrap_err().to_string().contains("Buffer too short for u64"));
}

#[test]
fn test_file_header_write_bytes_at() {
    let mut buffer = [0u8; 10];
    let data = [0x12, 0x34, 0x56, 0x78];

    let new_offset = FileHeader::write_bytes_at(&mut buffer, 2, &data).unwrap();
    assert_eq!(new_offset, 6);
    assert_eq!(&buffer[2..6], &data);

    let result = FileHeader::write_bytes_at(&mut buffer, 8, &data);
    assert!(result.is_err());
    assert!(result.unwrap_err().to_string().contains("Buffer too small for write"));
}

#[test]
fn test_file_header_serialize_consistency() {
    let mut header = FileHeader::new();
    header.next_page = 42;
    header.free_pages_count = 100;
    header.index_page_id = 200;

    let serialized = header.serialize().unwrap();
    let deserialized = FileHeader::deserialize(&serialized).unwrap();

    assert_eq!(header.zephyrite_file_id, deserialized.zephyrite_file_id);
    assert_eq!(header.version, deserialized.version);
    assert_eq!(header.page_size, deserialized.page_size);
    assert_eq!(header.next_page, deserialized.next_page);
    assert_eq!(header.free_pages_count, deserialized.free_pages_count);
    assert_eq!(header.index_page_id, deserialized.index_page_id);
}

#[test]
fn test_file_header_constants() {
    assert_eq!(PAGE_SIZE, 4096);
    assert_eq!(FORMAT_VERSION, 1);
    assert_eq!(ZEPHYRITE, *b"ZEPHYRITE");
    assert_eq!(HEADER_SIZE, 64);
}

#[test]
fn header_layout_is_little_endian_at_fixed_offsets() {
    let mut header = FileHeader::new();
    header.next_page = 0x0102_0304_0506_0708;
    header.free_pages_count = 3;
    header.index_page_id = 0xAA;
    let b = header.serialize().unwrap();
    assert_eq!(&b[9..11], &[1, 0]);
    assert_eq!(&b[11..13], &[0x00, 0x10]);
    assert_eq!(&b[13..21], &[8, 7, 6, 5, 4, 3, 2, 1]);
    assert_eq!(&b[21..29], &[3, 0, 0, 0, 0, 0, 0, 0]);
    assert_eq!(&b[29..37], &[0xAA, 0, 0, 0, 0, 0, 0, 0]);
    assert!(b[37..].iter().all(|&x| x == 0));
}
