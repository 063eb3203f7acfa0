use rustikv::crc::crc32;
use rustikv::error::ErrorKind;
use rustikv::record::{Record, RecordHeader};

fn record() -> Record {
    Record {
        header: RecordHeader {
            crc32: 0,
            key_size: 5,
            value_size: 5,
            tombstone: false,
            expiry_ms: None,
        },
        key: "hello".to_string(),
        value: "world".to_string(),
    }
}

#[test]
fn known_test_vector() {
    // Standard CRC32 check value from the IEEE spec
    assert_eq!(crc32(b"123456789"), 0xCBF43926);
}

#[test]
fn valid_record_roundtrip() {
    let mut file: Vec<u8> = Vec::new();
    record().append(&mut file);

    let (read_back, end) = Record::read_next(&file, 0).unwrap();
    assert_eq!(read_back.key, "hello");
    assert_eq!(read_back.value, "world");
    assert_eq!(end, file.len());
}

#[test]
fn corrupted_value_detected() {
    let mut file: Vec<u8> = Vec::new();
    record().append(&mut file);

    // Flip a byte in the value region (last byte of the file)
    let last = file.len() - 1;
    file[last] ^= 0xFF;

    let err = Record::read_next(&file, 0).unwrap_err();
    assert_eq!(err.kind(), ErrorKind::InvalidData);
    assert!(err.message().contains("CRC mismatch"));
}

#[test]
fn corrupted_header_detected() {
    let mut file: Vec<u8> = Vec::new();
    record().append(&mut file);

    // Flip a byte in the tombstone field (byte at offset CRC_LEN + 16 = 20)
    let tombstone_offset = 20;
    file[tombstone_offset] ^= 0xFF;

    let err = Record::read_next(&file, 0).unwrap_err();
    assert_eq!(err.kind(), ErrorKind::InvalidData);
    assert!(err.message().contains("CRC mismatch"));
}
