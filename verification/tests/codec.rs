//! The on-disk record codec: exact bytes, round trips, torn records.
use lsmlib::crc::hash;
use lsmlib::format::read_hint;
use lsmlib::format::read_record;
use lsmlib::format::write_hint;
use lsmlib::format::write_record;
use lsmlib::format::DiskEntry;
use lsmlib::format::HintEntry;
use lsmlib::format::HintReadOutcome;
use lsmlib::format::ReadOutcome;

// The classic CRC-32 (IEEE) check value: crc32(b"123456789") == 0xCBF43926.
const CRC_CHECK: u32 = 0xCBF43926;

#[test]
fn checksum_is_crc32_of_key_then_value_xor_ff() {
    let k = b"1234".to_vec();
    let v = b"56789".to_vec();
    assert_eq!(hash(&k, &v), CRC_CHECK ^ 0xFF);
}

#[test]
fn empty_record_checksum_is_not_zero() {
    // crc32 of no bytes is 0; the XOR keeps an all-zero region from
    // passing for a valid empty record.
    let k: Vec<u8> = Vec::new();
    let v: Vec<u8> = Vec::new();
    assert_eq!(hash(&k, &v), 0xFF);
}

#[test]
fn write_record_layout_is_exact() {
    let entry = DiskEntry { key: b"1234".to_vec(), value: b"56789".to_vec(), timestamp: 7 };
    let mut sink: Vec<u8> = Vec::new();
    let offset = write_record(&mut sink, &entry);
    assert_eq!(offset, 0);
    let cs = (CRC_CHECK ^ 0xFF).to_le_bytes();
    let mut expected: Vec<u8> = Vec::new();
    expected.extend_from_slice(&cs);
    expected.extend_from_slice(&7u32.to_le_bytes());
    expected.extend_from_slice(&4u64.to_le_bytes());
    expected.extend_from_slice(&5u64.to_le_bytes());
    expected.extend_from_slice(b"1234");
    expected.extend_from_slice(b"56789");
    assert_eq!(sink, expected);
    assert_eq!(sink.len(), 24 + 4 + 5);
}

#[test]
fn record_round_trip() {
    let entry = DiskEntry { key: b"alpha".to_vec(), value: b"beta".to_vec(), timestamp: 42 };
    let mut sink: Vec<u8> = Vec::new();
    let _ = write_record(&mut sink, &entry);
    match read_record(&sink, 0) {
        ReadOutcome::Valid(e) => {
            assert_eq!(e.key, b"alpha".to_vec());
            assert_eq!(e.value, b"beta".to_vec());
            assert_eq!(e.timestamp, 42);
        }
        _ => panic!("expected a valid record"),
    }
}

#[test]
fn read_at_end_is_end() {
    let entry = DiskEntry { key: b"k".to_vec(), value: b"v".to_vec(), timestamp: 1 };
    let mut sink: Vec<u8> = Vec::new();
    let _ = write_record(&mut sink, &entry);
    let n = sink.len();
    assert!(matches!(read_record(&sink, n), ReadOutcome::End));
    assert!(matches!(read_record(&sink, n + 10), ReadOutcome::End));
}

#[test]
fn corrupt_byte_is_torn() {
    let entry = DiskEntry { key: b"key".to_vec(), value: b"value".to_vec(), timestamp: 9 };
    let mut sink: Vec<u8> = Vec::new();
    let _ = write_record(&mut sink, &entry);
    let last = sink.len() - 1;
    sink[last] ^= 0x01;
    assert!(matches!(read_record(&sink, 0), ReadOutcome::Torn));
}

#[test]
fn short_record_is_torn() {
    let entry = DiskEntry { key: b"key".to_vec(), value: b"value".to_vec(), timestamp: 9 };
    let mut sink: Vec<u8> = Vec::new();
    let _ = write_record(&mut sink, &entry);
    sink.truncate(sink.len() - 3);
    assert!(matches!(read_record(&sink, 0), ReadOutcome::Torn));
}

#[test]
fn all_zero_region_is_torn() {
    let zeros = vec![0u8; 64];
    assert!(matches!(read_record(&zeros, 0), ReadOutcome::Torn));
}

#[test]
fn hint_round_trip() {
    let hint = HintEntry {
        key: b"door".to_vec(),
        value_sz: 11,
        offset: 1024,
        size: 39,
        timestamp: 77,
    };
    let mut sink: Vec<u8> = Vec::new();
    let off = write_hint(&mut sink, &hint);
    assert_eq!(off, 0);
    assert_eq!(sink.len(), 40 + 4);
    match read_hint(&sink, 0) {
        HintReadOutcome::Valid(h) => {
            assert_eq!(h.key, b"door".to_vec());
            assert_eq!(h.value_sz, 11);
            assert_eq!(h.offset, 1024);
            assert_eq!(h.size, 39);
            assert_eq!(h.timestamp, 77);
        }
        _ => panic!("expected a valid hint"),
    }
}

#[test]
fn corrupt_hint_is_torn() {
    let hint = HintEntry { key: b"k".to_vec(), value_sz: 1, offset: 0, size: 26, timestamp: 1 };
    let mut sink: Vec<u8> = Vec::new();
    let _ = write_hint(&mut sink, &hint);
    sink[40] ^= 0xFF;
    assert!(matches!(read_hint(&sink, 0), HintReadOutcome::Torn));
}

#[test]
fn tombstone_has_empty_value() {
    let entry = DiskEntry { key: b"gone".to_vec(), value: Vec::new(), timestamp: 3 };
    let mut sink: Vec<u8> = Vec::new();
    let _ = write_record(&mut sink, &entry);
    match read_record(&sink, 0) {
        ReadOutcome::Valid(e) => assert!(e.value.is_empty()),
        _ => panic!("expected a valid record"),
    }
}
