//! File-name parsing and formatting, the key directory, and the error
//! surface.
use lsmlib::error::LSMLibError;
use lsmlib::keydir::HashmapKeydir;
use lsmlib::keydir::KeydirEntry;
use lsmlib::sstable::read_sstable;
use lsmlib::format::write_record;
use lsmlib::format::DiskEntry;
use lsmlib::utils::format_hint_path;
use lsmlib::utils::format_hint_tmp_path;
use lsmlib::utils::format_sstable_path;
use lsmlib::utils::format_sstable_tmp_path;
use lsmlib::utils::format_wal_path;
use lsmlib::utils::parse_file_id;

#[test]
fn parse_takes_leading_digits_before_dot() {
    assert_eq!(parse_file_id("000000000012.data"), Some(12));
    assert_eq!(parse_file_id("000000000000.wal"), Some(0));
    assert_eq!(parse_file_id("7.hint"), Some(7));
    assert_eq!(parse_file_id("18446744073709551615.data"), Some(u64::MAX));
}

#[test]
fn parse_rejects_bad_names() {
    assert_eq!(parse_file_id("LOCK"), None);
    assert_eq!(parse_file_id(""), None);
    assert_eq!(parse_file_id(".data"), None);
    assert_eq!(parse_file_id("12a.data"), None);
    // One past the largest id does not fit.
    assert_eq!(parse_file_id("18446744073709551616.data"), None);
}

#[test]
fn paths_are_twelve_digit_zero_padded() {
    assert_eq!(format_sstable_path("db", 7), "db/000000000007.data");
    assert_eq!(format_hint_path("db", 7), "db/000000000007.hint");
    assert_eq!(format_sstable_tmp_path("db", 42), "db/000000000042.data-tmp");
    assert_eq!(format_hint_tmp_path("db", 42), "db/000000000042.hint-tmp");
    assert_eq!(format_wal_path("db", 0), "db/000000000000.wal");
}

#[test]
fn long_ids_keep_all_their_digits() {
    assert_eq!(format_sstable_path("db", 9_876_543_210_123), "db/9876543210123.data");
}

#[test]
fn formatted_names_parse_back() {
    for id in [0u64, 1, 11, 999_999_999_999, u64::MAX] {
        let path = format_sstable_path("db", id);
        let name = path.split('/').last().unwrap();
        assert_eq!(parse_file_id(name), Some(id));
    }
}

#[test]
fn keydir_put_keeps_newer_timestamp() {
    let mut kd = HashmapKeydir::new();
    let newer = KeydirEntry { file_id: 2, offset: 64, size: 30, timestamp: 9 };
    let older = KeydirEntry { file_id: 1, offset: 0, size: 30, timestamp: 4 };
    kd.put(b"k".to_vec(), newer);
    kd.put(b"k".to_vec(), older);
    let got = kd.get(&b"k".to_vec()).expect("the key stays");
    assert_eq!(got.file_id, 2);
    assert_eq!(got.timestamp, 9);
    // An equal timestamp replaces: later hints postdate earlier ones.
    let same_ts = KeydirEntry { file_id: 3, offset: 128, size: 30, timestamp: 9 };
    kd.put(b"k".to_vec(), same_ts);
    assert_eq!(kd.get(&b"k".to_vec()).unwrap().file_id, 3);
}

#[test]
fn keydir_remove_and_keys_in_order() {
    let mut kd = HashmapKeydir::new();
    let e = KeydirEntry { file_id: 1, offset: 0, size: 1, timestamp: 1 };
    kd.put(b"pear".to_vec(), e);
    kd.put(b"apple".to_vec(), e);
    kd.put(b"mango".to_vec(), e);
    kd.remove(&b"mango".to_vec());
    assert_eq!(kd.len(), 2);
    assert!(kd.contains_key(&b"apple".to_vec()));
    assert!(!kd.contains_key(&b"mango".to_vec()));
    assert_eq!(kd.keys(), vec![b"apple".to_vec(), b"pear".to_vec()]);
}

#[test]
fn read_sstable_returns_sorted_pairs_later_record_winning() {
    let mut bytes: Vec<u8> = Vec::new();
    let _ = write_record(&mut bytes, &DiskEntry {
        key: b"b".to_vec(),
        value: b"2".to_vec(),
        timestamp: 1,
    });
    let _ = write_record(&mut bytes, &DiskEntry {
        key: b"a".to_vec(),
        value: b"1".to_vec(),
        timestamp: 2,
    });
    let _ = write_record(&mut bytes, &DiskEntry {
        key: b"b".to_vec(),
        value: b"22".to_vec(),
        timestamp: 3,
    });
    let pairs = read_sstable(&bytes);
    assert_eq!(pairs.len(), 2);
    assert_eq!(pairs[0], (b"a".to_vec(), b"1".to_vec()));
    assert_eq!(pairs[1], (b"b".to_vec(), b"22".to_vec()));
}

#[test]
fn error_messages_name_the_cause() {
    assert_eq!(LSMLibError::KeyIsTooLarge.message(), "key is too large");
    assert_eq!(LSMLibError::ValueIsTooLarge.message(), "value is too large");
    assert_eq!(LSMLibError::AlreadyLocked.message(), "db is already locked");
}

#[test]
fn worker_stats_start_at_zero() {
    let s = lsmlib::stats::WorkerStats::new();
    assert_eq!(s.read_bytes, 0);
    assert_eq!(s.written_bytes, 0);
}
