//! The engine over an in-memory picture of the directory: puts, gets,
//! deletes, key listing, flush, and reads through the key directory.
use lsmlib::config::Config;
use lsmlib::error::LSMLibError;
use lsmlib::lsm::extract_value;
use lsmlib::lsm::GetOutcome;
use lsmlib::lsm::Lsm;
use lsmlib::lsm::OpenOptions;
use lsmlib::sstable::read_at;
use lsmlib::storage::DiskStorage;

fn get_value(lsm: &Lsm, store: &DiskStorage, runs: &Vec<(u64, Vec<u8>)>, key: &[u8]) -> Option<Vec<u8>> {
    match lsm.get(store, &key.to_vec()) {
        GetOutcome::Found(v) => Some(v),
        GetOutcome::Absent => None,
        GetOutcome::FromDisk(e) => {
            let bytes = &runs.iter().find(|r| r.0 == e.file_id).expect("run missing").1;
            let rec = read_at(bytes, e.offset as usize).expect("record missing");
            assert_eq!(rec.key, key.to_vec());
            extract_value(rec)
        }
    }
}

#[test]
fn open_empty_put_get_list() {
    let store = DiskStorage::new();
    let mut lsm = Lsm::new(Config::default());
    let runs: Vec<(u64, Vec<u8>)> = Vec::new();
    lsm.put(b"a".to_vec(), b"1".to_vec()).unwrap();
    lsm.put(b"b".to_vec(), b"2".to_vec()).unwrap();
    assert_eq!(get_value(&lsm, &store, &runs, b"a"), Some(b"1".to_vec()));
    let keys = lsm.list_keys(&store);
    assert_eq!(keys, vec![b"a".to_vec(), b"b".to_vec()]);
}

#[test]
fn overwrite_then_delete_leaves_key_absent() {
    let store = DiskStorage::new();
    let mut lsm = Lsm::new(Config::default());
    let runs: Vec<(u64, Vec<u8>)> = Vec::new();
    lsm.put(b"x".to_vec(), b"v1".to_vec()).unwrap();
    lsm.put(b"x".to_vec(), b"v2".to_vec()).unwrap();
    assert_eq!(get_value(&lsm, &store, &runs, b"x"), Some(b"v2".to_vec()));
    let deleted = lsm.delete(&store, &b"x".to_vec()).unwrap();
    assert!(deleted.is_some());
    assert_eq!(get_value(&lsm, &store, &runs, b"x"), None);
    assert!(!lsm.contains(&store, &b"x".to_vec()));
    let keys = lsm.list_keys(&store);
    assert!(!keys.contains(&b"x".to_vec()));
}

#[test]
fn put_action_carries_the_encoded_record() {
    let mut lsm = Lsm::new(Config::default());
    let action = lsm.put(b"key".to_vec(), b"value".to_vec()).unwrap();
    match lsmlib::format::read_record(&action.wal_record, 0) {
        lsmlib::format::ReadOutcome::Valid(e) => {
            assert_eq!(e.key, b"key".to_vec());
            assert_eq!(e.value, b"value".to_vec());
            assert_eq!(e.timestamp, action.timestamp);
        }
        _ => panic!("the log record must decode to the put"),
    }
    assert_eq!(action.wal_record.len(), 24 + 3 + 5);
}

#[test]
fn delete_of_absent_key_is_noop() {
    let store = DiskStorage::new();
    let mut lsm = Lsm::new(Config::default());
    let r = lsm.delete(&store, &b"nothing".to_vec()).unwrap();
    assert!(r.is_none());
}

#[test]
fn key_and_value_limits_are_enforced() {
    let opts = OpenOptions::new().max_log_length(1_000_000);
    let mut lsm = Lsm::new(opts.0);
    let big_key = vec![b'k'; 65];
    match lsm.put(big_key, b"v".to_vec()) {
        Err(LSMLibError::KeyIsTooLarge) => {}
        _ => panic!("expected the key to be rejected"),
    }
    let big_value = vec![b'v'; 65537];
    match lsm.put(b"k".to_vec(), big_value) {
        Err(LSMLibError::ValueIsTooLarge) => {}
        _ => panic!("expected the value to be rejected"),
    }
    // At the limits both are accepted.
    let edge_key = vec![b'k'; 64];
    let edge_value = vec![b'v'; 65536];
    assert!(lsm.put(edge_key, edge_value).is_ok());
}

#[test]
fn reads_most_recent_in_sequence_of_distinct_keys() {
    let store = DiskStorage::new();
    let mut lsm = Lsm::new(Config::default());
    let runs: Vec<(u64, Vec<u8>)> = Vec::new();
    for i in 0..20u8 {
        let key = vec![b'a' + (i % 10)];
        let value = vec![i];
        lsm.put(key.clone(), value.clone()).unwrap();
        assert_eq!(get_value(&lsm, &store, &runs, &key), Some(value));
    }
}

#[test]
fn flush_moves_values_to_disk_and_reads_follow() {
    // A small log bound forces flushes: ten keys with ten-byte values.
    let opts = OpenOptions::new().max_log_length(50).merge_window(3);
    let mut store = DiskStorage::new();
    let mut lsm = Lsm::new(opts.0);
    let mut runs: Vec<(u64, Vec<u8>)> = Vec::new();
    let mut flushed = 0u32;
    for i in 0..10u8 {
        let key = format!("k{}", i).into_bytes();
        let value = vec![i; 10];
        let action = lsm.put(key, value).unwrap();
        if action.needs_flush {
            let (id, _size, files) = lsm.flush(&mut store);
            runs.push((id, files.run_bytes));
            flushed += 1;
        }
    }
    assert!(flushed >= 1, "the log bound must force at least one flush");
    // The first key is on disk now; the read path follows the directory.
    assert_eq!(get_value(&lsm, &store, &runs, b"k0"), Some(vec![0u8; 10]));
    // A fresh open over the same files sees the same data.
    let mut store2 = DiskStorage::new();
    for (id, bytes) in runs.iter() {
        store2.insert_sstable(*id, bytes.len() as u64);
        let end = store2.build_keydir_from_sstable(*id, bytes);
        assert_eq!(end as usize, bytes.len());
    }
    let lsm2 = Lsm::new(opts.0);
    assert_eq!(get_value(&lsm2, &store2, &runs, b"k0"), Some(vec![0u8; 10]));
}

#[test]
fn list_keys_is_sorted_after_flush_and_overlay() {
    let opts = OpenOptions::new().max_log_length(10);
    let mut store = DiskStorage::new();
    let mut lsm = Lsm::new(opts.0);
    lsm.put(b"pear".to_vec(), b"1".to_vec()).unwrap();
    lsm.put(b"apple".to_vec(), b"2".to_vec()).unwrap();
    let _ = lsm.flush(&mut store);
    lsm.put(b"mango".to_vec(), b"3".to_vec()).unwrap();
    lsm.delete(&store, &b"apple".to_vec()).unwrap();
    let keys = lsm.list_keys(&store);
    assert_eq!(keys, vec![b"mango".to_vec(), b"pear".to_vec()]);
}

#[test]
fn tombstone_in_memtable_shadows_disk() {
    let opts = OpenOptions::new().max_log_length(1_000_000);
    let mut store = DiskStorage::new();
    let mut lsm = Lsm::new(opts.0);
    let mut runs: Vec<(u64, Vec<u8>)> = Vec::new();
    lsm.put(b"k".to_vec(), b"v".to_vec()).unwrap();
    let (id, _size, files) = lsm.flush(&mut store);
    runs.push((id, files.run_bytes));
    assert_eq!(get_value(&lsm, &store, &runs, b"k"), Some(b"v".to_vec()));
    lsm.delete(&store, &b"k".to_vec()).unwrap();
    assert_eq!(get_value(&lsm, &store, &runs, b"k"), None);
    assert!(!lsm.contains(&store, &b"k".to_vec()));
}
