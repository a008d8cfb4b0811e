//! Recovery: replaying the write-ahead log, torn tails, and rebuilding
//! the key directory from hints or runs.
use lsmlib::config::Config;
use lsmlib::format::write_record;
use lsmlib::format::DiskEntry;
use lsmlib::hint::scan_hints;
use lsmlib::lsm::GetOutcome;
use lsmlib::lsm::Lsm;
use lsmlib::lsm::OpenOptions;
use lsmlib::sstable::scan_run;
use lsmlib::storage::DiskStorage;
use lsmlib::wal::build_memtable;

fn record(key: &[u8], value: &[u8], ts: u32) -> DiskEntry {
    DiskEntry { key: key.to_vec(), value: value.to_vec(), timestamp: ts }
}

#[test]
fn replay_rebuilds_memtable_in_order() {
    let mut wal: Vec<u8> = Vec::new();
    let _ = write_record(&mut wal, &record(b"a", b"1", 1));
    let _ = write_record(&mut wal, &record(b"b", b"2", 2));
    let _ = write_record(&mut wal, &record(b"a", b"3", 3));
    let n = wal.len() as u64;
    let (mem, good) = build_memtable(&wal);
    assert_eq!(good, n);
    assert_eq!(mem.len(), 2);
    let got = mem.get(&b"a".to_vec()).expect("a must be present");
    assert_eq!(got.value, b"3".to_vec());
    let got = mem.get(&b"b".to_vec()).expect("b must be present");
    assert_eq!(got.value, b"2".to_vec());
}

#[test]
fn corrupt_tail_is_cut_and_earlier_records_survive() {
    let mut wal: Vec<u8> = Vec::new();
    let mut boundary: usize = 0;
    for i in 0..5u8 {
        let _ = write_record(&mut wal, &record(&[b'k', b'0' + i], &[i; 8], i as u32));
        if i == 3 {
            boundary = wal.len();
        }
    }
    // Corrupt the last 10 bytes: the final record is torn.
    let n = wal.len();
    for b in wal[n - 10..].iter_mut() {
        *b ^= 0xA5;
    }
    let (mem, good) = build_memtable(&wal);
    assert_eq!(good as usize, boundary);
    assert_eq!(mem.len(), 4);
    assert!(mem.get(&b"k3".to_vec()).is_some());
    assert!(mem.get(&b"k4".to_vec()).is_none());
    // The store works on after the cut: recover and write again.
    let mut lsm = Lsm::from_parts(Config::default(), mem, good);
    assert!(lsm.put(b"k9".to_vec(), b"fresh".to_vec()).is_ok());
}

#[test]
fn replay_keeps_tombstones() {
    let mut wal: Vec<u8> = Vec::new();
    let _ = write_record(&mut wal, &record(b"x", b"v", 1));
    let _ = write_record(&mut wal, &record(b"x", b"", 2));
    let (mem, _good) = build_memtable(&wal);
    let got = mem.get(&b"x".to_vec()).expect("the tombstone stays buffered");
    assert!(got.value.is_empty());
    // Through the engine the key reads as absent.
    let store = DiskStorage::new();
    let lsm = Lsm::from_parts(Config::default(), mem, 0);
    assert!(matches!(lsm.get(&store, &b"x".to_vec()), GetOutcome::Absent));
}

#[test]
fn empty_log_replays_to_empty_memtable() {
    let wal: Vec<u8> = Vec::new();
    let (mem, good) = build_memtable(&wal);
    assert_eq!(good, 0);
    assert!(mem.is_empty());
}

#[test]
fn keydir_from_hint_matches_keydir_from_run() {
    let opts = OpenOptions::new().max_log_length(1);
    let mut store = DiskStorage::new();
    let mut lsm = Lsm::new(opts.0);
    lsm.put(b"a".to_vec(), b"1".to_vec()).unwrap();
    lsm.put(b"b".to_vec(), b"2".to_vec()).unwrap();
    lsm.put(b"c".to_vec(), b"".to_vec()).unwrap();
    let (id, size, files) = lsm.flush(&mut store);
    // One hint per data record, same order.
    let (hints, hend) = scan_hints(&files.hint_bytes);
    assert_eq!(hend as usize, files.hint_bytes.len());
    let (recs, _rend) = scan_run(&files.run_bytes);
    assert_eq!(hints.len(), recs.len());
    for (h, (off, r)) in hints.iter().zip(recs.iter()) {
        assert_eq!(h.key, r.key);
        assert_eq!(h.offset, *off);
        assert_eq!(h.value_sz as usize, r.value.len());
    }
    // Rebuilding from the hint file gives the same directory as scanning
    // the run itself.
    let mut from_hint = DiskStorage::new();
    from_hint.insert_sstable(id, size);
    let _ = from_hint.build_keydir_from_hint(id, &files.hint_bytes);
    let mut from_run = DiskStorage::new();
    from_run.insert_sstable(id, size);
    let _ = from_run.build_keydir_from_sstable(id, &files.run_bytes);
    for key in [b"a".to_vec(), b"b".to_vec(), b"c".to_vec()] {
        let ha = from_hint.get(&key);
        let ra = from_run.get(&key);
        match (ha, ra) {
            (None, None) => {}
            (Some(x), Some(y)) => {
                assert_eq!(x.file_id, y.file_id);
                assert_eq!(x.offset, y.offset);
                assert_eq!(x.size, y.size);
                assert_eq!(x.timestamp, y.timestamp);
            }
            _ => panic!("hint and run rebuilds disagree"),
        }
    }
    // The tombstoned key is in neither directory.
    assert!(from_hint.get(&b"c".to_vec()).is_none());
}

#[test]
fn run_scan_stops_at_torn_tail() {
    let mut bytes: Vec<u8> = Vec::new();
    let _ = write_record(&mut bytes, &record(b"a", b"1", 1));
    let boundary = bytes.len();
    let _ = write_record(&mut bytes, &record(b"b", b"2", 2));
    bytes.truncate(boundary + 7);
    let (entries, end) = scan_run(&bytes);
    assert_eq!(entries.len(), 1);
    assert_eq!(end as usize, boundary);
}
