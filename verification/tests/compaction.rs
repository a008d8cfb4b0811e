//! The compaction worker: window selection, the merge itself, and the
//! storage manager's post-rename bookkeeping.
use lsmlib::format::write_record;
use lsmlib::format::DiskEntry;
use lsmlib::lsm::GetOutcome;
use lsmlib::lsm::Lsm;
use lsmlib::lsm::OpenOptions;
use lsmlib::merge::merge_runs;
use lsmlib::runs::RunSet;
use lsmlib::sstable::read_at;
use lsmlib::sstable::scan_run;
use lsmlib::storage::write_run;
use lsmlib::storage::DiskStorage;
use lsmlib::worker::Compactor;
use lsmlib::worker::CompactorMessage;

fn record(key: &[u8], value: &[u8], ts: u32) -> DiskEntry {
    DiskEntry { key: key.to_vec(), value: value.to_vec(), timestamp: ts }
}

fn run_bytes_of(records: &[DiskEntry]) -> Vec<u8> {
    let mut bytes: Vec<u8> = Vec::new();
    for r in records {
        let _ = write_record(
            &mut bytes,
            &DiskEntry { key: r.key.clone(), value: r.value.clone(), timestamp: r.timestamp },
        );
    }
    bytes
}

#[test]
fn merge_keeps_newest_timestamp() {
    let older = vec![record(b"k", b"old", 1), record(b"z", b"zz", 1)];
    let newer = vec![record(b"a", b"aa", 2), record(b"k", b"new", 5)];
    let merged = merge_runs(&vec![older, newer]);
    let keys: Vec<&[u8]> = merged.iter().map(|e| e.key.as_slice()).collect();
    assert_eq!(keys, vec![b"a".as_slice(), b"k".as_slice(), b"z".as_slice()]);
    let k = merged.iter().find(|e| e.key == b"k".to_vec()).unwrap();
    assert_eq!(k.value, b"new".to_vec());
    assert_eq!(k.timestamp, 5);
}

#[test]
fn merge_tie_prefers_later_run() {
    let earlier = vec![record(b"k", b"first", 7)];
    let later = vec![record(b"k", b"second", 7)];
    let merged = merge_runs(&vec![earlier, later]);
    assert_eq!(merged.len(), 1);
    assert_eq!(merged[0].value, b"second".to_vec());
}

#[test]
fn merge_does_not_let_older_run_win_even_applied_later() {
    // The later run's record is older by timestamp: the newer one stays.
    let first = vec![record(b"k", b"newer", 9)];
    let second = vec![record(b"k", b"older", 3)];
    let merged = merge_runs(&vec![first, second]);
    assert_eq!(merged.len(), 1);
    assert_eq!(merged[0].value, b"newer".to_vec());
}

#[test]
fn merge_keeps_tombstones() {
    let a = vec![record(b"k", b"v", 1)];
    let b = vec![record(b"k", b"", 2)];
    let merged = merge_runs(&vec![a, b]);
    assert_eq!(merged.len(), 1);
    assert!(merged[0].value.is_empty());
}

#[test]
fn maintenance_skips_below_window() {
    let mut runs = RunSet::new();
    runs.insert_run(1, 100);
    runs.insert_run(2, 100);
    let w = Compactor::new(runs, OpenOptions::new().merge_window(3).0);
    assert!(w.sstable_maintenance().is_none());
}

#[test]
fn maintenance_picks_first_similar_window() {
    let mut runs = RunSet::new();
    runs.insert_run(1, 100);
    runs.insert_run(2, 90);
    runs.insert_run(3, 80);
    runs.insert_run(4, 10);
    let w = Compactor::new(runs, OpenOptions::new().merge_window(3).merge_ratio(3).0);
    let ids = w.sstable_maintenance().expect("a window qualifies");
    assert_eq!(ids, vec![1, 2, 3]);
}

#[test]
fn maintenance_rejects_uneven_window() {
    // The tail runs are tiny next to the lead: merging is wasted work.
    let mut runs = RunSet::new();
    runs.insert_run(1, 1000);
    runs.insert_run(2, 10);
    runs.insert_run(3, 10);
    let w = Compactor::new(runs, OpenOptions::new().merge_window(3).merge_ratio(3).0);
    assert!(w.sstable_maintenance().is_none());
}

#[test]
fn worker_messages_update_table_and_stop_ends_loop() {
    let mut w = Compactor::new(RunSet::new(), OpenOptions::new().0);
    assert!(w.handle_message(&CompactorMessage::NewSSTable { id: 4, size: 17 }));
    assert_eq!(w.sstables.size_of(4), Some(17));
    assert!(w.handle_message(&CompactorMessage::HeartBeat));
    assert!(!w.handle_message(&CompactorMessage::Stop));
}

#[test]
fn five_runs_compact_to_three_and_values_survive() {
    // Ten distinct keys, flushed two at a time into five similar runs.
    let opts = OpenOptions::new().max_log_length(50).merge_window(3).merge_ratio(3);
    let mut store = DiskStorage::new();
    let mut lsm = Lsm::new(opts.0);
    let mut disk: Vec<(u64, Vec<u8>)> = Vec::new();
    let mut hint_disk: Vec<(u64, Vec<u8>)> = Vec::new();
    let mut worker = Compactor::new(RunSet::new(), opts.0);
    for i in 0..10u8 {
        let key = format!("k{}", i).into_bytes();
        let action = lsm.put(key, vec![i; 10]).unwrap();
        if action.needs_flush {
            let (id, size, files) = lsm.flush(&mut store);
            disk.push((id, files.run_bytes));
            hint_disk.push((id, files.hint_bytes));
            assert!(worker.handle_message(&CompactorMessage::NewSSTable { id, size }));
        }
    }
    assert_eq!(disk.len(), 5, "five similar runs expected");
    // One maintenance pass merges the first window.
    let ids = worker.sstable_maintenance().expect("similar runs must qualify");
    assert_eq!(ids.len(), 3);
    let winner = *ids.iter().max().unwrap();
    let mut inputs: Vec<Vec<DiskEntry>> = Vec::new();
    for id in ids.iter() {
        let bytes = &disk.iter().find(|r| r.0 == *id).unwrap().1;
        let (entries, _end) = scan_run(bytes);
        inputs.push(entries.into_iter().map(|p| p.1).collect());
    }
    let merged = merge_runs(&inputs);
    let files = write_run(&merged);
    let merged_size = files.run_bytes.len() as u64;
    // The rename happened; the storage manager finishes the compaction.
    let (won, wsize) = store.compact_and_merge(&ids, merged_size, &files.hint_bytes);
    assert_eq!(won, winner);
    assert_eq!(wsize, merged_size);
    disk.retain(|r| !ids.contains(&r.0) || r.0 == winner);
    let slot = disk.iter_mut().find(|r| r.0 == winner).unwrap();
    slot.1 = files.run_bytes;
    // The worker's own table follows.
    for id in ids.iter() {
        if *id != winner {
            worker.sstables.remove_run(*id);
        }
    }
    worker.sstables.insert_run(winner, merged_size);
    // Quiescent: three runs remain and no further window qualifies.
    assert_eq!(worker.sstables.len(), 3);
    assert!(worker.sstable_maintenance().is_none());
    // Every value is unchanged.
    for i in 0..10u8 {
        let key = format!("k{}", i).into_bytes();
        match lsm.get(&store, &key) {
            GetOutcome::FromDisk(e) => {
                let bytes = &disk.iter().find(|r| r.0 == e.file_id).unwrap().1;
                let rec = read_at(bytes, e.offset as usize).expect("record must read back");
                assert_eq!(rec.key, key);
                assert_eq!(rec.value, vec![i; 10]);
            }
            _ => panic!("all keys were flushed to disk"),
        }
    }
}

#[test]
fn merged_run_reads_back_whole() {
    let a = vec![record(b"a", b"1", 1), record(b"c", b"3", 1)];
    let b = vec![record(b"b", b"2", 2), record(b"c", b"33", 2)];
    let merged = merge_runs(&vec![a, b]);
    let files = write_run(&merged);
    let (entries, end) = scan_run(&files.run_bytes);
    assert_eq!(end as usize, files.run_bytes.len());
    let keys: Vec<Vec<u8>> = entries.iter().map(|p| p.1.key.clone()).collect();
    assert_eq!(keys, vec![b"a".to_vec(), b"b".to_vec(), b"c".to_vec()]);
    let c = entries.iter().find(|p| p.1.key == b"c".to_vec()).unwrap();
    assert_eq!(c.1.value, b"33".to_vec());
    let _ = run_bytes_of(&merged);
}
