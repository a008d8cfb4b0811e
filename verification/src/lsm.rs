//! The engine: the public face of the store.
//!
//! The engine owns the memtable and the flush accounting; the storage
//! manager is handed in by the caller, which holds it under its lock. Every
//! operation is a decision over the in-memory state: a put yields the bytes
//! to append to the write-ahead log, a get either answers from the memtable
//! or names the run and offset to read, a flush yields the files to write.
//! The caller performs the file work and owns ordering and syncing.
use vstd::prelude::*;

use crate::bytes_util::clone_bytes;
use crate::config::Config;
use crate::error::LSMLibError;
use crate::format::DiskEntry;
use crate::format::RecordModel;
use crate::format::spec_encode_record;
use crate::keydir::HashmapKeydir;
use crate::keydir::KeydirEntry;
use crate::memtable::Memtable;
use crate::memtable::rec_kf;
use crate::sstable::locs_from;
use crate::sstable::scan_end;
use crate::storage::DiskStorage;
use crate::storage::FlushFiles;
use crate::storage::apply_locs;
use crate::storage::encode_run;
use crate::storage::hint_model_of;
use crate::hint::hints_from;
use crate::assoc::seq_find;

verus! {

/// Relies on std::time::SystemTime (now, duration_since, as_secs): the
/// wall clock in seconds since the epoch, the records' logical write time.
/// Nothing is promised of the clock's value.
#[verifier::external_body]
fn now_secs() -> u32 {
    match std::time::SystemTime::now().duration_since(std::time::UNIX_EPOCH) {
        Ok(d) => d.as_secs() as u32,
        Err(_) => 0,
    }
}

/// A builder for the engine's configuration.
pub struct OpenOptions(pub Config);

impl OpenOptions {
    /// Start from the stock configuration.
    pub fn new() -> (r: OpenOptions)
        ensures
            r.0.max_space_amp == 2,
            r.0.max_log_length == crate::config::DEFAULT_MAX_LOG_LENGTH,
            r.0.max_key_size == crate::config::DEFAULT_MAX_KEY_SIZE,
            r.0.max_value_size == crate::config::DEFAULT_MAX_VALUE_SIZE,
            r.0.merge_ratio == 3,
            r.0.merge_window == 10,
            r.0.log_bufwriter_size == 32 * 1024,
            r.0.zstd_sstable_compression_level == 3,
            r.0.wf(),
    {
        OpenOptions(Config::default())
    }

    pub fn max_space_amp(self, value: u8) -> (r: OpenOptions)
        ensures
            r.0 == (Config { max_space_amp: value, ..self.0 }),
    {
        let mut c = self.0;
        c.max_space_amp = value;
        OpenOptions(c)
    }

    pub fn max_log_length(self, value: u64) -> (r: OpenOptions)
        ensures
            r.0 == (Config { max_log_length: value, ..self.0 }),
    {
        let mut c = self.0;
        c.max_log_length = value;
        OpenOptions(c)
    }

    pub fn merge_ratio(self, value: u8) -> (r: OpenOptions)
        ensures
            r.0 == (Config { merge_ratio: value, ..self.0 }),
    {
        let mut c = self.0;
        c.merge_ratio = value;
        OpenOptions(c)
    }

    pub fn merge_window(self, value: u8) -> (r: OpenOptions)
        ensures
            r.0 == (Config { merge_window: value, ..self.0 }),
    {
        let mut c = self.0;
        c.merge_window = value;
        OpenOptions(c)
    }

    pub fn log_bufwriter_size(self, value: u32) -> (r: OpenOptions)
        ensures
            r.0 == (Config { log_bufwriter_size: value, ..self.0 }),
    {
        let mut c = self.0;
        c.log_bufwriter_size = value;
        OpenOptions(c)
    }

    pub fn zstd_sstable_compression_level(self, value: u8) -> (r: OpenOptions)
        ensures
            r.0 == (Config { zstd_sstable_compression_level: value, ..self.0 }),
    {
        let mut c = self.0;
        c.zstd_sstable_compression_level = value;
        OpenOptions(c)
    }
}

/// What a successful put asks of the caller: append these bytes to the
/// write-ahead log, and flush if the log has outgrown its bound.
pub struct PutAction {
    /// The encoded record, to append to the write-ahead log.
    pub wal_record: Vec<u8>,
    /// The record's logical write time.
    pub timestamp: u32,
    /// Whether the log now exceeds `max_log_length`.
    pub needs_flush: bool,
}

/// How a read resolves against the in-memory state.
pub enum GetOutcome {
    /// The memtable holds a live value.
    Found(Vec<u8>),
    /// The key is absent (or deleted).
    Absent,
    /// The key directory points at this record on disk; the caller reads
    /// the run there and takes the record's value.
    FromDisk(KeydirEntry),
}

/// A key is live if the memtable's word on it is a value, or, failing any
/// word, the key directory holds it.
pub open spec fn live(
    mem: Map<Seq<u8>, RecordModel>,
    kd: Map<Seq<u8>, KeydirEntry>,
    k: Seq<u8>,
) -> bool {
    if mem.contains_key(k) {
        !mem[k].is_tombstone()
    } else {
        kd.contains_key(k)
    }
}

/// The engine: memtable, flush accounting and configuration.
pub struct Lsm {
    memtable: Memtable,
    dirty_bytes: u64,
    config: Config,
}

impl Lsm {
    /// The buffered mutations.
    pub closed spec fn mem(self) -> Map<Seq<u8>, RecordModel> {
        self.memtable@
    }

    /// The buffered records in key order.
    pub closed spec fn mem_seq(self) -> Seq<RecordModel> {
        self.memtable.model_seq()
    }

    /// Bytes written to the log since the last flush.
    pub closed spec fn dirty(self) -> u64 {
        self.dirty_bytes
    }

    /// The configuration the engine was opened with.
    pub closed spec fn cfg(self) -> Config {
        self.config
    }

    /// Memtable in key order; limits leave room for the record headers.
    pub closed spec fn inv(self) -> bool {
        self.memtable.wf() && self.config.wf()
    }

    /// A fresh engine over an empty directory.
    pub fn new(config: Config) -> (r: Lsm)
        requires
            config.wf(),
        ensures
            r.inv(),
            r.mem() == Map::<Seq<u8>, RecordModel>::empty(),
            r.mem_seq() == Seq::<RecordModel>::empty(),
            r.dirty() == 0,
            r.cfg() == config,
    {
        Lsm { memtable: Memtable::new(), dirty_bytes: 0, config }
    }

    /// An engine resumed from recovery: the memtable replayed from the
    /// write-ahead log, and the log's good length as the dirty count.
    pub fn from_parts(config: Config, memtable: Memtable, dirty_bytes: u64) -> (r: Lsm)
        requires
            config.wf(),
            memtable.wf(),
        ensures
            r.inv(),
            r.mem() == memtable@,
            r.mem_seq() == memtable.model_seq(),
            r.dirty() == dirty_bytes,
            r.cfg() == config,
    {
        Lsm { memtable, dirty_bytes, config }
    }

    /// Buffer a write. On success the returned bytes go to the write-ahead
    /// log and the memtable holds the record; a key or value over the
    /// configured limit is rejected and the engine is unchanged.
    pub fn put(&mut self, key: Vec<u8>, value: Vec<u8>) -> (r: Result<PutAction, LSMLibError>)
        requires
            old(self).inv(),
        ensures
            final(self).inv(),
            final(self).cfg() == old(self).cfg(),
            r is Ok <==> key@.len() <= old(self).cfg().max_key_size && value@.len() <= old(
                self,
            ).cfg().max_value_size,
            r matches Err(e) ==> *final(self) == *old(self) && (e matches LSMLibError::KeyIsTooLarge
                <==> key@.len() > old(self).cfg().max_key_size) && (e
                matches LSMLibError::ValueIsTooLarge <==> key@.len() <= old(
                self,
            ).cfg().max_key_size && value@.len() > old(self).cfg().max_value_size),
            r matches Ok(a) ==> {
                let m = RecordModel { key: key@, value: value@, timestamp: a.timestamp };
                &&& final(self).mem() == old(self).mem().insert(key@, m)
                &&& a.wal_record@ == spec_encode_record(m)
                &&& final(self).dirty() == if old(self).dirty() + m.size() <= u64::MAX {
                    (old(self).dirty() + m.size()) as u64
                } else {
                    u64::MAX
                }
                &&& a.needs_flush == (final(self).dirty() > old(self).cfg().max_log_length)
            },
    {
        if key.len() as u64 > self.config.max_key_size {
            return Err(LSMLibError::KeyIsTooLarge);
        }
        if value.len() as u64 > self.config.max_value_size {
            return Err(LSMLibError::ValueIsTooLarge);
        }
        let ts = now_secs();
        let entry = DiskEntry { key, value, timestamp: ts };
        proof {
            assert(entry@.wf());
        }
        let mut wal_record: Vec<u8> = Vec::new();
        let _ = crate::format::write_record(&mut wal_record, &entry);
        let sz = entry.size();
        if self.dirty_bytes <= u64::MAX - sz {
            self.dirty_bytes = self.dirty_bytes + sz;
        } else {
            self.dirty_bytes = u64::MAX;
        }
        let needs_flush = self.dirty_bytes > self.config.max_log_length;
        proof {
            assert(wal_record@ =~= spec_encode_record(entry@));
        }
        self.memtable.insert(entry);
        Ok(PutAction { wal_record, timestamp: ts, needs_flush })
    }

    /// Resolve a read against the memtable and the key directory. A
    /// memtable tombstone hides any older record on disk.
    pub fn get(&self, store: &DiskStorage, key: &Vec<u8>) -> (r: GetOutcome)
        requires
            self.inv(),
            store.inv(),
        ensures
            self.mem().contains_key(key@) && self.mem()[key@].is_tombstone() ==> r is Absent,
            self.mem().contains_key(key@) && !self.mem()[key@].is_tombstone() ==> (
            r matches GetOutcome::Found(v) && v@ == self.mem()[key@].value),
            !self.mem().contains_key(key@) && store.kd().contains_key(key@) ==> (
            r matches GetOutcome::FromDisk(e) && e == store.kd()[key@]),
            !self.mem().contains_key(key@) && !store.kd().contains_key(key@) ==> r is Absent,
    {
        match self.memtable.get(key) {
            Some(e) => {
                if e.value.len() == 0 {
                    GetOutcome::Absent
                } else {
                    GetOutcome::Found(clone_bytes(&e.value))
                }
            },
            None => match store.get(key) {
                Some(e) => GetOutcome::FromDisk(e),
                None => GetOutcome::Absent,
            },
        }
    }

    /// Whether the store holds a live value for `key`. An empty memtable
    /// value counts as absent.
    pub fn contains(&self, store: &DiskStorage, key: &Vec<u8>) -> (r: bool)
        requires
            self.inv(),
            store.inv(),
        ensures
            r == live(self.mem(), store.kd(), key@),
    {
        match self.memtable.get(key) {
            Some(e) => e.value.len() != 0,
            None => store.contains_key(key),
        }
    }

    /// Delete a key: a no-op if the store does not hold it, otherwise a
    /// put of the empty value (a tombstone).
    pub fn delete(&mut self, store: &DiskStorage, key: &Vec<u8>) -> (r: Result<
        Option<PutAction>,
        LSMLibError,
    >)
        requires
            old(self).inv(),
            store.inv(),
        ensures
            final(self).inv(),
            final(self).cfg() == old(self).cfg(),
            r matches Ok(None) ==> *final(self) == *old(self) && !live(
                old(self).mem(),
                store.kd(),
                key@,
            ),
            !live(old(self).mem(), store.kd(), key@) ==> r matches Ok(None),
            r matches Ok(Some(a)) ==> {
                let m = RecordModel { key: key@, value: Seq::empty(), timestamp: a.timestamp };
                &&& live(old(self).mem(), store.kd(), key@)
                &&& final(self).mem() == old(self).mem().insert(key@, m)
                &&& a.wal_record@ == spec_encode_record(m)
            },
            r matches Err(e) ==> *final(self) == *old(self) && live(old(self).mem(), store.kd(), key@)
                && key@.len() > old(self).cfg().max_key_size
                && e matches LSMLibError::KeyIsTooLarge,
    {
        if !self.contains(store, key) {
            return Ok(None);
        }
        let empty_value: Vec<u8> = Vec::new();
        proof {
            assert(empty_value@ =~= Seq::<u8>::empty());
        }
        match self.put(clone_bytes(key), empty_value) {
            Ok(a) => Ok(Some(a)),
            Err(e) => Err(e),
        }
    }

    /// Every live key, in ascending order: the directory's keys with the
    /// memtable laid over them — its values insert, its tombstones erase.
    pub fn list_keys(&self, store: &DiskStorage) -> (r: Vec<Vec<u8>>)
        requires
            self.inv(),
            store.inv(),
        ensures
            crate::assoc::sorted_keys_flat(r@.map_values(|v: Vec<u8>| v@)),
            forall|k: Seq<u8>|
                r@.map_values(|v: Vec<u8>| v@).contains(k) <==> #[trigger] live(
                    self.mem(),
                    store.kd(),
                    k,
                ),
    {
        let base = store.keys();
        let ghost base_keys = store.key_seq();
        let mut acc = HashmapKeydir::new();
        let nb = base.len();
        let mut i: usize = 0;
        proof {
            assert(base_keys.take(0) =~= Seq::<Seq<u8>>::empty());
        }
        while i < nb
            invariant
                0 <= i <= nb,
                nb == base@.len(),
                base@.map_values(|v: Vec<u8>| v@) == base_keys,
                base_keys == store.key_seq(),
                store.inv(),
                acc.wf(),
                forall|k: Seq<u8>| #[trigger] acc@.contains_key(k) ==> acc@[k].timestamp == 0,
                forall|k: Seq<u8>| #[trigger] acc@.contains_key(k) <==> base_keys.take(
                    i as int,
                ).contains(k),
            decreases nb - i,
        {
            let key = clone_bytes(&base[i]);
            let ghost accm = acc@;
            acc.put(key, KeydirEntry { file_id: 0, offset: 0, size: 0, timestamp: 0 });
            proof {
                assert(base@[i as int]@ == base_keys[i as int]);
                assert(acc@ == accm.insert(base_keys[i as int], KeydirEntry {
                    file_id: 0,
                    offset: 0,
                    size: 0,
                    timestamp: 0,
                }));
                assert forall|k: Seq<u8>| #[trigger] acc@.contains_key(k) <==> base_keys.take(
                    i + 1,
                ).contains(k) by {
                    if acc@.contains_key(k) {
                        if k == base_keys[i as int] {
                            assert(base_keys.take(i + 1)[i as int] == k);
                        } else {
                            let j = choose|j: int|
                                0 <= j < i && #[trigger] base_keys.take(i as int)[j] == k;
                            assert(base_keys.take(i + 1)[j] == k);
                        }
                    }
                    if base_keys.take(i + 1).contains(k) {
                        let j = choose|j: int|
                            0 <= j < i + 1 && #[trigger] base_keys.take(i + 1)[j] == k;
                        if j < i {
                            assert(base_keys.take(i as int)[j] == k);
                        }
                    }
                }
            }
            i = i + 1;
        }
        proof {
            assert(base_keys.take(nb as int) =~= base_keys);
        }
        let ghost ms = self.mem_seq();
        let nm = self.memtable.len();
        let mut j: usize = 0;
        proof {
            assert(ms.take(0) =~= Seq::<RecordModel>::empty());
            assert forall|k: Seq<u8>| #[trigger] acc@.contains_key(k) <==> (
            match seq_find(ms.take(0), rec_kf(), k) {
                Some(m) => !m.is_tombstone(),
                None => store.kd().contains_key(k),
            }) by {
                assert(seq_find(ms.take(0), rec_kf(), k) is None);
            }
        }
        while j < nm
            invariant
                0 <= j <= nm,
                nm == ms.len(),
                ms == self.mem_seq(),
                self.inv(),
                store.inv(),
                acc.wf(),
                forall|k: Seq<u8>| #[trigger] acc@.contains_key(k) ==> acc@[k].timestamp == 0,
                forall|k: Seq<u8>| #[trigger] acc@.contains_key(k) <==> (
                match seq_find(ms.take(j as int), rec_kf(), k) {
                    Some(m) => !m.is_tombstone(),
                    None => store.kd().contains_key(k),
                }),
            decreases nm - j,
        {
            let e = self.memtable.entry_at(j);
            let ghost m = ms[j as int];
            let ghost accm = acc@;
            if e.value.len() == 0 {
                let key = clone_bytes(&e.key);
                acc.remove(&key);
            } else {
                let key = clone_bytes(&e.key);
                acc.put(key, KeydirEntry { file_id: 0, offset: 0, size: 0, timestamp: 0 });
            }
            proof {
                assert(ms.take(j + 1).drop_last() =~= ms.take(j as int));
                assert(ms.take(j + 1).last() == m);
                assert forall|k: Seq<u8>| #[trigger] acc@.contains_key(k) <==> (
                match seq_find(ms.take(j + 1), rec_kf(), k) {
                    Some(mm) => !mm.is_tombstone(),
                    None => store.kd().contains_key(k),
                }) by {
                    if k == m.key {
                        assert(seq_find(ms.take(j + 1), rec_kf(), k) == Some(m));
                    } else {
                        assert(seq_find(ms.take(j + 1), rec_kf(), k) == seq_find(
                            ms.take(j as int),
                            rec_kf(),
                            k,
                        ));
                    }
                }
            }
            j = j + 1;
        }
        proof {
            assert(ms.take(nm as int) =~= ms);
            crate::assoc::lemma_sorted_distinct(acc.model_seq(), crate::keydir::kd_kf());
            assert forall|k: Seq<u8>| #[trigger] acc.key_seq().contains(k) <==> acc@.contains_key(
                k,
            ) by {
                if acc.key_seq().contains(k) {
                    let i2 = choose|i2: int|
                        0 <= i2 < acc.key_seq().len() && acc.key_seq()[i2] == k;
                    crate::assoc::lemma_val_map_contains(
                        acc.model_seq(),
                        crate::keydir::kd_kf(),
                        crate::keydir::kd_vf(),
                        k,
                    );
                }
                if acc@.contains_key(k) {
                    crate::assoc::lemma_val_map_contains(
                        acc.model_seq(),
                        crate::keydir::kd_kf(),
                        crate::keydir::kd_vf(),
                        k,
                    );
                    let i2 = choose|i2: int|
                        0 <= i2 < acc.model_seq().len() && crate::keydir::kd_kf()(
                            acc.model_seq()[i2],
                        ) == k;
                    assert(acc.key_seq()[i2] == k);
                }
            }
            assert forall|a: int, b: int| 0 <= a < b < acc.key_seq().len() implies crate
                ::order::lex_lt(#[trigger] acc.key_seq()[a], #[trigger] acc.key_seq()[b]) by {
                assert(acc.key_seq()[a] == crate::keydir::kd_kf()(acc.model_seq()[a]));
                assert(acc.key_seq()[b] == crate::keydir::kd_kf()(acc.model_seq()[b]));
            }
        }
        let r = acc.keys();
        proof {
            assert(r@.map_values(|v: Vec<u8>| v@) == acc.key_seq());
            assert forall|k: Seq<u8>| r@.map_values(|v: Vec<u8>| v@).contains(k) <==> #[trigger] live(
                self.mem(),
                store.kd(),
                k,
            ) by {
                assert(self.mem() == crate::assoc::map_of(ms, rec_kf()));
            }
        }
        r
    }

    /// Seal the memtable into a new sorted run through the storage
    /// manager, and reset the flush accounting. The caller syncs the log
    /// before calling, writes and syncs the returned files, notifies the
    /// compaction worker, and truncates the log to zero after.
    pub fn flush(&mut self, store: &mut DiskStorage) -> (r: (u64, u64, FlushFiles))
        requires
            old(self).inv(),
            old(store).inv(),
            old(store).run_set().model().len() > 0 ==> old(store).run_set().model().last().0
                < u64::MAX,
        ensures
            final(self).inv(),
            final(store).inv(),
            final(self).cfg() == old(self).cfg(),
            final(self).mem() == Map::<Seq<u8>, RecordModel>::empty(),
            final(self).dirty() == 0,
            !old(store).run_set().has_id(r.0),
            r.0 == if old(store).run_set().model().len() == 0 {
                1u64
            } else {
                (old(store).run_set().model().last().0 + 1) as u64
            },
            r.2.run_bytes@ == encode_run(old(self).mem_seq()),
            r.1 == r.2.run_bytes@.len(),
            locs_from(r.2.run_bytes@, 0).len() == old(self).mem_seq().len(),
            forall|i: int| 0 <= i < old(self).mem_seq().len() ==> (#[trigger] locs_from(
                r.2.run_bytes@,
                0,
            )[i]).rec == old(self).mem_seq()[i],
            scan_end(r.2.run_bytes@, 0) == r.2.run_bytes@.len(),
            hints_from(r.2.hint_bytes@, 0).len() == old(self).mem_seq().len(),
            forall|i: int| 0 <= i < old(self).mem_seq().len() ==> #[trigger] hints_from(
                r.2.hint_bytes@,
                0,
            )[i] == hint_model_of(old(self).mem_seq()[i], locs_from(r.2.run_bytes@, 0)[i].off),
            final(store).kd() == apply_locs(old(store).kd(), r.0, locs_from(r.2.run_bytes@, 0)),
            final(store).run_set().model() == old(store).run_set().model().push((r.0, r.1)),
    {
        let r = store.set(&self.memtable);
        self.memtable = Memtable::new();
        self.dirty_bytes = 0;
        r
    }
}

/// Law: the read path sees each write at once. Buffering a record for a
/// key makes that key read as the record — live with its value when the
/// record carries one, absent when it is a tombstone — whatever the
/// directory held; every other key is untouched. Applied step by step,
/// this is the crash-free sequence claim: after each operation the most
/// recently written value is read back, or absence after a delete.
pub proof fn lemma_put_then_read(
    mem: Map<Seq<u8>, RecordModel>,
    kd: Map<Seq<u8>, KeydirEntry>,
    key: Seq<u8>,
    m: RecordModel,
)
    requires
        m.key == key,
    ensures
        live(mem.insert(key, m), kd, key) == !m.is_tombstone(),
        mem.insert(key, m)[key] == m,
        forall|k: Seq<u8>| k != key ==> live(mem.insert(key, m), kd, k) == live(mem, kd, k),
{
}

/// The value of a decoded record, as a read returns it: absent for a
/// tombstone.
pub fn extract_value(entry: DiskEntry) -> (r: Option<Vec<u8>>)
    ensures
        entry@.is_tombstone() ==> r is None,
        !entry@.is_tombstone() ==> (r matches Some(v) && v@ == entry@.value),
{
    if entry.value.len() == 0 {
        None
    } else {
        Some(entry.value)
    }
}

} // verus!
