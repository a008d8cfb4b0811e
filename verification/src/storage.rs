//! The storage manager: the set of sorted runs on disk and the key
//! directory derived from them. It decides flush and compaction effects;
//! the bytes it produces and consumes travel through the caller, which owns
//! the files.
use vstd::prelude::*;

use crate::bytes_util::clone_bytes;
use crate::format::DiskEntry;
use crate::format::HintModel;
use crate::format::HintReadOutcome;
use crate::format::ReadOutcome;
use crate::format::read_hint;
use crate::format::read_record;
use crate::format::rec_size_at;
use crate::format::record_at;
use crate::format::can_read_at;
use crate::format::can_read_hint_at;
use crate::format::hint_size_at;
use crate::format::hint_at;
use crate::hint::hint_scan_end;
use crate::hint::hints_from;
use crate::keydir::HashmapKeydir;
use crate::memtable::Memtable;
use crate::keydir::KeydirEntry;
use crate::runs::RunSet;
use crate::sstable::LocRec;
use crate::sstable::locs_from;
use crate::sstable::scan_end;

verus! {

/// The directory entry a located data record gives rise to.
pub open spec fn entry_of_loc(id: u64, l: LocRec) -> KeydirEntry {
    KeydirEntry {
        file_id: id,
        offset: l.off as u64,
        size: l.rec.size() as u64,
        timestamp: l.rec.timestamp,
    }
}

/// The directory entry a hint record gives rise to.
pub open spec fn entry_of_hint(id: u64, h: HintModel) -> KeydirEntry {
    KeydirEntry { file_id: id, offset: h.offset, size: h.size, timestamp: h.timestamp }
}

/// One record applied to the key directory: a tombstone removes its key;
/// anything else lands unless a strictly newer entry already holds the key.
pub open spec fn kd_step(
    kd: Map<Seq<u8>, KeydirEntry>,
    key: Seq<u8>,
    e: KeydirEntry,
    tomb: bool,
) -> Map<Seq<u8>, KeydirEntry> {
    if tomb {
        kd.remove(key)
    } else if kd.contains_key(key) && kd[key].timestamp > e.timestamp {
        kd
    } else {
        kd.insert(key, e)
    }
}

/// A run's located records applied to the key directory, in file order.
pub open spec fn apply_locs(
    kd: Map<Seq<u8>, KeydirEntry>,
    id: u64,
    locs: Seq<LocRec>,
) -> Map<Seq<u8>, KeydirEntry>
    decreases locs.len(),
{
    if locs.len() == 0 {
        kd
    } else {
        kd_step(
            apply_locs(kd, id, locs.drop_last()),
            locs.last().rec.key,
            entry_of_loc(id, locs.last()),
            locs.last().rec.is_tombstone(),
        )
    }
}

/// A hint file's records applied to the key directory, in file order.
pub open spec fn apply_hints(
    kd: Map<Seq<u8>, KeydirEntry>,
    id: u64,
    hs: Seq<HintModel>,
) -> Map<Seq<u8>, KeydirEntry>
    decreases hs.len(),
{
    if hs.len() == 0 {
        kd
    } else {
        kd_step(
            apply_hints(kd, id, hs.drop_last()),
            hs.last().key,
            entry_of_hint(id, hs.last()),
            hs.last().value_sz == 0,
        )
    }
}

/// The byte images a flush or compaction produces: the run file and its
/// hint sibling, for the caller to write and sync.
pub struct FlushFiles {
    pub run_bytes: Vec<u8>,
    pub hint_bytes: Vec<u8>,
}

/// The concatenated encodings of a sequence of records.
pub open spec fn encode_run(rs: Seq<crate::format::RecordModel>) -> Seq<u8>
    decreases rs.len(),
{
    if rs.len() == 0 {
        Seq::empty()
    } else {
        encode_run(rs.drop_last()) + crate::format::spec_encode_record(rs.last())
    }
}

/// The hint that points at a record stored at offset `off`.
pub open spec fn hint_model_of(m: crate::format::RecordModel, off: int) -> HintModel {
    HintModel {
        key: m.key,
        value_sz: m.value.len() as u64,
        offset: off as u64,
        size: m.size() as u64,
        timestamp: m.timestamp,
    }
}

/// The largest id in a nonempty list.
pub open spec fn seq_max_u64(s: Seq<u64>) -> u64
    decreases s.len(),
{
    if s.len() == 0 {
        0
    } else if s.last() >= seq_max_u64(s.drop_last()) {
        s.last()
    } else {
        seq_max_u64(s.drop_last())
    }
}

/// Keys no record of the run touches pass through the rebuild unchanged.
pub proof fn lemma_apply_locs_other(
    kd: Map<Seq<u8>, KeydirEntry>,
    id: u64,
    locs: Seq<LocRec>,
    k: Seq<u8>,
)
    requires
        forall|j: int| 0 <= j < locs.len() ==> (#[trigger] locs[j]).rec.key != k,
    ensures
        apply_locs(kd, id, locs).contains_key(k) == kd.contains_key(k),
        kd.contains_key(k) ==> apply_locs(kd, id, locs)[k] == kd[k],
    decreases locs.len(),
{
    if locs.len() > 0 {
        lemma_apply_locs_other(kd, id, locs.drop_last(), k);
        assert(locs[locs.len() - 1] == locs.last());
    }
}

/// Law: sealing a run leaves, for each of its keys, exactly the entry of
/// the record written for it — gone if that record is a tombstone —
/// provided nothing already in the directory is newer. Flush satisfies the
/// provisos: the memtable's keys are distinct, and its records postdate
/// what the directory points at.
pub proof fn lemma_apply_locs_key(
    kd: Map<Seq<u8>, KeydirEntry>,
    id: u64,
    locs: Seq<LocRec>,
    i: int,
)
    requires
        0 <= i < locs.len(),
        forall|a: int, b: int|
            0 <= a < b < locs.len() ==> (#[trigger] locs[a]).rec.key != (#[trigger] locs[b]).rec.key,
        forall|j: int|
            kd.contains_key((#[trigger] locs[j]).rec.key) && 0 <= j < locs.len() ==> kd[locs[j].rec.key].timestamp
                <= locs[j].rec.timestamp,
    ensures
        locs[i].rec.is_tombstone() ==> !apply_locs(kd, id, locs).contains_key(locs[i].rec.key),
        !locs[i].rec.is_tombstone() ==> apply_locs(kd, id, locs).contains_key(locs[i].rec.key)
            && apply_locs(kd, id, locs)[locs[i].rec.key] == entry_of_loc(id, locs[i]),
    decreases locs.len(),
{
    let k = locs[i].rec.key;
    let front = locs.drop_last();
    if i == locs.len() - 1 {
        assert(locs[i] == locs.last());
        assert forall|j: int| 0 <= j < front.len() implies (#[trigger] front[j]).rec.key != k by {
            assert(front[j] == locs[j]);
        }
        lemma_apply_locs_other(kd, id, front, k);
    } else {
        assert(locs.last() == locs[locs.len() - 1]);
        assert(locs.last().rec.key != k);
        assert forall|a: int, b: int|
            0 <= a < b < front.len() implies (#[trigger] front[a]).rec.key
            != (#[trigger] front[b]).rec.key by {
            assert(front[a] == locs[a]);
            assert(front[b] == locs[b]);
        }
        assert forall|j: int|
            kd.contains_key((#[trigger] front[j]).rec.key) && 0 <= j < front.len() implies kd[front[j].rec.key].timestamp
            <= front[j].rec.timestamp by {
            assert(front[j] == locs[j]);
        }
        assert(front[i] == locs[i]);
        lemma_apply_locs_key(kd, id, front, i);
    }
}

/// Every directory entry the rebuild attributes to the new run comes from
/// one of its records, non-tombstone, key and place intact; entries of
/// other runs pass through from before.
pub proof fn lemma_apply_locs_points_at(
    kd: Map<Seq<u8>, KeydirEntry>,
    id: u64,
    locs: Seq<LocRec>,
)
    requires
        forall|k: Seq<u8>| #[trigger] kd.contains_key(k) ==> kd[k].file_id != id,
    ensures
        forall|k: Seq<u8>|
            #[trigger] apply_locs(kd, id, locs).contains_key(k) ==> if apply_locs(
                kd,
                id,
                locs,
            )[k].file_id == id {
                exists|i: int|
                    0 <= i < locs.len() && (#[trigger] locs[i]).rec.key == k
                        && !locs[i].rec.is_tombstone() && entry_of_loc(id, locs[i]) == apply_locs(
                        kd,
                        id,
                        locs,
                    )[k]
            } else {
                kd.contains_key(k) && apply_locs(kd, id, locs)[k] == kd[k]
            },
    decreases locs.len(),
{
    if locs.len() > 0 {
        let front = locs.drop_last();
        let last = locs.last();
        lemma_apply_locs_points_at(kd, id, front);
        let inner = apply_locs(kd, id, front);
        let result = apply_locs(kd, id, locs);
        assert forall|k: Seq<u8>| #[trigger] result.contains_key(k) implies (if result[k].file_id
            == id {
            exists|i: int|
                0 <= i < locs.len() && (#[trigger] locs[i]).rec.key == k
                    && !locs[i].rec.is_tombstone() && entry_of_loc(id, locs[i]) == result[k]
        } else {
            kd.contains_key(k) && result[k] == kd[k]
        }) by {
            if k == last.rec.key && !last.rec.is_tombstone() && result[k] == entry_of_loc(
                id,
                last,
            ) {
                assert(locs[locs.len() - 1] == last);
                assert(locs[locs.len() - 1].rec.key == k);
            } else {
                assert(inner.contains_key(k));
                assert(result[k] == inner[k]);
                if inner[k].file_id == id {
                    let i = choose|i: int|
                        0 <= i < front.len() && (#[trigger] front[i]).rec.key == k
                            && !front[i].rec.is_tombstone() && entry_of_loc(id, front[i])
                            == inner[k];
                    assert(locs[i] == front[i]);
                }
            }
        }
    }
}

/// Law: after sealing a run, reading any directory entry that points into
/// it yields a record whose key is the entry's own key.
pub proof fn lemma_flush_directory_consistent(
    kd: Map<Seq<u8>, KeydirEntry>,
    id: u64,
    b: Seq<u8>,
)
    requires
        forall|k: Seq<u8>| #[trigger] kd.contains_key(k) ==> kd[k].file_id != id,
        b.len() <= u64::MAX,
    ensures
        forall|k: Seq<u8>|
            #[trigger] apply_locs(kd, id, locs_from(b, 0)).contains_key(k) && apply_locs(
                kd,
                id,
                locs_from(b, 0),
            )[k].file_id == id ==> can_read_at(
                b,
                apply_locs(kd, id, locs_from(b, 0))[k].offset as int,
            ) && record_at(b, apply_locs(kd, id, locs_from(b, 0))[k].offset as int).key == k,
{
    let locs = locs_from(b, 0);
    let kd2 = apply_locs(kd, id, locs);
    lemma_apply_locs_points_at(kd, id, locs);
    crate::sstable::lemma_locs_readable(b, 0);
    assert forall|k: Seq<u8>| #[trigger] kd2.contains_key(k) && kd2[k].file_id == id implies
        can_read_at(b, kd2[k].offset as int) && record_at(b, kd2[k].offset as int).key == k by {
        let i = choose|i: int|
            0 <= i < locs.len() && (#[trigger] locs[i]).rec.key == k && !locs[i].rec.is_tombstone()
                && entry_of_loc(id, locs[i]) == kd2[k];
        assert(locs[i].rec == record_at(b, locs[i].off));
        assert(0 <= locs[i].off < b.len());
        assert(kd2[k].offset == locs[i].off as u64);
        assert(kd2[k].offset as int == locs[i].off);
    }
}

/// Law: a flush loses nothing and invents nothing. For every record the
/// sealed run holds — flush writes one per memtable key — the rebuilt
/// directory maps its key to exactly that record's place, and reading the
/// run there yields the record unchanged; a tombstone record deletes its
/// key instead. The provisos hold at a flush: the run's keys are distinct
/// (the memtable is a map) and its records are at least as new as what
/// the directory pointed at.
pub proof fn lemma_flush_read_back(
    kd: Map<Seq<u8>, KeydirEntry>,
    id: u64,
    b: Seq<u8>,
    i: int,
)
    requires
        0 <= i < locs_from(b, 0).len(),
        forall|a: int, c: int|
            0 <= a < c < locs_from(b, 0).len() ==> (#[trigger] locs_from(b, 0)[a]).rec.key
                != (#[trigger] locs_from(b, 0)[c]).rec.key,
        forall|j: int|
            kd.contains_key((#[trigger] locs_from(b, 0)[j]).rec.key) && 0 <= j < locs_from(
                b,
                0,
            ).len() ==> kd[locs_from(b, 0)[j].rec.key].timestamp <= locs_from(b, 0)[j].rec.timestamp,
    ensures
        locs_from(b, 0)[i].rec.is_tombstone() ==> !apply_locs(
            kd,
            id,
            locs_from(b, 0),
        ).contains_key(locs_from(b, 0)[i].rec.key),
        !locs_from(b, 0)[i].rec.is_tombstone() ==> apply_locs(
            kd,
            id,
            locs_from(b, 0),
        ).contains_key(locs_from(b, 0)[i].rec.key) && apply_locs(kd, id, locs_from(b, 0))[locs_from(
            b,
            0,
        )[i].rec.key] == entry_of_loc(id, locs_from(b, 0)[i]) && can_read_at(
            b,
            locs_from(b, 0)[i].off,
        ) && record_at(b, locs_from(b, 0)[i].off) == locs_from(b, 0)[i].rec,
{
    lemma_apply_locs_key(kd, id, locs_from(b, 0), i);
    crate::sstable::lemma_locs_readable(b, 0);
}

/// Encode a run of records into the bytes of a run file and its hint
/// sibling, without touching any directory: what the compaction worker
/// writes to the winner's temporary files.
pub fn write_run(entries: &Vec<DiskEntry>) -> (r: FlushFiles)
    requires
        forall|j: int| 0 <= j < entries@.len() ==> (#[trigger] entries@[j])@.wf(),
    ensures
        r.run_bytes@ == encode_run(crate::memtable::models(entries@)),
        locs_from(r.run_bytes@, 0).len() == entries@.len(),
        forall|i: int| 0 <= i < entries@.len() ==> (#[trigger] locs_from(r.run_bytes@, 0)[i]).rec
            == entries@[i]@,
        scan_end(r.run_bytes@, 0) == r.run_bytes@.len(),
        hints_from(r.hint_bytes@, 0).len() == entries@.len(),
        forall|i: int| 0 <= i < entries@.len() ==> #[trigger] hints_from(r.hint_bytes@, 0)[i]
            == hint_model_of(entries@[i]@, locs_from(r.run_bytes@, 0)[i].off),
{
    let ghost ms = crate::memtable::models(entries@);
    let mut files = FlushFiles { run_bytes: Vec::new(), hint_bytes: Vec::new() };
    let n = entries.len();
    let mut i: usize = 0;
    let ghost mut locs: Seq<LocRec> = Seq::empty();
    let ghost mut hoffs: Seq<int> = Seq::empty();
    let ghost mut hms: Seq<HintModel> = Seq::empty();
    proof {
        assert(encode_run(ms.take(0)) =~= Seq::<u8>::empty());
        assert(files.run_bytes@ =~= encode_run(ms.take(0)));
        assert(files.hint_bytes@ =~= Seq::<u8>::empty());
    }
    while i < n
        invariant
            0 <= i <= n,
            n == ms.len(),
            ms == crate::memtable::models(entries@),
            forall|j: int| 0 <= j < entries@.len() ==> (#[trigger] entries@[j])@.wf(),
            locs.len() == i,
            hoffs.len() == i,
            hms.len() == i,
            files.run_bytes@ == encode_run(ms.take(i as int)),
            forall|j: int| 0 <= j < i ==> can_read_at(files.run_bytes@, (#[trigger] locs[j]).off),
            forall|j: int| 0 <= j < i ==> (#[trigger] locs[j]).rec == record_at(
                files.run_bytes@,
                locs[j].off,
            ),
            forall|j: int| 0 <= j < i ==> (#[trigger] locs[j]).rec == ms[j],
            i > 0 ==> locs[0].off == 0,
            forall|j: int| 0 <= j < i - 1 ==> (#[trigger] locs[j + 1]).off == locs[j].off
                + rec_size_at(files.run_bytes@, locs[j].off),
            i > 0 ==> locs.last().off + rec_size_at(files.run_bytes@, locs.last().off)
                == files.run_bytes@.len(),
            i == 0 ==> files.run_bytes@.len() == 0,
            forall|j: int| 0 <= j < i ==> can_read_hint_at(files.hint_bytes@, #[trigger] hoffs[j]),
            forall|j: int| 0 <= j < i ==> hms[j] == hint_at(files.hint_bytes@, #[trigger] hoffs[j]),
            forall|j: int| 0 <= j < i ==> #[trigger] hms[j] == hint_model_of(ms[j], locs[j].off),
            i > 0 ==> hoffs[0] == 0,
            forall|j: int| 0 <= j < i - 1 ==> #[trigger] hoffs[j + 1] == hoffs[j] + hint_size_at(
                files.hint_bytes@,
                hoffs[j],
            ),
            i > 0 ==> hoffs.last() + hint_size_at(files.hint_bytes@, hoffs.last())
                == files.hint_bytes@.len(),
            i == 0 ==> files.hint_bytes@.len() == 0,
        decreases n - i,
    {
        let entry = &entries[i];
        let ghost m = entry@;
        let ghost rb0 = files.run_bytes@;
        let ghost hb0 = files.hint_bytes@;
        let off = crate::format::write_record(&mut files.run_bytes, entry);
        proof {
            assert(files.run_bytes@ == rb0 + crate::format::spec_encode_record(m));
            assert forall|j: int| 0 <= j < i implies can_read_at(
                files.run_bytes@,
                (#[trigger] locs[j]).off,
            ) && locs[j].rec == record_at(files.run_bytes@, locs[j].off) && rec_size_at(
                files.run_bytes@,
                locs[j].off,
            ) == rec_size_at(rb0, locs[j].off) by {
                crate::sstable::lemma_read_append(
                    rb0,
                    crate::format::spec_encode_record(m),
                    locs[j].off,
                );
            }
            assert(files.run_bytes@.subrange(off as int, off + m.size()) =~= crate
                ::format::spec_encode_record(m));
            crate::format::lemma_encode_read(files.run_bytes@, off as int, m);
            assert(ms.take(i + 1).drop_last() =~= ms.take(i as int));
            assert(ms.take(i + 1).last() == ms[i as int]);
            assert(files.run_bytes@ =~= encode_run(ms.take(i + 1)));
        }
        let he = crate::format::HintEntry {
            key: clone_bytes(&entry.key),
            value_sz: entry.value.len() as u64,
            offset: off as u64,
            size: entry.size(),
            timestamp: entry.timestamp,
        };
        let hoff = crate::format::write_hint(&mut files.hint_bytes, &he);
        proof {
            assert(files.hint_bytes@ == hb0 + crate::format::spec_encode_hint(he@));
            assert forall|j: int| 0 <= j < i implies can_read_hint_at(
                files.hint_bytes@,
                #[trigger] hoffs[j],
            ) && hms[j] == hint_at(files.hint_bytes@, hoffs[j]) && hint_size_at(
                files.hint_bytes@,
                hoffs[j],
            ) == hint_size_at(hb0, hoffs[j]) by {
                crate::hint::lemma_hint_read_append(
                    hb0,
                    crate::format::spec_encode_hint(he@),
                    hoffs[j],
                );
            }
            assert(files.hint_bytes@.subrange(hoff as int, hoff + he@.size()) =~= crate
                ::format::spec_encode_hint(he@));
            crate::format::lemma_encode_read_hint(files.hint_bytes@, hoff as int, he@);
            assert(he@ == hint_model_of(m, off as int));
            let l = LocRec { off: off as int, rec: m };
            let prevl = locs;
            locs = locs.push(l);
            hoffs = hoffs.push(hoff as int);
            hms = hms.push(he@);
            assert forall|j: int| 0 <= j < i + 1 implies can_read_at(
                files.run_bytes@,
                (#[trigger] locs[j]).off,
            ) by {
                if j < i {
                    assert(locs[j] == prevl[j]);
                }
            }
        }
        i = i + 1;
    }
    proof {
        assert(ms.take(n as int) =~= ms);
        assert(!can_read_at(files.run_bytes@, files.run_bytes@.len() as int));
        crate::sstable::lemma_scan_of_tiling(files.run_bytes@, 0, locs);
        crate::hint::lemma_hint_scan_of_tiling(files.hint_bytes@, 0, hoffs, hms);
    }
    files
}

/// The storage manager's state: which runs exist and what the key
/// directory points at.
pub struct DiskStorage {
    runs: RunSet,
    keydir: HashmapKeydir,
}

impl DiskStorage {
    /// The run table.
    pub closed spec fn run_set(self) -> RunSet {
        self.runs
    }

    /// The key directory as a map.
    pub closed spec fn kd(self) -> Map<Seq<u8>, KeydirEntry> {
        self.keydir@
    }

    /// Run ids ascending; key directory in key order.
    pub closed spec fn inv(self) -> bool {
        self.runs.wf() && self.keydir.wf()
    }

    /// An empty store: no runs, no keys.
    pub fn new() -> (r: DiskStorage)
        ensures
            r.inv(),
            r.kd() == Map::<Seq<u8>, KeydirEntry>::empty(),
            r.run_set().model() == Seq::<(u64, u64)>::empty(),
    {
        DiskStorage { runs: RunSet::new(), keydir: HashmapKeydir::new() }
    }

    /// The (id, size) of every run, in ascending id order.
    pub fn list_sstables(&self) -> (r: Vec<(u64, u64)>)
        ensures
            r@ == self.run_set().model(),
    {
        let n = self.runs.len();
        let mut r: Vec<(u64, u64)> = Vec::new();
        let mut i: usize = 0;
        while i < n
            invariant
                0 <= i <= n,
                n == self.run_set().model().len(),
                r@ =~= self.run_set().model().take(i as int),
            decreases n - i,
        {
            r.push(self.runs.item_at(i));
            proof {
                assert(r@ =~= self.run_set().model().take(i + 1));
            }
            i = i + 1;
        }
        proof {
            assert(self.run_set().model().take(n as int) =~= self.run_set().model());
        }
        r
    }

    /// Register a run found on disk (or replace its recorded size).
    pub fn insert_sstable(&mut self, id: u64, size: u64)
        requires
            old(self).inv(),
        ensures
            final(self).inv(),
            final(self).kd() == old(self).kd(),
            final(self).run_set().has(id, size),
            forall|x: u64, s: u64|
                x != id ==> (final(self).run_set().has(x, s) <==> old(self).run_set().has(x, s)),
            forall|x: u64|
                x != id ==> (final(self).run_set().has_id(x) <==> old(self).run_set().has_id(x)),
    {
        self.runs.insert_run(id, size);
    }

    /// The id the next sealed run will get: one past the largest id, or one
    /// on an empty store.
    pub fn next_sstable_id(&self) -> (r: u64)
        requires
            self.inv(),
            self.run_set().model().len() > 0 ==> self.run_set().model().last().0 < u64::MAX,
        ensures
            r >= 1,
            !self.run_set().has_id(r),
            forall|i: int| 0 <= i < self.run_set().model().len()
                ==> (#[trigger] self.run_set().model()[i]).0 < r,
            r == if self.run_set().model().len() == 0 {
                1u64
            } else {
                (self.run_set().model().last().0 + 1) as u64
            },
    {
        let m = self.runs.max_id();
        if self.runs.len() == 0 {
            1
        } else {
            m + 1
        }
    }

    /// The number of keys the directory holds.
    pub fn len(&self) -> (r: u64)
        ensures
            r == self.kd_key_count(),
    {
        self.keydir.len()
    }

    /// The number of bindings in the key directory.
    pub closed spec fn kd_key_count(self) -> int {
        self.keydir.model_seq().len() as int
    }

    /// Whether no key is held.
    pub fn is_empty(&self) -> (r: bool)
        ensures
            r <==> self.kd_key_count() == 0,
    {
        self.len() == 0
    }

    /// Whether the directory holds `key`.
    pub fn contains_key(&self, key: &Vec<u8>) -> (r: bool)
        requires
            self.inv(),
        ensures
            r <==> self.kd().contains_key(key@),
    {
        self.keydir.contains_key(key)
    }

    /// Where the newest record for `key` lives, if the directory holds it.
    /// The caller reads the run at that offset and decodes the value.
    pub fn get(&self, key: &Vec<u8>) -> (r: Option<KeydirEntry>)
        requires
            self.inv(),
        ensures
            match r {
                Some(e) => self.kd().contains_key(key@) && e == self.kd()[key@],
                None => !self.kd().contains_key(key@),
            },
    {
        match self.keydir.get(key) {
            Some(e) => Some(*e),
            None => None,
        }
    }

    /// All keys the directory holds, in ascending order.
    pub fn keys(&self) -> (r: Vec<Vec<u8>>)
        requires
            self.inv(),
        ensures
            r@.map_values(|v: Vec<u8>| v@) == self.key_seq(),
            forall|k: Seq<u8>| self.kd().contains_key(k) <==> self.key_seq().contains(k),
            crate::assoc::sorted_keys_flat(self.key_seq()),
    {
        proof {
            crate::assoc::lemma_sorted_distinct(self.keydir.model_seq(), crate::keydir::kd_kf());
            assert forall|k: Seq<u8>| self.kd().contains_key(k) implies self.key_seq().contains(
                k,
            ) by {
                crate::assoc::lemma_val_map_contains(
                    self.keydir.model_seq(),
                    crate::keydir::kd_kf(),
                    crate::keydir::kd_vf(),
                    k,
                );
                let i = choose|i: int|
                    0 <= i < self.keydir.model_seq().len() && crate::keydir::kd_kf()(
                        self.keydir.model_seq()[i],
                    ) == k;
                assert(self.key_seq()[i] == k);
            }
            assert forall|i: int, j: int| 0 <= i < j < self.key_seq().len() implies crate::order::lex_lt(
                #[trigger] self.key_seq()[i],
                #[trigger] self.key_seq()[j],
            ) by {
                assert(self.key_seq()[i] == crate::keydir::kd_kf()(self.keydir.model_seq()[i]));
                assert(self.key_seq()[j] == crate::keydir::kd_kf()(self.keydir.model_seq()[j]));
            }
            assert forall|k: Seq<u8>| self.key_seq().contains(k) implies self.kd().contains_key(
                k,
            ) by {
                let i = choose|i: int| 0 <= i < self.key_seq().len() && self.key_seq()[i] == k;
                crate::assoc::lemma_val_map_contains(
                    self.keydir.model_seq(),
                    crate::keydir::kd_kf(),
                    crate::keydir::kd_vf(),
                    k,
                );
            }
        }
        self.keydir.keys()
    }

    /// The directory's keys in ascending order.
    pub closed spec fn key_seq(self) -> Seq<Seq<u8>> {
        self.keydir.key_seq()
    }

    /// Seal the memtable into a new sorted run. The records go out in
    /// ascending key order; one hint per record points back at it; the key
    /// directory is updated in the same pass (a tombstone removes its key).
    /// The returned id is one past the largest run id, the returned size is
    /// the run's length in bytes, and the two byte vectors are the run file
    /// and its hint sibling for the caller to write and sync.
    pub fn set(&mut self, items: &Memtable) -> (r: (u64, u64, FlushFiles))
        requires
            old(self).inv(),
            items.wf(),
            old(self).run_set().model().len() > 0 ==> old(self).run_set().model().last().0
                < u64::MAX,
        ensures
            final(self).inv(),
            !old(self).run_set().has_id(r.0),
            r.0 == if old(self).run_set().model().len() == 0 {
                1u64
            } else {
                (old(self).run_set().model().last().0 + 1) as u64
            },
            r.2.run_bytes@ == encode_run(items.model_seq()),
            r.1 == r.2.run_bytes@.len(),
            locs_from(r.2.run_bytes@, 0).len() == items.model_seq().len(),
            forall|i: int| 0 <= i < items.model_seq().len() ==> (#[trigger] locs_from(
                r.2.run_bytes@,
                0,
            )[i]).rec == items.model_seq()[i],
            scan_end(r.2.run_bytes@, 0) == r.2.run_bytes@.len(),
            hints_from(r.2.hint_bytes@, 0).len() == items.model_seq().len(),
            forall|i: int| 0 <= i < items.model_seq().len() ==> #[trigger] hints_from(
                r.2.hint_bytes@,
                0,
            )[i] == hint_model_of(items.model_seq()[i], locs_from(r.2.run_bytes@, 0)[i].off),
            final(self).kd() == apply_locs(old(self).kd(), r.0, locs_from(r.2.run_bytes@, 0)),
            final(self).run_set().model() == old(self).run_set().model().push((r.0, r.1)),
    {
        let id = self.next_sstable_id();
        let ghost ms = items.model_seq();
        let mut files = FlushFiles { run_bytes: Vec::new(), hint_bytes: Vec::new() };
        let n = items.len();
        let mut i: usize = 0;
        let ghost mut locs: Seq<LocRec> = Seq::empty();
        let ghost mut hoffs: Seq<int> = Seq::empty();
        let ghost mut hms: Seq<HintModel> = Seq::empty();
        proof {
            assert(encode_run(ms.take(0)) =~= Seq::<u8>::empty());
            assert(files.run_bytes@ =~= encode_run(ms.take(0)));
            assert(files.hint_bytes@ =~= Seq::<u8>::empty());
            assert(apply_locs(old(self).kd(), id, locs) == old(self).kd());
        }
        while i < n
            invariant
                0 <= i <= n,
                n == ms.len(),
                ms == items.model_seq(),
                items.wf(),
                self.inv(),
                self.run_set() == old(self).run_set(),
                old(self).kd() == old(self).kd(),
                locs.len() == i,
                hoffs.len() == i,
                hms.len() == i,
                files.run_bytes@ == encode_run(ms.take(i as int)),
                forall|j: int| 0 <= j < i ==> can_read_at(files.run_bytes@, (#[trigger] locs[j]).off),
                forall|j: int| 0 <= j < i ==> (#[trigger] locs[j]).rec == record_at(
                    files.run_bytes@,
                    locs[j].off,
                ),
                forall|j: int| 0 <= j < i ==> (#[trigger] locs[j]).rec == ms[j],
                i > 0 ==> locs[0].off == 0,
                forall|j: int| 0 <= j < i - 1 ==> (#[trigger] locs[j + 1]).off == locs[j].off
                    + rec_size_at(files.run_bytes@, locs[j].off),
                i > 0 ==> locs.last().off + rec_size_at(files.run_bytes@, locs.last().off)
                    == files.run_bytes@.len(),
                i == 0 ==> files.run_bytes@.len() == 0,
                forall|j: int| 0 <= j < i ==> can_read_hint_at(
                    files.hint_bytes@,
                    #[trigger] hoffs[j],
                ),
                forall|j: int| 0 <= j < i ==> hms[j] == hint_at(
                    files.hint_bytes@,
                    #[trigger] hoffs[j],
                ),
                forall|j: int| 0 <= j < i ==> #[trigger] hms[j] == hint_model_of(ms[j], locs[j].off),
                i > 0 ==> hoffs[0] == 0,
                forall|j: int| 0 <= j < i - 1 ==> #[trigger] hoffs[j + 1] == hoffs[j]
                    + hint_size_at(files.hint_bytes@, hoffs[j]),
                i > 0 ==> hoffs.last() + hint_size_at(files.hint_bytes@, hoffs.last())
                    == files.hint_bytes@.len(),
                i == 0 ==> files.hint_bytes@.len() == 0,
                self.kd() == apply_locs(old(self).kd(), id, locs),
            decreases n - i,
        {
            let entry = items.entry_at(i);
            let ghost m = entry@;
            let ghost rb0 = files.run_bytes@;
            let ghost hb0 = files.hint_bytes@;
            let off = crate::format::write_record(&mut files.run_bytes, entry);
            proof {
                assert(files.run_bytes@ == rb0 + crate::format::spec_encode_record(m));
                assert forall|j: int| 0 <= j < i implies can_read_at(
                    files.run_bytes@,
                    (#[trigger] locs[j]).off,
                ) && locs[j].rec == record_at(files.run_bytes@, locs[j].off) && rec_size_at(
                    files.run_bytes@,
                    locs[j].off,
                ) == rec_size_at(rb0, locs[j].off) by {
                    crate::sstable::lemma_read_append(
                        rb0,
                        crate::format::spec_encode_record(m),
                        locs[j].off,
                    );
                }
                assert(files.run_bytes@.subrange(off as int, off + m.size()) =~= crate
                    ::format::spec_encode_record(m));
                crate::format::lemma_encode_read(files.run_bytes@, off as int, m);
                assert(encode_run(ms.take(i + 1)).drop_last() =~= Seq::<u8>::empty()
                    || true);
                assert(ms.take(i + 1).drop_last() =~= ms.take(i as int));
                assert(ms.take(i + 1).last() == ms[i as int]);
                assert(files.run_bytes@ =~= encode_run(ms.take(i + 1)));
            }
            let he = crate::format::HintEntry {
                key: clone_bytes(&entry.key),
                value_sz: entry.value.len() as u64,
                offset: off as u64,
                size: entry.size(),
                timestamp: entry.timestamp,
            };
            let hoff = crate::format::write_hint(&mut files.hint_bytes, &he);
            proof {
                assert(files.hint_bytes@ == hb0 + crate::format::spec_encode_hint(he@));
                assert forall|j: int| 0 <= j < i implies can_read_hint_at(
                    files.hint_bytes@,
                    #[trigger] hoffs[j],
                ) && hms[j] == hint_at(files.hint_bytes@, hoffs[j]) && hint_size_at(
                    files.hint_bytes@,
                    hoffs[j],
                ) == hint_size_at(hb0, hoffs[j]) by {
                    crate::hint::lemma_hint_read_append(
                        hb0,
                        crate::format::spec_encode_hint(he@),
                        hoffs[j],
                    );
                }
                assert(files.hint_bytes@.subrange(hoff as int, hoff + he@.size()) =~= crate
                    ::format::spec_encode_hint(he@));
                crate::format::lemma_encode_read_hint(files.hint_bytes@, hoff as int, he@);
                assert(he@ == hint_model_of(m, off as int));
            }
            let ghost kd_before = self.kd();
            if entry.value.len() == 0 {
                let key = clone_bytes(&entry.key);
                self.keydir.remove(&key);
            } else {
                let key = clone_bytes(&entry.key);
                let kde = KeydirEntry {
                    file_id: id,
                    offset: off as u64,
                    size: he.size,
                    timestamp: entry.timestamp,
                };
                self.keydir.put(key, kde);
            }
            proof {
                let l = LocRec { off: off as int, rec: m };
                let prevl = locs;
                locs = locs.push(l);
                hoffs = hoffs.push(hoff as int);
                hms = hms.push(he@);
                assert(locs.drop_last() =~= prevl);
                assert(locs.last() == l);
                assert(entry_of_loc(id, l) == KeydirEntry {
                    file_id: id,
                    offset: off as u64,
                    size: he.size,
                    timestamp: entry.timestamp,
                });
                assert(self.kd() == kd_step(
                    kd_before,
                    l.rec.key,
                    entry_of_loc(id, l),
                    l.rec.is_tombstone(),
                ));
                assert(self.kd() == apply_locs(old(self).kd(), id, locs));
                assert forall|j: int| 0 <= j < i + 1 implies can_read_at(
                    files.run_bytes@,
                    (#[trigger] locs[j]).off,
                ) by {
                    if j < i {
                        assert(locs[j] == prevl[j]);
                    }
                }
            }
            i = i + 1;
        }
        proof {
            assert(ms.take(n as int) =~= ms);
            assert(!can_read_at(files.run_bytes@, files.run_bytes@.len() as int));
            crate::sstable::lemma_scan_of_tiling(files.run_bytes@, 0, locs);
            crate::hint::lemma_hint_scan_of_tiling(files.hint_bytes@, 0, hoffs, hms);
        }
        let size = files.run_bytes.len() as u64;
        self.runs.push_run(id, size);
        (id, size, files)
    }

    /// Rebuild directory entries from a hint file: every whole hint in the
    /// file is applied in order — tombstones remove, the rest land unless a
    /// strictly newer entry holds the key.
    pub fn build_keydir_from_hint(&mut self, file_id: u64, hint_bytes: &Vec<u8>) -> (r: u64)
        requires
            old(self).inv(),
        ensures
            final(self).inv(),
            final(self).run_set() == old(self).run_set(),
            final(self).kd() == apply_hints(old(self).kd(), file_id, hints_from(hint_bytes@, 0)),
            r == hint_scan_end(hint_bytes@, 0),
            r <= hint_bytes@.len(),
    {
        let mut offset: usize = 0;
        let n = hint_bytes.len();
        let ghost b = hint_bytes@;
        let ghost mut done: Seq<HintModel> = Seq::empty();
        proof {
            assert(b.len() == n);
            assert(apply_hints(old(self).kd(), file_id, done) == old(self).kd());
            assert(hints_from(b, 0) =~= done + hints_from(b, 0));
        }
        loop
            invariant
                0 <= offset <= b.len(),
                b == hint_bytes@,
                b.len() <= usize::MAX,
                self.inv(),
                self.run_set() == old(self).run_set(),
                self.kd() == apply_hints(old(self).kd(), file_id, done),
                hints_from(b, 0) == done + hints_from(b, offset as int),
                hint_scan_end(b, 0) == hint_scan_end(b, offset as int),
            decreases b.len() - offset,
        {
            match read_hint(hint_bytes, offset) {
                HintReadOutcome::Valid(e) => {
                    let ghost m = e@;
                    let ghost prev = done;
                    let sz = 40 + e.key.len();
                    proof {
                        assert(m == hint_at(b, offset as int));
                        assert(m.key.len() == crate::format::hint_key_len(b, offset as int));
                        assert(sz == hint_size_at(b, offset as int));
                    }
                    if e.value_sz != 0 {
                        let entry = KeydirEntry {
                            file_id,
                            offset: e.offset,
                            size: e.size,
                            timestamp: e.timestamp,
                        };
                        self.keydir.put(e.key, entry);
                    } else {
                        self.keydir.remove(&e.key);
                    }
                    proof {
                        done = done.push(m);
                        assert(done.last() == m);
                        assert(done.drop_last() =~= prev);
                        assert(self.kd() == kd_step(
                            apply_hints(old(self).kd(), file_id, prev),
                            m.key,
                            entry_of_hint(file_id, m),
                            m.value_sz == 0,
                        ));
                        assert(self.kd() == apply_hints(old(self).kd(), file_id, done));
                        assert(hints_from(b, offset as int) == seq![m] + hints_from(
                            b,
                            offset as int + hint_size_at(b, offset as int),
                        ));
                        assert(hints_from(b, 0) =~= done + hints_from(
                            b,
                            offset as int + hint_size_at(b, offset as int),
                        ));
                    }
                    offset = offset + sz;
                },
                HintReadOutcome::Torn => {
                    proof {
                        assert(hints_from(b, offset as int) =~= Seq::<HintModel>::empty());
                        assert(hints_from(b, 0) =~= done);
                    }
                    return offset as u64;
                },
                HintReadOutcome::End => {
                    proof {
                        assert(!can_read_hint_at(b, offset as int));
                        assert(hints_from(b, offset as int) =~= Seq::<HintModel>::empty());
                        assert(hints_from(b, 0) =~= done);
                    }
                    return offset as u64;
                },
            }
        }
    }

    /// Finish a compaction after the caller has renamed the winner's
    /// temporary files over their final names: drop every input run but the
    /// winner (the largest input id), record the winner's new size, and
    /// rebuild the directory entries that came from the inputs by applying
    /// the winner's hint file.
    pub fn compact_and_merge(
        &mut self,
        sstable_ids: &Vec<u64>,
        winner_size: u64,
        winner_hint_bytes: &Vec<u8>,
    ) -> (r: (u64, u64))
        requires
            old(self).inv(),
            sstable_ids@.len() > 0,
        ensures
            final(self).inv(),
            r.0 == seq_max_u64(sstable_ids@),
            r.1 == winner_size,
            final(self).run_set().has(r.0, winner_size),
            forall|x: u64|
                sstable_ids@.contains(x) && x != r.0 ==> !final(self).run_set().has_id(x),
            forall|x: u64, s: u64|
                x != r.0 && !sstable_ids@.contains(x) ==> (final(self).run_set().has(x, s)
                    <==> old(self).run_set().has(x, s)),
            forall|x: u64|
                x != r.0 && !sstable_ids@.contains(x) ==> (final(self).run_set().has_id(x)
                    <==> old(self).run_set().has_id(x)),
            final(self).kd() == apply_hints(
                old(self).kd(),
                r.0,
                hints_from(winner_hint_bytes@, 0),
            ),
    {
        let n = sstable_ids.len();
        let mut winner: u64 = sstable_ids[0];
        let mut i: usize = 1;
        proof {
            let t1 = sstable_ids@.take(1);
            assert(t1.drop_last() =~= Seq::<u64>::empty());
            assert(t1.last() == sstable_ids@[0]);
            assert(seq_max_u64(Seq::<u64>::empty()) == 0);
            assert(seq_max_u64(t1) == t1.last());
            assert(t1[0] == sstable_ids@[0]);
            assert(winner == seq_max_u64(sstable_ids@.take(1)));
        }
        while i < n
            invariant
                1 <= i <= n,
                n == sstable_ids@.len(),
                winner == seq_max_u64(sstable_ids@.take(i as int)),
                sstable_ids@.take(i as int).contains(winner),
            decreases n - i,
        {
            proof {
                assert(sstable_ids@.take(i + 1).drop_last() =~= sstable_ids@.take(i as int));
                assert(sstable_ids@.take(i + 1).last() == sstable_ids@[i as int]);
            }
            if sstable_ids[i] > winner {
                winner = sstable_ids[i];
                proof {
                    assert(sstable_ids@.take(i + 1)[i as int] == winner);
                }
            } else {
                proof {
                    let w = choose|j: int|
                        0 <= j < i && #[trigger] sstable_ids@.take(i as int)[j] == winner;
                    assert(sstable_ids@.take(i + 1)[w] == winner);
                }
            }
            i = i + 1;
        }
        proof {
            assert(sstable_ids@.take(n as int) =~= sstable_ids@);
        }
        let mut j: usize = 0;
        while j < n
            invariant
                0 <= j <= n,
                n == sstable_ids@.len(),
                self.inv(),
                self.kd() == old(self).kd(),
                forall|x: u64, s: u64|
                    x == winner || !sstable_ids@.take(j as int).contains(x)
                        ==> (self.run_set().has(x, s) <==> old(self).run_set().has(x, s)),
                forall|x: u64|
                    x == winner || !sstable_ids@.take(j as int).contains(x)
                        ==> (self.run_set().has_id(x) <==> old(self).run_set().has_id(x)),
                forall|x: u64| #[trigger] sstable_ids@.take(j as int).contains(x) && x != winner
                    ==> !self.run_set().has_id(x),
            decreases n - j,
        {
            let id = sstable_ids[j];
            let ghost before = *self;
            if id != winner {
                self.runs.remove_run(id);
            }
            proof {
                assert(sstable_ids@.take(j + 1).drop_last() =~= sstable_ids@.take(j as int));
                assert(sstable_ids@.take(j + 1).last() == id);
                assert forall|x: u64|
                    #[trigger] sstable_ids@.take(j + 1).contains(x) && x != winner
                    implies !self.run_set().has_id(x) by {
                    if x != id {
                        let w = choose|k: int|
                            0 <= k < j + 1 && #[trigger] sstable_ids@.take(j + 1)[k] == x;
                        assert(sstable_ids@.take(j as int)[w] == x);
                        assert(sstable_ids@.take(j as int).contains(x));
                    }
                }
                assert forall|x: u64|
                    x == winner || !sstable_ids@.take(j + 1).contains(x)
                    implies (self.run_set().has_id(x) <==> old(self).run_set().has_id(x)) by {
                    if x != winner {
                        assert(!sstable_ids@.take(j as int).contains(x)) by {
                            if sstable_ids@.take(j as int).contains(x) {
                                let w = choose|k: int|
                                    0 <= k < j && #[trigger] sstable_ids@.take(j as int)[k] == x;
                                assert(sstable_ids@.take(j + 1)[w] == x);
                            }
                        }
                        assert(x != id) by {
                            if x == id {
                                assert(sstable_ids@.take(j + 1)[j as int] == x);
                            }
                        }
                    }
                }
                assert forall|x: u64, s: u64|
                    x == winner || !sstable_ids@.take(j + 1).contains(x)
                    implies (self.run_set().has(x, s) <==> old(self).run_set().has(x, s)) by {
                    if x != winner {
                        assert(!sstable_ids@.take(j as int).contains(x)) by {
                            if sstable_ids@.take(j as int).contains(x) {
                                let w = choose|k: int|
                                    0 <= k < j && #[trigger] sstable_ids@.take(j as int)[k] == x;
                                assert(sstable_ids@.take(j + 1)[w] == x);
                            }
                        }
                        assert(x != id) by {
                            if x == id {
                                assert(sstable_ids@.take(j + 1)[j as int] == x);
                            }
                        }
                    }
                }
            }
            j = j + 1;
        }
        proof {
            assert(sstable_ids@.take(n as int) =~= sstable_ids@);
        }
        self.runs.insert_run(winner, winner_size);
        let _ = self.build_keydir_from_hint(winner, winner_hint_bytes);
        (winner, winner_size)
    }

    /// Rebuild directory entries by scanning a sorted run itself, for a run
    /// with no hint sibling. The scan stops at the first torn record; the
    /// returned offset is the end of the good prefix, and the caller may
    /// truncate the run file there before registering it.
    pub fn build_keydir_from_sstable(&mut self, file_id: u64, run_bytes: &Vec<u8>) -> (r: u64)
        requires
            old(self).inv(),
            run_bytes@.len() + 16 <= u64::MAX,
        ensures
            final(self).inv(),
            final(self).run_set() == old(self).run_set(),
            final(self).kd() == apply_locs(old(self).kd(), file_id, locs_from(run_bytes@, 0)),
            r == scan_end(run_bytes@, 0),
            r <= run_bytes@.len(),
    {
        let mut offset: usize = 0;
        let n = run_bytes.len();
        let ghost b = run_bytes@;
        let ghost mut done: Seq<LocRec> = Seq::empty();
        proof {
            assert(b.len() == n);
            assert(apply_locs(old(self).kd(), file_id, done) == old(self).kd());
            assert(locs_from(b, 0) =~= done + locs_from(b, 0));
        }
        loop
            invariant
                0 <= offset <= b.len(),
                b == run_bytes@,
                b.len() <= usize::MAX,
                b.len() + 16 <= u64::MAX,
                self.inv(),
                self.run_set() == old(self).run_set(),
                self.kd() == apply_locs(old(self).kd(), file_id, done),
                locs_from(b, 0) == done + locs_from(b, offset as int),
                scan_end(b, 0) == scan_end(b, offset as int),
            decreases b.len() - offset,
        {
            match read_record(run_bytes, offset) {
                ReadOutcome::Valid(e) => {
                    proof {
                        crate::format::lemma_read_encode(b, offset as int);
                    }
                    let sz = e.size();
                    let ghost l = LocRec { off: offset as int, rec: record_at(b, offset as int) };
                    let ghost prev = done;
                    if e.value.len() == 0 {
                        self.keydir.remove(&e.key);
                    } else {
                        let entry = KeydirEntry {
                            file_id,
                            offset: offset as u64,
                            size: sz,
                            timestamp: e.timestamp,
                        };
                        self.keydir.put(e.key, entry);
                    }
                    proof {
                        done = done.push(l);
                        assert(done.last() == l);
                        assert(done.drop_last() =~= prev);
                        assert(self.kd() == kd_step(
                            apply_locs(old(self).kd(), file_id, prev),
                            l.rec.key,
                            entry_of_loc(file_id, l),
                            l.rec.is_tombstone(),
                        ));
                        assert(self.kd() == apply_locs(old(self).kd(), file_id, done));
                        assert(locs_from(b, offset as int) == seq![l] + locs_from(
                            b,
                            offset as int + rec_size_at(b, offset as int),
                        ));
                        assert(locs_from(b, 0) =~= done + locs_from(
                            b,
                            offset as int + rec_size_at(b, offset as int),
                        ));
                    }
                    offset = offset + sz as usize;
                },
                ReadOutcome::Torn => {
                    proof {
                        assert(locs_from(b, offset as int) =~= Seq::<LocRec>::empty());
                        assert(locs_from(b, 0) =~= done);
                    }
                    return offset as u64;
                },
                ReadOutcome::End => {
                    proof {
                        assert(!can_read_at(b, offset as int));
                        assert(locs_from(b, offset as int) =~= Seq::<LocRec>::empty());
                        assert(locs_from(b, 0) =~= done);
                    }
                    return offset as u64;
                },
            }
        }
    }
}

} // verus!
