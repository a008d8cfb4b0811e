//! The write-ahead log: the durability backing for the memtable.
//!
//! The log is a single append-only file of data records in write order.
//! On open its bytes are replayed from offset zero: every whole record with
//! a good checksum enters the memtable (later records overwrite earlier
//! ones for the same key), and the first torn record marks the end of the
//! good prefix — the caller truncates the file there.
use vstd::prelude::*;

use crate::format::DiskEntry;
use crate::format::ReadOutcome;
use crate::format::RecordModel;
use crate::format::can_read_at;
use crate::format::read_record;
use crate::format::rec_size_at;
use crate::format::record_at;
use crate::memtable::Memtable;
use crate::sstable::LocRec;
use crate::sstable::locs_from;
use crate::sstable::records_from;
use crate::sstable::scan_end;

verus! {

/// The map a sequence of replayed records builds: each record lands on its
/// key, later records overwriting earlier ones.
pub open spec fn replayed(rs: Seq<RecordModel>) -> Map<Seq<u8>, RecordModel>
    decreases rs.len(),
{
    if rs.len() == 0 {
        Map::empty()
    } else {
        replayed(rs.drop_last()).insert(rs.last().key, rs.last())
    }
}

/// Records replayed on top of an already-built map.
pub open spec fn replay_onto(
    m: Map<Seq<u8>, RecordModel>,
    rs: Seq<RecordModel>,
) -> Map<Seq<u8>, RecordModel>
    decreases rs.len(),
{
    if rs.len() == 0 {
        m
    } else {
        replay_onto(m, rs.drop_last()).insert(rs.last().key, rs.last())
    }
}

/// Replaying a log is replaying its head, then its tail on top.
pub proof fn lemma_replayed_concat(rs1: Seq<RecordModel>, rs2: Seq<RecordModel>)
    ensures
        replayed(rs1 + rs2) == replay_onto(replayed(rs1), rs2),
    decreases rs2.len(),
{
    if rs2.len() == 0 {
        assert(rs1 + rs2 =~= rs1);
        lemma_replayed_is_onto(rs1);
    } else {
        lemma_replayed_concat(rs1, rs2.drop_last());
        assert((rs1 + rs2).drop_last() =~= rs1 + rs2.drop_last());
        assert((rs1 + rs2).last() == rs2.last());
    }
}

proof fn lemma_replayed_is_onto(rs: Seq<RecordModel>)
    ensures
        replayed(rs) == replay_onto(replayed(rs), Seq::empty()),
{
}

/// A key no later record touches keeps its replayed value.
pub proof fn lemma_replay_untouched(
    m: Map<Seq<u8>, RecordModel>,
    rs: Seq<RecordModel>,
    k: Seq<u8>,
)
    requires
        forall|j: int| 0 <= j < rs.len() ==> (#[trigger] rs[j]).key != k,
    ensures
        replay_onto(m, rs).contains_key(k) == m.contains_key(k),
        m.contains_key(k) ==> replay_onto(m, rs)[k] == m[k],
    decreases rs.len(),
{
    if rs.len() > 0 {
        lemma_replay_untouched(m, rs.drop_last(), k);
        assert(rs[rs.len() - 1] == rs.last());
    }
}

/// Law: bytes appended after a fully valid log disturb none of its
/// records: replaying the longer log starts with exactly the records of
/// the shorter one. With `lemma_replayed_concat` this is the durability
/// claim for a crash that loses an un-synced tail — every record written
/// before the last sync is replayed, and a key reads differently only if
/// a record written after the sync lands on it.
pub proof fn lemma_wal_append_preserves(b: Seq<u8>, ext: Seq<u8>, o: int)
    requires
        0 <= o <= b.len(),
        scan_end(b, o) == b.len(),
    ensures
        locs_from(b + ext, o).len() >= locs_from(b, o).len(),
        forall|i: int| 0 <= i < locs_from(b, o).len() ==> #[trigger] locs_from(b + ext, o)[i]
            == locs_from(b, o)[i],
        records_from(b + ext, o).take(records_from(b, o).len() as int) == records_from(b, o),
    decreases b.len() - o,
{
    if o == b.len() {
        assert(!can_read_at(b, o));
        assert(locs_from(b, o) =~= Seq::<LocRec>::empty());
        assert(records_from(b + ext, o).take(0) =~= records_from(b, o));
    } else {
        assert(can_read_at(b, o));
        crate::sstable::lemma_read_append(b, ext, o);
        let o2 = o + rec_size_at(b, o);
        lemma_wal_append_preserves(b, ext, o2);
        assert(locs_from(b, o) == seq![LocRec { off: o, rec: record_at(b, o) }] + locs_from(b, o2));
        assert(locs_from(b + ext, o) == seq![LocRec { off: o, rec: record_at(b + ext, o) }]
            + locs_from(b + ext, o2));
        assert forall|i: int| 0 <= i < locs_from(b, o).len() implies #[trigger] locs_from(
            b + ext,
            o,
        )[i] == locs_from(b, o)[i] by {
            if i > 0 {
                assert(locs_from(b, o)[i] == locs_from(b, o2)[i - 1]);
                assert(locs_from(b + ext, o)[i] == locs_from(b + ext, o2)[i - 1]);
            }
        }
        assert(records_from(b + ext, o).take(records_from(b, o).len() as int) =~= records_from(
            b,
            o,
        ));
    }
}

/// Replay a write-ahead log. Returns the rebuilt memtable and the length
/// of the good prefix: every whole record with a good checksum before that
/// offset is in the memtable, and the caller truncates the log to it.
pub fn build_memtable(log_bytes: &Vec<u8>) -> (r: (Memtable, u64))
    requires
        log_bytes@.len() + 16 <= u64::MAX,
    ensures
        r.0.wf(),
        r.0@ == replayed(records_from(log_bytes@, 0)),
        r.1 == scan_end(log_bytes@, 0),
        r.1 <= log_bytes@.len(),
{
    let mut mem = Memtable::new();
    let mut offset: usize = 0;
    let n = log_bytes.len();
    let ghost b = log_bytes@;
    let ghost mut done: Seq<RecordModel> = Seq::empty();
    proof {
        assert(b.len() == n);
        assert(replayed(done) =~= Map::<Seq<u8>, RecordModel>::empty());
        assert(records_from(b, 0) =~= done + records_from(b, 0));
    }
    loop
        invariant
            0 <= offset <= b.len(),
            b == log_bytes@,
            b.len() <= usize::MAX,
            b.len() + 16 <= u64::MAX,
            mem.wf(),
            mem@ == replayed(done),
            records_from(b, 0) == done + records_from(b, offset as int),
            scan_end(b, 0) == scan_end(b, offset as int),
        decreases b.len() - offset,
    {
        match read_record(log_bytes, offset) {
            ReadOutcome::Valid(e) => {
                proof {
                    crate::format::lemma_read_encode(b, offset as int);
                }
                let sz = e.size();
                let ghost m = e@;
                mem.insert(e);
                proof {
                    let prev = done;
                    done = done.push(m);
                    assert(done.last() == m);
                    assert(done.drop_last() =~= prev);
                    assert(mem@ == replayed(done));
                    assert(locs_from(b, offset as int) == seq![
                        LocRec { off: offset as int, rec: record_at(b, offset as int) },
                    ] + locs_from(b, offset as int + rec_size_at(b, offset as int)));
                    assert(records_from(b, 0) =~= done + records_from(
                        b,
                        offset as int + rec_size_at(b, offset as int),
                    ));
                }
                offset = offset + sz as usize;
            },
            ReadOutcome::Torn => {
                proof {
                    assert(locs_from(b, offset as int) =~= Seq::<LocRec>::empty());
                    assert(records_from(b, offset as int) =~= Seq::<RecordModel>::empty());
                    assert(records_from(b, 0) =~= done);
                }
                return (mem, offset as u64);
            },
            ReadOutcome::End => {
                proof {
                    assert(!can_read_at(b, offset as int));
                    assert(locs_from(b, offset as int) =~= Seq::<LocRec>::empty());
                    assert(records_from(b, offset as int) =~= Seq::<RecordModel>::empty());
                    assert(records_from(b, 0) =~= done);
                }
                return (mem, offset as u64);
            },
        }
    }
}

} // verus!
