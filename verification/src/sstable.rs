//! Sorted runs: immutable files of data records in ascending key order.
//!
//! This module reads and scans the *bytes* of a run. A scan walks records
//! from offset zero and stops at the first torn record, so that a run with
//! a damaged tail still yields its good prefix; `scan_end` marks where the
//! good prefix ends, and a caller may truncate the file there.
use vstd::prelude::*;

use crate::format::DiskEntry;
use crate::format::ReadOutcome;
use crate::format::RecordModel;
use crate::format::can_read_at;
use crate::format::read_record;
use crate::format::rec_size_at;
use crate::format::record_at;
use crate::assoc::sorted_keys_flat;

verus! {

/// A record together with the offset it starts at.
pub struct LocRec {
    pub off: int,
    pub rec: RecordModel,
}

/// The records readable one after another from offset `o`, each tagged with
/// its offset; parsing stops at the first offset where no whole record with
/// a good checksum starts.
pub open spec fn locs_from(b: Seq<u8>, o: int) -> Seq<LocRec>
    decreases b.len() - o when o >= 0
{
    if can_read_at(b, o) && o + rec_size_at(b, o) > o {
        seq![LocRec { off: o, rec: record_at(b, o) }] + locs_from(b, o + rec_size_at(b, o))
    } else {
        Seq::empty()
    }
}

/// The offset where the scan starting at `o` stops.
pub open spec fn scan_end(b: Seq<u8>, o: int) -> int
    decreases b.len() - o when o >= 0
{
    if can_read_at(b, o) && o + rec_size_at(b, o) > o {
        scan_end(b, o + rec_size_at(b, o))
    } else {
        o
    }
}

/// The records of a scan, without their offsets.
pub open spec fn records_from(b: Seq<u8>, o: int) -> Seq<RecordModel> {
    locs_from(b, o).map_values(|l: LocRec| l.rec)
}

/// Appending bytes to a file disturbs no record already readable in it.
pub proof fn lemma_read_append(b: Seq<u8>, ext: Seq<u8>, o: int)
    requires
        can_read_at(b, o),
    ensures
        can_read_at(b + ext, o),
        record_at(b + ext, o) == record_at(b, o),
        rec_size_at(b + ext, o) == rec_size_at(b, o),
{
    let t = b + ext;
    assert(t.subrange(o + 8, o + 16) =~= b.subrange(o + 8, o + 16));
    assert(t.subrange(o + 16, o + 24) =~= b.subrange(o + 16, o + 24));
    assert(rec_size_at(t, o) == rec_size_at(b, o));
    let kk = crate::format::rec_key_len(b, o) as int;
    let vv = crate::format::rec_val_len(b, o) as int;
    assert(t.subrange(o, o + 4) =~= b.subrange(o, o + 4));
    assert(t.subrange(o + 4, o + 8) =~= b.subrange(o + 4, o + 8));
    assert(t.subrange(o + 24, o + 24 + kk) =~= b.subrange(o + 24, o + 24 + kk));
    assert(t.subrange(o + 24 + kk, o + 24 + kk + vv) =~= b.subrange(o + 24 + kk, o + 24 + kk + vv));
}

/// A sequence of records that tile the bytes from `o` to the end, each
/// readable where it stands, is exactly what a scan from `o` yields.
pub proof fn lemma_scan_of_tiling(b: Seq<u8>, o: int, locs: Seq<LocRec>)
    requires
        0 <= o <= b.len(),
        forall|i: int| 0 <= i < locs.len() ==> can_read_at(b, (#[trigger] locs[i]).off),
        forall|i: int| 0 <= i < locs.len() ==> (#[trigger] locs[i]).rec == record_at(b, locs[i].off),
        locs.len() > 0 ==> locs[0].off == o,
        forall|i: int| 0 <= i < locs.len() - 1 ==> (#[trigger] locs[i + 1]).off == locs[i].off
            + rec_size_at(b, locs[i].off),
        locs.len() > 0 ==> locs.last().off + rec_size_at(b, locs.last().off) == b.len(),
        locs.len() == 0 ==> o == b.len(),
        !can_read_at(b, b.len() as int),
    ensures
        locs_from(b, o) == locs,
        scan_end(b, o) == b.len(),
    decreases locs.len(),
{
    if locs.len() == 0 {
        assert(!can_read_at(b, o));
        assert(locs_from(b, o) =~= locs);
    } else {
        let first = locs[0];
        let rest = locs.skip(1);
        let o2 = o + rec_size_at(b, o);
        assert(can_read_at(b, o));
        assert(forall|i: int| 0 <= i < rest.len() ==> rest[i] == locs[i + 1]);
        if rest.len() > 0 {
            assert(rest[0].off == locs[1].off);
            assert(rest[0].off == o2);
            assert(rest.last() == locs.last());
        } else {
            assert(o2 == b.len());
        }
        assert forall|i: int| 0 <= i < rest.len() - 1 implies (#[trigger] rest[i + 1]).off
            == rest[i].off + rec_size_at(b, rest[i].off) by {
            assert(rest[i] == locs[i + 1]);
            assert(rest[i + 1] == locs[i + 2]);
        }
        lemma_scan_of_tiling(b, o2, rest);
        assert(locs_from(b, o) =~= locs);
    }
}

/// Every record a scan yields is readable where the scan says it stands.
pub proof fn lemma_locs_readable(b: Seq<u8>, o: int)
    requires
        o >= 0,
    ensures
        forall|i: int| 0 <= i < locs_from(b, o).len() ==> can_read_at(
            b,
            (#[trigger] locs_from(b, o)[i]).off,
        ) && locs_from(b, o)[i].rec == record_at(b, locs_from(b, o)[i].off) && 0 <= locs_from(
            b,
            o,
        )[i].off < b.len(),
    decreases b.len() - o,
{
    if can_read_at(b, o) && o + rec_size_at(b, o) > o {
        let o2 = o + rec_size_at(b, o);
        lemma_locs_readable(b, o2);
        let l = locs_from(b, o);
        assert forall|i: int| 0 <= i < l.len() implies can_read_at(b, (#[trigger] l[i]).off)
            && l[i].rec == record_at(b, l[i].off) && 0 <= l[i].off < b.len() by {
            if i > 0 {
                assert(l[i] == locs_from(b, o2)[i - 1]);
            }
        }
    }
}

/// Read the record at `offset` in a run's bytes; absent past the end or on
/// a torn record. An empty value is still returned: the caller decides what
/// a tombstone means to it.
pub fn read_at(bytes: &Vec<u8>, offset: usize) -> (r: Option<DiskEntry>)
    ensures
        r is Some <==> can_read_at(bytes@, offset as int) && offset < bytes@.len(),
        r matches Some(e) ==> e@ == record_at(bytes@, offset as int),
{
    match read_record(bytes, offset) {
        ReadOutcome::Valid(e) => Some(e),
        ReadOutcome::Torn => None,
        ReadOutcome::End => None,
    }
}

/// Scan a run's bytes from the start: every readable record with its
/// offset, and the offset where the good prefix ends.
pub fn scan_run(bytes: &Vec<u8>) -> (r: (Vec<(u64, DiskEntry)>, u64))
    requires
        bytes@.len() + 16 <= u64::MAX,
    ensures
        r.0@.len() == locs_from(bytes@, 0).len(),
        forall|i: int| 0 <= i < r.0@.len() ==> (#[trigger] r.0@[i]).0 == locs_from(bytes@, 0)[i].off
            && r.0@[i].1@ == locs_from(bytes@, 0)[i].rec,
        r.1 == scan_end(bytes@, 0),
        r.1 <= bytes@.len(),
{
    let mut out: Vec<(u64, DiskEntry)> = Vec::new();
    let mut offset: usize = 0;
    let n = bytes.len();
    let ghost b = bytes@;
    proof {
        assert(b.len() == n);
    }
    loop
        invariant
            0 <= offset <= b.len(),
            b == bytes@,
            b.len() <= usize::MAX,
            b.len() + 16 <= u64::MAX,
            locs_from(b, 0) == out@.map_values(
                |p: (u64, DiskEntry)| LocRec { off: p.0 as int, rec: p.1@ },
            ) + locs_from(b, offset as int),
            scan_end(b, 0) == scan_end(b, offset as int),
        decreases b.len() - offset,
    {
        match read_record(bytes, offset) {
            ReadOutcome::Valid(e) => {
                proof {
                    crate::format::lemma_read_encode(b, offset as int);
                }
                let sz = e.size();
                let ghost prev = out@;
                out.push(((offset as u64), e));
                proof {
                    assert(out@.map_values(
                        |p: (u64, DiskEntry)| LocRec { off: p.0 as int, rec: p.1@ },
                    ) =~= prev.map_values(
                        |p: (u64, DiskEntry)| LocRec { off: p.0 as int, rec: p.1@ },
                    ) + seq![LocRec { off: offset as int, rec: e@ }]);
                    assert(locs_from(b, offset as int) == seq![
                        LocRec { off: offset as int, rec: record_at(b, offset as int) },
                    ] + locs_from(b, offset as int + rec_size_at(b, offset as int)));
                    assert(locs_from(b, 0) =~= out@.map_values(
                        |p: (u64, DiskEntry)| LocRec { off: p.0 as int, rec: p.1@ },
                    ) + locs_from(b, offset as int + rec_size_at(b, offset as int)));
                }
                offset = offset + sz as usize;
            },
            ReadOutcome::Torn => {
                proof {
                    assert(locs_from(b, offset as int) =~= Seq::<LocRec>::empty());
                    assert(locs_from(b, 0) =~= out@.map_values(
                        |p: (u64, DiskEntry)| LocRec { off: p.0 as int, rec: p.1@ },
                    ));
                }
                return (out, offset as u64);
            },
            ReadOutcome::End => {
                proof {
                    assert(!can_read_at(b, offset as int));
                    assert(locs_from(b, offset as int) =~= Seq::<LocRec>::empty());
                    assert(locs_from(b, 0) =~= out@.map_values(
                        |p: (u64, DiskEntry)| LocRec { off: p.0 as int, rec: p.1@ },
                    ));
                }
                return (out, offset as u64);
            },
        }
    }
}

/// The key-value pairs a run holds, as a map read back from the file:
/// ascending by key, one pair per key, a later record for the same key
/// overwriting an earlier one.
pub fn read_sstable(bytes: &Vec<u8>) -> (r: Vec<(Vec<u8>, Vec<u8>)>)
    requires
        bytes@.len() + 16 <= u64::MAX,
    ensures
        sorted_keys_flat(r@.map_values(|p: (Vec<u8>, Vec<u8>)| p.0@)),
        forall|i: int| 0 <= i < r@.len() ==> crate::wal::replayed(
            records_from(bytes@, 0),
        ).contains_key((#[trigger] r@[i]).0@) && crate::wal::replayed(records_from(bytes@, 0))[
            r@[i].0@
        ].value == r@[i].1@,
        forall|k: Seq<u8>|
            #[trigger] crate::wal::replayed(records_from(bytes@, 0)).contains_key(k)
                ==> exists|i: int| 0 <= i < r@.len() && (#[trigger] r@[i]).0@ == k,
{
    let (mem, _end) = crate::wal::build_memtable(bytes);
    proof {
        crate::assoc::lemma_sorted_distinct(mem.model_seq(), crate::memtable::rec_kf());
    }
    let n = mem.len();
    let mut out: Vec<(Vec<u8>, Vec<u8>)> = Vec::new();
    let mut i: usize = 0;
    while i < n
        invariant
            0 <= i <= n,
            n == mem.model_seq().len(),
            mem.wf(),
            mem@ == crate::wal::replayed(records_from(bytes@, 0)),
            crate::assoc::distinct_keys(mem.model_seq(), crate::memtable::rec_kf()),
            out@.len() == i,
            forall|j: int| 0 <= j < i ==> (#[trigger] out@[j]).0@ == mem.model_seq()[j].key
                && out@[j].1@ == mem.model_seq()[j].value,
        decreases n - i,
    {
        let e = mem.entry_at(i);
        let key = crate::bytes_util::clone_bytes(&e.key);
        let value = crate::bytes_util::clone_bytes(&e.value);
        out.push((key, value));
        i = i + 1;
    }
    proof {
        let ms = mem.model_seq();
        let kf = crate::memtable::rec_kf();
        assert forall|a: int, b: int|
            0 <= a < b < out@.len() implies crate::order::lex_lt(
            (#[trigger] out@[a]).0@,
            (#[trigger] out@[b]).0@,
        ) by {
            assert(kf(ms[a]) == ms[a].key);
            assert(kf(ms[b]) == ms[b].key);
        }
        assert(sorted_keys_flat(out@.map_values(|p: (Vec<u8>, Vec<u8>)| p.0@)));
        assert forall|j: int| 0 <= j < out@.len() implies mem@.contains_key(
            (#[trigger] out@[j]).0@,
        ) && mem@[out@[j].0@].value == out@[j].1@ by {
            crate::assoc::lemma_find_present(ms, kf, j);
        }
        assert forall|k: Seq<u8>| #[trigger] mem@.contains_key(k) implies exists|j: int|
            0 <= j < out@.len() && (#[trigger] out@[j]).0@ == k by {
            crate::assoc::lemma_find_sound(ms, kf, k);
            let j = choose|j: int|
                0 <= j < ms.len() && ms[j] == crate::assoc::seq_find(ms, kf, k)->0 && kf(
                    crate::assoc::seq_find(ms, kf, k)->0,
                ) == k;
            assert(out@[j].0@ == k);
        }
    }
    out
}

} // verus!
