//! On-disk record formats.
//!
//! Two record kinds, both little-endian:
//!
//! data record: checksum(4) | timestamp(4) | key_sz(8) | value_sz(8) | key | value
//! hint record: checksum(4) | timestamp(4) | key_sz(8) | value_sz(8) | offset(8) | size(8) | key
//!
//! An empty value marks a tombstone. A read that fails its checksum, or runs
//! past the end of the bytes, is reported as a torn record; the codec never
//! panics on bad data.
use vstd::prelude::*;

use vstd::bytes::lemma_auto_spec_u32_to_from_le_bytes;
use vstd::bytes::lemma_auto_spec_u64_to_from_le_bytes;
use vstd::bytes::spec_u32_from_le_bytes;
use vstd::bytes::spec_u32_to_le_bytes;
use vstd::bytes::spec_u64_from_le_bytes;
use vstd::bytes::spec_u64_to_le_bytes;
use vstd::bytes::u32_from_le_bytes;
use vstd::bytes::u32_to_le_bytes;
use vstd::bytes::u64_from_le_bytes;
use vstd::bytes::u64_to_le_bytes;
use vstd::slice::slice_subrange;
use vstd::slice::slice_to_vec;

use crate::crc::hash;
use crate::crc::hint_hash;
use crate::crc::spec_checksum;
use crate::crc::spec_hint_checksum;

verus! {

/// A data record: a key, a value (empty = tombstone) and a logical write time.
pub struct DiskEntry {
    pub key: Vec<u8>,
    pub value: Vec<u8>,
    pub timestamp: u32,
}

/// The mathematical content of a data record.
pub struct RecordModel {
    pub key: Seq<u8>,
    pub value: Seq<u8>,
    pub timestamp: u32,
}

impl View for DiskEntry {
    type V = RecordModel;

    open spec fn view(&self) -> RecordModel {
        RecordModel { key: self.key@, value: self.value@, timestamp: self.timestamp }
    }
}

impl RecordModel {
    /// The record — and the hint record that points at it, whose header is
    /// 40 bytes — fit the on-disk size fields.
    pub open spec fn wf(self) -> bool {
        self.key.len() + self.value.len() + 40 <= u64::MAX
    }

    /// Total encoded size: 24-byte header plus key and value bytes.
    pub open spec fn size(self) -> int {
        24 + self.key.len() as int + self.value.len() as int
    }

    /// A record with an empty value deletes its key.
    pub open spec fn is_tombstone(self) -> bool {
        self.value.len() == 0
    }
}

impl DiskEntry {
    /// Encoded size of this record in bytes.
    pub fn size(&self) -> (r: u64)
        requires
            self@.wf(),
        ensures
            r == self@.size(),
    {
        24 + self.key.len() as u64 + self.value.len() as u64
    }
}

/// The encoding of a data record.
pub open spec fn spec_encode_record(m: RecordModel) -> Seq<u8> {
    spec_u32_to_le_bytes(spec_checksum(m.key, m.value)) + spec_u32_to_le_bytes(m.timestamp)
        + spec_u64_to_le_bytes(m.key.len() as u64) + spec_u64_to_le_bytes(m.value.len() as u64)
        + m.key + m.value
}

/// The declared key length of the record starting at `o`.
pub open spec fn rec_key_len(b: Seq<u8>, o: int) -> u64 {
    spec_u64_from_le_bytes(b.subrange(o + 8, o + 16))
}

/// The declared value length of the record starting at `o`.
pub open spec fn rec_val_len(b: Seq<u8>, o: int) -> u64 {
    spec_u64_from_le_bytes(b.subrange(o + 16, o + 24))
}

/// The total size of the record starting at `o`, per its header.
pub open spec fn rec_size_at(b: Seq<u8>, o: int) -> int {
    24 + rec_key_len(b, o) + rec_val_len(b, o)
}

/// A whole data record, with a matching checksum, starts at offset `o`.
pub open spec fn can_read_at(b: Seq<u8>, o: int) -> bool {
    let k = rec_key_len(b, o) as int;
    let v = rec_val_len(b, o) as int;
    &&& 0 <= o
    &&& o + 24 <= b.len()
    &&& o + 24 + k + v <= b.len()
    &&& spec_u32_from_le_bytes(b.subrange(o, o + 4)) == spec_checksum(
        b.subrange(o + 24, o + 24 + k),
        b.subrange(o + 24 + k, o + 24 + k + v),
    )
}

/// The record starting at offset `o`.
pub open spec fn record_at(b: Seq<u8>, o: int) -> RecordModel {
    let k = rec_key_len(b, o) as int;
    let v = rec_val_len(b, o) as int;
    RecordModel {
        key: b.subrange(o + 24, o + 24 + k),
        value: b.subrange(o + 24 + k, o + 24 + k + v),
        timestamp: spec_u32_from_le_bytes(b.subrange(o + 4, o + 8)),
    }
}

/// What a read at an offset yields: a whole record, a torn record (short or
/// failing its checksum), or the end of the bytes.
pub enum ReadOutcome {
    Valid(DiskEntry),
    Torn,
    End,
}

/// Append the encoding of `entry` to `sink`; the returned offset is where
/// the record begins.
pub fn write_record(sink: &mut Vec<u8>, entry: &DiskEntry) -> (offset: usize)
    requires
        entry@.wf(),
    ensures
        final(sink)@ == old(sink)@ + spec_encode_record(entry@),
        offset == old(sink)@.len(),
        final(sink)@.len() == old(sink)@.len() + entry@.size(),
{
    let offset = sink.len();
    let cs = hash(&entry.key, &entry.value);
    let mut b = u32_to_le_bytes(cs);
    sink.append(&mut b);
    let mut b = u32_to_le_bytes(entry.timestamp);
    sink.append(&mut b);
    let mut b = u64_to_le_bytes(entry.key.len() as u64);
    sink.append(&mut b);
    let mut b = u64_to_le_bytes(entry.value.len() as u64);
    sink.append(&mut b);
    sink.extend_from_slice(entry.key.as_slice());
    sink.extend_from_slice(entry.value.as_slice());
    proof {
        lemma_auto_spec_u32_to_from_le_bytes();
        lemma_auto_spec_u64_to_from_le_bytes();
        assert(sink@ =~= old(sink)@ + spec_encode_record(entry@));
    }
    offset
}

/// Decode the data record starting at `offset`, if any.
pub fn read_record(source: &Vec<u8>, offset: usize) -> (r: ReadOutcome)
    ensures
        r is End <==> offset >= source@.len(),
        r is Valid <==> offset < source@.len() && can_read_at(source@, offset as int),
        r matches ReadOutcome::Valid(e) ==> e@ == record_at(source@, offset as int),
{
    let n = source.len();
    if offset >= n {
        return ReadOutcome::End;
    }
    if n - offset < 24 {
        return ReadOutcome::Torn;
    }
    proof {
        lemma_auto_spec_u32_to_from_le_bytes();
        lemma_auto_spec_u64_to_from_le_bytes();
    }
    let cs = u32_from_le_bytes(slice_subrange(source.as_slice(), offset, offset + 4));
    let ts = u32_from_le_bytes(slice_subrange(source.as_slice(), offset + 4, offset + 8));
    let ksz = u64_from_le_bytes(slice_subrange(source.as_slice(), offset + 8, offset + 16));
    let vsz = u64_from_le_bytes(slice_subrange(source.as_slice(), offset + 16, offset + 24));
    let rem = (n - offset - 24) as u64;
    if ksz > rem || vsz > rem - ksz {
        return ReadOutcome::Torn;
    }
    let kstart = offset + 24;
    let kend = kstart + ksz as usize;
    let vend = kend + vsz as usize;
    let key = slice_to_vec(slice_subrange(source.as_slice(), kstart, kend));
    let value = slice_to_vec(slice_subrange(source.as_slice(), kend, vend));
    let expected = hash(&key, &value);
    if expected != cs {
        return ReadOutcome::Torn;
    }
    ReadOutcome::Valid(DiskEntry { key, value, timestamp: ts })
}

/// Law: a record stored whole is read back whole. Wherever the bytes hold
/// exactly the encoding of a record, a read at that offset succeeds — its
/// stored checksum equals the checksum recomputed from the decoded key and
/// value — and yields the record unchanged.
pub proof fn lemma_encode_read(b: Seq<u8>, o: int, m: RecordModel)
    requires
        m.wf(),
        0 <= o,
        o + m.size() <= b.len(),
        b.subrange(o, o + m.size()) == spec_encode_record(m),
    ensures
        can_read_at(b, o),
        record_at(b, o) == m,
        rec_size_at(b, o) == m.size(),
{
    lemma_auto_spec_u32_to_from_le_bytes();
    lemma_auto_spec_u64_to_from_le_bytes();
    let e = spec_encode_record(m);
    assert(b.subrange(o + 8, o + 16) =~= spec_u64_to_le_bytes(m.key.len() as u64)) by {
        assert forall|i: int| 0 <= i < 8 implies #[trigger] b.subrange(o + 8, o + 16)[i] == spec_u64_to_le_bytes(
            m.key.len() as u64,
        )[i] by {
            assert(b.subrange(o + 8, o + 16)[i] == e[8 + i]);
        }
    }
    assert(rec_key_len(b, o) == m.key.len());
    assert(b.subrange(o + 16, o + 24) =~= spec_u64_to_le_bytes(m.value.len() as u64)) by {
        assert forall|i: int| 0 <= i < 8 implies #[trigger] b.subrange(o + 16, o + 24)[i]
            == spec_u64_to_le_bytes(m.value.len() as u64)[i] by {
            assert(b.subrange(o + 16, o + 24)[i] == e[16 + i]);
        }
    }
    assert(rec_val_len(b, o) == m.value.len());
    let k = m.key.len() as int;
    let v = m.value.len() as int;
    assert(b.subrange(o + 24, o + 24 + k) =~= m.key) by {
        assert forall|i: int| 0 <= i < k implies #[trigger] b.subrange(o + 24, o + 24 + k)[i] == m.key[i] by {
            assert(b.subrange(o + 24, o + 24 + k)[i] == e[24 + i]);
        }
    }
    assert(b.subrange(o + 24 + k, o + 24 + k + v) =~= m.value) by {
        assert forall|i: int| 0 <= i < v implies #[trigger] b.subrange(o + 24 + k, o + 24 + k + v)[i]
            == m.value[i] by {
            assert(b.subrange(o + 24 + k, o + 24 + k + v)[i] == e[24 + k + i]);
        }
    }
    assert(b.subrange(o, o + 4) =~= spec_u32_to_le_bytes(spec_checksum(m.key, m.value))) by {
        assert forall|i: int| 0 <= i < 4 implies #[trigger] b.subrange(o, o + 4)[i] == spec_u32_to_le_bytes(
            spec_checksum(m.key, m.value),
        )[i] by {
            assert(b.subrange(o, o + 4)[i] == e[i]);
        }
    }
    assert(b.subrange(o + 4, o + 8) =~= spec_u32_to_le_bytes(m.timestamp)) by {
        assert forall|i: int| 0 <= i < 4 implies #[trigger] b.subrange(o + 4, o + 8)[i] == spec_u32_to_le_bytes(
            m.timestamp,
        )[i] by {
            assert(b.subrange(o + 4, o + 8)[i] == e[4 + i]);
        }
    }
}

/// A readable record occupies exactly the encoding of what it decodes to.
pub proof fn lemma_read_encode(b: Seq<u8>, o: int)
    requires
        can_read_at(b, o),
        b.len() + 16 <= u64::MAX,
    ensures
        record_at(b, o).wf(),
        record_at(b, o).size() == rec_size_at(b, o),
        b.subrange(o, o + rec_size_at(b, o)) == spec_encode_record(record_at(b, o)),
{
    lemma_auto_spec_u32_to_from_le_bytes();
    lemma_auto_spec_u64_to_from_le_bytes();
    let m = record_at(b, o);
    let k = rec_key_len(b, o) as int;
    let v = rec_val_len(b, o) as int;
    assert(m.key.len() == k);
    assert(m.value.len() == v);
    assert(spec_u32_to_le_bytes(spec_checksum(m.key, m.value)) == b.subrange(o, o + 4));
    assert(spec_u32_to_le_bytes(m.timestamp) == b.subrange(o + 4, o + 8));
    assert(m.key.len() as u64 == rec_key_len(b, o));
    assert(spec_u64_to_le_bytes(m.key.len() as u64) == b.subrange(o + 8, o + 16));
    assert(spec_u64_to_le_bytes(m.value.len() as u64) == b.subrange(o + 16, o + 24));
    assert(b.subrange(o, o + rec_size_at(b, o)) =~= spec_encode_record(m));
}

/// A hint record: where the data record for a key lives in the sibling
/// sorted run.
pub struct HintEntry {
    pub key: Vec<u8>,
    pub value_sz: u64,
    pub offset: u64,
    pub size: u64,
    pub timestamp: u32,
}

/// The mathematical content of a hint record.
pub struct HintModel {
    pub key: Seq<u8>,
    pub value_sz: u64,
    pub offset: u64,
    pub size: u64,
    pub timestamp: u32,
}

impl View for HintEntry {
    type V = HintModel;

    open spec fn view(&self) -> HintModel {
        HintModel {
            key: self.key@,
            value_sz: self.value_sz,
            offset: self.offset,
            size: self.size,
            timestamp: self.timestamp,
        }
    }
}

impl HintModel {
    /// The hint and its 40-byte header fit the on-disk size fields.
    pub open spec fn wf(self) -> bool {
        self.key.len() + 40 <= u64::MAX
    }

    /// Total encoded size: 40-byte header plus key bytes.
    pub open spec fn size(self) -> int {
        40 + self.key.len() as int
    }

    /// A hint for a tombstone: the pointed-at record has an empty value.
    pub open spec fn is_tombstone(self) -> bool {
        self.value_sz == 0
    }
}

/// The encoding of a hint record.
pub open spec fn spec_encode_hint(m: HintModel) -> Seq<u8> {
    spec_u32_to_le_bytes(spec_hint_checksum(m.key)) + spec_u32_to_le_bytes(m.timestamp)
        + spec_u64_to_le_bytes(m.key.len() as u64) + spec_u64_to_le_bytes(m.value_sz)
        + spec_u64_to_le_bytes(m.offset) + spec_u64_to_le_bytes(m.size) + m.key
}

/// The declared key length of the hint starting at `o`.
pub open spec fn hint_key_len(b: Seq<u8>, o: int) -> u64 {
    spec_u64_from_le_bytes(b.subrange(o + 8, o + 16))
}

/// The total size of the hint starting at `o`, per its header.
pub open spec fn hint_size_at(b: Seq<u8>, o: int) -> int {
    40 + hint_key_len(b, o)
}

/// A whole hint record, with a matching checksum, starts at offset `o`.
pub open spec fn can_read_hint_at(b: Seq<u8>, o: int) -> bool {
    let k = hint_key_len(b, o) as int;
    &&& 0 <= o
    &&& o + 40 <= b.len()
    &&& o + 40 + k <= b.len()
    &&& spec_u32_from_le_bytes(b.subrange(o, o + 4)) == spec_hint_checksum(
        b.subrange(o + 40, o + 40 + k),
    )
}

/// The hint record starting at offset `o`.
pub open spec fn hint_at(b: Seq<u8>, o: int) -> HintModel {
    let k = hint_key_len(b, o) as int;
    HintModel {
        key: b.subrange(o + 40, o + 40 + k),
        value_sz: spec_u64_from_le_bytes(b.subrange(o + 16, o + 24)),
        offset: spec_u64_from_le_bytes(b.subrange(o + 24, o + 32)),
        size: spec_u64_from_le_bytes(b.subrange(o + 32, o + 40)),
        timestamp: spec_u32_from_le_bytes(b.subrange(o + 4, o + 8)),
    }
}

/// What a read of a hint at an offset yields.
pub enum HintReadOutcome {
    Valid(HintEntry),
    Torn,
    End,
}

/// Append the encoding of `entry` to `sink`; the returned offset is where
/// the hint begins.
pub fn write_hint(sink: &mut Vec<u8>, entry: &HintEntry) -> (offset: usize)
    requires
        entry@.wf(),
    ensures
        final(sink)@ == old(sink)@ + spec_encode_hint(entry@),
        offset == old(sink)@.len(),
        final(sink)@.len() == old(sink)@.len() + entry@.size(),
{
    let offset = sink.len();
    let cs = hint_hash(&entry.key);
    let mut b = u32_to_le_bytes(cs);
    sink.append(&mut b);
    let mut b = u32_to_le_bytes(entry.timestamp);
    sink.append(&mut b);
    let mut b = u64_to_le_bytes(entry.key.len() as u64);
    sink.append(&mut b);
    let mut b = u64_to_le_bytes(entry.value_sz);
    sink.append(&mut b);
    let mut b = u64_to_le_bytes(entry.offset);
    sink.append(&mut b);
    let mut b = u64_to_le_bytes(entry.size);
    sink.append(&mut b);
    sink.extend_from_slice(entry.key.as_slice());
    proof {
        lemma_auto_spec_u32_to_from_le_bytes();
        lemma_auto_spec_u64_to_from_le_bytes();
        assert(sink@ =~= old(sink)@ + spec_encode_hint(entry@));
    }
    offset
}

/// Decode the hint record starting at `offset`, if any.
pub fn read_hint(source: &Vec<u8>, offset: usize) -> (r: HintReadOutcome)
    ensures
        r is End <==> offset >= source@.len(),
        r is Valid <==> offset < source@.len() && can_read_hint_at(source@, offset as int),
        r matches HintReadOutcome::Valid(e) ==> e@ == hint_at(source@, offset as int),
{
    let n = source.len();
    if offset >= n {
        return HintReadOutcome::End;
    }
    if n - offset < 40 {
        return HintReadOutcome::Torn;
    }
    proof {
        lemma_auto_spec_u32_to_from_le_bytes();
        lemma_auto_spec_u64_to_from_le_bytes();
    }
    let cs = u32_from_le_bytes(slice_subrange(source.as_slice(), offset, offset + 4));
    let ts = u32_from_le_bytes(slice_subrange(source.as_slice(), offset + 4, offset + 8));
    let ksz = u64_from_le_bytes(slice_subrange(source.as_slice(), offset + 8, offset + 16));
    let vsz = u64_from_le_bytes(slice_subrange(source.as_slice(), offset + 16, offset + 24));
    let off = u64_from_le_bytes(slice_subrange(source.as_slice(), offset + 24, offset + 32));
    let sz = u64_from_le_bytes(slice_subrange(source.as_slice(), offset + 32, offset + 40));
    let rem = (n - offset - 40) as u64;
    if ksz > rem {
        return HintReadOutcome::Torn;
    }
    let kstart = offset + 40;
    let kend = kstart + ksz as usize;
    let key = slice_to_vec(slice_subrange(source.as_slice(), kstart, kend));
    let expected = hint_hash(&key);
    if expected != cs {
        return HintReadOutcome::Torn;
    }
    HintReadOutcome::Valid(HintEntry { key, value_sz: vsz, offset: off, size: sz, timestamp: ts })
}

/// A stored hint is read back whole and unchanged.
pub proof fn lemma_encode_read_hint(b: Seq<u8>, o: int, m: HintModel)
    requires
        m.wf(),
        0 <= o,
        o + m.size() <= b.len(),
        b.subrange(o, o + m.size()) == spec_encode_hint(m),
    ensures
        can_read_hint_at(b, o),
        hint_at(b, o) == m,
        hint_size_at(b, o) == m.size(),
{
    lemma_auto_spec_u32_to_from_le_bytes();
    lemma_auto_spec_u64_to_from_le_bytes();
    let e = spec_encode_hint(m);
    assert(b.subrange(o + 8, o + 16) =~= spec_u64_to_le_bytes(m.key.len() as u64)) by {
        assert forall|i: int| 0 <= i < 8 implies #[trigger] b.subrange(o + 8, o + 16)[i] == spec_u64_to_le_bytes(
            m.key.len() as u64,
        )[i] by {
            assert(b.subrange(o + 8, o + 16)[i] == e[8 + i]);
        }
    }
    assert(hint_key_len(b, o) == m.key.len());
    let k = m.key.len() as int;
    assert(b.subrange(o + 40, o + 40 + k) =~= m.key) by {
        assert forall|i: int| 0 <= i < k implies #[trigger] b.subrange(o + 40, o + 40 + k)[i] == m.key[i] by {
            assert(b.subrange(o + 40, o + 40 + k)[i] == e[40 + i]);
        }
    }
    assert(b.subrange(o, o + 4) =~= spec_u32_to_le_bytes(spec_hint_checksum(m.key))) by {
        assert forall|i: int| 0 <= i < 4 implies #[trigger] b.subrange(o, o + 4)[i] == spec_u32_to_le_bytes(
            spec_hint_checksum(m.key),
        )[i] by {
            assert(b.subrange(o, o + 4)[i] == e[i]);
        }
    }
    assert(b.subrange(o + 4, o + 8) =~= spec_u32_to_le_bytes(m.timestamp)) by {
        assert forall|i: int| 0 <= i < 4 implies #[trigger] b.subrange(o + 4, o + 8)[i] == spec_u32_to_le_bytes(
            m.timestamp,
        )[i] by {
            assert(b.subrange(o + 4, o + 8)[i] == e[4 + i]);
        }
    }
    assert(b.subrange(o + 16, o + 24) =~= spec_u64_to_le_bytes(m.value_sz)) by {
        assert forall|i: int| 0 <= i < 8 implies #[trigger] b.subrange(o + 16, o + 24)[i]
            == spec_u64_to_le_bytes(m.value_sz)[i] by {
            assert(b.subrange(o + 16, o + 24)[i] == e[16 + i]);
        }
    }
    assert(b.subrange(o + 24, o + 32) =~= spec_u64_to_le_bytes(m.offset)) by {
        assert forall|i: int| 0 <= i < 8 implies #[trigger] b.subrange(o + 24, o + 32)[i]
            == spec_u64_to_le_bytes(m.offset)[i] by {
            assert(b.subrange(o + 24, o + 32)[i] == e[24 + i]);
        }
    }
    assert(b.subrange(o + 32, o + 40) =~= spec_u64_to_le_bytes(m.size)) by {
        assert forall|i: int| 0 <= i < 8 implies #[trigger] b.subrange(o + 32, o + 40)[i]
            == spec_u64_to_le_bytes(m.size)[i] by {
            assert(b.subrange(o + 32, o + 40)[i] == e[32 + i]);
        }
    }
}

} // verus!
