//! Record checksums.
//!
//! Every on-disk record carries a CRC-32 over its key and value, XORed with
//! 0xFF so that a region of all-zero bytes (a fresh file hole) cannot pass
//! for a valid empty record.
use vstd::prelude::*;

verus! {

/// The CRC-32 (IEEE polynomial) of a byte sequence. Left uninterpreted:
/// the checksum is computed by an outside crate and never restated here;
/// what matters to the store is that equal bytes give equal checksums.
pub uninterp spec fn crc32_of(data: Seq<u8>) -> u32;

/// Relies on crc32fast::hash: computes the CRC-32 (IEEE) of the byte
/// slice, a function of the bytes alone.
#[verifier::external_body]
fn crc32(data: &[u8]) -> (r: u32)
    ensures
        r == crc32_of(data@),
{
    crc32fast::hash(data)
}

/// The checksum stored in a data record: CRC-32 of key then value, with the
/// low byte flipped.
pub open spec fn spec_checksum(key: Seq<u8>, value: Seq<u8>) -> u32 {
    crc32_of(key + value) ^ 0xFF
}

/// The checksum stored in a hint record, over the key alone.
pub open spec fn spec_hint_checksum(key: Seq<u8>) -> u32 {
    crc32_of(key) ^ 0xFF
}

/// Checksum of a key-value pair as stored in a data record.
pub fn hash(k: &Vec<u8>, v: &Vec<u8>) -> (r: u32)
    ensures
        r == spec_checksum(k@, v@),
{
    let mut data: Vec<u8> = Vec::new();
    data.extend_from_slice(k.as_slice());
    data.extend_from_slice(v.as_slice());
    proof {
        assert(data@ =~= k@ + v@);
    }
    crc32(data.as_slice()) ^ 0xFF
}

/// Checksum of a key as stored in a hint record.
pub fn hint_hash(k: &Vec<u8>) -> (r: u32)
    ensures
        r == spec_hint_checksum(k@),
{
    crc32(k.as_slice()) ^ 0xFF
}

} // verus!
