//! Hint files: one hint record per data record of the sibling sorted run,
//! in the same order. A hint lets open rebuild the key directory without
//! decoding the run itself.
use vstd::prelude::*;

use crate::format::HintEntry;
use crate::format::HintModel;
use crate::format::HintReadOutcome;
use crate::format::can_read_hint_at;
use crate::format::hint_at;
use crate::format::hint_size_at;
use crate::format::read_hint;

verus! {

/// The hint records readable one after another from offset `o`; parsing
/// stops at the first offset where no whole hint with a good checksum
/// starts.
pub open spec fn hints_from(b: Seq<u8>, o: int) -> Seq<HintModel>
    decreases b.len() - o when o >= 0
{
    if can_read_hint_at(b, o) && o + hint_size_at(b, o) > o {
        seq![hint_at(b, o)] + hints_from(b, o + hint_size_at(b, o))
    } else {
        Seq::empty()
    }
}

/// The offset where a hint scan starting at `o` stops.
pub open spec fn hint_scan_end(b: Seq<u8>, o: int) -> int
    decreases b.len() - o when o >= 0
{
    if can_read_hint_at(b, o) && o + hint_size_at(b, o) > o {
        hint_scan_end(b, o + hint_size_at(b, o))
    } else {
        o
    }
}

/// Appending bytes to a hint file disturbs no hint already readable in it.
pub proof fn lemma_hint_read_append(b: Seq<u8>, ext: Seq<u8>, o: int)
    requires
        can_read_hint_at(b, o),
    ensures
        can_read_hint_at(b + ext, o),
        hint_at(b + ext, o) == hint_at(b, o),
        hint_size_at(b + ext, o) == hint_size_at(b, o),
{
    let t = b + ext;
    assert(t.subrange(o + 8, o + 16) =~= b.subrange(o + 8, o + 16));
    let hk = crate::format::hint_key_len(b, o) as int;
    assert(t.subrange(o, o + 4) =~= b.subrange(o, o + 4));
    assert(t.subrange(o + 4, o + 8) =~= b.subrange(o + 4, o + 8));
    assert(t.subrange(o + 16, o + 24) =~= b.subrange(o + 16, o + 24));
    assert(t.subrange(o + 24, o + 32) =~= b.subrange(o + 24, o + 32));
    assert(t.subrange(o + 32, o + 40) =~= b.subrange(o + 32, o + 40));
    assert(t.subrange(o + 40, o + 40 + hk) =~= b.subrange(o + 40, o + 40 + hk));
}

/// Hints that tile the bytes from `o` to the end, each readable where it
/// stands, are exactly what a scan from `o` yields.
pub proof fn lemma_hint_scan_of_tiling(b: Seq<u8>, o: int, offs: Seq<int>, hs: Seq<HintModel>)
    requires
        0 <= o <= b.len(),
        offs.len() == hs.len(),
        forall|i: int| 0 <= i < offs.len() ==> can_read_hint_at(b, #[trigger] offs[i]),
        forall|i: int| 0 <= i < offs.len() ==> hs[i] == hint_at(b, #[trigger] offs[i]),
        offs.len() > 0 ==> offs[0] == o,
        forall|i: int| 0 <= i < offs.len() - 1 ==> #[trigger] offs[i + 1] == offs[i]
            + hint_size_at(b, offs[i]),
        offs.len() > 0 ==> offs.last() + hint_size_at(b, offs.last()) == b.len(),
        offs.len() == 0 ==> o == b.len(),
    ensures
        hints_from(b, o) == hs,
        hint_scan_end(b, o) == b.len(),
    decreases offs.len(),
{
    if offs.len() == 0 {
        assert(!can_read_hint_at(b, o));
        assert(hints_from(b, o) =~= hs);
    } else {
        let o2 = o + hint_size_at(b, o);
        let roffs = offs.skip(1);
        let rhs = hs.skip(1);
        assert(can_read_hint_at(b, o));
        assert(forall|i: int| 0 <= i < roffs.len() ==> roffs[i] == offs[i + 1]);
        assert(forall|i: int| 0 <= i < rhs.len() ==> rhs[i] == hs[i + 1]);
        if roffs.len() > 0 {
            assert(roffs[0] == offs[1]);
            assert(roffs[0] == o2);
            assert(roffs.last() == offs.last());
        } else {
            assert(o2 == b.len());
        }
        assert forall|i: int| 0 <= i < roffs.len() - 1 implies #[trigger] roffs[i + 1] == roffs[i]
            + hint_size_at(b, roffs[i]) by {
            assert(roffs[i] == offs[i + 1]);
            assert(roffs[i + 1] == offs[i + 2]);
        }
        assert forall|i: int| 0 <= i < roffs.len() implies can_read_hint_at(
            b,
            #[trigger] roffs[i],
        ) by {
            assert(roffs[i] == offs[i + 1]);
        }
        assert forall|i: int| 0 <= i < roffs.len() implies rhs[i] == hint_at(
            b,
            #[trigger] roffs[i],
        ) by {
            assert(roffs[i] == offs[i + 1]);
            assert(rhs[i] == hs[i + 1]);
        }
        lemma_hint_scan_of_tiling(b, o2, roffs, rhs);
        assert(hints_from(b, o) =~= hs);
    }
}

/// Scan a hint file's bytes from the start: every readable hint, and the
/// offset where the good prefix ends.
pub fn scan_hints(bytes: &Vec<u8>) -> (r: (Vec<HintEntry>, u64))
    ensures
        r.0@.map_values(|h: HintEntry| h@) == hints_from(bytes@, 0),
        r.1 == hint_scan_end(bytes@, 0),
        r.1 <= bytes@.len(),
{
    let mut out: Vec<HintEntry> = Vec::new();
    let mut offset: usize = 0;
    let n = bytes.len();
    let ghost b = bytes@;
    proof {
        assert(b.len() == n);
        assert(hints_from(b, 0) =~= out@.map_values(|h: HintEntry| h@) + hints_from(b, 0));
    }
    loop
        invariant
            0 <= offset <= b.len(),
            b == bytes@,
            b.len() <= usize::MAX,
            hints_from(b, 0) == out@.map_values(|h: HintEntry| h@) + hints_from(b, offset as int),
            hint_scan_end(b, 0) == hint_scan_end(b, offset as int),
        decreases b.len() - offset,
    {
        match read_hint(bytes, offset) {
            HintReadOutcome::Valid(e) => {
                let ghost m = e@;
                let ghost prev = out@;
                let sz = 40 + e.key.len();
                proof {
                    assert(m == hint_at(b, offset as int));
                    assert(m.key.len() == crate::format::hint_key_len(b, offset as int));
                    assert(sz == hint_size_at(b, offset as int));
                }
                out.push(e);
                proof {
                    assert(out@.map_values(|h: HintEntry| h@) =~= prev.map_values(
                        |h: HintEntry| h@,
                    ) + seq![m]);
                    assert(hints_from(b, offset as int) == seq![m] + hints_from(
                        b,
                        offset as int + hint_size_at(b, offset as int),
                    ));
                    assert(hints_from(b, 0) =~= out@.map_values(|h: HintEntry| h@) + hints_from(
                        b,
                        offset as int + hint_size_at(b, offset as int),
                    ));
                }
                offset = offset + sz;
            },
            HintReadOutcome::Torn => {
                proof {
                    assert(hints_from(b, offset as int) =~= Seq::<HintModel>::empty());
                    assert(hints_from(b, 0) =~= out@.map_values(|h: HintEntry| h@));
                }
                return (out, offset as u64);
            },
            HintReadOutcome::End => {
                proof {
                    assert(!can_read_hint_at(b, offset as int));
                    assert(hints_from(b, offset as int) =~= Seq::<HintModel>::empty());
                    assert(hints_from(b, 0) =~= out@.map_values(|h: HintEntry| h@));
                }
                return (out, offset as u64);
            },
        }
    }
}

} // verus!
