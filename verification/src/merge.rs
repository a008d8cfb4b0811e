//! The compaction merge: a window of sorted runs folded into one.
//!
//! Runs are merged in ascending id order. On a key collision the record
//! with the larger timestamp survives; a tie goes to the later run, which
//! logically postdates the earlier one. Tombstones are kept: in the merged
//! run they still shadow older values in runs outside the window.
use vstd::prelude::*;

use crate::bytes_util::clone_bytes;
use crate::format::DiskEntry;
use crate::format::RecordModel;
use crate::memtable::Memtable;
use crate::memtable::models;
use crate::memtable::rec_kf;
use crate::assoc::map_of;
use crate::assoc::sorted_keys;

verus! {

/// One record folded into the merged map: it lands unless a strictly
/// newer record already holds the key.
pub open spec fn merge_step(
    m: Map<Seq<u8>, RecordModel>,
    r: RecordModel,
) -> Map<Seq<u8>, RecordModel> {
    if m.contains_key(r.key) && m[r.key].timestamp > r.timestamp {
        m
    } else {
        m.insert(r.key, r)
    }
}

/// A run's records folded into the merged map, in file order.
pub open spec fn merge_records(
    m: Map<Seq<u8>, RecordModel>,
    rs: Seq<RecordModel>,
) -> Map<Seq<u8>, RecordModel>
    decreases rs.len(),
{
    if rs.len() == 0 {
        m
    } else {
        merge_step(merge_records(m, rs.drop_last()), rs.last())
    }
}

/// The merge of a window of runs, applied in ascending id order.
pub open spec fn merged(inputs: Seq<Seq<RecordModel>>) -> Map<Seq<u8>, RecordModel>
    decreases inputs.len(),
{
    if inputs.len() == 0 {
        Map::empty()
    } else {
        merge_records(merged(inputs.drop_last()), inputs.last())
    }
}

/// The records each input run holds.
pub open spec fn run_models(inputs: Seq<Vec<DiskEntry>>) -> Seq<Seq<RecordModel>> {
    inputs.map_values(|v: Vec<DiskEntry>| models(v@))
}

/// Merge a window of runs, given their decoded records in ascending id
/// order. The output is in strictly ascending key order and holds, for
/// each key, the surviving record of the merge.
pub fn merge_runs(inputs: &Vec<Vec<DiskEntry>>) -> (r: Vec<DiskEntry>)
    requires
        forall|i: int, j: int|
            0 <= i < inputs@.len() && 0 <= j < inputs@[i]@.len() ==> (#[trigger] inputs@[i]@[j])@.wf(),
    ensures
        sorted_keys(models(r@), rec_kf()),
        map_of(models(r@), rec_kf()) == merged(run_models(inputs@)),
        forall|j: int| 0 <= j < r@.len() ==> (#[trigger] r@[j])@.wf(),
{
    let mut mem = Memtable::new();
    let n = inputs.len();
    let mut i: usize = 0;
    proof {
        assert(run_models(inputs@).take(0) =~= Seq::<Seq<RecordModel>>::empty());
        assert(mem@ == merged(run_models(inputs@).take(0)));
    }
    while i < n
        invariant
            0 <= i <= n,
            n == inputs@.len(),
            forall|a: int, b: int|
                0 <= a < inputs@.len() && 0 <= b < inputs@[a]@.len() ==> (#[trigger] inputs@[a]@[b])@.wf(),
            mem.wf(),
            mem@ == merged(run_models(inputs@).take(i as int)),
        decreases n - i,
    {
        let run_len = inputs[i].len();
        let mut j: usize = 0;
        let ghost rm = models(inputs@[i as int]@);
        proof {
            assert(rm.take(0) =~= Seq::<RecordModel>::empty());
            assert(merge_records(merged(run_models(inputs@).take(i as int)), rm.take(0)) == merged(
                run_models(inputs@).take(i as int),
            ));
        }
        while j < run_len
            invariant
                0 <= j <= run_len,
                0 <= i < n,
                n == inputs@.len(),
                run_len == inputs@[i as int]@.len(),
                rm == models(inputs@[i as int]@),
                forall|a: int, b: int|
                    0 <= a < inputs@.len() && 0 <= b < inputs@[a]@.len() ==> (
                    #[trigger] inputs@[a]@[b])@.wf(),
                mem.wf(),
                mem@ == merge_records(merged(run_models(inputs@).take(i as int)), rm.take(j as int)),
            decreases run_len - j,
        {
            let e = &inputs[i][j];
            let dup = DiskEntry {
                key: clone_bytes(&e.key),
                value: clone_bytes(&e.value),
                timestamp: e.timestamp,
            };
            proof {
                assert(inputs@[i as int]@[j as int]@.wf());
                assert(dup@ == rm[j as int]);
            }
            mem.insert_if_newer(dup);
            proof {
                assert(rm.take(j + 1).drop_last() =~= rm.take(j as int));
                assert(rm.take(j + 1).last() == rm[j as int]);
                assert(mem@ == merge_step(
                    merge_records(merged(run_models(inputs@).take(i as int)), rm.take(j as int)),
                    rm[j as int],
                ));
            }
            j = j + 1;
        }
        proof {
            assert(rm.take(run_len as int) =~= rm);
            assert(run_models(inputs@).take(i + 1).drop_last() =~= run_models(inputs@).take(
                i as int,
            ));
            assert(run_models(inputs@).take(i + 1).last() == run_models(inputs@)[i as int]);
            assert(run_models(inputs@)[i as int] == rm);
            assert(mem@ == merged(run_models(inputs@).take(i + 1)));
        }
        i = i + 1;
    }
    proof {
        assert(run_models(inputs@).take(n as int) =~= run_models(inputs@));
    }
    let ghost final_mem = mem;
    let r = mem.into_entries();
    proof {
        assert(models(r@) == final_mem.model_seq());
        assert forall|j: int| 0 <= j < r@.len() implies (#[trigger] r@[j])@.wf() by {
            assert(models(r@)[j] == r@[j]@);
            assert(final_mem.model_seq()[j].wf());
        }
    }
    r
}

/// Law: the merge keeps, for every key, the record with the largest
/// timestamp, a tie going to the latest occurrence. `lemma_merged_wins`
/// states it over a whole window of runs.
pub proof fn lemma_merge_last_write_wins(
    m0: Map<Seq<u8>, RecordModel>,
    rs: Seq<RecordModel>,
    i: int,
    k: Seq<u8>,
)
    requires
        0 <= i < rs.len(),
        rs[i].key == k,
        forall|j: int| 0 <= j < rs.len() && (#[trigger] rs[j]).key == k ==> rs[j].timestamp
            <= rs[i].timestamp,
        forall|j: int| i < j < rs.len() && (#[trigger] rs[j]).key == k ==> rs[j].timestamp
            < rs[i].timestamp,
        m0.contains_key(k) ==> m0[k].timestamp <= rs[i].timestamp,
    ensures
        merge_records(m0, rs).contains_key(k),
        merge_records(m0, rs)[k] == rs[i],
    decreases rs.len(),
{
    let last = rs.last();
    let front = rs.drop_last();
    if i == rs.len() - 1 {
        lemma_merge_bound(m0, front, k, rs[i].timestamp);
        assert(merge_records(m0, rs) == merge_step(merge_records(m0, front), last));
    } else {
        lemma_merge_last_write_wins(m0, front, i, k);
        if last.key == k {
            assert(last.timestamp < rs[i].timestamp);
        }
    }
}

/// The merge never raises a key's timestamp above its sources.
pub proof fn lemma_merge_bound(
    m0: Map<Seq<u8>, RecordModel>,
    rs: Seq<RecordModel>,
    k: Seq<u8>,
    t: u32,
)
    requires
        forall|j: int| 0 <= j < rs.len() && (#[trigger] rs[j]).key == k ==> rs[j].timestamp <= t,
        m0.contains_key(k) ==> m0[k].timestamp <= t,
    ensures
        merge_records(m0, rs).contains_key(k) ==> merge_records(m0, rs)[k].timestamp <= t,
        merge_records(m0, rs).contains_key(k) <==> m0.contains_key(k) || exists|j: int|
            0 <= j < rs.len() && (#[trigger] rs[j]).key == k,
    decreases rs.len(),
{
    if rs.len() > 0 {
        lemma_merge_bound(m0, rs.drop_last(), k, t);
        assert forall|j: int|
            0 <= j < rs.drop_last().len() && (#[trigger] rs.drop_last()[j]).key == k implies rs
            .drop_last()[j].timestamp <= t by {
            assert(rs.drop_last()[j] == rs[j]);
        }
        if merge_records(m0, rs).contains_key(k) && !merge_records(m0, rs.drop_last()).contains_key(
            k,
        ) {
            assert(rs.last().key == k);
            assert(rs[rs.len() - 1].key == k);
        }
        if exists|j: int| 0 <= j < rs.len() && (#[trigger] rs[j]).key == k {
            let j = choose|j: int| 0 <= j < rs.len() && (#[trigger] rs[j]).key == k;
            if j < rs.len() - 1 {
                assert(rs.drop_last()[j].key == k);
            }
        }
    }
}

/// A record strictly newer than everything a run holds for its key
/// survives the run's merge untouched.
pub proof fn lemma_merge_keeps(m0: Map<Seq<u8>, RecordModel>, rs: Seq<RecordModel>, k: Seq<u8>)
    requires
        m0.contains_key(k),
        forall|j: int| 0 <= j < rs.len() && (#[trigger] rs[j]).key == k ==> rs[j].timestamp
            < m0[k].timestamp,
    ensures
        merge_records(m0, rs).contains_key(k),
        merge_records(m0, rs)[k] == m0[k],
    decreases rs.len(),
{
    if rs.len() > 0 {
        lemma_merge_keeps(m0, rs.drop_last(), k);
        assert(rs[rs.len() - 1] == rs.last());
    }
}

/// Law: for all keys k and timestamps written to k, after merging a whole
/// window of runs the surviving record for k is the one with the largest
/// timestamp, a tie broken in favour of the later (higher-id) run and,
/// within one run, the later record. In particular two writes at t1 < t2
/// leave the t2 record (or, if it is a tombstone, leave k deleted once the
/// tombstone is dropped by a read).
pub proof fn lemma_merged_wins(inputs: Seq<Seq<RecordModel>>, a: int, i: int, k: Seq<u8>)
    requires
        0 <= a < inputs.len(),
        0 <= i < inputs[a].len(),
        inputs[a][i].key == k,
        forall|b: int, j: int|
            0 <= b < inputs.len() && 0 <= j < inputs[b].len() && (#[trigger] inputs[b][j]).key == k
                ==> inputs[b][j].timestamp <= inputs[a][i].timestamp,
        forall|b: int, j: int|
            0 <= b < inputs.len() && 0 <= j < inputs[b].len() && (#[trigger] inputs[b][j]).key == k
                && (b > a || (b == a && j > i)) ==> inputs[b][j].timestamp
                < inputs[a][i].timestamp,
    ensures
        merged(inputs).contains_key(k),
        merged(inputs)[k] == inputs[a][i],
    decreases inputs.len(),
{
    let last = inputs.last();
    let front = inputs.drop_last();
    if a == inputs.len() - 1 {
        lemma_merged_bound(front, k, inputs[a][i].timestamp);
        lemma_merge_last_write_wins(merged(front), last, i, k);
    } else {
        lemma_merged_wins(front, a, i, k);
        assert forall|j: int|
            0 <= j < last.len() && (#[trigger] last[j]).key == k implies last[j].timestamp
            < inputs[a][i].timestamp by {
            assert(inputs[inputs.len() - 1][j].key == k);
        }
        lemma_merge_keeps(merged(front), last, k);
    }
}

/// The whole merge never raises a key's timestamp above its sources.
pub proof fn lemma_merged_bound(inputs: Seq<Seq<RecordModel>>, k: Seq<u8>, t: u32)
    requires
        forall|b: int, j: int|
            0 <= b < inputs.len() && 0 <= j < inputs[b].len() && (#[trigger] inputs[b][j]).key == k
                ==> inputs[b][j].timestamp <= t,
    ensures
        merged(inputs).contains_key(k) ==> merged(inputs)[k].timestamp <= t,
    decreases inputs.len(),
{
    if inputs.len() > 0 {
        let front = inputs.drop_last();
        assert forall|b: int, j: int|
            0 <= b < front.len() && 0 <= j < front[b].len() && (#[trigger] front[b][j]).key
                == k implies front[b][j].timestamp <= t by {
            assert(front[b] == inputs[b]);
        }
        lemma_merged_bound(front, k, t);
        assert forall|j: int|
            0 <= j < inputs.last().len() && (#[trigger] inputs.last()[j]).key == k implies inputs
            .last()[j].timestamp <= t by {
            assert(inputs[inputs.len() - 1][j].key == k);
        }
        lemma_merge_bound(merged(front), inputs.last(), k, t);
    }
}

} // verus!
