//! The memtable: the ordered in-memory buffer of mutations not yet sealed
//! into any sorted run. It maps each key to the last record written to the
//! write-ahead log for it this epoch; a record with an empty value stands
//! for a pending delete.
use vstd::prelude::*;

use vstd::pervasive::VecAdditionalExecFns;

use crate::assoc::distinct_keys;
use crate::assoc::lemma_find_absent;
use crate::assoc::lemma_find_present;
use crate::assoc::lemma_map_insert;
use crate::assoc::lemma_map_update;
use crate::assoc::lemma_sorted_distinct;
use crate::assoc::map_of;
use crate::assoc::sorted_keys;
use crate::format::DiskEntry;
use crate::format::RecordModel;
use crate::order::KeyOrder;
use crate::order::lemma_lex_connex;
use crate::order::lemma_lex_irrefl;
use crate::order::lemma_lex_trans;
use crate::order::lex_cmp;
use crate::order::lex_lt;

verus! {

/// The key of a record, as the association-sequence machinery wants it.
pub open spec fn rec_kf() -> spec_fn(RecordModel) -> Seq<u8> {
    |m: RecordModel| m.key
}

/// The records a vector of entries denotes.
pub open spec fn models(s: Seq<DiskEntry>) -> Seq<RecordModel> {
    s.map_values(|e: DiskEntry| e@)
}

/// The ordered in-memory buffer: records in strictly ascending key order.
pub struct Memtable {
    entries: Vec<DiskEntry>,
}

impl View for Memtable {
    type V = Map<Seq<u8>, RecordModel>;

    open spec fn view(&self) -> Map<Seq<u8>, RecordModel> {
        map_of(self.model_seq(), rec_kf())
    }
}

impl Memtable {
    /// The buffered records in key order.
    pub closed spec fn model_seq(self) -> Seq<RecordModel> {
        models(self.entries@)
    }

    /// Keys strictly ascending; every record fits the on-disk size fields.
    pub open spec fn wf(self) -> bool {
        &&& sorted_keys(self.model_seq(), rec_kf())
        &&& forall|i: int| 0 <= i < self.model_seq().len() ==> (#[trigger] self.model_seq()[i]).wf()
    }

    /// An empty memtable.
    pub fn new() -> (r: Memtable)
        ensures
            r.wf(),
            r@ == Map::<Seq<u8>, RecordModel>::empty(),
            r.model_seq() == Seq::<RecordModel>::empty(),
    {
        let r = Memtable { entries: Vec::new() };
        proof {
            assert(r.model_seq() =~= Seq::<RecordModel>::empty());
            assert(r@ =~= Map::<Seq<u8>, RecordModel>::empty());
        }
        r
    }

    /// How many keys are buffered.
    pub fn len(&self) -> (r: usize)
        ensures
            r == self.model_seq().len(),
    {
        self.entries.len()
    }

    /// Whether nothing is buffered.
    pub fn is_empty(&self) -> (r: bool)
        ensures
            r <==> self.model_seq().len() == 0,
    {
        self.entries.is_empty()
    }

    /// The record at position `i` in key order.
    pub fn entry_at(&self, i: usize) -> (r: &DiskEntry)
        requires
            i < self.model_seq().len(),
        ensures
            r@ == self.model_seq()[i as int],
    {
        &self.entries[i]
    }

    /// The record buffered for `key`, if any.
    pub fn get(&self, key: &Vec<u8>) -> (r: Option<&DiskEntry>)
        requires
            self.wf(),
        ensures
            match r {
                Some(e) => self@.contains_key(key@) && e@ == self@[key@],
                None => !self@.contains_key(key@),
            },
    {
        proof {
            lemma_sorted_distinct(self.model_seq(), rec_kf());
        }
        let n = self.entries.len();
        let mut i: usize = 0;
        while i < n
            invariant
                0 <= i <= n,
                n == self.entries@.len(),
                self.wf(),
                distinct_keys(self.model_seq(), rec_kf()),
                forall|j: int| 0 <= j < i ==> rec_kf()(#[trigger] self.model_seq()[j]) != key@,
            decreases n - i,
        {
            let c = lex_cmp(&self.entries[i].key, key);
            if c == KeyOrder::Equal {
                proof {
                    assert(self.model_seq()[i as int] == self.entries@[i as int]@);
                    lemma_find_present(self.model_seq(), rec_kf(), i as int);
                }
                return Some(&self.entries[i]);
            }
            proof {
                assert(rec_kf()(self.model_seq()[i as int]) != key@);
            }
            i = i + 1;
        }
        proof {
            lemma_find_absent(self.model_seq(), rec_kf(), key@);
        }
        None
    }

    /// First position whose key is not below `key`.
    fn lower_bound(&self, key: &Vec<u8>) -> (p: usize)
        requires
            self.wf(),
        ensures
            p <= self.model_seq().len(),
            forall|j: int| 0 <= j < p ==> lex_lt(rec_kf()(#[trigger] self.model_seq()[j]), key@),
            p < self.model_seq().len() ==> !lex_lt(
                rec_kf()(self.model_seq()[p as int]),
                key@,
            ),
    {
        let n = self.entries.len();
        let mut p: usize = 0;
        let mut stop = false;
        while p < n && !stop
            invariant
                0 <= p <= n,
                n == self.entries@.len(),
                self.wf(),
                forall|j: int| 0 <= j < p ==> lex_lt(rec_kf()(#[trigger] self.model_seq()[j]), key@),
                stop ==> p < n && !lex_lt(rec_kf()(self.model_seq()[p as int]), key@),
            decreases n - p + if stop { 0int } else { 1int },
        {
            let c = lex_cmp(&self.entries[p].key, key);
            if c == KeyOrder::Less {
                proof {
                    assert(self.model_seq()[p as int] == self.entries@[p as int]@);
                }
                p = p + 1;
            } else {
                proof {
                    assert(self.model_seq()[p as int] == self.entries@[p as int]@);
                }
                stop = true;
            }
        }
        p
    }

    /// Buffer a record, overwriting any earlier record for its key.
    pub fn insert(&mut self, entry: DiskEntry)
        requires
            old(self).wf(),
            entry@.wf(),
        ensures
            final(self).wf(),
            final(self)@ == old(self)@.insert(entry@.key, entry@),
    {
        let ghost s = self.model_seq();
        let ghost k = entry@.key;
        proof {
            lemma_sorted_distinct(s, rec_kf());
        }
        let p = self.lower_bound(&entry.key);
        let n = self.entries.len();
        if p < n {
            let c = lex_cmp(&self.entries[p].key, &entry.key);
            if c == KeyOrder::Equal {
                self.entries.set(p, entry);
                proof {
                    assert(self.model_seq() =~= s.update(p as int, entry@));
                    lemma_map_update(s, rec_kf(), p as int, entry@);
                    assert forall|i: int, j: int|
                        0 <= i < j < self.model_seq().len() implies lex_lt(
                        rec_kf()(#[trigger] self.model_seq()[i]),
                        rec_kf()(#[trigger] self.model_seq()[j]),
                    ) by {
                        assert(rec_kf()(s[p as int]) == rec_kf()(entry@));
                    }
                }
                return ;
            }
            proof {
                // Not below `key` and not equal: strictly above it.
                assert(!lex_lt(rec_kf()(s[p as int]), k));
                assert(rec_kf()(s[p as int]) != k);
                if !lex_lt(k, rec_kf()(s[p as int])) {
                    lemma_lex_connex(k, rec_kf()(s[p as int]));
                }
            }
        }
        proof {
            assert forall|i: int| 0 <= i < s.len() implies rec_kf()(#[trigger] s[i]) != k by {
                if i < p {
                    lemma_lex_irrefl(rec_kf()(s[i]));
                } else if i == p {
                } else {
                    assert(lex_lt(rec_kf()(s[p as int]), rec_kf()(s[i])));
                    lemma_lex_trans(k, rec_kf()(s[p as int]), rec_kf()(s[i]));
                    lemma_lex_irrefl(rec_kf()(s[i]));
                }
            }
        }
        self.entries.insert(p, entry);
        proof {
            assert(self.model_seq() =~= s.insert(p as int, entry@));
            lemma_map_insert(s, rec_kf(), p as int, entry@);
            let t = self.model_seq();
            assert forall|i: int, j: int| 0 <= i < j < t.len() implies lex_lt(
                rec_kf()(#[trigger] t[i]),
                rec_kf()(#[trigger] t[j]),
            ) by {
                if j == p {
                    assert(t[i] == s[i]);
                } else if i == p {
                    assert(t[j] == s[j - 1]);
                    if j - 1 > p {
                        assert(lex_lt(rec_kf()(s[p as int]), rec_kf()(s[j - 1])));
                        lemma_lex_trans(k, rec_kf()(s[p as int]), rec_kf()(s[j - 1]));
                    }
                } else if i < p && j > p {
                    assert(t[i] == s[i]);
                    assert(t[j] == s[j - 1]);
                    if j - 1 == i {
                    } else {
                        assert(lex_lt(rec_kf()(s[i]), rec_kf()(s[j - 1])));
                    }
                } else if j < p {
                    assert(t[i] == s[i]);
                    assert(t[j] == s[j]);
                } else {
                    assert(t[i] == s[i - 1]);
                    assert(t[j] == s[j - 1]);
                }
            }
        }
    }
    /// Buffer a record unless a strictly newer record already holds its
    /// key: what the compaction merge does on a key collision.
    pub fn insert_if_newer(&mut self, entry: DiskEntry)
        requires
            old(self).wf(),
            entry@.wf(),
        ensures
            final(self).wf(),
            final(self)@ == if old(self)@.contains_key(entry@.key) && old(self)@[entry@.key].timestamp
                > entry@.timestamp {
                old(self)@
            } else {
                old(self)@.insert(entry@.key, entry@)
            },
    {
        let ghost s = old(self).model_seq();
        let ghost k = entry@.key;
        proof {
            lemma_sorted_distinct(s, rec_kf());
        }
        let p = self.lower_bound(&entry.key);
        let n = self.entries.len();
        if p < n {
            let c = lex_cmp(&self.entries[p].key, &entry.key);
            if c == KeyOrder::Equal {
                proof {
                    crate::assoc::lemma_find_present(s, rec_kf(), p as int);
                }
                if self.entries[p].timestamp <= entry.timestamp {
                    self.entries.set(p, entry);
                    proof {
                        assert(self.model_seq() =~= s.update(p as int, entry@));
                        lemma_map_update(s, rec_kf(), p as int, entry@);
                        assert forall|i: int, j: int|
                            0 <= i < j < self.model_seq().len() implies lex_lt(
                            rec_kf()(#[trigger] self.model_seq()[i]),
                            rec_kf()(#[trigger] self.model_seq()[j]),
                        ) by {
                            assert(rec_kf()(s[p as int]) == rec_kf()(entry@));
                        }
                    }
                } else {
                    proof {
                        assert(self@ == old(self)@);
                    }
                }
                return ;
            }
            proof {
                assert(!lex_lt(rec_kf()(s[p as int]), k));
                assert(rec_kf()(s[p as int]) != k);
                if !lex_lt(k, rec_kf()(s[p as int])) {
                    lemma_lex_connex(k, rec_kf()(s[p as int]));
                }
            }
        }
        proof {
            assert forall|i: int| 0 <= i < s.len() implies rec_kf()(#[trigger] s[i]) != k by {
                if i < p {
                    lemma_lex_irrefl(rec_kf()(s[i]));
                } else if i == p {
                } else {
                    assert(lex_lt(rec_kf()(s[p as int]), rec_kf()(s[i])));
                    lemma_lex_trans(k, rec_kf()(s[p as int]), rec_kf()(s[i]));
                    lemma_lex_irrefl(rec_kf()(s[i]));
                }
            }
            crate::assoc::lemma_find_absent(s, rec_kf(), k);
        }
        self.entries.insert(p, entry);
        proof {
            assert(self.model_seq() =~= s.insert(p as int, entry@));
            lemma_map_insert(s, rec_kf(), p as int, entry@);
            let t = self.model_seq();
            assert forall|i: int, j: int| 0 <= i < j < t.len() implies lex_lt(
                rec_kf()(#[trigger] t[i]),
                rec_kf()(#[trigger] t[j]),
            ) by {
                if j == p {
                    assert(t[i] == s[i]);
                } else if i == p {
                    assert(t[j] == s[j - 1]);
                    if j - 1 > p {
                        assert(lex_lt(rec_kf()(s[p as int]), rec_kf()(s[j - 1])));
                        lemma_lex_trans(k, rec_kf()(s[p as int]), rec_kf()(s[j - 1]));
                    }
                } else if i < p && j > p {
                    assert(t[i] == s[i]);
                    assert(t[j] == s[j - 1]);
                    if j - 1 != i {
                        assert(lex_lt(rec_kf()(s[i]), rec_kf()(s[j - 1])));
                    }
                } else if j < p {
                    assert(t[i] == s[i]);
                    assert(t[j] == s[j]);
                } else {
                    assert(t[i] == s[i - 1]);
                    assert(t[j] == s[j - 1]);
                }
            }
        }
    }

    /// Give up the buffer as a vector of records in key order.
    pub fn into_entries(self) -> (r: Vec<DiskEntry>)
        ensures
            models(r@) == self.model_seq(),
    {
        let Memtable { entries } = self;
        entries
    }
}

} // verus!
