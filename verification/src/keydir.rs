//! The key directory: the in-memory index from each key to the place on
//! disk where its newest record lives. It is never persisted; open rebuilds
//! it from hint files or by scanning the sorted runs.
use vstd::prelude::*;

use vstd::pervasive::VecAdditionalExecFns;

use crate::assoc::distinct_keys;
use crate::assoc::lemma_find_absent;
use crate::assoc::lemma_find_present;
use crate::assoc::lemma_sorted_distinct;
use crate::assoc::lemma_val_map_insert;
use crate::assoc::lemma_val_map_remove;
use crate::assoc::lemma_val_map_update;
use crate::assoc::sorted_keys;
use crate::assoc::val_map_of;
use crate::bytes_util::clone_bytes;
use crate::order::KeyOrder;
use crate::order::lemma_lex_connex;
use crate::order::lemma_lex_irrefl;
use crate::order::lemma_lex_trans;
use crate::order::lex_cmp;
use crate::order::lex_lt;

verus! {

/// Where the newest record for a key lives: run id, byte offset within the
/// run, record size in bytes, and the record's logical write time.
#[derive(Clone, Copy, Debug)]
pub struct KeydirEntry {
    pub file_id: u64,
    pub offset: u64,
    pub size: u64,
    pub timestamp: u32,
}

/// The key of a directory binding.
pub open spec fn kd_kf() -> spec_fn((Seq<u8>, KeydirEntry)) -> Seq<u8> {
    |q: (Seq<u8>, KeydirEntry)| q.0
}

/// The entry of a directory binding.
pub open spec fn kd_vf() -> spec_fn((Seq<u8>, KeydirEntry)) -> KeydirEntry {
    |q: (Seq<u8>, KeydirEntry)| q.1
}

/// What any key directory offers: a mapping from key bytes to the place
/// of the newest record. An update keeps the newer entry, so that hints
/// replayed in run order land on the newest record; a tombstone's key is
/// removed outright.
pub trait Keydir: Sized {
    /// The mapping the directory denotes.
    spec fn dir(&self) -> Map<Seq<u8>, KeydirEntry>;

    /// The implementation's internal invariant.
    spec fn dir_inv(&self) -> bool;

    /// The entry for `key`, if the directory holds it.
    fn dir_get(&self, key: &Vec<u8>) -> (r: Option<&KeydirEntry>)
        requires
            self.dir_inv(),
        ensures
            (match r {
                Some(e) => self.dir().contains_key(key@) && *e == self.dir()[key@],
                None => !self.dir().contains_key(key@),
            }),
    ;

    /// Insert or update; on an update the entry with the newer timestamp
    /// is kept.
    fn dir_put(&mut self, key: Vec<u8>, entry: KeydirEntry)
        requires
            old(self).dir_inv(),
        ensures
            final(self).dir_inv(),
            final(self).dir() == if old(self).dir().contains_key(key@) && old(self).dir()[
                key@
            ].timestamp > entry.timestamp {
                old(self).dir()
            } else {
                old(self).dir().insert(key@, entry)
            },
    ;

    /// Drop the binding for `key`, if any.
    fn dir_remove(&mut self, key: &Vec<u8>)
        requires
            old(self).dir_inv(),
        ensures
            final(self).dir_inv(),
            final(self).dir() == old(self).dir().remove(key@),
    ;

    /// Whether the directory holds `key`.
    fn dir_contains_key(&self, key: &Vec<u8>) -> (r: bool)
        requires
            self.dir_inv(),
        ensures
            r <==> self.dir().contains_key(key@),
    ;

    /// All keys the directory holds, each exactly once.
    fn dir_keys(&self) -> (r: Vec<Vec<u8>>)
        requires
            self.dir_inv(),
        ensures
            forall|k: Seq<u8>|
                #[trigger] self.dir().contains_key(k) <==> exists|i: int|
                    0 <= i < r@.len() && (#[trigger] r@[i])@ == k,
    ;
}

/// The in-memory key directory, kept in ascending key order.
pub struct HashmapKeydir {
    items: Vec<(Vec<u8>, KeydirEntry)>,
}

impl Keydir for HashmapKeydir {
    open spec fn dir(&self) -> Map<Seq<u8>, KeydirEntry> {
        self@
    }

    open spec fn dir_inv(&self) -> bool {
        self.wf()
    }

    fn dir_get(&self, key: &Vec<u8>) -> (r: Option<&KeydirEntry>) {
        self.get(key)
    }

    fn dir_put(&mut self, key: Vec<u8>, entry: KeydirEntry) {
        self.put(key, entry)
    }

    fn dir_remove(&mut self, key: &Vec<u8>) {
        self.remove(key)
    }

    fn dir_contains_key(&self, key: &Vec<u8>) -> (r: bool) {
        self.contains_key(key)
    }

    fn dir_keys(&self) -> (r: Vec<Vec<u8>>) {
        proof {
            lemma_sorted_distinct(self.model_seq(), kd_kf());
            assert forall|k: Seq<u8>| #[trigger] self@.contains_key(k) implies exists|i: int|
                0 <= i < self.key_seq().len() && #[trigger] self.key_seq()[i] == k by {
                crate::assoc::lemma_val_map_contains(self.model_seq(), kd_kf(), kd_vf(), k);
                let i = choose|i: int|
                    0 <= i < self.model_seq().len() && kd_kf()(self.model_seq()[i]) == k;
                assert(self.key_seq()[i] == k);
            }
            assert forall|k: Seq<u8>|
                (exists|i: int| 0 <= i < self.key_seq().len() && #[trigger] self.key_seq()[i] == k)
                implies #[trigger] self@.contains_key(k) by {
                let i = choose|i: int|
                    0 <= i < self.key_seq().len() && #[trigger] self.key_seq()[i] == k;
                crate::assoc::lemma_val_map_contains(self.model_seq(), kd_kf(), kd_vf(), k);
            }
        }
        let r = self.keys();
        proof {
            assert forall|k: Seq<u8>| #[trigger] self.dir().contains_key(k) <==> exists|i: int|
                0 <= i < r@.len() && (#[trigger] r@[i])@ == k by {
                assert forall|i: int| 0 <= i < r@.len() implies (#[trigger] r@[i])@
                    == self.key_seq()[i] by {
                    assert(r@.map_values(|v: Vec<u8>| v@)[i] == r@[i]@);
                }
                if exists|i: int| 0 <= i < r@.len() && (#[trigger] r@[i])@ == k {
                    let i = choose|i: int| 0 <= i < r@.len() && (#[trigger] r@[i])@ == k;
                    assert(self.key_seq()[i] == k);
                }
                if exists|i: int| 0 <= i < self.key_seq().len() && #[trigger] self.key_seq()[i]
                    == k {
                    let i = choose|i: int|
                        0 <= i < self.key_seq().len() && #[trigger] self.key_seq()[i] == k;
                    assert(r@[i]@ == k);
                }
            }
        }
        r
    }
}

impl View for HashmapKeydir {
    type V = Map<Seq<u8>, KeydirEntry>;

    open spec fn view(&self) -> Map<Seq<u8>, KeydirEntry> {
        val_map_of(self.model_seq(), kd_kf(), kd_vf())
    }
}

impl HashmapKeydir {
    /// The directory's bindings in key order.
    pub closed spec fn model_seq(self) -> Seq<(Seq<u8>, KeydirEntry)> {
        self.items@.map_values(|p: (Vec<u8>, KeydirEntry)| (p.0@, p.1))
    }

    /// Keys strictly ascending.
    pub open spec fn wf(self) -> bool {
        sorted_keys(self.model_seq(), kd_kf())
    }

    /// The keys in ascending order.
    pub open spec fn key_seq(self) -> Seq<Seq<u8>> {
        self.model_seq().map_values(|q: (Seq<u8>, KeydirEntry)| q.0)
    }

    /// An empty directory.
    pub fn new() -> (r: HashmapKeydir)
        ensures
            r.wf(),
            r@ == Map::<Seq<u8>, KeydirEntry>::empty(),
            r.model_seq() == Seq::<(Seq<u8>, KeydirEntry)>::empty(),
    {
        let r = HashmapKeydir { items: Vec::new() };
        proof {
            assert(r.model_seq() =~= Seq::<(Seq<u8>, KeydirEntry)>::empty());
            assert(r@ =~= Map::<Seq<u8>, KeydirEntry>::empty());
        }
        r
    }

    /// How many keys the directory holds.
    pub fn len(&self) -> (r: u64)
        ensures
            r == self.model_seq().len(),
    {
        self.items.len() as u64
    }

    /// The binding at position `i` in key order.
    pub fn item_at(&self, i: usize) -> (r: &(Vec<u8>, KeydirEntry))
        requires
            i < self.model_seq().len(),
        ensures
            r.0@ == self.model_seq()[i as int].0,
            r.1 == self.model_seq()[i as int].1,
    {
        &self.items[i]
    }

    /// The entry for `key`, if the directory holds it.
    pub fn get(&self, key: &Vec<u8>) -> (r: Option<&KeydirEntry>)
        requires
            self.wf(),
        ensures
            match r {
                Some(e) => self@.contains_key(key@) && *e == self@[key@],
                None => !self@.contains_key(key@),
            },
    {
        proof {
            lemma_sorted_distinct(self.model_seq(), kd_kf());
        }
        let n = self.items.len();
        let mut i: usize = 0;
        while i < n
            invariant
                0 <= i <= n,
                n == self.items@.len(),
                self.wf(),
                distinct_keys(self.model_seq(), kd_kf()),
                forall|j: int| 0 <= j < i ==> kd_kf()(#[trigger] self.model_seq()[j]) != key@,
            decreases n - i,
        {
            let c = lex_cmp(&self.items[i].0, key);
            if c == KeyOrder::Equal {
                proof {
                    assert(self.model_seq()[i as int].0 == self.items@[i as int].0@);
                    lemma_find_present(self.model_seq(), kd_kf(), i as int);
                }
                return Some(&self.items[i].1);
            }
            proof {
                assert(kd_kf()(self.model_seq()[i as int]) != key@);
            }
            i = i + 1;
        }
        proof {
            lemma_find_absent(self.model_seq(), kd_kf(), key@);
        }
        None
    }

    /// Whether the directory holds `key`.
    pub fn contains_key(&self, key: &Vec<u8>) -> (r: bool)
        requires
            self.wf(),
        ensures
            r <==> self@.contains_key(key@),
    {
        self.get(key).is_some()
    }

    /// First position whose key is not below `key`.
    fn lower_bound(&self, key: &Vec<u8>) -> (p: usize)
        requires
            self.wf(),
        ensures
            p <= self.model_seq().len(),
            forall|j: int| 0 <= j < p ==> lex_lt(kd_kf()(#[trigger] self.model_seq()[j]), key@),
            p < self.model_seq().len() ==> !lex_lt(kd_kf()(self.model_seq()[p as int]), key@),
    {
        let n = self.items.len();
        let mut p: usize = 0;
        let mut stop = false;
        while p < n && !stop
            invariant
                0 <= p <= n,
                n == self.items@.len(),
                self.wf(),
                forall|j: int| 0 <= j < p ==> lex_lt(kd_kf()(#[trigger] self.model_seq()[j]), key@),
                stop ==> p < n && !lex_lt(kd_kf()(self.model_seq()[p as int]), key@),
            decreases n - p + if stop { 0int } else { 1int },
        {
            let c = lex_cmp(&self.items[p].0, key);
            if c == KeyOrder::Less {
                proof {
                    assert(self.model_seq()[p as int].0 == self.items@[p as int].0@);
                }
                p = p + 1;
            } else {
                proof {
                    assert(self.model_seq()[p as int].0 == self.items@[p as int].0@);
                }
                stop = true;
            }
        }
        p
    }

    /// Insert or update the binding for `key`. On an update the entry with
    /// the newer timestamp is kept: an entry already present wins only when
    /// it is strictly newer, so that replayed hints applied in run order
    /// land on the newest record.
    pub fn put(&mut self, key: Vec<u8>, entry: KeydirEntry)
        requires
            old(self).wf(),
        ensures
            final(self).wf(),
            final(self)@ == if old(self)@.contains_key(key@) && old(self)@[key@].timestamp
                > entry.timestamp {
                old(self)@
            } else {
                old(self)@.insert(key@, entry)
            },
    {
        let ghost s = old(self).model_seq();
        let ghost k = key@;
        proof {
            lemma_sorted_distinct(s, kd_kf());
        }
        let p = self.lower_bound(&key);
        let n = self.items.len();
        if p < n {
            let c = lex_cmp(&self.items[p].0, &key);
            if c == KeyOrder::Equal {
                proof {
                    lemma_find_present(s, kd_kf(), p as int);
                }
                if self.items[p].1.timestamp <= entry.timestamp {
                    self.items.set(p, (key, entry));
                    proof {
                        assert(self.model_seq() =~= s.update(p as int, (k, entry)));
                        lemma_val_map_update(s, kd_kf(), kd_vf(), p as int, (k, entry));
                        assert forall|i: int, j: int|
                            0 <= i < j < self.model_seq().len() implies lex_lt(
                            kd_kf()(#[trigger] self.model_seq()[i]),
                            kd_kf()(#[trigger] self.model_seq()[j]),
                        ) by {
                            assert(kd_kf()(s[p as int]) == k);
                        }
                    }
                } else {
                    proof {
                        assert(self@ == old(self)@);
                    }
                }
                return ;
            }
            proof {
                assert(!lex_lt(kd_kf()(s[p as int]), k));
                assert(kd_kf()(s[p as int]) != k);
                if !lex_lt(k, kd_kf()(s[p as int])) {
                    lemma_lex_connex(k, kd_kf()(s[p as int]));
                }
            }
        }
        proof {
            assert forall|i: int| 0 <= i < s.len() implies kd_kf()(#[trigger] s[i]) != k by {
                if i < p {
                    lemma_lex_irrefl(kd_kf()(s[i]));
                } else if i == p {
                } else {
                    assert(lex_lt(kd_kf()(s[p as int]), kd_kf()(s[i])));
                    lemma_lex_trans(k, kd_kf()(s[p as int]), kd_kf()(s[i]));
                    lemma_lex_irrefl(kd_kf()(s[i]));
                }
            }
            lemma_find_absent(s, kd_kf(), k);
        }
        self.items.insert(p, (key, entry));
        proof {
            assert(self.model_seq() =~= s.insert(p as int, (k, entry)));
            lemma_val_map_insert(s, kd_kf(), kd_vf(), p as int, (k, entry));
            let t = self.model_seq();
            assert forall|i: int, j: int| 0 <= i < j < t.len() implies lex_lt(
                kd_kf()(#[trigger] t[i]),
                kd_kf()(#[trigger] t[j]),
            ) by {
                if j == p {
                    assert(t[i] == s[i]);
                } else if i == p {
                    assert(t[j] == s[j - 1]);
                    if j - 1 > p {
                        assert(lex_lt(kd_kf()(s[p as int]), kd_kf()(s[j - 1])));
                        lemma_lex_trans(k, kd_kf()(s[p as int]), kd_kf()(s[j - 1]));
                    }
                } else if i < p && j > p {
                    assert(t[i] == s[i]);
                    assert(t[j] == s[j - 1]);
                    if j - 1 != i {
                        assert(lex_lt(kd_kf()(s[i]), kd_kf()(s[j - 1])));
                    }
                } else if j < p {
                    assert(t[i] == s[i]);
                    assert(t[j] == s[j]);
                } else {
                    assert(t[i] == s[i - 1]);
                    assert(t[j] == s[j - 1]);
                }
            }
        }
    }

    /// Drop the binding for `key`, if any.
    pub fn remove(&mut self, key: &Vec<u8>)
        requires
            old(self).wf(),
        ensures
            final(self).wf(),
            final(self)@ == old(self)@.remove(key@),
    {
        let ghost s = old(self).model_seq();
        proof {
            lemma_sorted_distinct(s, kd_kf());
        }
        let n = self.items.len();
        let mut i: usize = 0;
        while i < n
            invariant
                0 <= i <= n,
                n == self.items@.len(),
                self.wf(),
                s == self.model_seq(),
                self == old(self),
                distinct_keys(s, kd_kf()),
                forall|j: int| 0 <= j < i ==> kd_kf()(#[trigger] s[j]) != key@,
            decreases n - i,
        {
            let c = lex_cmp(&self.items[i].0, key);
            if c == KeyOrder::Equal {
                proof {
                    assert(s[i as int].0 == self.items@[i as int].0@);
                    assert(kd_kf()(s[i as int]) == key@);
                }
                let _ = self.items.remove(i);
                proof {
                    assert(self.model_seq() =~= s.remove(i as int));
                    lemma_val_map_remove(s, kd_kf(), kd_vf(), i as int);
                    let t = self.model_seq();
                    assert forall|a: int, b: int| 0 <= a < b < t.len() implies lex_lt(
                        kd_kf()(#[trigger] t[a]),
                        kd_kf()(#[trigger] t[b]),
                    ) by {
                        if a < i && b < i {
                            assert(t[a] == s[a]);
                            assert(t[b] == s[b]);
                        } else if a < i {
                            assert(t[a] == s[a]);
                            assert(t[b] == s[b + 1]);
                        } else {
                            assert(t[a] == s[a + 1]);
                            assert(t[b] == s[b + 1]);
                        }
                    }
                }
                return ;
            }
            proof {
                assert(kd_kf()(s[i as int]) != key@);
            }
            i = i + 1;
        }
        proof {
            lemma_find_absent(s, kd_kf(), key@);
            assert(self@ =~= old(self)@.remove(key@));
        }
    }

    /// All keys, in ascending order.
    pub fn keys(&self) -> (r: Vec<Vec<u8>>)
        ensures
            r@.map_values(|v: Vec<u8>| v@) == self.key_seq(),
    {
        let n = self.items.len();
        let mut r: Vec<Vec<u8>> = Vec::new();
        let mut i: usize = 0;
        while i < n
            invariant
                0 <= i <= n,
                n == self.items@.len(),
                r@.len() == i,
                forall|j: int| 0 <= j < i ==> (#[trigger] r@[j])@ == self.model_seq()[j].0,
            decreases n - i,
        {
            let key = clone_bytes(&self.items[i].0);
            r.push(key);
            proof {
                assert(self.model_seq()[i as int].0 == self.items@[i as int].0@);
            }
            i = i + 1;
        }
        proof {
            assert(r@.map_values(|v: Vec<u8>| v@) =~= self.key_seq());
        }
        r
    }

    /// Total on-disk bytes of the records the directory points at.
    pub fn disk_size(&self) -> (r: u64)
        requires
            self.wf(),
    {
        let n = self.items.len();
        let mut total: u64 = 0;
        let mut i: usize = 0;
        while i < n
            invariant
                0 <= i <= n,
                n == self.items@.len(),
            decreases n - i,
        {
            let sz = self.items[i].1.size;
            if total <= u64::MAX - sz {
                total = total + sz;
            } else {
                total = u64::MAX;
            }
            i = i + 1;
        }
        total
    }
}

} // verus!
