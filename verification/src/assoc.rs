//! Sorted association sequences.
//!
//! The memtable and the key directory are both vectors of entries kept in
//! ascending key order. This module gives them a common mathematical model:
//! a sequence of entries, a key projection, a lookup (`seq_find`), and the
//! `Map` each sequence denotes, together with the lemmas that relate
//! inserting, replacing and removing an entry to operations on that map.
use vstd::prelude::*;

use crate::order::lex_lt;
use crate::order::lemma_lex_irrefl;

verus! {

/// The entry whose key is `k`, searching from the back (later entries win;
/// with distinct keys the direction does not matter).
pub open spec fn seq_find<T>(s: Seq<T>, kf: spec_fn(T) -> Seq<u8>, k: Seq<u8>) -> Option<T>
    decreases s.len(),
{
    if s.len() == 0 {
        None
    } else if kf(s.last()) == k {
        Some(s.last())
    } else {
        seq_find(s.drop_last(), kf, k)
    }
}

/// The finite map denoted by an association sequence.
pub open spec fn map_of<T>(s: Seq<T>, kf: spec_fn(T) -> Seq<u8>) -> Map<Seq<u8>, T> {
    Map::new(|k: Seq<u8>| seq_find(s, kf, k) is Some, |k: Seq<u8>| seq_find(s, kf, k)->0)
}

/// No two entries share a key.
pub open spec fn distinct_keys<T>(s: Seq<T>, kf: spec_fn(T) -> Seq<u8>) -> bool {
    forall|i: int, j: int| 0 <= i < j < s.len() ==> kf(s[i]) != kf(s[j])
}

/// Keys strictly ascending in lexicographic order.
pub open spec fn sorted_keys<T>(s: Seq<T>, kf: spec_fn(T) -> Seq<u8>) -> bool {
    forall|i: int, j: int| 0 <= i < j < s.len() ==> lex_lt(kf(s[i]), kf(s[j]))
}

/// A bare key sequence strictly ascending in lexicographic order.
pub open spec fn sorted_keys_flat(s: Seq<Seq<u8>>) -> bool {
    forall|i: int, j: int| 0 <= i < j < s.len() ==> lex_lt(s[i], s[j])
}

pub proof fn lemma_sorted_distinct<T>(s: Seq<T>, kf: spec_fn(T) -> Seq<u8>)
    requires
        sorted_keys(s, kf),
    ensures
        distinct_keys(s, kf),
{
    assert forall|i: int, j: int| 0 <= i < j < s.len() implies kf(s[i]) != kf(s[j]) by {
        lemma_lex_irrefl(kf(s[i]));
    }
}

/// A key that no entry carries is not found.
pub proof fn lemma_find_absent<T>(s: Seq<T>, kf: spec_fn(T) -> Seq<u8>, k: Seq<u8>)
    requires
        forall|i: int| 0 <= i < s.len() ==> kf(s[i]) != k,
    ensures
        seq_find(s, kf, k) is None,
    decreases s.len(),
{
    if s.len() > 0 {
        lemma_find_absent(s.drop_last(), kf, k);
    }
}

/// With distinct keys, the entry at any index is what its key finds.
pub proof fn lemma_find_present<T>(s: Seq<T>, kf: spec_fn(T) -> Seq<u8>, i: int)
    requires
        distinct_keys(s, kf),
        0 <= i < s.len(),
    ensures
        seq_find(s, kf, kf(s[i])) == Some(s[i]),
    decreases s.len(),
{
    if i == s.len() - 1 {
    } else {
        assert(kf(s.last()) != kf(s[i]));
        lemma_find_present(s.drop_last(), kf, i);
    }
}

/// A found entry is in the sequence and carries the key it was found by.
pub proof fn lemma_find_sound<T>(s: Seq<T>, kf: spec_fn(T) -> Seq<u8>, k: Seq<u8>)
    requires
        seq_find(s, kf, k) is Some,
    ensures
        exists|i: int|
            0 <= i < s.len() && s[i] == seq_find(s, kf, k)->0 && kf(seq_find(s, kf, k)->0) == k,
    decreases s.len(),
{
    if kf(s.last()) == k {
        assert(s[s.len() - 1] == s.last());
    } else {
        lemma_find_sound(s.drop_last(), kf, k);
        let i = choose|i: int|
            0 <= i < s.drop_last().len() && s.drop_last()[i] == seq_find(s.drop_last(), kf, k)->0
                && kf(seq_find(s.drop_last(), kf, k)->0) == k;
        assert(s[i] == s.drop_last()[i]);
    }
}

/// Inserting an entry with a fresh key: every lookup either hits the new
/// entry (on its key) or passes through.
pub proof fn lemma_find_insert<T>(
    s: Seq<T>,
    kf: spec_fn(T) -> Seq<u8>,
    p: int,
    e: T,
    k: Seq<u8>,
)
    requires
        0 <= p <= s.len(),
        forall|i: int| 0 <= i < s.len() ==> kf(s[i]) != kf(e),
    ensures
        seq_find(s.insert(p, e), kf, k) == if k == kf(e) {
            Some(e)
        } else {
            seq_find(s, kf, k)
        },
    decreases s.len() - p,
{
    let t = s.insert(p, e);
    if p == s.len() {
        assert(t.last() == e);
        assert(t.drop_last() =~= s);
        if k != kf(e) {
            assert(seq_find(t, kf, k) == seq_find(s, kf, k));
        }
    } else {
        assert(t.last() == s.last());
        assert(t.drop_last() =~= s.drop_last().insert(p, e));
        assert(forall|i: int|
            0 <= i < s.drop_last().len() ==> kf(s.drop_last()[i]) != kf(e));
        lemma_find_insert(s.drop_last(), kf, p, e, k);
        assert(kf(s[s.len() - 1]) != kf(e));
        if kf(s.last()) == k {
            assert(k != kf(e));
        }
    }
}

/// Replacing the entry at `p` by one with the same key: every lookup either
/// hits the replacement (on that key) or passes through.
pub proof fn lemma_find_update<T>(
    s: Seq<T>,
    kf: spec_fn(T) -> Seq<u8>,
    p: int,
    e: T,
    k: Seq<u8>,
)
    requires
        0 <= p < s.len(),
        kf(s[p]) == kf(e),
        distinct_keys(s, kf),
    ensures
        seq_find(s.update(p, e), kf, k) == if k == kf(e) {
            Some(e)
        } else {
            seq_find(s, kf, k)
        },
    decreases s.len() - p,
{
    let t = s.update(p, e);
    if p == s.len() - 1 {
        assert(t.last() == e);
        assert(t.drop_last() =~= s.drop_last());
    } else {
        assert(t.last() == s.last());
        assert(t.drop_last() =~= s.drop_last().update(p, e));
        assert(kf(s.last()) != kf(s[p]));
        lemma_find_update(s.drop_last(), kf, p, e, k);
    }
}

/// Removing the entry at `p`: its key is gone, every other lookup passes
/// through.
pub proof fn lemma_find_remove<T>(s: Seq<T>, kf: spec_fn(T) -> Seq<u8>, p: int, k: Seq<u8>)
    requires
        0 <= p < s.len(),
        distinct_keys(s, kf),
    ensures
        seq_find(s.remove(p), kf, k) == if k == kf(s[p]) {
            None::<T>
        } else {
            seq_find(s, kf, k)
        },
    decreases s.len() - p,
{
    let t = s.remove(p);
    if p == s.len() - 1 {
        assert(t =~= s.drop_last());
        if k == kf(s[p]) {
            assert(forall|i: int| 0 <= i < t.len() ==> kf(t[i]) != k);
            lemma_find_absent(t, kf, k);
        }
    } else {
        assert(t.last() == s.last());
        assert(t.drop_last() =~= s.drop_last().remove(p));
        assert(kf(s.last()) != kf(s[p]));
        lemma_find_remove(s.drop_last(), kf, p, k);
    }
}

/// The map of an insert at a fresh key is the map plus that binding.
pub proof fn lemma_map_insert<T>(s: Seq<T>, kf: spec_fn(T) -> Seq<u8>, p: int, e: T)
    requires
        0 <= p <= s.len(),
        forall|i: int| 0 <= i < s.len() ==> kf(s[i]) != kf(e),
    ensures
        map_of(s.insert(p, e), kf) == map_of(s, kf).insert(kf(e), e),
{
    assert forall|k: Seq<u8>| true implies seq_find(s.insert(p, e), kf, k) == (if k == kf(e) {
        Some(e)
    } else {
        seq_find(s, kf, k)
    }) by {
        lemma_find_insert(s, kf, p, e, k);
    }
    assert(map_of(s.insert(p, e), kf) =~= map_of(s, kf).insert(kf(e), e));
}

/// The map of a same-key replacement is the map with that binding updated.
pub proof fn lemma_map_update<T>(s: Seq<T>, kf: spec_fn(T) -> Seq<u8>, p: int, e: T)
    requires
        0 <= p < s.len(),
        kf(s[p]) == kf(e),
        distinct_keys(s, kf),
    ensures
        map_of(s.update(p, e), kf) == map_of(s, kf).insert(kf(e), e),
{
    assert forall|k: Seq<u8>| true implies seq_find(s.update(p, e), kf, k) == (if k == kf(e) {
        Some(e)
    } else {
        seq_find(s, kf, k)
    }) by {
        lemma_find_update(s, kf, p, e, k);
    }
    lemma_find_present(s, kf, p);
    assert(map_of(s.update(p, e), kf) =~= map_of(s, kf).insert(kf(e), e));
}

/// The map denoted by an association sequence, with a value projection.
pub open spec fn val_map_of<T, V>(
    s: Seq<T>,
    kf: spec_fn(T) -> Seq<u8>,
    vf: spec_fn(T) -> V,
) -> Map<Seq<u8>, V> {
    Map::new(|k: Seq<u8>| seq_find(s, kf, k) is Some, |k: Seq<u8>| vf(seq_find(s, kf, k)->0))
}

/// Value-projected form of `lemma_map_insert`.
pub proof fn lemma_val_map_insert<T, V>(
    s: Seq<T>,
    kf: spec_fn(T) -> Seq<u8>,
    vf: spec_fn(T) -> V,
    p: int,
    e: T,
)
    requires
        0 <= p <= s.len(),
        forall|i: int| 0 <= i < s.len() ==> kf(s[i]) != kf(e),
    ensures
        val_map_of(s.insert(p, e), kf, vf) == val_map_of(s, kf, vf).insert(kf(e), vf(e)),
{
    assert forall|k: Seq<u8>| true implies seq_find(s.insert(p, e), kf, k) == (if k == kf(e) {
        Some(e)
    } else {
        seq_find(s, kf, k)
    }) by {
        lemma_find_insert(s, kf, p, e, k);
    }
    assert(val_map_of(s.insert(p, e), kf, vf) =~= val_map_of(s, kf, vf).insert(kf(e), vf(e)));
}

/// Value-projected form of `lemma_map_update`.
pub proof fn lemma_val_map_update<T, V>(
    s: Seq<T>,
    kf: spec_fn(T) -> Seq<u8>,
    vf: spec_fn(T) -> V,
    p: int,
    e: T,
)
    requires
        0 <= p < s.len(),
        kf(s[p]) == kf(e),
        distinct_keys(s, kf),
    ensures
        val_map_of(s.update(p, e), kf, vf) == val_map_of(s, kf, vf).insert(kf(e), vf(e)),
{
    assert forall|k: Seq<u8>| true implies seq_find(s.update(p, e), kf, k) == (if k == kf(e) {
        Some(e)
    } else {
        seq_find(s, kf, k)
    }) by {
        lemma_find_update(s, kf, p, e, k);
    }
    lemma_find_present(s, kf, p);
    assert(val_map_of(s.update(p, e), kf, vf) =~= val_map_of(s, kf, vf).insert(kf(e), vf(e)));
}

/// The map of a removal is the map minus that binding.
pub proof fn lemma_val_map_remove<T, V>(
    s: Seq<T>,
    kf: spec_fn(T) -> Seq<u8>,
    vf: spec_fn(T) -> V,
    p: int,
)
    requires
        0 <= p < s.len(),
        distinct_keys(s, kf),
    ensures
        val_map_of(s.remove(p), kf, vf) == val_map_of(s, kf, vf).remove(kf(s[p])),
{
    assert forall|k: Seq<u8>| true implies seq_find(s.remove(p), kf, k) == (if k == kf(s[p]) {
        None::<T>
    } else {
        seq_find(s, kf, k)
    }) by {
        lemma_find_remove(s, kf, p, k);
    }
    assert(val_map_of(s.remove(p), kf, vf) =~= val_map_of(s, kf, vf).remove(kf(s[p])));
}

/// Containment in a value-projected map is having an index with that key.
pub proof fn lemma_val_map_contains<T, V>(
    s: Seq<T>,
    kf: spec_fn(T) -> Seq<u8>,
    vf: spec_fn(T) -> V,
    k: Seq<u8>,
)
    requires
        distinct_keys(s, kf),
    ensures
        val_map_of(s, kf, vf).contains_key(k) <==> exists|i: int| 0 <= i < s.len() && kf(s[i]) == k,
        val_map_of(s, kf, vf).contains_key(k) ==> exists|i: int|
            0 <= i < s.len() && kf(s[i]) == k && val_map_of(s, kf, vf)[k] == vf(s[i]),
{
    if val_map_of(s, kf, vf).contains_key(k) {
        lemma_find_sound(s, kf, k);
        let i = choose|i: int|
            0 <= i < s.len() && s[i] == seq_find(s, kf, k)->0 && kf(seq_find(s, kf, k)->0) == k;
        assert(kf(s[i]) == k);
        assert(val_map_of(s, kf, vf)[k] == vf(s[i]));
    } else {
        if exists|i: int| 0 <= i < s.len() && kf(s[i]) == k {
            let i = choose|i: int| 0 <= i < s.len() && kf(s[i]) == k;
            lemma_find_present(s, kf, i);
        }
    }
}

} // verus!
