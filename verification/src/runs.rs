//! The table of sorted runs: each run's numeric id and its size in bytes,
//! kept in ascending id order. The storage manager owns one to know which
//! runs exist; the compaction worker keeps its own to pick merge windows.
use vstd::prelude::*;

verus! {

/// Runs on disk, as (id, size) pairs in strictly ascending id order.
pub struct RunSet {
    items: Vec<(u64, u64)>,
}

impl RunSet {
    /// The (id, size) pairs in ascending id order.
    pub closed spec fn model(self) -> Seq<(u64, u64)> {
        self.items@
    }

    /// Ids strictly ascending.
    pub open spec fn wf(self) -> bool {
        forall|i: int, j: int|
            0 <= i < j < self.model().len() ==> (#[trigger] self.model()[i]).0
                < (#[trigger] self.model()[j]).0
    }

    /// A run with this id is present.
    pub open spec fn has_id(self, id: u64) -> bool {
        exists|i: int| 0 <= i < self.model().len() && (#[trigger] self.model()[i]).0 == id
    }

    /// A run with this id and size is present.
    pub open spec fn has(self, id: u64, size: u64) -> bool {
        exists|i: int| 0 <= i < self.model().len() && #[trigger] self.model()[i] == (id, size)
    }

    /// An empty table.
    pub fn new() -> (r: RunSet)
        ensures
            r.wf(),
            r.model() == Seq::<(u64, u64)>::empty(),
    {
        let r = RunSet { items: Vec::new() };
        proof {
            assert(r.model() =~= Seq::<(u64, u64)>::empty());
        }
        r
    }

    /// How many runs are present.
    pub fn len(&self) -> (r: usize)
        ensures
            r == self.model().len(),
    {
        self.items.len()
    }

    /// The pair at position `i` in id order.
    pub fn item_at(&self, i: usize) -> (r: (u64, u64))
        requires
            i < self.model().len(),
        ensures
            r == self.model()[i as int],
    {
        self.items[i]
    }

    /// The largest id present, or zero when no run exists.
    pub fn max_id(&self) -> (r: u64)
        requires
            self.wf(),
        ensures
            self.model().len() == 0 ==> r == 0,
            self.model().len() > 0 ==> r == self.model().last().0 && self.has_id(r),
            forall|i: int| 0 <= i < self.model().len() ==> (#[trigger] self.model()[i]).0 <= r,
    {
        let n = self.items.len();
        if n == 0 {
            0
        } else {
            proof {
                assert(self.model()[n - 1] == self.model().last());
            }
            self.items[n - 1].0
        }
    }

    /// The size recorded for a run id, if present.
    pub fn size_of(&self, id: u64) -> (r: Option<u64>)
        requires
            self.wf(),
        ensures
            match r {
                Some(s) => self.has(id, s),
                None => !self.has_id(id),
            },
    {
        let n = self.items.len();
        let mut i: usize = 0;
        while i < n
            invariant
                0 <= i <= n,
                n == self.model().len(),
                forall|j: int| 0 <= j < i ==> (#[trigger] self.model()[j]).0 != id,
            decreases n - i,
        {
            if self.items[i].0 == id {
                return Some(self.items[i].1);
            }
            i = i + 1;
        }
        None
    }

    /// Append a run whose id is above every id present.
    pub fn push_run(&mut self, id: u64, size: u64)
        requires
            old(self).wf(),
            forall|i: int| 0 <= i < old(self).model().len() ==> (#[trigger] old(self).model()[i]).0
                < id,
        ensures
            final(self).wf(),
            final(self).model() == old(self).model().push((id, size)),
    {
        self.items.push((id, size));
    }

    /// Insert a run, or replace the recorded size of one already present.
    pub fn insert_run(&mut self, id: u64, size: u64)
        requires
            old(self).wf(),
        ensures
            final(self).wf(),
            final(self).has(id, size),
            final(self).has_id(id),
            forall|x: u64, s: u64|
                x != id ==> (final(self).has(x, s) <==> old(self).has(x, s)),
            forall|x: u64| x != id ==> (final(self).has_id(x) <==> old(self).has_id(x)),
            final(self).model().len() == if old(self).has_id(id) {
                old(self).model().len()
            } else {
                old(self).model().len() + 1
            },
    {
        let ghost s0 = old(self).model();
        let n = self.items.len();
        let mut p: usize = 0;
        while p < n && self.items[p].0 < id
            invariant
                0 <= p <= n,
                n == self.model().len(),
                self == old(self),
                s0 == self.model(),
                forall|j: int| 0 <= j < p ==> (#[trigger] self.model()[j]).0 < id,
            decreases n - p,
        {
            p = p + 1;
        }
        if p < n && self.items[p].0 == id {
            self.items.set(p, (id, size));
            proof {
                let t = self.model();
                assert(t =~= s0.update(p as int, (id, size)));
                assert(t[p as int] == (id, size));
                assert forall|x: u64, s: u64| x != id implies (final(self).has(x, s) <==> old(
                    self,
                ).has(x, s)) by {
                    if exists|i: int| 0 <= i < t.len() && #[trigger] t[i] == (x, s) {
                        let i = choose|i: int| 0 <= i < t.len() && #[trigger] t[i] == (x, s);
                        assert(i != p);
                        assert(s0[i] == (x, s));
                    }
                    if exists|i: int| 0 <= i < s0.len() && #[trigger] s0[i] == (x, s) {
                        let i = choose|i: int| 0 <= i < s0.len() && #[trigger] s0[i] == (x, s);
                        assert(i != p);
                        assert(t[i] == (x, s));
                    }
                }
                assert forall|x: u64| x != id implies (final(self).has_id(x) <==> old(
                    self,
                ).has_id(x)) by {
                    if exists|i: int| 0 <= i < t.len() && (#[trigger] t[i]).0 == x {
                        let i = choose|i: int| 0 <= i < t.len() && (#[trigger] t[i]).0 == x;
                        assert(i != p);
                        assert(s0[i].0 == x);
                    }
                    if exists|i: int| 0 <= i < s0.len() && (#[trigger] s0[i]).0 == x {
                        let i = choose|i: int| 0 <= i < s0.len() && (#[trigger] s0[i]).0 == x;
                        assert(i != p);
                        assert(t[i].0 == x);
                    }
                }
                assert(old(self).has_id(id));
            }
            return ;
        }
        proof {
            assert forall|i: int| 0 <= i < s0.len() implies (#[trigger] s0[i]).0 != id by {
                if i < p {
                } else {
                    assert(s0[p as int].0 <= s0[i].0 || p == i);
                }
            }
            assert(!old(self).has_id(id));
        }
        self.items.insert(p, (id, size));
        proof {
            let t = self.model();
            assert(t =~= s0.insert(p as int, (id, size)));
            assert(t[p as int] == (id, size));
            assert forall|i: int, j: int| 0 <= i < j < t.len() implies (#[trigger] t[i]).0
                < (#[trigger] t[j]).0 by {
                if j == p {
                    assert(t[i] == s0[i]);
                } else if i == p {
                    assert(t[j] == s0[j - 1]);
                } else if i < p && j > p {
                    assert(t[i] == s0[i]);
                    assert(t[j] == s0[j - 1]);
                } else if j < p {
                    assert(t[i] == s0[i]);
                    assert(t[j] == s0[j]);
                } else {
                    assert(t[i] == s0[i - 1]);
                    assert(t[j] == s0[j - 1]);
                }
            }
            assert forall|x: u64, s: u64| x != id implies (final(self).has(x, s) <==> old(
                self,
            ).has(x, s)) by {
                if exists|i: int| 0 <= i < t.len() && #[trigger] t[i] == (x, s) {
                    let i = choose|i: int| 0 <= i < t.len() && #[trigger] t[i] == (x, s);
                    if i < p {
                        assert(s0[i] == (x, s));
                    } else {
                        assert(s0[i - 1] == (x, s));
                    }
                }
                if exists|i: int| 0 <= i < s0.len() && #[trigger] s0[i] == (x, s) {
                    let i = choose|i: int| 0 <= i < s0.len() && #[trigger] s0[i] == (x, s);
                    if i < p {
                        assert(t[i] == (x, s));
                    } else {
                        assert(t[i + 1] == (x, s));
                    }
                }
            }
            assert forall|x: u64| x != id implies (final(self).has_id(x) <==> old(self).has_id(
                x,
            )) by {
                if exists|i: int| 0 <= i < t.len() && (#[trigger] t[i]).0 == x {
                    let i = choose|i: int| 0 <= i < t.len() && (#[trigger] t[i]).0 == x;
                    if i < p {
                        assert(s0[i].0 == x);
                    } else {
                        assert(s0[i - 1].0 == x);
                    }
                }
                if exists|i: int| 0 <= i < s0.len() && (#[trigger] s0[i]).0 == x {
                    let i = choose|i: int| 0 <= i < s0.len() && (#[trigger] s0[i]).0 == x;
                    if i < p {
                        assert(t[i].0 == x);
                    } else {
                        assert(t[i + 1].0 == x);
                    }
                }
            }
        }
    }

    /// Drop the run with this id, if present.
    pub fn remove_run(&mut self, id: u64)
        requires
            old(self).wf(),
        ensures
            final(self).wf(),
            !final(self).has_id(id),
            forall|x: u64, s: u64|
                x != id ==> (final(self).has(x, s) <==> old(self).has(x, s)),
            forall|x: u64| x != id ==> (final(self).has_id(x) <==> old(self).has_id(x)),
            final(self).model().len() == if old(self).has_id(id) {
                old(self).model().len() - 1
            } else {
                old(self).model().len() as int
            },
    {
        let ghost s0 = old(self).model();
        let n = self.items.len();
        let mut i: usize = 0;
        while i < n
            invariant
                0 <= i <= n,
                n == self.model().len(),
                self == old(self),
                s0 == self.model(),
                old(self).wf(),
                forall|j: int| 0 <= j < i ==> (#[trigger] self.model()[j]).0 != id,
            decreases n - i,
        {
            if self.items[i].0 == id {
                let _ = self.items.remove(i);
                proof {
                    let t = self.model();
                    assert(t =~= s0.remove(i as int));
                    assert forall|a: int, b: int| 0 <= a < b < t.len() implies (#[trigger] t[a]).0
                        < (#[trigger] t[b]).0 by {
                        if a < i && b < i {
                            assert(t[a] == s0[a]);
                            assert(t[b] == s0[b]);
                        } else if a < i {
                            assert(t[a] == s0[a]);
                            assert(t[b] == s0[b + 1]);
                        } else {
                            assert(t[a] == s0[a + 1]);
                            assert(t[b] == s0[b + 1]);
                        }
                    }
                    assert forall|x: int| 0 <= x < t.len() implies (#[trigger] t[x]).0 != id by {
                        if x < i {
                            assert(t[x] == s0[x]);
                        } else {
                            assert(t[x] == s0[x + 1]);
                            assert(s0[i as int].0 < s0[x + 1].0);
                        }
                    }
                    assert forall|x: u64, s: u64| x != id implies (final(self).has(x, s) <==> old(
                        self,
                    ).has(x, s)) by {
                        if exists|j: int| 0 <= j < t.len() && #[trigger] t[j] == (x, s) {
                            let j = choose|j: int| 0 <= j < t.len() && #[trigger] t[j] == (x, s);
                            if j < i {
                                assert(s0[j] == (x, s));
                            } else {
                                assert(s0[j + 1] == (x, s));
                            }
                        }
                        if exists|j: int| 0 <= j < s0.len() && #[trigger] s0[j] == (x, s) {
                            let j = choose|j: int| 0 <= j < s0.len() && #[trigger] s0[j] == (x, s);
                            assert(j != i);
                            if j < i {
                                assert(t[j] == (x, s));
                            } else {
                                assert(t[j - 1] == (x, s));
                            }
                        }
                    }
                    assert forall|x: u64| x != id implies (final(self).has_id(x) <==> old(
                        self,
                    ).has_id(x)) by {
                        if exists|j: int| 0 <= j < t.len() && (#[trigger] t[j]).0 == x {
                            let j = choose|j: int| 0 <= j < t.len() && (#[trigger] t[j]).0 == x;
                            if j < i {
                                assert(s0[j].0 == x);
                            } else {
                                assert(s0[j + 1].0 == x);
                            }
                        }
                        if exists|j: int| 0 <= j < s0.len() && (#[trigger] s0[j]).0 == x {
                            let j = choose|j: int| 0 <= j < s0.len() && (#[trigger] s0[j]).0 == x;
                            assert(j != i);
                            if j < i {
                                assert(t[j].0 == x);
                            } else {
                                assert(t[j - 1].0 == x);
                            }
                        }
                    }
                }
                return ;
            }
            i = i + 1;
        }
        proof {
            assert(self.model() =~= s0);
            assert(!final(self).has_id(id));
        }
    }
}

} // verus!
