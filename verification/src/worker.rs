//! The compaction worker's state and policy.
//!
//! The worker is a background actor: it keeps its own table of run sizes,
//! receives a message when a new run is sealed, and picks the first window
//! of consecutive similarly-sized runs to merge — at most one compaction
//! per message. The loop that receives messages, reads the input runs and
//! writes the merged files lives with the caller; the decisions live here.
use vstd::prelude::*;

use crate::config::Config;
use crate::runs::RunSet;

verus! {

/// What the engine tells the worker.
pub enum CompactorMessage {
    /// A flush sealed a new sorted run.
    NewSSTable { id: u64, size: u64 },
    /// Shut down; the caller's reply channel closes when the worker drops
    /// its end.
    Stop,
    /// Answer by closing the caller's reply channel; used to wait for the
    /// worker to drain its inbox.
    HeartBeat,
}

/// What an index-maintenance actor would be told; reserved.
pub enum IndexorMessage {
    NewSSTableUpdate(u64),
    CompactUpdate(Vec<u64>),
    Stop,
    HeartBeat,
}

/// An index-maintenance actor; reserved.
pub struct Indexor {}

/// How many consecutive runs a merge window spans: the configured window,
/// floored at two.
pub open spec fn window_len(config: Config) -> int {
    if config.merge_window >= 2 {
        config.merge_window as int
    } else {
        2
    }
}

/// A window qualifies when every run after its first is more than a
/// `ratio`-th of the first: the tail is within a factor of `ratio` of the
/// lead, so merging it is not wasted work.
pub open spec fn window_ok(s: Seq<(u64, u64)>, start: int, w: int, ratio: int) -> bool {
    forall|k: int| start < k < start + w ==> (#[trigger] s[k]).1 * ratio > s[start].1
}

/// The compaction worker's state: its own view of the runs on disk, and
/// the policy knobs.
pub struct Compactor {
    /// (id, size) of each run the worker knows of, ascending by id.
    pub sstables: RunSet,
    /// The policy: `merge_window` and `merge_ratio`.
    pub config: Config,
}

impl Compactor {
    /// A worker primed with the runs found at open.
    pub fn new(sstables: RunSet, config: Config) -> (r: Compactor)
        ensures
            r.sstables == sstables,
            r.config == config,
    {
        Compactor { sstables, config }
    }

    /// Take note of a message; the result says whether the worker keeps
    /// running. A new run enters the worker's table; a stop ends the loop.
    pub fn handle_message(&mut self, msg: &CompactorMessage) -> (r: bool)
        requires
            old(self).sstables.wf(),
        ensures
            final(self).sstables.wf(),
            final(self).config == old(self).config,
            msg matches CompactorMessage::Stop ==> !r && *final(self) == *old(self),
            msg matches CompactorMessage::HeartBeat ==> r && *final(self) == *old(self),
            msg matches CompactorMessage::NewSSTable { id, size } ==> r
                && final(self).sstables.has(*id, *size) && (forall|x: u64, s: u64|
                x != *id ==> (final(self).sstables.has(x, s) <==> old(self).sstables.has(x, s))),
    {
        match msg {
            CompactorMessage::NewSSTable { id, size } => {
                self.sstables.insert_run(*id, *size);
                true
            },
            CompactorMessage::Stop => false,
            CompactorMessage::HeartBeat => true,
        }
    }

    /// The maintenance decision: the first window of `window_len`
    /// consecutive runs whose tail sizes are all within a factor of
    /// `merge_ratio` of the lead, as the ids to compact; nothing if fewer
    /// runs exist than a window spans, or no window qualifies.
    pub fn sstable_maintenance(&self) -> (r: Option<Vec<u64>>)
        requires
            self.sstables.wf(),
        ensures
            r is None ==> self.sstables.model().len() < window_len(self.config) || (forall|
                start: int,
            |
                0 <= start <= self.sstables.model().len() - window_len(self.config)
                    ==> !window_ok(
                    self.sstables.model(),
                    start,
                    window_len(self.config),
                    self.config.merge_ratio as int,
                )),
            r matches Some(ids) ==> exists|start: int|
                {
                    &&& 0 <= start <= self.sstables.model().len() - window_len(self.config)
                    &&& window_ok(
                        self.sstables.model(),
                        start,
                        window_len(self.config),
                        self.config.merge_ratio as int,
                    )
                    &&& forall|s2: int|
                        0 <= s2 < start ==> !window_ok(
                            self.sstables.model(),
                            s2,
                            window_len(self.config),
                            self.config.merge_ratio as int,
                        )
                    &&& ids@ == self.sstables.model().subrange(
                        start,
                        start + window_len(self.config),
                    ).map_values(|p: (u64, u64)| p.0)
                },
    {
        let w: usize = if self.config.merge_window >= 2 {
            self.config.merge_window as usize
        } else {
            2
        };
        let n = self.sstables.len();
        if n < w {
            return None;
        }
        let ghost s = self.sstables.model();
        let ghost wi = window_len(self.config);
        let ghost ratio = self.config.merge_ratio as int;
        let mut start: usize = 0;
        while start <= n - w
            invariant
                0 <= start <= n - w + 1,
                w >= 2,
                n == s.len(),
                n >= w,
                s == self.sstables.model(),
                wi == w,
                wi == window_len(self.config),
                ratio == self.config.merge_ratio as int,
                self.sstables.wf(),
                forall|s2: int| 0 <= s2 < start ==> !window_ok(s, s2, wi, ratio),
            decreases n - w - start + 1,
        {
            let lead = self.sstables.item_at(start).1;
            let mut k: usize = 1;
            let mut all_ok = true;
            while k < w
                invariant
                    1 <= k <= w,
                    0 <= start <= n - w,
                    n == s.len(),
                    s == self.sstables.model(),
                    self.sstables.wf(),
                    lead == s[start as int].1,
                    all_ok ==> forall|kk: int|
                        start < kk < start + k ==> (#[trigger] s[kk]).1 * ratio > s[start as int].1,
                    !all_ok ==> !window_ok(s, start as int, wi, ratio),
                    wi == w,
                    ratio == self.config.merge_ratio as int,
                decreases w - k,
            {
                let sz = self.sstables.item_at(start + k).1;
                proof {
                    assert((sz as u128) * (self.config.merge_ratio as u128)
                        <= 0xFFFF_FFFF_FFFF_FFFFu128 * 0xFFu128) by (nonlinear_arith)
                        requires
                            sz <= 0xFFFF_FFFF_FFFF_FFFFu64,
                            self.config.merge_ratio <= 0xFFu8,
                    {
                    }
                }
                if !((sz as u128) * (self.config.merge_ratio as u128) > (lead as u128)) {
                    proof {
                        assert(s[start + k].1 * ratio <= s[start as int].1);
                    }
                    all_ok = false;
                }
                k = k + 1;
            }
            if all_ok {
                let mut ids: Vec<u64> = Vec::new();
                let mut j: usize = 0;
                while j < w
                    invariant
                        0 <= j <= w,
                        0 <= start <= n - w,
                        n == s.len(),
                        s == self.sstables.model(),
                        self.sstables.wf(),
                        ids@.len() == j,
                        forall|a: int| 0 <= a < j ==> ids@[a] == (#[trigger] s[start + a]).0,
                    decreases w - j,
                {
                    ids.push(self.sstables.item_at(start + j).0);
                    j = j + 1;
                }
                proof {
                    assert forall|a: int| 0 <= a < wi implies ids@[a] == s.subrange(
                        start as int,
                        start + wi,
                    ).map_values(|p: (u64, u64)| p.0)[a] by {
                        assert(s.subrange(start as int, start + wi)[a] == s[start + a]);
                    }
                    assert(ids@ =~= s.subrange(start as int, start + wi).map_values(
                        |p: (u64, u64)| p.0,
                    ));
                    assert(window_ok(s, start as int, wi, ratio));
                }
                return Some(ids);
            }
            start = start + 1;
        }
        None
    }
}

} // verus!
