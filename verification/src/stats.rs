//! Counters a worker keeps of its own I/O.
use vstd::prelude::*;

verus! {

/// Bytes a worker has read and written.
pub struct WorkerStats {
    pub read_bytes: u64,
    pub written_bytes: u64,
}

impl WorkerStats {
    /// Fresh counters.
    pub fn new() -> (r: WorkerStats)
        ensures
            r.read_bytes == 0,
            r.written_bytes == 0,
    {
        WorkerStats { read_bytes: 0, written_bytes: 0 }
    }
}

} // verus!
