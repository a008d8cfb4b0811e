//! Store configuration and its defaults.
use vstd::prelude::*;

verus! {

pub const DEFAULT_MAX_LOG_LENGTH: u64 = 32 * 1024 * 1024;

pub const DEFAULT_MAX_KEY_SIZE: u64 = 64;

pub const DEFAULT_MAX_VALUE_SIZE: u64 = 65536;

/// Tunables of the store.
#[derive(Clone, Copy, Debug)]
pub struct Config {
    /// Ratio of on-disk to resident bytes that would trigger a full
    /// compaction; reserved, not exercised by the flush or merge policy.
    pub max_space_amp: u8,
    /// Bytes in the write-ahead log that trigger a flush.
    pub max_log_length: u64,
    /// Reject keys larger than this.
    pub max_key_size: u64,
    /// Reject values larger than this.
    pub max_value_size: u64,
    /// A merge window qualifies when every run after its first is larger
    /// than a `merge_ratio`-th of the first.
    pub merge_ratio: u8,
    /// How many consecutive runs a merge window spans, floored at two.
    pub merge_window: u8,
    /// Capacity of the buffered writer wrapping the log file.
    pub log_bufwriter_size: u32,
    /// Reserved for sorted-run compression; runs are written uncompressed.
    pub zstd_sstable_compression_level: u8,
}

impl Config {
    /// The limits leave room for a record and its hint header: any record
    /// within them fits the on-disk size fields.
    pub open spec fn wf(self) -> bool {
        self.max_key_size + self.max_value_size + 40 <= u64::MAX
    }
}

impl Default for Config {
    /// The stock configuration.
    fn default() -> (r: Config)
        ensures
            r.max_space_amp == 2,
            r.max_log_length == DEFAULT_MAX_LOG_LENGTH,
            r.max_key_size == DEFAULT_MAX_KEY_SIZE,
            r.max_value_size == DEFAULT_MAX_VALUE_SIZE,
            r.merge_ratio == 3,
            r.merge_window == 10,
            r.log_bufwriter_size == 32 * 1024,
            r.zstd_sstable_compression_level == 3,
            r.wf(),
    {
        Config {
            max_space_amp: 2,
            max_log_length: DEFAULT_MAX_LOG_LENGTH,
            max_key_size: DEFAULT_MAX_KEY_SIZE,
            max_value_size: DEFAULT_MAX_VALUE_SIZE,
            merge_ratio: 3,
            merge_window: 10,
            log_bufwriter_size: 32 * 1024,
            zstd_sstable_compression_level: 3,
        }
    }
}

} // verus!
