use vstd::prelude::*;
use crate::text::{str_eq, to_lowercase, lowercase_of};

verus! {

/// When the write-ahead log is synced to disk.
#[derive(Debug, Clone, Copy, PartialEq, Eq, Structural)]
pub enum WalSyncMode {
    EveryWrite,
    EverySecond,
    NoSync,
}

/// The mode a lowercased name stands for.
pub open spec fn wal_sync_mode_of(s: Seq<char>) -> Option<WalSyncMode> {
    if s == "every_write"@ || s == "everywrite"@ {
        Some(WalSyncMode::EveryWrite)
    } else if s == "every_second"@ || s == "everysecond"@ {
        Some(WalSyncMode::EverySecond)
    } else if s == "none"@ {
        Some(WalSyncMode::NoSync)
    } else {
        None
    }
}

/// The name under which a mode is reported.
pub open spec fn wal_sync_mode_name(m: WalSyncMode) -> Seq<char> {
    match m {
        WalSyncMode::EveryWrite => "every_write"@,
        WalSyncMode::EverySecond => "every_second"@,
        WalSyncMode::NoSync => "none"@,
    }
}

impl WalSyncMode {
    /// Parses an already lowercased name.
    pub fn from_lowercase(s: &str) -> (r: Option<Self>)
        ensures
            r == wal_sync_mode_of(s@),
    {
        if str_eq(s, "every_write") || str_eq(s, "everywrite") {
            Some(WalSyncMode::EveryWrite)
        } else if str_eq(s, "every_second") || str_eq(s, "everysecond") {
            Some(WalSyncMode::EverySecond)
        } else if str_eq(s, "none") {
            Some(WalSyncMode::NoSync)
        } else {
            None
        }
    }

    /// Parses a name, ignoring case.
    pub fn from_str(s: &str) -> (r: Option<Self>)
        ensures
            r == wal_sync_mode_of(lowercase_of(s@)),
    {
        let lower = to_lowercase(s);
        Self::from_lowercase(lower.as_str())
    }

    /// The name under which the mode is reported.
    pub fn as_str(&self) -> (r: &'static str)
        ensures
            r@ == wal_sync_mode_name(*self),
    {
        match self {
            WalSyncMode::EveryWrite => "every_write",
            WalSyncMode::EverySecond => "every_second",
            WalSyncMode::NoSync => "none",
        }
    }
}

/// How long the blocks of a metric are kept, and the downsampling intervals
/// after seven and thirty days.
#[derive(Debug)]
pub struct RetentionPolicy {
    pub metric: String,
    pub ttl_days: u32,
    pub downsample_7d_interval_secs: Option<i64>,
    pub downsample_30d_interval_secs: Option<i64>,
}

impl RetentionPolicy {
    /// A copy of the policy.
    pub fn duplicate(&self) -> (r: Self)
        ensures
            r == *self,
    {
        RetentionPolicy {
            metric: self.metric.clone(),
            ttl_days: self.ttl_days,
            downsample_7d_interval_secs: self.downsample_7d_interval_secs,
            downsample_30d_interval_secs: self.downsample_30d_interval_secs,
        }
    }
}

/// The engine's settings.
#[derive(Debug)]
pub struct EngineConfig {
    pub data_dir: String,
    pub wal_sync_mode: WalSyncMode,
    pub wal_max_size_bytes: u64,
    pub active_block_window_secs: i64,
    pub max_series_per_metric: usize,
    pub retention_policies: Vec<RetentionPolicy>,
}

impl Default for EngineConfig {
    /// Data under `./data`, the log synced every second and rotated at
    /// 64 MiB, two-hour windows, at most a million series a metric, no
    /// retention policy.
    fn default() -> (r: Self)
        ensures
            r.data_dir@ == "./data"@,
            r.wal_sync_mode == WalSyncMode::EverySecond,
            r.wal_max_size_bytes == 64 * 1024 * 1024,
            r.active_block_window_secs == 7200,
            r.max_series_per_metric == 1_000_000,
            r.retention_policies@.len() == 0,
    {
        EngineConfig {
            data_dir: "./data".to_owned(),
            wal_sync_mode: WalSyncMode::EverySecond,
            wal_max_size_bytes: 64 * 1024 * 1024,
            active_block_window_secs: 7200,
            max_series_per_metric: 1_000_000,
            retention_policies: Vec::new(),
        }
    }
}

} // verus!
