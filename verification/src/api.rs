use vstd::prelude::*;
use crate::config::{WalSyncMode, RetentionPolicy, wal_sync_mode_name};
use crate::engine::block::BlockMeta;

verus! {

/// A write carries at most this many points.
pub const MAX_POINTS_PER_REQUEST: usize = 10000;

/// A write request: the line-protocol text, when sent as a field.
#[derive(Debug)]
pub struct WriteRequest {
    pub body: Option<String>,
}

/// The answer to a write: how many points were written, how many failed, and
/// each failure with the number of its line.
#[derive(Debug)]
pub struct WriteResponse {
    pub success: usize,
    pub failed: usize,
    pub errors: Vec<(usize, String)>,
}

/// Whether a batch has more points than a write accepts.
pub fn batch_too_large(points: usize) -> (r: bool)
    ensures
        r == (points > MAX_POINTS_PER_REQUEST),
{
    points > MAX_POINTS_PER_REQUEST
}

impl WriteResponse {
    /// The answer to a write: the parse failures, then the write failures.
    pub fn from_parts(
        success: usize,
        parse_errors: Vec<(usize, String)>,
        write_errors: Vec<(usize, String)>,
    ) -> (r: Self)
        ensures
            r.success == success,
            r.errors@ == parse_errors@ + write_errors@,
            r.failed == r.errors@.len(),
    {
        let mut all = parse_errors;
        let mut more = write_errors;
        all.append(&mut more);
        let failed = all.len();
        WriteResponse { success, failed, errors: all }
    }
}

/// The metrics that received points.
#[derive(Debug)]
pub struct MetricsResponse {
    pub metrics: Vec<String>,
}

/// A request for the tags of a metric.
#[derive(Debug)]
pub struct TagsQuery {
    pub metric: String,
}

/// Each tag key of a metric with its values.
#[derive(Debug)]
pub struct TagsResponse {
    pub tags: Vec<(String, Vec<String>)>,
}

/// How many series are registered.
#[derive(Debug)]
pub struct SeriesCountResponse {
    pub count: usize,
}

/// The registered blocks.
#[derive(Debug)]
pub struct BlocksResponse {
    pub blocks: Vec<BlockMeta>,
}

/// The write-ahead log's settings and size.
#[derive(Debug)]
pub struct WalConfigResponse {
    pub sync_mode: String,
    pub max_file_size_bytes: u64,
    pub current_size_bytes: u64,
}

impl WalConfigResponse {
    /// The report of the log's mode, size limit and current size.
    pub fn new(mode: WalSyncMode, max_file_size_bytes: u64, current_size_bytes: u64) -> (r: Self)
        ensures
            r.sync_mode@ == wal_sync_mode_name(mode),
            r.max_file_size_bytes == max_file_size_bytes,
            r.current_size_bytes == current_size_bytes,
    {
        WalConfigResponse { sync_mode: mode.as_str().to_owned(), max_file_size_bytes, current_size_bytes }
    }
}

/// A request to change the log's sync mode.
#[derive(Debug)]
pub struct WalConfigUpdate {
    pub sync_mode: String,
}

/// A request to create a retention policy.
#[derive(Debug)]
pub struct RetentionCreate {
    pub metric: String,
    pub ttl_days: u32,
    pub downsample_7d_interval_secs: Option<i64>,
    pub downsample_30d_interval_secs: Option<i64>,
}

impl RetentionCreate {
    /// The policy the request asks for.
    pub fn into_policy(self) -> (r: RetentionPolicy)
        ensures
            r.metric == self.metric,
            r.ttl_days == self.ttl_days,
            r.downsample_7d_interval_secs == self.downsample_7d_interval_secs,
            r.downsample_30d_interval_secs == self.downsample_30d_interval_secs,
    {
        RetentionPolicy {
            metric: self.metric,
            ttl_days: self.ttl_days,
            downsample_7d_interval_secs: self.downsample_7d_interval_secs,
            downsample_30d_interval_secs: self.downsample_30d_interval_secs,
        }
    }
}

} // verus!
