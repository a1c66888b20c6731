use vstd::prelude::*;
use crate::engine::block::BlockMeta;
use crate::engine::index::time_index::{TimeIndex, overlapping, ids_for};

verus! {

/// Nanoseconds in a day.
pub const NANOS_PER_DAY: i64 = 86_400_000_000_000;

/// The instant before which a metric's blocks expire under a retention of
/// `ttl_days` days.
pub open spec fn cutoff_spec(now_ns: i64, ttl_days: u32) -> int {
    now_ns - ttl_days * 86_400_000_000_000
}

/// The expiry instant for a retention of `ttl_days` days at the time `now_ns`.
pub fn ttl_cutoff(now_ns: i64, ttl_days: u32) -> (r: i64)
    requires
        i64::MIN <= cutoff_spec(now_ns, ttl_days) <= i64::MAX,
        ttl_days * 86_400_000_000_000 <= i64::MAX,
    ensures
        r == cutoff_spec(now_ns, ttl_days),
{
    now_ns - (ttl_days as i64 * NANOS_PER_DAY)
}

/// The blocks found in a search before `cutoff` whose every point is
/// before it.
pub open spec fn expired_spec(found: Seq<BlockMeta>, cutoff: i64) -> Seq<BlockMeta>
    decreases found.len(),
{
    if found.len() == 0 {
        seq![]
    } else if found.last().max_timestamp < cutoff {
        expired_spec(found.drop_last(), cutoff).push(found.last())
    } else {
        expired_spec(found.drop_last(), cutoff)
    }
}

/// The blocks of `metric` that expire at `cutoff`: those the index finds
/// over `[i64::MIN, cutoff)` whose greatest timestamp is before the cutoff.
pub fn expired_blocks(index: &TimeIndex, metric: &str, cutoff: i64) -> (r: Vec<BlockMeta>)
    requires
        index@.wf(),
    ensures
        r@ == expired_spec(
            overlapping(ids_for(index@.metric_blocks, metric@), index@.blocks, i64::MIN, cutoff),
            cutoff,
        ),
{
    let found = index.find_blocks(metric, i64::MIN, cutoff);
    let mut out: Vec<BlockMeta> = Vec::new();
    let mut i: usize = 0;
    while i < found.len()
        invariant
            i <= found.len(),
            out@ == expired_spec(found@.take(i as int), cutoff),
        decreases found.len() - i,
    {
        assert(found@.take(i as int + 1).drop_last() =~= found@.take(i as int));
        if found[i].max_timestamp < cutoff {
            out.push(found[i].duplicate());
        }
        i = i + 1;
    }
    assert(found@.take(found.len() as int) =~= found@);
    out
}

} // verus!
