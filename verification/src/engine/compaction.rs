use vstd::prelude::*;
use crate::engine::block::BlockMeta;
use crate::text::str_eq;

verus! {

/// Four consecutive blocks of a metric are compacted when together they take
/// less than this many bytes.
pub const COMPACTION_SIZE_LIMIT: u64 = 268_435_456;

/// The blocks with `b` placed after every block that does not start later.
pub open spec fn insert_by_min(s: Seq<BlockMeta>, b: BlockMeta) -> Seq<BlockMeta>
    decreases s.len(),
{
    if s.len() == 0 {
        seq![b]
    } else if b.min_timestamp < s.last().min_timestamp {
        insert_by_min(s.drop_last(), b).push(s.last())
    } else {
        s.push(b)
    }
}

/// The blocks ordered by their least timestamp, blocks with equal ones kept
/// in their order.
pub open spec fn sort_by_min_spec(s: Seq<BlockMeta>) -> Seq<BlockMeta>
    decreases s.len(),
{
    if s.len() == 0 {
        seq![]
    } else {
        insert_by_min(sort_by_min_spec(s.drop_last()), s.last())
    }
}

/// The blocks of metric `m`, in order.
pub open spec fn blocks_of(s: Seq<BlockMeta>, m: Seq<char>) -> Seq<BlockMeta>
    decreases s.len(),
{
    if s.len() == 0 {
        seq![]
    } else if s.last().metric@ == m {
        blocks_of(s.drop_last(), m).push(s.last())
    } else {
        blocks_of(s.drop_last(), m)
    }
}

/// The metrics of the blocks, each once, in the order first seen.
pub open spec fn metrics_of(s: Seq<BlockMeta>) -> Seq<Seq<char>>
    decreases s.len(),
{
    if s.len() == 0 {
        seq![]
    } else if metrics_of(s.drop_last()).contains(s.last().metric@) {
        metrics_of(s.drop_last())
    } else {
        metrics_of(s.drop_last()).push(s.last().metric@)
    }
}

/// The compressed bytes of four blocks.
pub open spec fn size_of_four(s: Seq<BlockMeta>, i: int) -> int {
    s[i].compressed_size + s[i + 1].compressed_size + s[i + 2].compressed_size + s[i
        + 3].compressed_size
}

/// The starts of the windows compacted in a sorted group, scanning from `i`:
/// four blocks under the limit are compacted and the scan moves past them;
/// otherwise it moves on by one.
pub open spec fn windows_from(s: Seq<BlockMeta>, i: int) -> Seq<int>
    decreases s.len() - i,
{
    if i < 0 || i + 3 >= s.len() {
        seq![]
    } else if size_of_four(s, i) < COMPACTION_SIZE_LIMIT {
        seq![i] + windows_from(s, i + 4)
    } else {
        windows_from(s, i + 1)
    }
}

/// Four blocks of one metric to compact, with their least and greatest
/// timestamps.
#[derive(Debug)]
pub struct CompactionWindow {
    pub metric: String,
    pub blocks: Vec<BlockMeta>,
    pub min_timestamp: i64,
    pub max_timestamp: i64,
}

proof fn lemma_insert_by_min_at(s: Seq<BlockMeta>, b: BlockMeta, j: int)
    requires
        0 <= j <= s.len(),
        forall|k: int| j <= k < s.len() ==> b.min_timestamp < #[trigger] s[k].min_timestamp,
        j > 0 ==> !(b.min_timestamp < s[j - 1].min_timestamp),
    ensures
        insert_by_min(s, b) == s.insert(j, b),
    decreases s.len(),
{
    if s.len() == 0 {
        assert(s.insert(j, b) =~= seq![b]);
    } else if j == s.len() {
        assert(s.insert(j, b) =~= s.push(b));
    } else {
        lemma_insert_by_min_at(s.drop_last(), b, j);
        assert(s.drop_last().insert(j, b).push(s.last()) =~= s.insert(j, b));
    }
}

/// The blocks of `metric`, ordered by their least timestamp, equal ones in
/// their order.
fn sorted_group(blocks: &Vec<BlockMeta>, metric: &str) -> (r: Vec<BlockMeta>)
    ensures
        r@ == sort_by_min_spec(blocks_of(blocks@, metric@)),
{
    let mut out: Vec<BlockMeta> = Vec::new();
    let mut i: usize = 0;
    let ghost g: Seq<BlockMeta> = seq![];
    while i < blocks.len()
        invariant
            i <= blocks.len(),
            g == blocks_of(blocks@.take(i as int), metric@),
            out@ == sort_by_min_spec(g),
        decreases blocks.len() - i,
    {
        assert(blocks@.take(i as int + 1).drop_last() =~= blocks@.take(i as int));
        if str_eq(blocks[i].metric.as_str(), metric) {
            let b = blocks[i].duplicate();
            let mut j: usize = out.len();
            while j > 0 && b.min_timestamp < out[j - 1].min_timestamp
                invariant
                    j <= out.len(),
                    forall|k: int| j <= k < out.len() ==> b.min_timestamp < #[trigger] out@[k].min_timestamp,
                decreases j,
            {
                j = j - 1;
            }
            proof {
                lemma_insert_by_min_at(out@, b, j as int);
                assert(g.push(b).drop_last() =~= g);
                g = g.push(b);
            }
            out.insert(j, b);
        }
        i = i + 1;
    }
    assert(blocks@.take(blocks.len() as int) =~= blocks@);
    out
}

/// The distinct metrics of the blocks, in the order first seen.
fn distinct_metrics(blocks: &Vec<BlockMeta>) -> (r: Vec<String>)
    ensures
        r@.map_values(|s: String| s@) == metrics_of(blocks@),
{
    let mut out: Vec<String> = Vec::new();
    let mut i: usize = 0;
    while i < blocks.len()
        invariant
            i <= blocks.len(),
            out@.map_values(|s: String| s@) == metrics_of(blocks@.take(i as int)),
        decreases blocks.len() - i,
    {
        assert(blocks@.take(i as int + 1).drop_last() =~= blocks@.take(i as int));
        let ghost seen = out@.map_values(|s: String| s@);
        let mut j: usize = 0;
        let mut found = false;
        while j < out.len()
            invariant
                j <= out.len(),
                i < blocks.len(),
                seen == out@.map_values(|s: String| s@),
                found == (exists|k: int| 0 <= k < j && seen[k] == blocks@[i as int].metric@),
            decreases out.len() - j,
        {
            if str_eq(out[j].as_str(), blocks[i].metric.as_str()) {
                assert(seen[j as int] == out@[j as int]@);
                found = true;
            }
            j = j + 1;
        }
        if !found {
            out.push(blocks[i].metric.clone());
            assert(out@.map_values(|s: String| s@) =~= seen.push(blocks@[i as int].metric@));
        }
        i = i + 1;
    }
    assert(blocks@.take(blocks.len() as int) =~= blocks@);
    out
}

/// The windows compacted in a group, as `windows_from(s, 0)` describes them,
/// with their blocks and time span.
pub open spec fn windows_ok(w: Seq<CompactionWindow>, metric: Seq<char>, s: Seq<BlockMeta>, starts: Seq<int>) -> bool {
    &&& w.len() == starts.len()
    &&& forall|k: int|
        0 <= k < w.len() ==> {
            let i = starts[k];
            &&& (#[trigger] w[k]).metric@ == metric
            &&& w[k].blocks@ == s.subrange(i, i + 4)
            &&& w[k].min_timestamp == min4(s, i)
            &&& w[k].max_timestamp == max4(s, i)
        }
}

pub open spec fn min2(a: i64, b: i64) -> i64 {
    if a <= b { a } else { b }
}

pub open spec fn max2(a: i64, b: i64) -> i64 {
    if a >= b { a } else { b }
}

/// The least of the least timestamps of four blocks.
pub open spec fn min4(s: Seq<BlockMeta>, i: int) -> i64 {
    min2(min2(min2(s[i].min_timestamp, s[i + 1].min_timestamp), s[i + 2].min_timestamp), s[i + 3].min_timestamp)
}

/// The greatest of the greatest timestamps of four blocks.
pub open spec fn max4(s: Seq<BlockMeta>, i: int) -> i64 {
    max2(max2(max2(s[i].max_timestamp, s[i + 1].max_timestamp), s[i + 2].max_timestamp), s[i + 3].max_timestamp)
}

/// The windows compacted in one sorted group of a metric.
fn group_windows(metric: &String, s: &Vec<BlockMeta>) -> (r: Vec<CompactionWindow>)
    ensures
        windows_ok(r@, metric@, s@, windows_from(s@, 0)),
{
    let mut out: Vec<CompactionWindow> = Vec::new();
    let mut i: usize = 0;
    let ghost done: Seq<int> = seq![];
    while s.len() > 3 && i < s.len() - 3
        invariant
            i <= s.len(),
            windows_from(s@, 0) == done + windows_from(s@, i as int),
            windows_ok(out@, metric@, s@, done),
        decreases s.len() - i,
    {
        let total: u128 = s[i].compressed_size as u128 + s[i + 1].compressed_size as u128 + s[i
            + 2].compressed_size as u128 + s[i + 3].compressed_size as u128;
        if total < COMPACTION_SIZE_LIMIT as u128 {
            let mut blocks: Vec<BlockMeta> = Vec::new();
            blocks.push(s[i].duplicate());
            blocks.push(s[i + 1].duplicate());
            blocks.push(s[i + 2].duplicate());
            blocks.push(s[i + 3].duplicate());
            assert(blocks@ =~= s@.subrange(i as int, i as int + 4));
            let mut lo = s[i].min_timestamp;
            let mut hi = s[i].max_timestamp;
            let mut k: usize = i + 1;
            while k < i + 4
                invariant
                    i + 1 <= k <= i + 4,
                    i + 3 < s.len(),
                    k == i + 1 ==> lo == s@[i as int].min_timestamp && hi == s@[i as int].max_timestamp,
                    k == i + 2 ==> lo == min2(s@[i as int].min_timestamp, s@[i + 1].min_timestamp)
                        && hi == max2(s@[i as int].max_timestamp, s@[i + 1].max_timestamp),
                    k == i + 3 ==> lo == min2(
                        min2(s@[i as int].min_timestamp, s@[i + 1].min_timestamp),
                        s@[i + 2].min_timestamp,
                    ) && hi == max2(
                        max2(s@[i as int].max_timestamp, s@[i + 1].max_timestamp),
                        s@[i + 2].max_timestamp,
                    ),
                    k == i + 4 ==> lo == min4(s@, i as int) && hi == max4(s@, i as int),
                decreases i + 4 - k,
            {
                if s[k].min_timestamp < lo {
                    lo = s[k].min_timestamp;
                }
                if s[k].max_timestamp > hi {
                    hi = s[k].max_timestamp;
                }
                k = k + 1;
            }
            let ghost start = i as int;
            out.push(CompactionWindow { metric: metric.clone(), blocks, min_timestamp: lo, max_timestamp: hi });
            proof {
                assert(windows_from(s@, start) == seq![start] + windows_from(s@, start + 4));
                assert(done + windows_from(s@, start) =~= done.push(start) + windows_from(s@, start + 4));
                done = done.push(start);
                assert forall|q: int| 0 <= q < out@.len() implies {
                    let j = done[q];
                    &&& (#[trigger] out@[q]).metric@ == metric@
                    &&& out@[q].blocks@ == s@.subrange(j, j + 4)
                    &&& out@[q].min_timestamp == min4(s@, j)
                    &&& out@[q].max_timestamp == max4(s@, j)
                } by {
                }
            }
            i = i + 4;
        } else {
            i = i + 1;
        }
    }
    assert(windows_from(s@, i as int) =~= Seq::<int>::empty());
    assert(done + Seq::<int>::empty() =~= done);
    out
}

/// What compaction removes, metric by metric in the order first seen: each
/// metric's blocks are ordered by their least timestamp (equal ones kept in
/// order) and scanned for four consecutive blocks under the size limit.
pub open spec fn plan_ok(r: Seq<CompactionWindow>, blocks: Seq<BlockMeta>) -> bool {
    exists|parts: Seq<Seq<CompactionWindow>>|
        {
            &&& parts.len() == metrics_of(blocks).len()
            &&& r == parts.flatten()
            &&& forall|m: int|
                0 <= m < parts.len() ==> {
                    let metric = metrics_of(blocks)[m];
                    let s = sort_by_min_spec(blocks_of(blocks, metric));
                    windows_ok(#[trigger] parts[m], metric, s, windows_from(s, 0))
                }
        }
}

/// Plans a compaction of the blocks: for each metric, the windows of four
/// consecutive blocks (by least timestamp) that together take less than the
/// size limit.
pub fn plan_compaction(blocks: &Vec<BlockMeta>) -> (r: Vec<CompactionWindow>)
    ensures
        plan_ok(r@, blocks@),
{
    let metrics = distinct_metrics(blocks);
    assert(Seq::<Seq<CompactionWindow>>::empty().flatten() =~= Seq::<CompactionWindow>::empty());
    let ghost mv = metrics@.map_values(|s: String| s@);
    let mut out: Vec<CompactionWindow> = Vec::new();
    let ghost parts: Seq<Seq<CompactionWindow>> = seq![];
    let mut m: usize = 0;
    while m < metrics.len()
        invariant
            m <= metrics.len(),
            mv == metrics@.map_values(|s: String| s@),
            mv == metrics_of(blocks@),
            parts.len() == m,
            out@ == parts.flatten(),
            forall|q: int|
                0 <= q < parts.len() ==> {
                    let metric = metrics_of(blocks@)[q];
                    let s = sort_by_min_spec(blocks_of(blocks@, metric));
                    windows_ok(#[trigger] parts[q], metric, s, windows_from(s, 0))
                },
        decreases metrics.len() - m,
    {
        let group = sorted_group(blocks, metrics[m].as_str());
        let ws = group_windows(&metrics[m], &group);
        let ghost wv = ws@;
        let mut ws = ws;
        out.append(&mut ws);
        proof {
            Seq::lemma_flatten_push(parts, wv);
        }
        proof {
            assert(metrics@[m as int]@ == mv[m as int]);
            assert forall|q: int|
                0 <= q < parts.len() + 1 implies {
                    let metric = metrics_of(blocks@)[q];
                    let s = sort_by_min_spec(blocks_of(blocks@, metric));
                    windows_ok(#[trigger] parts.push(wv)[q], metric, s, windows_from(s, 0))
                } by {
                if q < parts.len() {
                    assert(parts.push(wv)[q] == parts[q]);
                }
            }
            parts = parts.push(wv);
        }
        m = m + 1;
    }
    out
}

} // verus!
