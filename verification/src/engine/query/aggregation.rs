use vstd::prelude::*;
use crate::text::{str_eq, to_lowercase, lowercase_of};
use crate::engine::active_block::trunc_div;

verus! {

/// An aggregation over the values of a series or of a time bucket. The
/// percentile is held as the IEEE-754 bit pattern of the percentage.
#[derive(Debug, Clone, Copy, PartialEq, Eq, Structural)]
pub enum AggFunc {
    Avg,
    Sum,
    Max,
    Min,
    Count,
    First,
    Last,
    Percentile(u64),
    Rate,
    Derivative,
}

/// The bit pattern of the float 50.0.
pub const P50_BITS: u64 = 0x4049_0000_0000_0000u64;

/// The bit pattern of the float 90.0.
pub const P90_BITS: u64 = 0x4056_8000_0000_0000u64;

/// The bit pattern of the float 99.0.
pub const P99_BITS: u64 = 0x4058_C000_0000_0000u64;

/// The aggregation an already lowercased name stands for.
pub open spec fn agg_func_of(s: Seq<char>) -> Option<AggFunc> {
    if s == "avg"@ {
        Some(AggFunc::Avg)
    } else if s == "sum"@ {
        Some(AggFunc::Sum)
    } else if s == "max"@ {
        Some(AggFunc::Max)
    } else if s == "min"@ {
        Some(AggFunc::Min)
    } else if s == "count"@ {
        Some(AggFunc::Count)
    } else if s == "first"@ {
        Some(AggFunc::First)
    } else if s == "last"@ {
        Some(AggFunc::Last)
    } else if s == "p50"@ {
        Some(AggFunc::Percentile(P50_BITS))
    } else if s == "p90"@ {
        Some(AggFunc::Percentile(P90_BITS))
    } else if s == "p99"@ {
        Some(AggFunc::Percentile(P99_BITS))
    } else if s == "rate"@ {
        Some(AggFunc::Rate)
    } else if s == "derivative"@ {
        Some(AggFunc::Derivative)
    } else {
        None
    }
}

impl AggFunc {
    /// Parses an already lowercased name.
    pub fn from_lowercase(s: &str) -> (r: Option<Self>)
        ensures
            r == agg_func_of(s@),
    {
        if str_eq(s, "avg") {
            Some(AggFunc::Avg)
        } else if str_eq(s, "sum") {
            Some(AggFunc::Sum)
        } else if str_eq(s, "max") {
            Some(AggFunc::Max)
        } else if str_eq(s, "min") {
            Some(AggFunc::Min)
        } else if str_eq(s, "count") {
            Some(AggFunc::Count)
        } else if str_eq(s, "first") {
            Some(AggFunc::First)
        } else if str_eq(s, "last") {
            Some(AggFunc::Last)
        } else if str_eq(s, "p50") {
            Some(AggFunc::Percentile(P50_BITS))
        } else if str_eq(s, "p90") {
            Some(AggFunc::Percentile(P90_BITS))
        } else if str_eq(s, "p99") {
            Some(AggFunc::Percentile(P99_BITS))
        } else if str_eq(s, "rate") {
            Some(AggFunc::Rate)
        } else if str_eq(s, "derivative") {
            Some(AggFunc::Derivative)
        } else {
            None
        }
    }

    /// Parses a name, ignoring case.
    pub fn from_str(s: &str) -> (r: Option<Self>)
        ensures
            r == agg_func_of(lowercase_of(s@)),
    {
        let lower = to_lowercase(s);
        Self::from_lowercase(lower.as_str())
    }
}

/// The start of the bucket of length `w` that holds `ts`: `ts` rounded toward
/// zero to a multiple of `w`.
pub open spec fn bucket_spec(ts: i64, w: i64) -> int {
    trunc_div(ts as int, w as int) * w
}

/// A bucket length that `/` accepts for every timestamp of `ps`: nonzero, and
/// not -1 where `i64::MIN` occurs.
pub open spec fn interval_ok<V>(ps: Seq<(i64, V)>, w: i64) -> bool {
    &&& w != 0
    &&& (w == -1 ==> forall|i: int| 0 <= i < ps.len() ==> ps[i].0 != i64::MIN)
}

proof fn lemma_bucket_bounds(a: int, b: int)
    requires
        b != 0,
    ensures
        a >= 0 ==> 0 <= trunc_div(a, b) * b <= a,
        a < 0 ==> a <= trunc_div(a, b) * b <= 0,
{
    if a >= 0 {
        if b > 0 {
            assert(0 <= (a / b) * b <= a) by (nonlinear_arith)
                requires a >= 0, b > 0;
        } else {
            assert(0 <= (a / (-b)) * (-b) <= a) by (nonlinear_arith)
                requires a >= 0, b < 0;
            assert(-(a / (-b)) * b == (a / (-b)) * (-b)) by (nonlinear_arith);
        }
    } else {
        if b > 0 {
            assert(0 <= ((-a) / b) * b <= -a) by (nonlinear_arith)
                requires a < 0, b > 0;
            assert(-((-a) / b) * b == -(((-a) / b) * b)) by (nonlinear_arith);
        } else {
            assert(0 <= ((-a) / (-b)) * (-b) <= -a) by (nonlinear_arith)
                requires a < 0, b < 0;
            assert(((-a) / (-b)) * b == -(((-a) / (-b)) * (-b))) by (nonlinear_arith);
        }
    }
}

/// The start of the bucket of length `w` that holds `ts`, as `(ts / w) * w`
/// computes it.
pub fn bucket_of(ts: i64, w: i64) -> (r: i64)
    requires
        w != 0,
        w == -1 ==> ts != i64::MIN,
    ensures
        r == bucket_spec(ts, w),
{
    proof {
        lemma_bucket_bounds(ts as int, w as int);
    }
    let q: i64 = if w > 0 {
        ts / w
    } else if w == i64::MIN {
        if ts == i64::MIN {
            1
        } else {
            0
        }
    } else if w == -1 {
        -ts
    } else {
        let d = -w;
        let t = ts / d;
        proof {
            if ts >= 0 {
                assert(0 <= (ts as int) / (d as int) <= ts) by (nonlinear_arith)
                    requires ts >= 0, d >= 2;
            } else {
                assert(0 <= (-(ts as int)) / (d as int) < 0x8000_0000_0000_0000) by (nonlinear_arith)
                    requires ts < 0, -(ts as int) <= 0x8000_0000_0000_0000, d >= 2;
            }
        }
        -t
    };
    proof {
        if w == i64::MIN {
            if ts >= 0 {
                assert((ts as int) / 0x8000_0000_0000_0000 == 0) by (nonlinear_arith)
                    requires 0 <= ts < 0x8000_0000_0000_0000;
            } else {
                assert((-(ts as int)) / 0x8000_0000_0000_0000 == if ts == i64::MIN { 1int } else { 0int })
                    by (nonlinear_arith)
                    requires ts < 0, -(ts as int) <= 0x8000_0000_0000_0000;
            }
        }
    }
    assert(q == trunc_div(ts as int, w as int));
    q * w
}

/// The groups after a value is added under bucket `b`: appended to that
/// bucket's values if it is present, else a new bucket placed in ascending
/// order.
pub open spec fn group_add<V>(g: Seq<(i64, Seq<V>)>, b: i64, v: V) -> Seq<(i64, Seq<V>)>
    decreases g.len(),
{
    if g.len() == 0 {
        seq![(b, seq![v])]
    } else if g[0].0 == b {
        seq![(b, g[0].1.push(v))] + g.drop_first()
    } else if b < g[0].0 {
        seq![(b, seq![v])] + g
    } else {
        seq![g[0]] + group_add(g.drop_first(), b, v)
    }
}

/// The values of `ps` grouped by the bucket of their timestamp: buckets in
/// ascending order, each with its values in the order of `ps`.
pub open spec fn groups_spec<V>(ps: Seq<(i64, V)>, w: i64) -> Seq<(i64, Seq<V>)>
    decreases ps.len(),
{
    if ps.len() == 0 {
        seq![]
    } else {
        group_add(groups_spec(ps.drop_last(), w), bucket_spec(ps.last().0, w) as i64, ps.last().1)
    }
}

pub open spec fn buckets_ascending<V>(g: Seq<(i64, Seq<V>)>) -> bool {
    forall|i: int, j: int| 0 <= i < j < g.len() ==> g[i].0 < g[j].0
}

pub open spec fn groups_view<V>(g: Seq<(i64, Vec<V>)>) -> Seq<(i64, Seq<V>)> {
    g.map_values(|x: (i64, Vec<V>)| (x.0, x.1@))
}

proof fn lemma_group_add_at<V>(g: Seq<(i64, Seq<V>)>, b: i64, v: V, i: int)
    requires
        buckets_ascending(g),
        0 <= i <= g.len(),
        forall|j: int| 0 <= j < i ==> g[j].0 < b,
        i < g.len() ==> b <= g[i].0,
    ensures
        group_add(g, b, v) == (if i < g.len() && g[i].0 == b {
            g.update(i, (b, g[i].1.push(v)))
        } else {
            g.insert(i, (b, seq![v]))
        }),
        buckets_ascending(group_add(g, b, v)),
    decreases i,
{
    let r = group_add(g, b, v);
    if i == 0 {
        if g.len() == 0 {
            assert(r =~= g.insert(0, (b, seq![v])));
        } else if g[0].0 == b {
            assert(r =~= g.update(0, (b, g[0].1.push(v))));
        } else {
            assert(r =~= g.insert(0, (b, seq![v])));
        }
    } else {
        let t = g.drop_first();
        lemma_group_add_at(t, b, v, i - 1);
        if i < g.len() && g[i].0 == b {
            assert(r =~= g.update(i, (b, g[i].1.push(v))));
        } else {
            assert(r =~= g.insert(i, (b, seq![v])));
        }
    }
}

/// Groups the values of `points` by the bucket of length `interval_ns` that
/// holds their timestamp: the buckets in ascending order, each with its values
/// in the order of `points`.
pub fn group_by_time<V: Copy>(points: &[(i64, V)], interval_ns: i64) -> (r: Vec<(i64, Vec<V>)>)
    requires
        interval_ok(points@, interval_ns),
    ensures
        groups_view(r@) == groups_spec(points@, interval_ns),
        buckets_ascending(groups_view(r@)),
{
    let mut groups: Vec<(i64, Vec<V>)> = Vec::new();
    let mut k: usize = 0;
    while k < points.len()
        invariant
            k <= points.len(),
            interval_ok(points@, interval_ns),
            groups_view(groups@) == groups_spec(points@.take(k as int), interval_ns),
            buckets_ascending(groups_view(groups@)),
        decreases points.len() - k,
    {
        let (ts, val) = points[k];
        assert(points@[k as int].0 == ts);
        let b = bucket_of(ts, interval_ns);
        let ghost g = groups_view(groups@);
        let mut i: usize = 0;
        while i < groups.len() && groups[i].0 < b
            invariant
                i <= groups.len(),
                g == groups_view(groups@),
                forall|j: int| 0 <= j < i ==> g[j].0 < b,
            decreases groups.len() - i,
        {
            i = i + 1;
        }
        proof {
            lemma_group_add_at(g, b, val, i as int);
            assert(points@.take(k as int + 1).drop_last() =~= points@.take(k as int));
            assert(points@.take(k as int + 1).last() == (ts, val));
        }
        if i < groups.len() && groups[i].0 == b {
            let ghost old_vals = groups@[i as int].1@;
            groups[i].1.push(val);
            assert(groups@[i as int].1@ == old_vals.push(val));
            assert(groups_view(groups@) =~= g.update(i as int, (b, g[i as int].1.push(val))));
        } else {
            let mut vals: Vec<V> = Vec::new();
            vals.push(val);
            groups.insert(i, (b, vals));
            assert(vals@ =~= seq![val]);
            assert(groups_view(groups@) =~= g.insert(i as int, (b, seq![val])));
        }
        k = k + 1;
    }
    assert(points@.take(points.len() as int) =~= points@);
    groups
}

/// The number of values over all groups.
pub open spec fn grouped_count<V>(g: Seq<(i64, Seq<V>)>) -> nat
    decreases g.len(),
{
    if g.len() == 0 {
        0
    } else {
        g[0].1.len() + grouped_count(g.drop_first())
    }
}

proof fn lemma_group_add_count<V>(g: Seq<(i64, Seq<V>)>, b: i64, v: V)
    ensures
        grouped_count(group_add(g, b, v)) == grouped_count(g) + 1,
    decreases g.len(),
{
    let r = group_add(g, b, v);
    if g.len() == 0 {
        assert(r.drop_first() =~= g);
    } else if g[0].0 == b {
        assert(r.drop_first() =~= g.drop_first());
    } else if b < g[0].0 {
        assert(r.drop_first() =~= g);
    } else {
        assert(r.drop_first() =~= group_add(g.drop_first(), b, v));
        lemma_group_add_count(g.drop_first(), b, v);
    }
}

/// Grouping loses and invents no value: the groups hold, all told, as many
/// values as there are points.
pub proof fn lemma_grouping_keeps_count<V>(ps: Seq<(i64, V)>, w: i64)
    ensures
        grouped_count(groups_spec(ps, w)) == ps.len(),
    decreases ps.len(),
{
    if ps.len() > 0 {
        lemma_grouping_keeps_count(ps.drop_last(), w);
        lemma_group_add_count(groups_spec(ps.drop_last(), w), bucket_spec(ps.last().0, w) as i64, ps.last().1);
    }
}

} // verus!
