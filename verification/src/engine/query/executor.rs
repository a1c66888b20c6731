use vstd::prelude::*;
use crate::model::{FieldValue, field_sample_of, find_value, find_value_spec};
use crate::engine::block::{SeriesBlockData, DecodedBlock};
use crate::engine::block::series_header::{estimate_point_count, estimate_spec};
use crate::engine::block::field_column::{FieldSample, field_samples, field_samples_spec, lemma_samples_in_window};
use crate::engine::encoding::bits::bits_of;
use crate::engine::encoding::delta_of_delta::{try_decode_timestamps, ts_decode_spec};
use crate::text::str_eq;
use crate::engine::index::inverted::{
    InvertedIndex, InvertedView, TAG_VALUE_LIMIT, tag_value_list, set_at, multi_spec, lemma_multi_same_views,
};

verus! {

/// A query: the metric, the tag filters, the time range `[start_time,
/// end_time)`, the field (`value` when absent), and an optional aggregation and
/// time grouping by name.
#[derive(Debug)]
pub struct QueryRequest {
    pub metric: String,
    pub tags: Vec<(String, String)>,
    pub start_time: i64,
    pub end_time: i64,
    pub field: Option<String>,
    pub aggregation: Option<String>,
    pub group_by: Option<String>,
}

/// The field a query reads: the one it names, else `value`.
pub fn query_field_name(req: &QueryRequest) -> (r: String)
    ensures
        r@ == (match req.field {
            Some(f) => f@,
            None => "value"@,
        }),
{
    match &req.field {
        Some(f) => f.clone(),
        None => "value".to_owned(),
    }
}

/// Whether the tag key of a filter is indexable: fewer values than the limit.
pub open spec fn indexable_key(tv: Seq<(String, Vec<String>)>) -> spec_fn((String, String)) -> bool {
    |p: (String, String)| tag_value_list(tv, p.0@).len() < TAG_VALUE_LIMIT
}

/// The series a query reads: those with every indexable filter tag, or every
/// series of the metric when no filter tag is indexable.
pub open spec fn selected_series(ix: InvertedView, req: QueryRequest) -> Set<u64> {
    let f = req.tags@.filter(indexable_key(ix.tag_values));
    if f.len() == 0 {
        set_at(ix.metric_series, req.metric@)
    } else {
        multi_spec(ix.index, f)
    }
}

/// The series a query reads, each once.
pub fn select_series(index: &InvertedIndex, req: &QueryRequest) -> (r: Vec<u64>)
    requires
        index@.wf(),
    ensures
        r@.no_duplicates(),
        r@.to_set() == selected_series(index@, *req),
{
    let ghost pred = indexable_key(index@.tag_values);
    let mut filters: Vec<(String, String)> = Vec::new();
    let mut i: usize = 0;
    while i < req.tags.len()
        invariant
            i <= req.tags.len(),
            pred == indexable_key(index@.tag_values),
            filters@.len() == req.tags@.take(i as int).filter(pred).len(),
            forall|j: int|
                0 <= j < filters@.len() ==> (#[trigger] filters@[j]).0@ == req.tags@.take(i as int).filter(
                    pred,
                )[j].0@ && filters@[j].1@ == req.tags@.take(i as int).filter(pred)[j].1@,
        decreases req.tags.len() - i,
    {
        let ghost t = req.tags@.take(i as int + 1);
        proof {
            assert(t.drop_last() =~= req.tags@.take(i as int));
            t.drop_last().lemma_filter_push(req.tags@[i as int], pred);
            assert(t =~= t.drop_last().push(req.tags@[i as int]));
        }
        if index.is_indexable(req.tags[i].0.as_str()) {
            filters.push((req.tags[i].0.clone(), req.tags[i].1.clone()));
        }
        i = i + 1;
    }
    assert(req.tags@.take(req.tags@.len() as int) =~= req.tags@);
    proof {
        lemma_multi_same_views(index@.index, filters@, req.tags@.filter(pred));
    }
    if filters.len() == 0 {
        index.lookup_metric(req.metric.as_str())
    } else {
        index.lookup_multi(&filters)
    }
}

/// The column stored under `name`: the first of that name.
pub open spec fn find_column(fs: Seq<(String, Vec<u8>)>, name: Seq<char>) -> Option<Seq<u8>>
    decreases fs.len(),
{
    if fs.len() == 0 {
        None
    } else if fs[0].0@ == name {
        Some(fs[0].1@)
    } else {
        find_column(fs.drop_first(), name)
    }
}

/// The samples of field `field` in one series section that fall in
/// `[start, end)`: the timestamps are decoded for the point count of the
/// header, and a section whose timestamps cannot be decoded, or without the
/// field, gives none.
pub open spec fn section_points_spec(s: SeriesBlockData, field: Seq<char>, start: i64, end: i64) -> Seq<
    (i64, FieldSample),
> {
    match ts_decode_spec(bits_of(s.timestamps@), estimate_spec(s.header@) as usize as nat) {
        Some(ts) => match find_column(s.fields@, field) {
            Some(d) => field_samples_spec(ts, d, start, end),
            None => seq![],
        },
        None => seq![],
    }
}

/// Finds the column stored under `name`.
fn find_column_exec<'a>(fs: &'a Vec<(String, Vec<u8>)>, name: &str) -> (r: Option<&'a Vec<u8>>)
    ensures
        match r {
            Some(d) => find_column(fs@, name@) == Some(d@),
            None => find_column(fs@, name@) is None,
        },
{
    let mut i: usize = 0;
    assert(fs@.skip(0) =~= fs@);
    while i < fs.len()
        invariant
            i <= fs.len(),
            find_column(fs@, name@) == find_column(fs@.skip(i as int), name@),
        decreases fs.len() - i,
    {
        assert(fs@.skip(i as int).drop_first() =~= fs@.skip(i as int + 1));
        if str_eq(fs[i].0.as_str(), name) {
            return Some(&fs[i].1);
        }
        i = i + 1;
    }
    None
}

/// The samples of field `field` in one series section of a block that fall in
/// `[start, end)`.
pub fn section_points(s: &SeriesBlockData, field: &str, start: i64, end: i64) -> (r: Vec<
    (i64, FieldSample),
>)
    ensures
        r@ == section_points_spec(*s, field@, start, end),
        in_window(r@, start, end),
{
    proof {
        lemma_section_in_window(*s, field@, start, end);
    }
    let count = estimate_point_count(s.header.as_slice());
    match try_decode_timestamps(s.timestamps.as_slice(), count) {
        Some(ts) => match find_column_exec(&s.fields, field) {
            Some(d) => field_samples(ts.as_slice(), d.as_slice(), start, end),
            None => Vec::new(),
        },
        None => Vec::new(),
    }
}

/// The samples of the active block's rows: each row's value of `field` that
/// has a numeric reading, with its timestamp.
pub open spec fn row_samples(rows: Seq<(i64, Vec<(String, FieldValue)>)>, field: Seq<char>) -> Seq<
    (i64, FieldSample),
>
    decreases rows.len(),
{
    if rows.len() == 0 {
        seq![]
    } else {
        let rest = row_samples(rows.drop_last(), field);
        match find_value_spec(rows.last().1@, field) {
            Some(v) => match field_sample_of(v) {
                Some(x) => rest.push((rows.last().0, x)),
                None => rest,
            },
            None => rest,
        }
    }
}

/// The samples of every series section of every block, in order.
pub open spec fn block_samples(bs: Seq<DecodedBlock>, field: Seq<char>, start: i64, end: i64) -> Seq<
    (i64, FieldSample),
>
    decreases bs.len(),
{
    if bs.len() == 0 {
        seq![]
    } else {
        block_samples(bs.drop_last(), field, start, end) + sections_samples(
            bs.last().series@,
            field,
            start,
            end,
        )
    }
}

pub open spec fn sections_samples(ss: Seq<SeriesBlockData>, field: Seq<char>, start: i64, end: i64) -> Seq<
    (i64, FieldSample),
>
    decreases ss.len(),
{
    if ss.len() == 0 {
        seq![]
    } else {
        sections_samples(ss.drop_last(), field, start, end) + section_points_spec(
            ss.last(),
            field,
            start,
            end,
        )
    }
}

/// Every sample of `s` has a timestamp in `[start, end)`.
pub open spec fn in_window(s: Seq<(i64, FieldSample)>, start: i64, end: i64) -> bool {
    forall|k: int| 0 <= k < s.len() ==> start <= (#[trigger] s[k]).0 < end
}

proof fn lemma_window_concat(a: Seq<(i64, FieldSample)>, b: Seq<(i64, FieldSample)>, start: i64, end: i64)
    requires
        in_window(a, start, end),
        in_window(b, start, end),
    ensures
        in_window(a + b, start, end),
{
    assert forall|k: int| 0 <= k < (a + b).len() implies start <= (#[trigger] (a + b)[k]).0 < end by {
        if k < a.len() {
            assert((a + b)[k] == a[k]);
        } else {
            assert((a + b)[k] == b[k - a.len()]);
        }
    }
}

proof fn lemma_section_in_window(sec: SeriesBlockData, field: Seq<char>, start: i64, end: i64)
    ensures
        in_window(section_points_spec(sec, field, start, end), start, end),
{
    match ts_decode_spec(bits_of(sec.timestamps@), estimate_spec(sec.header@) as usize as nat) {
        Some(ts) => match find_column(sec.fields@, field) {
            Some(d) => lemma_samples_in_window(ts, d, start, end),
            None => {},
        },
        None => {},
    }
}

proof fn lemma_sections_in_window(ss: Seq<SeriesBlockData>, field: Seq<char>, start: i64, end: i64)
    ensures
        in_window(sections_samples(ss, field, start, end), start, end),
    decreases ss.len(),
{
    if ss.len() > 0 {
        lemma_sections_in_window(ss.drop_last(), field, start, end);
        lemma_section_in_window(ss.last(), field, start, end);
        lemma_window_concat(
            sections_samples(ss.drop_last(), field, start, end),
            section_points_spec(ss.last(), field, start, end),
            start,
            end,
        );
    }
}

/// Every sample a query reads from the stored blocks for `[start, end)`,
/// from float and integer columns alike, has a timestamp at or after
/// `start` and before `end`.
pub proof fn lemma_block_samples_in_window(bs: Seq<DecodedBlock>, field: Seq<char>, start: i64, end: i64)
    ensures
        in_window(block_samples(bs, field, start, end), start, end),
    decreases bs.len(),
{
    if bs.len() > 0 {
        lemma_block_samples_in_window(bs.drop_last(), field, start, end);
        lemma_sections_in_window(bs.last().series@, field, start, end);
        lemma_window_concat(
            block_samples(bs.drop_last(), field, start, end),
            sections_samples(bs.last().series@, field, start, end),
            start,
            end,
        );
    }
}

/// The points a query gathers for one series, before ordering: the numeric
/// values of `field` in the active block's rows (already limited to the
/// range), then those of every series section of the blocks that overlap the
/// range, limited to `[start, end)`.
pub fn collect_points(
    active_rows: &Vec<(i64, Vec<(String, FieldValue)>)>,
    blocks: &Vec<DecodedBlock>,
    field: &str,
    start: i64,
    end: i64,
) -> (r: Vec<(i64, FieldSample)>)
    ensures
        r@ == row_samples(active_rows@, field@) + block_samples(blocks@, field@, start, end),
{
    let mut out: Vec<(i64, FieldSample)> = Vec::new();
    let mut i: usize = 0;
    while i < active_rows.len()
        invariant
            i <= active_rows.len(),
            out@ == row_samples(active_rows@.take(i as int), field@),
        decreases active_rows.len() - i,
    {
        assert(active_rows@.take(i as int + 1).drop_last() =~= active_rows@.take(i as int));
        let row = &active_rows[i];
        match find_value(&row.1, field) {
            Some(v) => match v.as_sample() {
                Some(x) => {
                    out.push((row.0, x));
                },
                None => {},
            },
            None => {},
        }
        i = i + 1;
    }
    assert(active_rows@.take(active_rows.len() as int) =~= active_rows@);
    let ghost head = out@;
    let mut b: usize = 0;
    while b < blocks.len()
        invariant
            b <= blocks.len(),
            out@ == head + block_samples(blocks@.take(b as int), field@, start, end),
        decreases blocks.len() - b,
    {
        assert(blocks@.take(b as int + 1).drop_last() =~= blocks@.take(b as int));
        let sections = &blocks[b].series;
        let ghost before = out@;
        let mut k: usize = 0;
        while k < sections.len()
            invariant
                k <= sections.len(),
                out@ == before + sections_samples(sections@.take(k as int), field@, start, end),
            decreases sections.len() - k,
        {
            assert(sections@.take(k as int + 1).drop_last() =~= sections@.take(k as int));
            let pts = section_points(&sections[k], field, start, end);
            let ghost o = out@;
            let mut j: usize = 0;
            while j < pts.len()
                invariant
                    j <= pts.len(),
                    out@ == o + pts@.take(j as int),
                decreases pts.len() - j,
            {
                out.push(pts[j]);
                j = j + 1;
                assert(out@ =~= o + pts@.take(j as int));
            }
            assert(pts@.take(pts.len() as int) =~= pts@);
            k = k + 1;
            assert(out@ =~= before + sections_samples(sections@.take(k as int), field@, start, end));
        }
        assert(sections@.take(sections.len() as int) =~= sections@);
        b = b + 1;
        assert(out@ =~= head + block_samples(blocks@.take(b as int), field@, start, end));
    }
    assert(blocks@.take(blocks.len() as int) =~= blocks@);
    out
}

/// Timestamps in ascending order.
pub open spec fn by_time<V>(s: Seq<(i64, V)>) -> bool {
    forall|i: int, j: int| 0 <= i < j < s.len() ==> s[i].0 <= s[j].0
}

/// The points with timestamp `t`, in order.
pub open spec fn with_time<V>(s: Seq<(i64, V)>, t: i64) -> Seq<(i64, V)> {
    s.filter(|p: (i64, V)| p.0 == t)
}

proof fn lemma_swap_adjacent<V>(s: Seq<(i64, V)>, j: int)
    requires
        1 <= j < s.len(),
        s[j - 1].0 != s[j].0,
    ensures
        ({
            let s2 = s.update(j - 1, s[j]).update(j, s[j - 1]);
            &&& s2.to_multiset() == s.to_multiset()
            &&& forall|t: i64|
                with_time(s2, t) == #[trigger] with_time(s, t)
        }),
{
    broadcast use vstd::seq_lib::to_multiset_update, vstd::multiset::group_multiset_axioms;

    let x = s[j - 1];
    let y = s[j];
    let s1 = s.update(j - 1, y);
    let s2 = s1.update(j, x);
    assert(s1[j] == y);
    let m = s.to_multiset();
    assert(s1.to_multiset() == m.insert(y).remove(x));
    assert(s2.to_multiset() == m.insert(y).remove(x).insert(x).remove(y));
    assert(m.count(x) > 0) by {
        broadcast use vstd::seq_lib::to_multiset_contains;
        assert(s.contains(x)) by {
            assert(s[j - 1] == x);
        }
    }
    assert(s2.to_multiset() =~= s.to_multiset());
    let a = s.take(j - 1);
    let b = s.skip(j + 1);
    assert(s =~= a + seq![x, y] + b);
    assert(s2 =~= a + seq![y, x] + b);
    assert forall|t: i64|
        with_time(s2, t) == #[trigger] with_time(s, t) by {
        let f = |p: (i64, V)| p.0 == t;
        Seq::filter_distributes_over_add(a + seq![x, y], b, f);
        Seq::filter_distributes_over_add(a, seq![x, y], f);
        Seq::filter_distributes_over_add(a + seq![y, x], b, f);
        Seq::filter_distributes_over_add(a, seq![y, x], f);
        reveal_with_fuel(Seq::filter, 3);
        assert(seq![x, y].drop_last() =~= seq![x]);
        assert(seq![y, x].drop_last() =~= seq![y]);
        assert(seq![x].drop_last() =~= Seq::<(i64, V)>::empty());
        assert(seq![y].drop_last() =~= Seq::<(i64, V)>::empty());
        assert(seq![x, y].filter(f) =~= seq![y, x].filter(f));
    }
}

/// Orders points by timestamp, keeping the order of points with equal
/// timestamps.
pub fn sort_by_time<V: Copy>(points: &mut Vec<(i64, V)>)
    ensures
        by_time(final(points)@),
        final(points)@.to_multiset() == old(points)@.to_multiset(),
        forall|t: i64|
            with_time(final(points)@, t) == #[trigger] with_time(old(points)@, t),
{
    let ghost orig = points@;
    if points.len() == 0 {
        return;
    }
    let mut i: usize = 1;
    while i < points.len()
        invariant
            1 <= i <= points.len(),
            points@.len() == orig.len(),
            forall|a: int, b: int| 0 <= a < b < i ==> points@[a].0 <= points@[b].0,
            points@.to_multiset() == orig.to_multiset(),
            forall|t: i64|
                with_time(points@, t) == #[trigger] with_time(orig, t),
        decreases points.len() - i,
    {
        let mut j: usize = i;
        while j > 0 && points[j - 1].0 > points[j].0
            invariant
                0 <= j <= i < points.len(),
                points@.len() == orig.len(),
                forall|a: int, b: int|
                    0 <= a < b <= i && a != j && b != j ==> points@[a].0 <= points@[b].0,
                forall|k: int| j < k <= i ==> points@[j as int].0 < points@[k].0,
                points@.to_multiset() == orig.to_multiset(),
                forall|t: i64|
                    with_time(points@, t) == #[trigger] with_time(orig, t),
            decreases j,
        {
            let a = points[j - 1];
            let b = points[j];
            proof {
                lemma_swap_adjacent(points@, j as int);
            }
            points.set(j - 1, b);
            points.set(j, a);
            j = j - 1;
        }
        i = i + 1;
    }
}

} // verus!
