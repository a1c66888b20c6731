use vstd::prelude::*;
use crate::model::{FieldValue, clone_fields, clone_pairs};
use crate::text::str_eq;
use vstd::utf8::encode_utf8;
use vstd::string::StringSliceAdditionalSpecFns;

verus! {

/// Rust's `/` on signed integers: the quotient truncated toward zero.
pub open spec fn trunc_div(a: int, b: int) -> int {
    if a >= 0 {
        if b > 0 { a / b } else { -(a / (-b)) }
    } else {
        if b > 0 { -((-a) / b) } else { (-a) / (-b) }
    }
}

/// A window length in seconds whose length in nanoseconds is nonzero and fits
/// in an `i64`.
pub open spec fn window_fits(window_secs: i64) -> bool {
    &&& window_secs != 0
    &&& i64::MIN <= window_secs * 1_000_000_000 <= i64::MAX
}

/// The start of the window holding `ts`: `ts` rounded toward zero to a
/// multiple of the window length in nanoseconds.
pub open spec fn align_spec(ts: i64, window_secs: i64) -> int {
    trunc_div(ts as int, window_secs * 1_000_000_000) * (window_secs * 1_000_000_000)
}

/// The start of the window of `window_secs` seconds that holds the timestamp
/// `ts` (nanoseconds).
pub fn align_to_window(ts: i64, window_secs: i64) -> (r: i64)
    requires
        window_fits(window_secs),
    ensures
        r == align_spec(ts, window_secs),
{
    let window_nanos = window_secs * 1_000_000_000;
    proof {
        assert(window_nanos >= 1_000_000_000 || window_nanos <= -1_000_000_000) by (nonlinear_arith)
            requires window_nanos == window_secs * 1_000_000_000, window_secs != 0;
    }
    crate::engine::query::aggregation::bucket_of(ts, window_nanos)
}

/// One buffered point: its timestamp and its named field values.
#[derive(Debug)]
pub struct FlushPoint {
    pub timestamp: i64,
    pub fields: Vec<(String, FieldValue)>,
}

/// The buffered points of one series, with the series' metric and tags.
#[derive(Debug)]
pub struct FlushSeries {
    pub series_id: u64,
    pub metric: String,
    pub tags: Vec<(String, String)>,
    pub points: Vec<FlushPoint>,
}

/// What a flush takes out of the active block: the series in ascending id
/// order, with the least and greatest timestamp, the series count and the
/// point count.
#[derive(Debug)]
pub struct FlushData {
    pub min_timestamp: i64,
    pub max_timestamp: i64,
    pub series_count: usize,
    pub total_points: usize,
    pub series: Vec<FlushSeries>,
}

/// A point as a value.
pub struct PointView {
    pub timestamp: i64,
    pub fields: Seq<(String, FieldValue)>,
}

/// A buffered series as a value.
pub struct SeriesView {
    pub series_id: u64,
    pub metric: Seq<char>,
    pub tags: Seq<(String, String)>,
    pub points: Seq<PointView>,
}

/// The active block as a value: its window length, the start of its current
/// window (0 while none is open) and its series in ascending id order.
pub struct ActiveView {
    pub window_secs: i64,
    pub window_start: i64,
    pub series: Seq<SeriesView>,
}

impl View for FlushPoint {
    type V = PointView;

    open spec fn view(&self) -> PointView {
        PointView { timestamp: self.timestamp, fields: self.fields@ }
    }
}

impl View for FlushSeries {
    type V = SeriesView;

    open spec fn view(&self) -> SeriesView {
        SeriesView {
            series_id: self.series_id,
            metric: self.metric@,
            tags: self.tags@,
            points: self.points@.map_values(|p: FlushPoint| p@),
        }
    }
}

pub open spec fn series_views(s: Seq<FlushSeries>) -> Seq<SeriesView> {
    s.map_values(|x: FlushSeries| x@)
}

/// Series ids strictly ascending, as a map keyed by them keeps them.
pub open spec fn ids_ascending(s: Seq<SeriesView>) -> bool {
    forall|i: int, j: int| 0 <= i < j < s.len() ==> s[i].series_id < s[j].series_id
}

impl ActiveView {
    pub open spec fn wf(self) -> bool {
        ids_ascending(self.series)
    }

    /// While something is buffered, the window's length in nanoseconds and
    /// its end fit in an `i64`.
    pub open spec fn window_end_fits(self) -> bool {
        self.series.len() > 0 ==> {
            &&& i64::MIN <= self.window_secs * 1_000_000_000 <= i64::MAX
            &&& i64::MIN <= self.window_start + self.window_secs * 1_000_000_000 <= i64::MAX
        }
    }
}

/// The series with id `id`, if one is buffered.
pub open spec fn lookup(s: Seq<SeriesView>, id: u64) -> Option<SeriesView>
    decreases s.len(),
{
    if s.len() == 0 {
        None
    } else if s[0].series_id == id {
        Some(s[0])
    } else {
        lookup(s.drop_first(), id)
    }
}

pub open spec fn new_series(id: u64, metric: Seq<char>, tags: Seq<(String, String)>, p: PointView) -> SeriesView {
    SeriesView { series_id: id, metric, tags, points: seq![p] }
}

pub open spec fn add_point(sv: SeriesView, p: PointView) -> SeriesView {
    SeriesView { points: sv.points.push(p), ..sv }
}

/// The series after a point is buffered for `id`: appended to that series
/// if it is present, else a new series with the metric and tags, placed by
/// its id.
pub open spec fn insert_point(
    s: Seq<SeriesView>,
    id: u64,
    metric: Seq<char>,
    tags: Seq<(String, String)>,
    p: PointView,
) -> Seq<SeriesView>
    decreases s.len(),
{
    if s.len() == 0 {
        seq![new_series(id, metric, tags, p)]
    } else if s[0].series_id == id {
        seq![add_point(s[0], p)] + s.drop_first()
    } else if id < s[0].series_id {
        seq![new_series(id, metric, tags, p)] + s
    } else {
        seq![s[0]] + insert_point(s.drop_first(), id, metric, tags, p)
    }
}

proof fn lemma_insert_point_at(
    s: Seq<SeriesView>,
    id: u64,
    metric: Seq<char>,
    tags: Seq<(String, String)>,
    p: PointView,
    i: int,
)
    requires
        ids_ascending(s),
        0 <= i <= s.len(),
        forall|j: int| 0 <= j < i ==> s[j].series_id < id,
        i < s.len() ==> id <= s[i].series_id,
    ensures
        insert_point(s, id, metric, tags, p) == (if i < s.len() && s[i].series_id == id {
            s.update(i, add_point(s[i], p))
        } else {
            s.insert(i, new_series(id, metric, tags, p))
        }),
        ids_ascending(insert_point(s, id, metric, tags, p)),
    decreases i,
{
    let r = insert_point(s, id, metric, tags, p);
    if i == 0 {
        if s.len() == 0 {
            assert(r =~= s.insert(0, new_series(id, metric, tags, p)));
        } else if s[0].series_id == id {
            assert(r =~= s.update(0, add_point(s[0], p)));
        } else {
            assert(r =~= s.insert(0, new_series(id, metric, tags, p)));
        }
    } else {
        let t = s.drop_first();
        assert(ids_ascending(t));
        lemma_insert_point_at(t, id, metric, tags, p, i - 1);
        if i < s.len() && s[i].series_id == id {
            assert(r =~= s.update(i, add_point(s[i], p)));
        } else {
            assert(r =~= s.insert(i, new_series(id, metric, tags, p)));
        }
    }
}

proof fn lemma_lookup_at(s: Seq<SeriesView>, id: u64, i: int)
    requires
        0 <= i < s.len(),
        s[i].series_id == id,
        forall|j: int| 0 <= j < i ==> s[j].series_id != id,
    ensures
        lookup(s, id) == Some(s[i]),
    decreases i,
{
    if i > 0 {
        lemma_lookup_at(s.drop_first(), id, i - 1);
    }
}

proof fn lemma_lookup_absent(s: Seq<SeriesView>, id: u64)
    requires
        forall|j: int| 0 <= j < s.len() ==> s[j].series_id != id,
    ensures
        lookup(s, id) == None::<SeriesView>,
    decreases s.len(),
{
    if s.len() > 0 {
        lemma_lookup_absent(s.drop_first(), id);
    }
}

/// The in-memory buffer of points not yet flushed to a block, grouped by
/// series and kept in ascending series-id order.
pub struct ActiveBlock {
    window_secs: i64,
    series_data: Vec<FlushSeries>,
    window_start: i64,
}

impl View for ActiveBlock {
    type V = ActiveView;

    closed spec fn view(&self) -> ActiveView {
        ActiveView {
            window_secs: self.window_secs,
            window_start: self.window_start,
            series: series_views(self.series_data@),
        }
    }
}

impl ActiveBlock {
    /// An empty block with windows of `window_secs` seconds and no window
    /// open.
    pub fn new(window_secs: i64) -> (r: Self)
        ensures
            r@ == (ActiveView { window_secs, window_start: 0, series: Seq::empty() }),
            r@.wf(),
    {
        let r = ActiveBlock { window_secs, series_data: Vec::new(), window_start: 0 };
        assert(r@.series =~= Seq::<SeriesView>::empty());
        r
    }

    /// Buffers a point for series `series_id`: appended to the series if it
    /// is buffered, else a new series with this metric and these tags. The
    /// first point into an empty window opens the window that holds it.
    pub fn insert(
        &mut self,
        series_id: u64,
        metric: String,
        tags: Vec<(String, String)>,
        fields: Vec<(String, FieldValue)>,
        timestamp: i64,
    )
        requires
            old(self)@.wf(),
            old(self)@.window_start == 0 ==> window_fits(old(self)@.window_secs),
        ensures
            final(self)@.wf(),
            final(self)@.window_secs == old(self)@.window_secs,
            final(self)@.window_start == (if old(self)@.window_start == 0 {
                align_spec(timestamp, old(self)@.window_secs)
            } else {
                old(self)@.window_start as int
            }),
            final(self)@.series == insert_point(
                old(self)@.series,
                series_id,
                metric@,
                tags@,
                PointView { timestamp, fields: fields@ },
            ),
    {
        if self.window_start == 0 {
            self.window_start = align_to_window(timestamp, self.window_secs);
        }
        let ghost s = series_views(self.series_data@);
        let ghost p = PointView { timestamp, fields: fields@ };
        let mut i: usize = 0;
        while i < self.series_data.len() && self.series_data[i].series_id < series_id
            invariant
                i <= self.series_data.len(),
                s == series_views(self.series_data@),
                forall|j: int| 0 <= j < i ==> s[j].series_id < series_id,
            decreases self.series_data.len() - i,
        {
            i = i + 1;
        }
        proof {
            lemma_insert_point_at(s, series_id, metric@, tags@, p, i as int);
        }
        let point = FlushPoint { timestamp, fields };
        if i < self.series_data.len() && self.series_data[i].series_id == series_id {
            let ghost old_pts = self.series_data@[i as int].points@;
            self.series_data[i].points.push(point);
            assert(self.series_data@[i as int].points@ == old_pts.push(point));
            assert(self.series_data@[i as int]@.points =~= s[i as int].points.push(p));
            assert(series_views(self.series_data@) =~= s.update(i as int, add_point(s[i as int], p)));
        } else {
            let mut points: Vec<FlushPoint> = Vec::new();
            points.push(point);
            let entry = FlushSeries { series_id, metric, tags, points };
            assert(entry@.points =~= seq![p]);
            self.series_data.insert(i, entry);
            assert(series_views(self.series_data@) =~= s.insert(
                i as int,
                new_series(series_id, entry@.metric, entry@.tags, p),
            ));
        }
    }
}


/// The points of `ps` with `start <= timestamp < end`, in order, as
/// (timestamp, fields) rows.
pub open spec fn points_in_range(ps: Seq<PointView>, start: i64, end: i64) -> Seq<
    (i64, Seq<(String, FieldValue)>),
>
    decreases ps.len(),
{
    if ps.len() == 0 {
        seq![]
    } else {
        let rest = points_in_range(ps.drop_last(), start, end);
        let p = ps.last();
        if start <= p.timestamp && p.timestamp < end {
            rest.push((p.timestamp, p.fields))
        } else {
            rest
        }
    }
}

pub open spec fn rows_view(r: Seq<(i64, Vec<(String, FieldValue)>)>) -> Seq<
    (i64, Seq<(String, FieldValue)>),
> {
    r.map_values(|x: (i64, Vec<(String, FieldValue)>)| (x.0, x.1@))
}

/// What `query` answers: the in-range points of the series, or nothing when
/// the series is not buffered.
pub open spec fn query_spec(s: Seq<SeriesView>, id: u64, start: i64, end: i64) -> Seq<
    (i64, Seq<(String, FieldValue)>),
> {
    match lookup(s, id) {
        Some(sv) => points_in_range(sv.points, start, end),
        None => seq![],
    }
}

/// What `query_metric` answers: for each series of the metric, in ascending
/// id order, its id, metric, tags and in-range points, leaving out the series
/// with no point in range.
pub open spec fn metric_rows(s: Seq<SeriesView>, metric: Seq<char>, start: i64, end: i64) -> Seq<
    (u64, Seq<char>, Seq<(String, String)>, Seq<(i64, Seq<(String, FieldValue)>)>),
>
    decreases s.len(),
{
    if s.len() == 0 {
        seq![]
    } else {
        let rest = metric_rows(s.drop_last(), metric, start, end);
        let sv = s.last();
        let rows = points_in_range(sv.points, start, end);
        if sv.metric == metric && rows.len() > 0 {
            rest.push((sv.series_id, sv.metric, sv.tags, rows))
        } else {
            rest
        }
    }
}

pub open spec fn metric_rows_view(
    r: Seq<(u64, String, Vec<(String, String)>, Vec<(i64, Vec<(String, FieldValue)>)>)>,
) -> Seq<(u64, Seq<char>, Seq<(String, String)>, Seq<(i64, Seq<(String, FieldValue)>)>)> {
    r.map_values(
        |x: (u64, String, Vec<(String, String)>, Vec<(i64, Vec<(String, FieldValue)>)>)|
            (x.0, x.1@, x.2@, rows_view(x.3@)),
    )
}

pub open spec fn point_views(ps: Seq<FlushPoint>) -> Seq<PointView> {
    ps.map_values(|p: FlushPoint| p@)
}

/// The rows of the points of `points` in `[start, end)`.
fn rows_in_range(points: &Vec<FlushPoint>, start: i64, end: i64) -> (r: Vec<
    (i64, Vec<(String, FieldValue)>),
>)
    ensures
        rows_view(r@) == points_in_range(point_views(points@), start, end),
{
    let ghost ps = point_views(points@);
    let mut r: Vec<(i64, Vec<(String, FieldValue)>)> = Vec::new();
    let mut i: usize = 0;
    while i < points.len()
        invariant
            i <= points.len(),
            ps == point_views(points@),
            rows_view(r@) == points_in_range(ps.take(i as int), start, end),
        decreases points.len() - i,
    {
        let p = &points[i];
        assert(ps.take(i as int + 1).drop_last() =~= ps.take(i as int));
        if start <= p.timestamp && p.timestamp < end {
            let fields = clone_fields(&p.fields);
            r.push((p.timestamp, fields));
            assert(rows_view(r@) =~= points_in_range(ps.take(i as int), start, end).push(
                (p.timestamp, p.fields@),
            ));
        }
        i = i + 1;
    }
    assert(ps.take(points.len() as int) =~= ps);
    r
}

impl ActiveBlock {
    /// The buffered points of series `series_id` with `start <= timestamp <
    /// end`, in the order they were inserted.
    pub fn query(&self, series_id: u64, start: i64, end: i64) -> (r: Vec<
        (i64, Vec<(String, FieldValue)>),
    >)
        requires
            self@.wf(),
        ensures
            rows_view(r@) == query_spec(self@.series, series_id, start, end),
    {
        let ghost s = self@.series;
        let mut i: usize = 0;
        while i < self.series_data.len()
            invariant
                i <= self.series_data.len(),
                s == series_views(self.series_data@),
                forall|j: int| 0 <= j < i ==> s[j].series_id != series_id,
            decreases self.series_data.len() - i,
        {
            if self.series_data[i].series_id == series_id {
                proof {
                    lemma_lookup_at(s, series_id, i as int);
                }
                return rows_in_range(&self.series_data[i].points, start, end);
            }
            i = i + 1;
        }
        proof {
            lemma_lookup_absent(s, series_id);
        }
        let r: Vec<(i64, Vec<(String, FieldValue)>)> = Vec::new();
        assert(rows_view(r@) =~= Seq::empty());
        r
    }

    /// For each buffered series of `metric` with a point in `[start, end)`,
    /// in ascending series-id order: its id, metric, tags and those points.
    pub fn query_metric(&self, metric: &str, start: i64, end: i64) -> (r: Vec<
        (u64, String, Vec<(String, String)>, Vec<(i64, Vec<(String, FieldValue)>)>),
    >)
        ensures
            metric_rows_view(r@) == metric_rows(self@.series, metric@, start, end),
    {
        let ghost s = self@.series;
        let mut r: Vec<(u64, String, Vec<(String, String)>, Vec<(i64, Vec<(String, FieldValue)>)>)> =
            Vec::new();
        let mut i: usize = 0;
        while i < self.series_data.len()
            invariant
                i <= self.series_data.len(),
                s == series_views(self.series_data@),
                metric_rows_view(r@) == metric_rows(s.take(i as int), metric@, start, end),
            decreases self.series_data.len() - i,
        {
            let buffer = &self.series_data[i];
            assert(s.take(i as int + 1).drop_last() =~= s.take(i as int));
            assert(s.take(i as int + 1).last() == buffer@);
            if crate::text::str_eq(buffer.metric.as_str(), metric) {
                let points = rows_in_range(&buffer.points, start, end);
                if points.len() > 0 {
                    let m = buffer.metric.clone();
                    let tags = clone_pairs(&buffer.tags);
                    r.push((buffer.series_id, m, tags, points));
                    assert(metric_rows_view(r@) =~= metric_rows(s.take(i as int), metric@, start, end).push(
                        (buffer.series_id, buffer.metric@, buffer.tags@, rows_view(points@)),
                    ));
                }
            }
            i = i + 1;
        }
        assert(s.take(self.series_data.len() as int) =~= s);
        r
    }
}

/// Every buffered timestamp, series by series in ascending id order and, in
/// each, in insertion order.
pub open spec fn series_timestamps(s: Seq<SeriesView>) -> Seq<i64>
    decreases s.len(),
{
    if s.len() == 0 {
        seq![]
    } else {
        series_timestamps(s.drop_last()) + s.last().points.map_values(|p: PointView| p.timestamp)
    }
}

/// The least element, 0 for an empty sequence.
pub open spec fn seq_min(t: Seq<i64>) -> i64
    decreases t.len(),
{
    if t.len() == 0 {
        0
    } else if t.len() == 1 {
        t[0]
    } else {
        let m = seq_min(t.drop_last());
        if t.last() < m { t.last() } else { m }
    }
}

/// The greatest element, 0 for an empty sequence.
pub open spec fn seq_max(t: Seq<i64>) -> i64
    decreases t.len(),
{
    if t.len() == 0 {
        0
    } else if t.len() == 1 {
        t[0]
    } else {
        let m = seq_max(t.drop_last());
        if t.last() > m { t.last() } else { m }
    }
}

/// The number of buffered points.
pub open spec fn total_points(s: Seq<SeriesView>) -> nat
    decreases s.len(),
{
    if s.len() == 0 {
        0
    } else {
        total_points(s.drop_last()) + s.last().points.len()
    }
}

/// The length of a string in UTF-8 bytes.
pub open spec fn str_bytes(s: Seq<char>) -> nat {
    encode_utf8(s).len()
}

/// The bytes of the keys and values of a tag list.
pub open spec fn tags_bytes(t: Seq<(String, String)>) -> nat
    decreases t.len(),
{
    if t.len() == 0 {
        0
    } else {
        tags_bytes(t.drop_last()) + str_bytes(t.last().0@) + str_bytes(t.last().1@)
    }
}

/// The estimate of the memory the buffered series take: each series' metric
/// and tag bytes, and 64 bytes a point.
pub open spec fn memory_spec(s: Seq<SeriesView>) -> nat
    decreases s.len(),
{
    if s.len() == 0 {
        0
    } else {
        memory_spec(s.drop_last()) + str_bytes(s.last().metric) + tags_bytes(s.last().tags) + 64
            * s.last().points.len()
    }
}

/// Whether a flush is due at `now`: something is buffered and the window
/// that opened at `window_start` has ended.
pub open spec fn flush_due(v: ActiveView, now: i64) -> bool {
    v.series.len() > 0 && now >= v.window_start + v.window_secs * 1_000_000_000
}

proof fn lemma_total_prefix(s: Seq<SeriesView>, k: int)
    requires
        0 <= k <= s.len(),
    ensures
        total_points(s.take(k)) <= total_points(s),
    decreases s.len(),
{
    if k < s.len() {
        assert(s.drop_last().take(k) =~= s.take(k));
        lemma_total_prefix(s.drop_last(), k);
    } else {
        assert(s.take(k) =~= s);
    }
}

proof fn lemma_memory_prefix(s: Seq<SeriesView>, k: int)
    requires
        0 <= k <= s.len(),
    ensures
        memory_spec(s.take(k)) <= memory_spec(s),
    decreases s.len(),
{
    if k < s.len() {
        assert(s.drop_last().take(k) =~= s.take(k));
        lemma_memory_prefix(s.drop_last(), k);
    } else {
        assert(s.take(k) =~= s);
    }
}

proof fn lemma_tags_prefix(t: Seq<(String, String)>, k: int)
    requires
        0 <= k <= t.len(),
    ensures
        tags_bytes(t.take(k)) <= tags_bytes(t),
    decreases t.len(),
{
    if k < t.len() {
        assert(t.drop_last().take(k) =~= t.take(k));
        lemma_tags_prefix(t.drop_last(), k);
    } else {
        assert(t.take(k) =~= t);
    }
}

/// Reads the wall clock, through `chrono::Utc::now` and
/// `DateTime::timestamp_nanos_opt`: nanoseconds since the Unix epoch, `None`
/// outside the years that an `i64` of nanoseconds spans. Nothing is claimed
/// of the value: it is the time.
#[verifier::external_body]
pub(crate) fn now_nanos() -> (r: Option<i64>) {
    chrono::Utc::now().timestamp_nanos_opt()
}

impl ActiveBlock {
    /// Whether the end of the current window can be computed in an `i64`
    /// (always so while nothing is buffered).
    pub fn window_end_ok(&self) -> (r: bool)
        ensures
            r == self@.window_end_fits(),
    {
        if self.series_data.len() == 0 {
            return true;
        }
        let span: i128 = self.window_secs as i128 * 1_000_000_000;
        if span < i64::MIN as i128 || span > i64::MAX as i128 {
            return false;
        }
        let end: i128 = self.window_start as i128 + span;
        end >= i64::MIN as i128 && end <= i64::MAX as i128
    }

    /// Whether a flush is due at the time `now` (nanoseconds).
    pub fn should_flush_at(&self, now: i64) -> (r: bool)
        requires
            self@.window_end_fits(),
        ensures
            r == flush_due(self@, now),
    {
        if self.series_data.len() == 0 {
            return false;
        }
        let window_end = self.window_start + self.window_secs * 1_000_000_000;
        now >= window_end
    }

    /// Whether a flush is due now, by the wall clock (0 where the clock is
    /// out of range). Never while nothing is buffered.
    pub fn should_flush(&self) -> (r: bool)
        requires
            self@.window_end_fits(),
        ensures
            exists|now: i64| r == flush_due(self@, now),
            self@.series.len() == 0 ==> !r,
    {
        let now = match now_nanos() {
            Some(n) => n,
            None => 0,
        };
        self.should_flush_at(now)
    }

    /// Takes every buffered series out, with the least and greatest
    /// timestamp and the counts, and closes the window; `None`, with nothing
    /// changed, when nothing is buffered.
    pub fn drain_for_flush(&mut self) -> (r: Option<FlushData>)
        requires
            total_points(old(self)@.series) <= usize::MAX,
        ensures
            old(self)@.series.len() == 0 ==> r is None && final(self)@ == old(self)@,
            old(self)@.series.len() > 0 ==> (r matches Some(d) && {
                &&& series_views(d.series@) == old(self)@.series
                &&& d.series_count == old(self)@.series.len()
                &&& d.total_points == total_points(old(self)@.series)
                &&& d.min_timestamp == seq_min(series_timestamps(old(self)@.series))
                &&& d.max_timestamp == seq_max(series_timestamps(old(self)@.series))
                &&& final(self)@ == ActiveView {
                    window_secs: old(self)@.window_secs,
                    window_start: 0,
                    series: seq![],
                }
            }),
    {
        if self.series_data.len() == 0 {
            return None;
        }
        let mut series: Vec<FlushSeries> = Vec::new();
        std::mem::swap(&mut series, &mut self.series_data);
        self.window_start = 0;
        let ghost s = series_views(series@);
        let mut min_ts: i64 = 0;
        let mut max_ts: i64 = 0;
        let mut total: usize = 0;
        let mut seen = false;
        let mut i: usize = 0;
        while i < series.len()
            invariant
                i <= series.len(),
                seen == (series_timestamps(s.take(i as int)).len() > 0),
                s == series_views(series@),
                total_points(s) <= usize::MAX,
                total == total_points(s.take(i as int)),
                min_ts == seq_min(series_timestamps(s.take(i as int))),
                max_ts == seq_max(series_timestamps(s.take(i as int))),
            decreases series.len() - i,
        {
            let ghost before = series_timestamps(s.take(i as int));
            let points = &series[i].points;
            let ghost ps = point_views(points@);
            let mut j: usize = 0;
            while j < points.len()
                invariant
                    j <= points.len(),
                    ps == point_views(points@),
                    seen == ((before + ps.take(j as int).map_values(|p: PointView| p.timestamp)).len() > 0),
                    min_ts == seq_min(before + ps.take(j as int).map_values(|p: PointView| p.timestamp)),
                    max_ts == seq_max(before + ps.take(j as int).map_values(|p: PointView| p.timestamp)),
                decreases points.len() - j,
            {
                let ghost t = before + ps.take(j as int).map_values(|p: PointView| p.timestamp);
                let ts = points[j].timestamp;
                let ghost t2 = before + ps.take(j as int + 1).map_values(|p: PointView| p.timestamp);
                assert(t2 =~= t.push(ts));
                assert(t2.drop_last() =~= t);
                if !seen {
                    min_ts = ts;
                    max_ts = ts;
                    seen = true;
                } else {
                    if ts < min_ts {
                        min_ts = ts;
                    }
                    if ts > max_ts {
                        max_ts = ts;
                    }
                }
                proof {
                    if t.len() == 0 {
                        assert(t2.len() == 1);
                    }
                }
                j = j + 1;
            }
            proof {
                assert(s.take(i as int + 1).drop_last() =~= s.take(i as int));
                assert(ps.take(points.len() as int) =~= ps);
                assert(s[i as int].points == ps);
                assert(series_timestamps(s.take(i as int + 1)) =~= before + ps.map_values(
                    |p: PointView| p.timestamp,
                ));
                lemma_total_prefix(s, i as int + 1);
            }
            total = total + points.len();
            i = i + 1;
        }
        assert(s.take(series.len() as int) =~= s);
        let count = series.len();
        assert(self@.series =~= Seq::<SeriesView>::empty());
        Some(FlushData {
            min_timestamp: min_ts,
            max_timestamp: max_ts,
            series_count: count,
            total_points: total,
            series,
        })
    }

    /// The estimate of the memory the buffered series take: for each, its
    /// metric's and tags' bytes and 64 bytes a point.
    pub fn memory_size(&self) -> (r: u64)
        requires
            memory_spec(self@.series) <= u64::MAX,
        ensures
            r == memory_spec(self@.series),
    {
        let ghost s = self@.series;
        let mut size: u64 = 0;
        let mut i: usize = 0;
        while i < self.series_data.len()
            invariant
                i <= self.series_data.len(),
                s == series_views(self.series_data@),
                memory_spec(s) <= u64::MAX,
                size == memory_spec(s.take(i as int)),
            decreases self.series_data.len() - i,
        {
            let buffer = &self.series_data[i];
            proof {
                assert(s.take(i as int + 1).drop_last() =~= s.take(i as int));
                assert(s.take(i as int + 1).last() == buffer@);
                lemma_memory_prefix(s, i as int + 1);
            }
            let m = buffer.metric.as_str().as_bytes();
            assert(m@ == encode_utf8(buffer@.metric));
            size = size + m.len() as u64;
            let tags = &buffer.tags;
            let ghost base = size;
            let mut j: usize = 0;
            while j < tags.len()
                invariant
                    j <= tags.len(),
                    base + tags_bytes(tags@) <= u64::MAX,
                    size == base + tags_bytes(tags@.take(j as int)),
                decreases tags.len() - j,
            {
                proof {
                    assert(tags@.take(j as int + 1).drop_last() =~= tags@.take(j as int));
                    assert(tags@.take(j as int + 1).last() == tags@[j as int]);
                    lemma_tags_prefix(tags@, j as int + 1);
                }
                let k = tags[j].0.as_str().as_bytes();
                let v = tags[j].1.as_str().as_bytes();
                assert(k@ == encode_utf8(tags@[j as int].0@));
                assert(v@ == encode_utf8(tags@[j as int].1@));
                size = size + (k.len() as u64 + v.len() as u64);
                j = j + 1;
            }
            assert(tags@.take(tags.len() as int) =~= tags@);
            assert(buffer@.tags == tags@);
            assert(buffer@.points.len() == buffer.points.len());
            size = size + buffer.points.len() as u64 * 64;
            i = i + 1;
        }
        assert(s.take(self.series_data.len() as int) =~= s);
        size
    }

    /// The memory estimate when it fits in a `u64`, else `None`.
    pub fn memory_size_checked(&self) -> (r: Option<u64>)
        ensures
            r == (if memory_spec(self@.series) <= u64::MAX {
                Some(memory_spec(self@.series) as u64)
            } else {
                None
            }),
    {
        let ghost s = self@.series;
        let mut size: u128 = 0;
        let mut i: usize = 0;
        while i < self.series_data.len()
            invariant
                i <= self.series_data.len(),
                s == series_views(self.series_data@),
                size == memory_spec(s.take(i as int)),
                size <= u64::MAX,
            decreases self.series_data.len() - i,
        {
            let buffer = &self.series_data[i];
            proof {
                assert(s.take(i as int + 1).drop_last() =~= s.take(i as int));
                assert(s.take(i as int + 1).last() == buffer@);
            }
            let m = buffer.metric.as_str().as_bytes();
            assert(m@ == encode_utf8(buffer@.metric));
            size = size + m.len() as u128;
            let tags = &buffer.tags;
            let ghost base = size as int;
            let mut j: usize = 0;
            while j < tags.len()
                invariant
                    j <= tags.len(),
                    i < self.series_data.len(),
                    s == series_views(self.series_data@),
                    tags@ == s[i as int].tags,
                    base == memory_spec(s.take(i as int)) + str_bytes(s[i as int].metric),
                    base <= u64::MAX + 0x1_0000_0000_0000_0000,
                    size == base + tags_bytes(tags@.take(j as int)),
                    size <= 3 * 0x1_0000_0000_0000_0000,
                decreases tags.len() - j,
            {
                proof {
                    assert(tags@.take(j as int + 1).drop_last() =~= tags@.take(j as int));
                    assert(tags@.take(j as int + 1).last() == tags@[j as int]);
                }
                let k = tags[j].0.as_str().as_bytes();
                let v = tags[j].1.as_str().as_bytes();
                assert(k@ == encode_utf8(tags@[j as int].0@));
                assert(v@ == encode_utf8(tags@[j as int].1@));
                size = size + (k.len() as u128 + v.len() as u128);
                if size > u64::MAX as u128 {
                    proof {
                        lemma_tags_prefix(tags@, j as int + 1);
                        lemma_memory_prefix(s, i as int + 1);
                        assert(s.take(i as int + 1).drop_last() =~= s.take(i as int));
                        assert(s.take(i as int + 1).last() == s[i as int]);
                    }
                    return None;
                }
                j = j + 1;
            }
            assert(tags@.take(tags.len() as int) =~= tags@);
            assert(buffer@.tags == tags@);
            assert(buffer@.points.len() == buffer.points.len());
            size = size + buffer.points.len() as u128 * 64;
            if size > u64::MAX as u128 {
                proof {
                    lemma_memory_prefix(s, i as int + 1);
                }
                return None;
            }
            i = i + 1;
        }
        assert(s.take(self.series_data.len() as int) =~= s);
        Some(size as u64)
    }

    /// The number of buffered points when it fits in a `usize`, else `None`.
    pub fn point_count_checked(&self) -> (r: Option<usize>)
        ensures
            r == (if total_points(self@.series) <= usize::MAX {
                Some(total_points(self@.series) as usize)
            } else {
                None
            }),
    {
        let ghost s = self@.series;
        let mut total: usize = 0;
        let mut i: usize = 0;
        while i < self.series_data.len()
            invariant
                i <= self.series_data.len(),
                s == series_views(self.series_data@),
                total == total_points(s.take(i as int)),
            decreases self.series_data.len() - i,
        {
            proof {
                assert(s.take(i as int + 1).drop_last() =~= s.take(i as int));
                assert(s.take(i as int + 1).last() == self.series_data@[i as int]@);
                lemma_total_prefix(s, i as int + 1);
            }
            let n = self.series_data[i].points.len();
            if total > usize::MAX - n {
                return None;
            }
            total = total + n;
            i = i + 1;
        }
        assert(s.take(self.series_data.len() as int) =~= s);
        Some(total)
    }
}

proof fn lemma_lookup_insert(
    s: Seq<SeriesView>,
    id: u64,
    metric: Seq<char>,
    tags: Seq<(String, String)>,
    p: PointView,
    other: u64,
)
    requires
        ids_ascending(s),
    ensures
        lookup(insert_point(s, id, metric, tags, p), id) == Some(
            match lookup(s, id) {
                Some(sv) => add_point(sv, p),
                None => new_series(id, metric, tags, p),
            },
        ),
        other != id ==> lookup(insert_point(s, id, metric, tags, p), other) == lookup(s, other),
    decreases s.len(),
{
    let r = insert_point(s, id, metric, tags, p);
    if s.len() == 0 {
        assert(r.drop_first() =~= s);
    } else if s[0].series_id == id {
        assert(r.drop_first() =~= s.drop_first());
    } else if id < s[0].series_id {
        assert(r.drop_first() =~= s);
        if lookup(s, id) is Some {
            lemma_lookup_above(s, id);
        }
    } else {
        let t = s.drop_first();
        assert(ids_ascending(t));
        assert(r.drop_first() =~= insert_point(t, id, metric, tags, p));
        lemma_lookup_insert(t, id, metric, tags, p, other);
    }
}

proof fn lemma_lookup_above(s: Seq<SeriesView>, id: u64)
    requires
        ids_ascending(s),
        s.len() > 0,
        id < s[0].series_id,
    ensures
        lookup(s, id) == None::<SeriesView>,
{
    assert forall|j: int| 0 <= j < s.len() implies s[j].series_id != id by {
        if j > 0 {
            assert(s[0].series_id < s[j].series_id);
        }
    }
    lemma_lookup_absent(s, id);
}

/// A write is read back: after a point is inserted for a series, a query of
/// that series over a range gives what it gave before, followed by the new
/// point when its timestamp is in the range; a query of any other series is
/// unchanged.
pub proof fn lemma_query_after_insert(
    v: ActiveView,
    id: u64,
    metric: Seq<char>,
    tags: Seq<(String, String)>,
    p: PointView,
    other: u64,
    start: i64,
    end: i64,
)
    requires
        v.wf(),
    ensures
        query_spec(insert_point(v.series, id, metric, tags, p), id, start, end) == (if start
            <= p.timestamp && p.timestamp < end {
            query_spec(v.series, id, start, end).push((p.timestamp, p.fields))
        } else {
            query_spec(v.series, id, start, end)
        }),
        other != id ==> query_spec(insert_point(v.series, id, metric, tags, p), other, start, end)
            == query_spec(v.series, other, start, end),
{
    lemma_lookup_insert(v.series, id, metric, tags, p, other);
    let pts = match lookup(v.series, id) {
        Some(sv) => sv.points,
        None => seq![],
    };
    assert(pts.push(p).drop_last() =~= pts);
    assert(points_in_range(seq![], start, end) =~= seq![]);
    match lookup(v.series, id) {
        Some(sv) => {},
        None => {
            assert(seq![p] =~= Seq::<PointView>::empty().push(p));
        },
    }
}

/// Inserting a point adds exactly one point to what the block holds.
pub proof fn lemma_insert_counts_one(
    v: ActiveView,
    id: u64,
    metric: Seq<char>,
    tags: Seq<(String, String)>,
    p: PointView,
)
    requires
        v.wf(),
    ensures
        total_points(insert_point(v.series, id, metric, tags, p)) == total_points(v.series) + 1,
{
    lemma_insert_total(v.series, id, metric, tags, p);
}

proof fn lemma_insert_total(
    s: Seq<SeriesView>,
    id: u64,
    metric: Seq<char>,
    tags: Seq<(String, String)>,
    p: PointView,
)
    ensures
        total_points(insert_point(s, id, metric, tags, p)) == total_points(s) + 1,
    decreases s.len(),
{
    let r = insert_point(s, id, metric, tags, p);
    if s.len() == 0 {
        lemma_total_cons(new_series(id, metric, tags, p), s);
        assert(r =~= seq![new_series(id, metric, tags, p)] + s);
    } else {
        lemma_total_cons(s[0], s.drop_first());
        assert(s =~= seq![s[0]] + s.drop_first());
        if s[0].series_id == id {
            lemma_total_cons(add_point(s[0], p), s.drop_first());
        } else if id < s[0].series_id {
            lemma_total_cons(new_series(id, metric, tags, p), s);
        } else {
            lemma_insert_total(s.drop_first(), id, metric, tags, p);
            lemma_total_cons(s[0], insert_point(s.drop_first(), id, metric, tags, p));
        }
    }
}

proof fn lemma_total_cons(x: SeriesView, t: Seq<SeriesView>)
    ensures
        total_points(seq![x] + t) == x.points.len() + total_points(t),
    decreases t.len(),
{
    if t.len() > 0 {
        assert((seq![x] + t).drop_last() =~= seq![x] + t.drop_last());
        lemma_total_cons(x, t.drop_last());
    } else {
        assert((seq![x] + t).drop_last() =~= t);
    }
}


/// A key and value pair is among the tags of a series.
pub open spec fn has_tag(series_tags: Seq<(String, String)>, tag: (String, String)) -> bool {
    exists|j: int|
        0 <= j < series_tags.len() && #[trigger] series_tags[j].0@ == tag.0@ && series_tags[j].1@
            == tag.1@
}

/// Every tag of `filter` is among the tags of a series.
pub open spec fn tags_include(series_tags: Seq<(String, String)>, filter: Seq<(String, String)>) -> bool {
    forall|i: int| 0 <= i < filter.len() ==> has_tag(series_tags, #[trigger] filter[i])
}

/// The points of `ps` outside `[start, end)`, in order.
pub open spec fn outside_range(ps: Seq<PointView>, start: i64, end: i64) -> Seq<PointView>
    decreases ps.len(),
{
    if ps.len() == 0 {
        seq![]
    } else if start <= ps.last().timestamp && ps.last().timestamp < end {
        outside_range(ps.drop_last(), start, end)
    } else {
        outside_range(ps.drop_last(), start, end).push(ps.last())
    }
}

/// Whether a delete applies to a series: its metric, and every filter tag.
pub open spec fn delete_applies(sv: SeriesView, metric: Seq<char>, filter: Seq<(String, String)>) -> bool {
    sv.metric == metric && tags_include(sv.tags, filter)
}

/// The series after the points in `[start, end)` of the series the delete
/// applies to are removed; a series left with no point is removed.
pub open spec fn delete_spec(
    s: Seq<SeriesView>,
    metric: Seq<char>,
    filter: Seq<(String, String)>,
    start: i64,
    end: i64,
) -> Seq<SeriesView>
    decreases s.len(),
{
    if s.len() == 0 {
        seq![]
    } else {
        let rest = delete_spec(s.drop_last(), metric, filter, start, end);
        let sv = s.last();
        if delete_applies(sv, metric, filter) {
            let kept = outside_range(sv.points, start, end);
            if kept.len() == 0 {
                rest
            } else {
                rest.push(SeriesView { points: kept, ..sv })
            }
        } else {
            rest.push(sv)
        }
    }
}

/// How many points a delete removes.
pub open spec fn deleted_count(
    s: Seq<SeriesView>,
    metric: Seq<char>,
    filter: Seq<(String, String)>,
    start: i64,
    end: i64,
) -> int
    decreases s.len(),
{
    if s.len() == 0 {
        0
    } else {
        let sv = s.last();
        deleted_count(s.drop_last(), metric, filter, start, end) + if delete_applies(sv, metric, filter) {
            sv.points.len() - outside_range(sv.points, start, end).len()
        } else {
            0
        }
    }
}

proof fn lemma_outside_len(ps: Seq<PointView>, start: i64, end: i64)
    ensures
        outside_range(ps, start, end).len() <= ps.len(),
    decreases ps.len(),
{
    if ps.len() > 0 {
        lemma_outside_len(ps.drop_last(), start, end);
    }
}

proof fn lemma_deleted_bound(s: Seq<SeriesView>, metric: Seq<char>, filter: Seq<(String, String)>, start: i64, end: i64)
    ensures
        0 <= deleted_count(s, metric, filter, start, end) <= total_points(s),
    decreases s.len(),
{
    if s.len() > 0 {
        lemma_deleted_bound(s.drop_last(), metric, filter, start, end);
        lemma_outside_len(s.last().points, start, end);
    }
}

proof fn lemma_outside_is_outside(ps: Seq<PointView>, start: i64, end: i64)
    ensures
        forall|j: int|
            0 <= j < outside_range(ps, start, end).len() ==> !(start <= #[trigger] outside_range(ps, start, end)[j].timestamp
                < end),
    decreases ps.len(),
{
    if ps.len() > 0 {
        lemma_outside_is_outside(ps.drop_last(), start, end);
        let o = outside_range(ps.drop_last(), start, end);
        let r = outside_range(ps, start, end);
        assert forall|j: int| 0 <= j < r.len() implies !(start <= #[trigger] r[j].timestamp < end) by {
            if j < o.len() {
                assert(r[j] == o[j]);
            }
        }
    }
}

/// After a delete, no series it applies to holds a point in the range, and
/// every series it does not apply to is still there, unchanged.
pub proof fn lemma_delete_clears_range(
    s: Seq<SeriesView>,
    metric: Seq<char>,
    filter: Seq<(String, String)>,
    start: i64,
    end: i64,
)
    ensures
        forall|i: int, j: int|
            0 <= i < delete_spec(s, metric, filter, start, end).len() && delete_applies(
                delete_spec(s, metric, filter, start, end)[i],
                metric,
                filter,
            ) && 0 <= j < delete_spec(s, metric, filter, start, end)[i].points.len() ==> !(start
                <= #[trigger] delete_spec(s, metric, filter, start, end)[i].points[j].timestamp < end),
        forall|k: int|
            0 <= k < s.len() && !delete_applies(#[trigger] s[k], metric, filter) ==> delete_spec(
                s,
                metric,
                filter,
                start,
                end,
            ).contains(s[k]),
    decreases s.len(),
{
    if s.len() > 0 {
        let rest = delete_spec(s.drop_last(), metric, filter, start, end);
        let r = delete_spec(s, metric, filter, start, end);
        lemma_delete_clears_range(s.drop_last(), metric, filter, start, end);
        let sv = s.last();
        lemma_outside_is_outside(sv.points, start, end);
        assert forall|i: int, j: int|
            0 <= i < r.len() && delete_applies(r[i], metric, filter) && 0 <= j < r[i].points.len() implies !(start
                <= #[trigger] r[i].points[j].timestamp < end) by {
            if i < rest.len() {
                assert(r[i] == rest[i]);
            }
        }
        assert forall|k: int| 0 <= k < s.len() && !delete_applies(#[trigger] s[k], metric, filter) implies r.contains(
            s[k],
        ) by {
            if k < s.len() - 1 {
                assert(s.drop_last()[k] == s[k]);
                let w = choose|w: int| 0 <= w < rest.len() && rest[w] == s[k];
                assert(r[w] == rest[w]);
            } else {
                assert(r[r.len() - 1] == sv);
            }
        }
    }
}

/// Whether the series tags include every filter tag.
fn includes_tags(series_tags: &Vec<(String, String)>, filter: &Vec<(String, String)>) -> (r: bool)
    ensures
        r == tags_include(series_tags@, filter@),
{
    let mut i: usize = 0;
    while i < filter.len()
        invariant
            i <= filter.len(),
            forall|a: int| 0 <= a < i ==> has_tag(series_tags@, #[trigger] filter@[a]),
        decreases filter.len() - i,
    {
        let mut j: usize = 0;
        let mut found = false;
        while j < series_tags.len() && !found
            invariant
                j <= series_tags.len(),
                i < filter.len(),
                found ==> has_tag(series_tags@, filter@[i as int]),
                !found ==> forall|q: int|
                    0 <= q < j ==> !(#[trigger] series_tags@[q].0@ == filter@[i as int].0@
                        && series_tags@[q].1@ == filter@[i as int].1@),
            decreases series_tags.len() - j,
        {
            if str_eq(series_tags[j].0.as_str(), filter[i].0.as_str()) && str_eq(
                series_tags[j].1.as_str(),
                filter[i].1.as_str(),
            ) {
                found = true;
            }
            j = j + 1;
        }
        if !found {
            assert(!has_tag(series_tags@, filter@[i as int]));
            return false;
        }
        i = i + 1;
    }
    true
}

/// The points outside `[start, end)`, taken out of `points` in order, and
/// how many were in it.
fn split_points(points: Vec<FlushPoint>, start: i64, end: i64) -> (r: (Vec<FlushPoint>, usize))
    ensures
        point_views(r.0@) == outside_range(point_views(points@), start, end),
        r.1 == points@.len() - outside_range(point_views(points@), start, end).len(),
{
    let ghost ps = point_views(points@);
    let mut points = points;
    let mut kept: Vec<FlushPoint> = Vec::new();
    let mut removed: usize = 0;
    let mut j: usize = 0;
    while j < points.len()
        invariant
            j <= points.len(),
            points@.len() == ps.len(),
            forall|q: int| j <= q < ps.len() ==> #[trigger] points@[q]@ == ps[q],
            point_views(kept@) == outside_range(ps.take(j as int), start, end),
            removed == j - outside_range(ps.take(j as int), start, end).len(),
            removed <= j,
        decreases points.len() - j,
    {
        let mut p = FlushPoint { timestamp: 0, fields: Vec::new() };
        std::mem::swap(&mut p, &mut points[j]);
        assert(p@ == ps[j as int]);
        assert(ps.take(j as int + 1).drop_last() =~= ps.take(j as int));
        assert(ps.take(j as int + 1).last() == ps[j as int]);
        proof {
            lemma_outside_len(ps.take(j as int), start, end);
        }
        if start <= p.timestamp && p.timestamp < end {
            removed = removed + 1;
        } else {
            let ghost before = point_views(kept@);
            let ghost pv = p@;
            kept.push(p);
            assert(point_views(kept@) =~= before.push(pv));
        }
        j = j + 1;
    }
    assert(ps.take(points.len() as int) =~= ps);
    (kept, removed)
}

impl ActiveBlock {
    /// Removes the points in `[start, end)` of the series of `metric` that
    /// carry every tag of `tags`, and the series left with no point; returns
    /// how many points were removed. The window is kept.
    pub fn delete_range(&mut self, metric: &str, tags: &Vec<(String, String)>, start: i64, end: i64) -> (r: usize)
        requires
            old(self)@.wf(),
            total_points(old(self)@.series) <= usize::MAX,
        ensures
            final(self)@.wf(),
            final(self)@.window_secs == old(self)@.window_secs,
            final(self)@.window_start == old(self)@.window_start,
            final(self)@.series == delete_spec(old(self)@.series, metric@, tags@, start, end),
            r == deleted_count(old(self)@.series, metric@, tags@, start, end),
    {
        let mut series: Vec<FlushSeries> = Vec::new();
        std::mem::swap(&mut series, &mut self.series_data);
        let ghost s = series_views(series@);
        let mut out: Vec<FlushSeries> = Vec::new();
        let mut count: usize = 0;
        let mut i: usize = 0;
        while i < series.len()
            invariant
                i <= series.len(),
                series@.len() == s.len(),
                ids_ascending(s),
                forall|q: int| i <= q < s.len() ==> #[trigger] series@[q]@ == s[q],
                series_views(out@) == delete_spec(s.take(i as int), metric@, tags@, start, end),
                count == deleted_count(s.take(i as int), metric@, tags@, start, end),
                count <= total_points(s.take(i as int)),
                total_points(s) <= usize::MAX,
                forall|a: int, q: int|
                    0 <= a < out@.len() && i <= q < s.len() ==> (#[trigger] out@[a]).series_id < (
                        #[trigger] s[q]).series_id,
                ids_ascending(series_views(out@)),
            decreases series.len() - i,
        {
            let mut e = FlushSeries { series_id: 0, metric: String::new(), tags: Vec::new(), points: Vec::new() };
            std::mem::swap(&mut e, &mut series[i]);
            assert(e@ == s[i as int]);
            let ghost t = s.take(i as int + 1);
            assert(t.drop_last() =~= s.take(i as int));
            assert(t.last() == s[i as int]);
            let ghost before = series_views(out@);
            if crate::text::str_eq(e.metric.as_str(), metric) && includes_tags(&e.tags, tags) {
                let FlushSeries { series_id, metric: m, tags: tg, points } = e;
                let ghost pts = point_views(points@);
                assert(pts == s[i as int].points);
                let (kept, removed) = split_points(points, start, end);
                proof {
                    lemma_deleted_bound(t, metric@, tags@, start, end);
                    lemma_total_prefix(s, i as int + 1);
                }
                count = count + removed;
                if kept.len() > 0 {
                    let ne = FlushSeries { series_id, metric: m, tags: tg, points: kept };
                    let ghost nv = ne@;
                    assert(nv == SeriesView { points: outside_range(pts, start, end), ..s[i as int] });
                    out.push(ne);
                    assert(series_views(out@) =~= before.push(nv));
                }
            } else {
                let ghost ev = e@;
                out.push(e);
                assert(series_views(out@) =~= before.push(ev));
                proof {
                    lemma_deleted_bound(t, metric@, tags@, start, end);
                    lemma_total_prefix(s, i as int + 1);
                }
            }
            i = i + 1;
        }
        assert(s.take(series.len() as int) =~= s);
        self.series_data = out;
        count
    }
}
} // verus!
