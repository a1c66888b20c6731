use vstd::prelude::*;
use crate::assoc::{assoc_find, assoc_pos, lemma_find_update, lemma_find_push};
use crate::config::EngineConfig;
use crate::model::{DataPoint, clone_pairs};
use crate::engine::active_block::{ActiveBlock, PointView, SeriesView, insert_point, window_fits, total_points, delete_spec, deleted_count};
use crate::engine::index::inverted::{InvertedIndex, postings, set_at, tag_value_list, TAG_VALUE_LIMIT};
use crate::engine::index::tag_listing::{listing_wf, listing_pairs, tags_of_ids};
use crate::engine::index::time_index::TimeIndex;
use crate::engine::index::dictionary::{GlobalDictionary, bytes_find, composite_of, lemma_bytes_find_prefix};
use crate::engine::block::series_header::{encode_series_header, series_header_bytes};
use crate::text::series_limit_message;
use crate::series_key::{compute_series_id, key_input, sort_by_key_spec};
use std::collections::hash_map::DefaultHasher;
use vstd::std_specs::hash::DefaultHasherAdditionalSpecFns;

verus! {

/// The metric and tags of a series.
#[derive(Debug)]
pub struct SeriesInfo {
    pub metric: String,
    pub tags: Vec<(String, String)>,
}

/// Whether a point may be written.
#[derive(Debug)]
pub enum Admission {
    /// It may; `is_new` when its series is not registered yet.
    Accept { is_new: bool },
    /// Its series is new and its metric already has the most series allowed.
    Reject(String),
}

/// The series registered under `id`.
pub open spec fn registered(reg: Seq<(u64, SeriesInfo)>, id: u64) -> bool {
    exists|i: int| 0 <= i < reg.len() && (#[trigger] reg[i]).0 == id
}

/// The series count of `metric`, 0 when it has none.
pub open spec fn count_of(counts: Seq<(String, usize)>, metric: Seq<char>) -> usize {
    match assoc_find(counts, metric) {
        Some(c) => c,
        None => 0,
    }
}

/// The number of registered series whose metric is `m`.
pub open spec fn series_of_metric(reg: Seq<(u64, SeriesInfo)>, m: Seq<char>) -> nat
    decreases reg.len(),
{
    if reg.len() == 0 {
        0
    } else {
        series_of_metric(reg.drop_last(), m) + if reg.last().1.metric@ == m { 1nat } else { 0nat }
    }
}

/// The series id of a point: the hash of its metric and its tags in key
/// order.
pub open spec fn point_series_id(p: DataPoint) -> u64 {
    DefaultHasher::spec_finish(key_input(p.metric@, sort_by_key_spec(p.tags@)))
}

/// The buffered series after the points of `ps` are inserted in order.
pub open spec fn replay_spec(s: Seq<SeriesView>, ps: Seq<DataPoint>) -> Seq<SeriesView>
    decreases ps.len(),
{
    if ps.len() == 0 {
        s
    } else {
        let p = ps.last();
        insert_point(
            replay_spec(s, ps.drop_last()),
            point_series_id(p),
            p.metric@,
            p.tags@,
            PointView { timestamp: p.timestamp, fields: p.fields@ },
        )
    }
}

/// The distinct values kept for tag key `k` after the tags of `tags` are
/// indexed in order: a value is added when the key matches, it is not there
/// yet and the list is below the limit.
pub open spec fn values_after(l: Seq<Seq<char>>, k: Seq<char>, tags: Seq<(String, String)>) -> Seq<Seq<char>>
    decreases tags.len(),
{
    if tags.len() == 0 {
        l
    } else {
        let prev = values_after(l, k, tags.drop_last());
        let t = tags.last();
        if t.0@ == k && prev.len() < TAG_VALUE_LIMIT && !prev.contains(t.1@) {
            prev.push(t.1@)
        } else {
            prev
        }
    }
}

/// The engine's in-memory state: the active block, the indexes, the
/// dictionary, the registered series and the number of series of each metric.
pub struct EngineState {
    pub max_series_per_metric: usize,
    pub active: ActiveBlock,
    pub inverted: InvertedIndex,
    pub time_index: TimeIndex,
    pub dict: GlobalDictionary,
    pub registry: Vec<(u64, SeriesInfo)>,
    pub series_counts: Vec<(String, usize)>,
}

impl EngineState {
    /// Every part is well formed, the window length fits, and the series
    /// count of each metric is the number of registered series of that metric
    /// and stays within the limit per metric.
    pub open spec fn wf(&self) -> bool {
        &&& self.active@.wf()
        &&& window_fits(self.active@.window_secs)
        &&& self.inverted@.wf()
        &&& self.time_index@.wf()
        &&& self.dict@.wf()
        &&& self.dict.counters_ok()
        &&& forall|i: int| 0 <= i < self.series_counts@.len() ==> (#[trigger] self.series_counts@[i]).1
            <= self.registry@.len()
        &&& forall|m: Seq<char>| #[trigger] count_of(self.series_counts@, m) == series_of_metric(self.registry@, m)
        &&& forall|m: Seq<char>| #[trigger] count_of(self.series_counts@, m) <= self.max_series_per_metric
    }

    /// An empty state for the configuration.
    pub fn new(config: &EngineConfig) -> (r: Self)
        requires
            window_fits(config.active_block_window_secs),
        ensures
            r.wf(),
            r.max_series_per_metric == config.max_series_per_metric,
            r.active@.window_secs == config.active_block_window_secs,
            r.active@.series.len() == 0,
            r.registry@.len() == 0,
            r.series_counts@.len() == 0,
    {
        EngineState {
            max_series_per_metric: config.max_series_per_metric,
            active: ActiveBlock::new(config.active_block_window_secs),
            inverted: InvertedIndex::new(),
            time_index: TimeIndex::new(),
            dict: GlobalDictionary::new(),
            registry: Vec::new(),
            series_counts: Vec::new(),
        }
    }

    /// Whether series `id` is registered.
    pub fn is_registered(&self, id: u64) -> (r: bool)
        ensures
            r == registered(self.registry@, id),
    {
        let mut i: usize = 0;
        while i < self.registry.len()
            invariant
                i <= self.registry.len(),
                forall|j: int| 0 <= j < i ==> self.registry@[j].0 != id,
            decreases self.registry.len() - i,
        {
            if self.registry[i].0 == id {
                assert(self.registry@[i as int].0 == id);
                return true;
            }
            i = i + 1;
        }
        false
    }

    /// Decides whether a point of series `id` of `metric` may be written:
    /// refused when the series is new and the metric has reached the limit.
    /// The metric is counted (with 0 series) from its first point on, even a
    /// refused one.
    pub fn check_admission(&mut self, metric: &str, id: u64) -> (r: Admission)
        requires
            old(self).wf(),
        ensures
            final(self).wf(),
            final(self).active@ == old(self).active@,
            final(self).registry@ == old(self).registry@,
            forall|m: Seq<char>|
                #[trigger] assoc_find(final(self).series_counts@, m) == (if m == metric@ {
                    Some(count_of(old(self).series_counts@, m))
                } else {
                    assoc_find(old(self).series_counts@, m)
                }),
            match r {
                Admission::Accept { is_new } => {
                    &&& is_new == !registered(old(self).registry@, id)
                    &&& (is_new ==> count_of(old(self).series_counts@, metric@)
                        < old(self).max_series_per_metric)
                },
                Admission::Reject(msg) => {
                    &&& !registered(old(self).registry@, id)
                    &&& count_of(old(self).series_counts@, metric@) >= old(self).max_series_per_metric
                    &&& msg@ == "Series limit exceeded for metric "@ + metric@
                },
            },
            final(self).max_series_per_metric == old(self).max_series_per_metric,
    {
        let ghost o = self.series_counts@;
        let p = assoc_pos(&self.series_counts, metric);
        let count: usize = if p < self.series_counts.len() {
            self.series_counts[p].1
        } else {
            let key = metric.to_owned();
            proof {
                lemma_find_push(o, key, 0usize);
            }
            self.series_counts.push((key, 0));
            assert forall|i: int| 0 <= i < self.series_counts@.len() implies (#[trigger] self.series_counts@[i]).1
                <= self.registry@.len() by {
                if i < o.len() {
                    assert(self.series_counts@[i] == o[i]);
                }
            }
            assert forall|m: Seq<char>| #[trigger] count_of(self.series_counts@, m) == count_of(o, m) by {
                assert(assoc_find(self.series_counts@, m) == (if m == metric@ {
                    Some(0usize)
                } else {
                    assoc_find(o, m)
                }));
            }
            0
        };
        let exists = self.is_registered(id);
        if !exists && count >= self.max_series_per_metric {
            return Admission::Reject(series_limit_message(metric));
        }
        Admission::Accept { is_new: !exists }
    }

    /// Writes an admitted point: buffers it in the active block, and, for a
    /// new series, registers the series, counts it under its metric and
    /// indexes it under its metric and each of its tags, numbering each tag
    /// value.
    pub fn apply_write(&mut self, id: u64, is_new: bool, point: DataPoint)
        requires
            old(self).wf(),
            is_new ==> count_of(old(self).series_counts@, point.metric@) < old(self).max_series_per_metric,
            is_new ==> !registered(old(self).registry@, id),
            is_new ==> old(self).dict@.values.len() + point.tags@.len() + 1 < u64::MAX,
        ensures
            final(self).wf(),
            final(self).active@.series == insert_point(
                old(self).active@.series,
                id,
                point.metric@,
                point.tags@,
                PointView { timestamp: point.timestamp, fields: point.fields@ },
            ),
            !is_new ==> final(self).registry@ == old(self).registry@,
            is_new ==> final(self).registry@.len() == old(self).registry@.len() + 1,
            is_new ==> final(self).registry@.last().0 == id,
            is_new ==> final(self).registry@.last().1.metric@ == point.metric@,
            is_new ==> final(self).registry@.last().1.tags@ == point.tags@,
            is_new ==> forall|i: int|
                0 <= i < old(self).registry@.len() ==> #[trigger] final(self).registry@[i] == old(
                    self,
                ).registry@[i],
            forall|m: Seq<char>|
                #[trigger] assoc_find(final(self).series_counts@, m) == (if is_new && m
                    == point.metric@ {
                    Some((count_of(old(self).series_counts@, m) + 1) as usize)
                } else {
                    assoc_find(old(self).series_counts@, m)
                }),
            forall|m: Seq<char>|
                #[trigger] set_at(final(self).inverted@.metric_series, m) == (if is_new && m
                    == point.metric@ {
                    set_at(old(self).inverted@.metric_series, m).insert(id)
                } else {
                    set_at(old(self).inverted@.metric_series, m)
                }),
            forall|k: Seq<char>, v: Seq<char>|
                #[trigger] postings(final(self).inverted@.index, k, v) == (if is_new && exists|
                    i: int,
                | 0 <= i < point.tags@.len() && point.tags@[i].0@ == k && point.tags@[i].1@ == v {
                    postings(old(self).inverted@.index, k, v).insert(id)
                } else {
                    postings(old(self).inverted@.index, k, v)
                }),
            is_new ==> forall|i: int|
                0 <= i < point.tags@.len() ==> (#[trigger] bytes_find(
                    final(self).dict@.value_ids,
                    composite_of(point.tags@[i].0@, point.tags@[i].1@),
                )) is Some,
            forall|k: Seq<char>|
                #[trigger] tag_value_list(final(self).inverted@.tag_values, k) == (if is_new {
                    values_after(tag_value_list(old(self).inverted@.tag_values, k), k, point.tags@)
                } else {
                    tag_value_list(old(self).inverted@.tag_values, k)
                }),
            !is_new ==> final(self).dict@ == old(self).dict@,
            final(self).dict@.keys == old(self).dict@.keys,
            final(self).dict@.key_ids == old(self).dict@.key_ids,
            old(self).dict@.values.is_prefix_of(final(self).dict@.values),
            old(self).dict@.value_ids.is_prefix_of(final(self).dict@.value_ids),
            final(self).max_series_per_metric == old(self).max_series_per_metric,
            final(self).time_index@ == old(self).time_index@,
    {
        let DataPoint { metric, tags, fields, timestamp } = point;
        let ghost tv = tags@;
        let ghost mv = metric@;
        if !is_new {
            self.active.insert(id, metric, tags, fields, timestamp);
            return;
        }
        let metric_copy = metric.clone();
        let tags_copy = clone_pairs(&tags);
        self.active.insert(id, metric, tags, fields, timestamp);
        self.inverted.add_metric_series(metric_copy.as_str(), id);
        let ghost reg0 = self.registry@;
        let ghost counts0 = self.series_counts@;
        let info = SeriesInfo { metric: metric_copy.clone(), tags: clone_pairs(&tags_copy) };
        self.registry.push((id, info));
        let p = assoc_pos(&self.series_counts, metric_copy.as_str());
        if p < self.series_counts.len() {
            let c = self.series_counts[p].1;
            let ghost k0 = counts0[p as int].0;
            assert(c <= reg0.len());
            let n = self.registry.len();
            self.series_counts[p].1 = c + 1;
            proof {
                assert(self.series_counts@ =~= counts0.update(p as int, (k0, (c + 1) as usize)));
                lemma_find_update(counts0, mv, p as int, (c + 1) as usize);
            }
        } else {
            let key = metric_copy.clone();
            proof {
                lemma_find_push(counts0, key, 1usize);
            }
            self.series_counts.push((key, 1));
        }
        assert forall|i: int| 0 <= i < self.series_counts@.len() implies (#[trigger] self.series_counts@[i]).1
            <= self.registry@.len() by {
            if i < counts0.len() && i != p {
                assert(self.series_counts@[i] == counts0[i]);
            }
        }
        proof {
            assert(self.registry@.drop_last() =~= reg0);
            assert forall|m: Seq<char>| #[trigger] count_of(self.series_counts@, m) == series_of_metric(self.registry@, m)
                by {
                assert(assoc_find(self.series_counts@, m) == (if m == mv {
                    Some((count_of(counts0, m) + 1) as usize)
                } else {
                    assoc_find(counts0, m)
                }));
                assert(count_of(counts0, m) == series_of_metric(reg0, m));
            }
            assert forall|m: Seq<char>| #[trigger] count_of(self.series_counts@, m) <= self.max_series_per_metric
                by {
                assert(assoc_find(self.series_counts@, m) == (if m == mv {
                    Some((count_of(counts0, m) + 1) as usize)
                } else {
                    assoc_find(counts0, m)
                }));
                assert(count_of(counts0, m) <= self.max_series_per_metric);
            }
        }
        self.index_tags(id, &tags_copy);
    }

    /// Indexes series `id` under each of its tags and numbers each tag value.
    fn index_tags(&mut self, id: u64, tags: &Vec<(String, String)>)
        requires
            old(self).wf(),
            old(self).dict@.values.len() + tags@.len() + 1 < u64::MAX,
        ensures
            final(self).wf(),
            final(self).active@ == old(self).active@,
            final(self).registry@ == old(self).registry@,
            final(self).series_counts@ == old(self).series_counts@,
            final(self).max_series_per_metric == old(self).max_series_per_metric,
            final(self).time_index@ == old(self).time_index@,
            forall|m: Seq<char>| #[trigger] set_at(final(self).inverted@.metric_series, m) == set_at(
                old(self).inverted@.metric_series,
                m,
            ),
            forall|k: Seq<char>, v: Seq<char>|
                #[trigger] postings(final(self).inverted@.index, k, v) == (if exists|i: int|
                    0 <= i < tags@.len() && tags@[i].0@ == k && tags@[i].1@ == v {
                    postings(old(self).inverted@.index, k, v).insert(id)
                } else {
                    postings(old(self).inverted@.index, k, v)
                }),
            forall|i: int|
                0 <= i < tags@.len() ==> (#[trigger] bytes_find(
                    final(self).dict@.value_ids,
                    composite_of(tags@[i].0@, tags@[i].1@),
                )) is Some,
            forall|k: Seq<char>|
                #[trigger] tag_value_list(final(self).inverted@.tag_values, k) == values_after(
                    tag_value_list(old(self).inverted@.tag_values, k),
                    k,
                    tags@,
                ),
            final(self).dict@.keys == old(self).dict@.keys,
            final(self).dict@.key_ids == old(self).dict@.key_ids,
            old(self).dict@.values.is_prefix_of(final(self).dict@.values),
            old(self).dict@.value_ids.is_prefix_of(final(self).dict@.value_ids),
    {
        let ghost ix0 = self.inverted@.index;
        let ghost vi0 = self.dict@.value_ids;
        let ghost tv0 = self.inverted@.tag_values;
        let ghost d0 = self.dict@;
        let mut i: usize = 0;
        while i < tags.len()
            invariant
                i <= tags.len(),
                self.wf(),
                self.dict@.values.len() + (tags@.len() - i) + 1 < u64::MAX,
                self.active@ == old(self).active@,
                self.registry@ == old(self).registry@,
                self.series_counts@ == old(self).series_counts@,
                self.max_series_per_metric == old(self).max_series_per_metric,
                self.time_index@ == old(self).time_index@,
                forall|m: Seq<char>| #[trigger] set_at(self.inverted@.metric_series, m) == set_at(
                    old(self).inverted@.metric_series,
                    m,
                ),
                forall|k: Seq<char>, v: Seq<char>|
                    #[trigger] postings(self.inverted@.index, k, v) == (if exists|j: int|
                        0 <= j < i && tags@[j].0@ == k && tags@[j].1@ == v {
                        postings(ix0, k, v).insert(id)
                    } else {
                        postings(ix0, k, v)
                    }),
                forall|j: int|
                    0 <= j < i ==> (#[trigger] bytes_find(
                        self.dict@.value_ids,
                        composite_of(tags@[j].0@, tags@[j].1@),
                    )) is Some,
                forall|kk: Seq<char>|
                    #[trigger] tag_value_list(self.inverted@.tag_values, kk) == values_after(
                        tag_value_list(tv0, kk),
                        kk,
                        tags@.take(i as int),
                    ),
                self.dict@.keys == d0.keys,
                self.dict@.key_ids == d0.key_ids,
                d0.values.is_prefix_of(self.dict@.values),
                d0.value_ids.is_prefix_of(self.dict@.value_ids),
            decreases tags.len() - i,
        {
            let ghost tv1 = self.inverted@.tag_values;
            let ghost dv1 = self.dict@;
            let k = tags[i].0.as_str();
            let v = tags[i].1.as_str();
            let ghost ix1 = self.inverted@.index;
            self.inverted.add(k, v, id);
            let ghost vi1 = self.dict@.value_ids;
            self.dict.get_or_create_id(k, v);
            proof {
                assert forall|kk: Seq<char>, vv: Seq<char>| #[trigger] postings(self.inverted@.index, kk, vv) == (if exists|j: int|
                    0 <= j < i + 1 && tags@[j].0@ == kk && tags@[j].1@ == vv {
                    postings(ix0, kk, vv).insert(id)
                } else {
                    postings(ix0, kk, vv)
                }) by {
                    if kk == tags@[i as int].0@ && vv == tags@[i as int].1@ {
                        assert(postings(ix1, kk, vv).insert(id) =~= postings(ix0, kk, vv).insert(id));
                    } else {
                        if exists|j: int| 0 <= j < i + 1 && tags@[j].0@ == kk && tags@[j].1@ == vv {
                            let j = choose|j: int| 0 <= j < i + 1 && tags@[j].0@ == kk && tags@[j].1@ == vv;
                            assert(j < i);
                        }
                    }
                }
                assert forall|j: int| 0 <= j < i + 1 implies (#[trigger] bytes_find(
                    self.dict@.value_ids,
                    composite_of(tags@[j].0@, tags@[j].1@),
                )) is Some by {
                    if j < i {
                        lemma_bytes_find_prefix(vi1, self.dict@.value_ids, composite_of(tags@[j].0@, tags@[j].1@));
                    }
                }
                let t1 = tags@.take(i as int + 1);
                assert(t1.drop_last() =~= tags@.take(i as int));
                assert(t1.last() == tags@[i as int]);
                assert forall|kk: Seq<char>| #[trigger] tag_value_list(self.inverted@.tag_values, kk) == values_after(
                    tag_value_list(tv0, kk),
                    kk,
                    t1,
                ) by {
                    assert(tag_value_list(tv1, kk) == values_after(tag_value_list(tv0, kk), kk, tags@.take(i as int)));
                }
                assert(dv1.values.is_prefix_of(self.dict@.values));
                assert(d0.values.is_prefix_of(self.dict@.values));
                assert(d0.value_ids.is_prefix_of(self.dict@.value_ids));
            }
            i = i + 1;
        }
        assert(tags@.take(tags@.len() as int) =~= tags@);
    }

    /// Removes the buffered points of `metric` in `[start, end)` whose series
    /// carry every tag of `tags`, and returns how many were removed; nothing
    /// when the metric never received a point.
    pub fn delete_points(&mut self, metric: &str, tags: &Vec<(String, String)>, start: i64, end: i64) -> (r: usize)
        requires
            old(self).wf(),
            total_points(old(self).active@.series) <= usize::MAX,
        ensures
            final(self).wf(),
            assoc_find(old(self).series_counts@, metric@) is None ==> r == 0 && final(self).active@
                == old(self).active@,
            assoc_find(old(self).series_counts@, metric@) is Some ==> {
                &&& final(self).active@.series == delete_spec(old(self).active@.series, metric@, tags@, start, end)
                &&& final(self).active@.window_secs == old(self).active@.window_secs
                &&& final(self).active@.window_start == old(self).active@.window_start
                &&& r == deleted_count(old(self).active@.series, metric@, tags@, start, end)
            },
            final(self).registry@ == old(self).registry@,
            final(self).series_counts@ == old(self).series_counts@,
            final(self).inverted@ == old(self).inverted@,
            final(self).time_index@ == old(self).time_index@,
            final(self).dict@ == old(self).dict@,
            final(self).max_series_per_metric == old(self).max_series_per_metric,
    {
        let p = assoc_pos(&self.series_counts, metric);
        if p >= self.series_counts.len() {
            return 0;
        }
        self.active.delete_range(metric, tags, start, end)
    }

    /// The tag keys of the series of `metric`, ascending, each with its
    /// values, ascending.
    pub fn list_tags(&self, metric: &str) -> (r: Vec<(String, Vec<String>)>)
        requires
            self.wf(),
        ensures
            listing_wf(r@),
            listing_pairs(r@) == tags_of_ids(set_at(self.inverted@.metric_series, metric@), self.registry@),
    {
        self.inverted.get_tags_for_metric(metric, &self.registry)
    }

    /// Buffers the points read back from the write-ahead log, in order, each
    /// under the id of its series; the registry and the indexes are left as
    /// they are. Returns how many points were replayed.
    pub fn replay_wal(&mut self, points: Vec<DataPoint>) -> (r: usize)
        requires
            old(self).wf(),
        ensures
            final(self).wf(),
            r == points@.len(),
            final(self).active@.series == replay_spec(old(self).active@.series, points@),
            final(self).active@.window_secs == old(self).active@.window_secs,
            final(self).registry@ == old(self).registry@,
            final(self).series_counts@ == old(self).series_counts@,
            final(self).inverted@ == old(self).inverted@,
            final(self).time_index@ == old(self).time_index@,
            final(self).dict@ == old(self).dict@,
            final(self).max_series_per_metric == old(self).max_series_per_metric,
    {
        let ghost s0 = self.active@.series;
        let n = points.len();
        let mut rest = points;
        let ghost ps = rest@;
        let mut i: usize = 0;
        assert(ps.take(0) =~= Seq::<DataPoint>::empty());
        assert(ps.skip(0) =~= ps);
        while rest.len() > 0
            invariant
                self.wf(),
                i + rest@.len() == ps.len(),
                ps.len() == n,
                rest@ == ps.skip(i as int),
                self.active@.series == replay_spec(s0, ps.take(i as int)),
                self.active@.window_secs == old(self).active@.window_secs,
                self.registry@ == old(self).registry@,
                self.series_counts@ == old(self).series_counts@,
                self.inverted@ == old(self).inverted@,
                self.time_index@ == old(self).time_index@,
                self.dict@ == old(self).dict@,
                self.dict.counters_ok() == old(self).dict.counters_ok(),
                self.max_series_per_metric == old(self).max_series_per_metric,
            decreases rest.len(),
        {
            let p = rest.remove(0);
            assert(p == ps[i as int]);
            assert(rest@ =~= ps.skip(i as int + 1));
            assert(ps.take(i as int + 1).drop_last() =~= ps.take(i as int));
            let id = compute_series_id(p.metric.as_str(), &p.tags);
            self.active.insert(id, p.metric, p.tags, p.fields, p.timestamp);
            i = i + 1;
        }
        assert(ps.take(n as int) =~= ps);
        n
    }

    /// How many series are registered.
    pub fn series_count(&self) -> (r: usize)
        ensures
            r == self.registry@.len(),
    {
        self.registry.len()
    }

    /// Every metric that received a point, in the order first seen.
    pub fn list_metrics(&self) -> (r: Vec<String>)
        ensures
            r@.len() == self.series_counts@.len(),
            forall|i: int| 0 <= i < r@.len() ==> #[trigger] r@[i]@ == self.series_counts@[i].0@,
    {
        let mut out: Vec<String> = Vec::new();
        let mut i: usize = 0;
        while i < self.series_counts.len()
            invariant
                i <= self.series_counts.len(),
                out@.len() == i,
                forall|j: int| 0 <= j < i ==> #[trigger] out@[j]@ == self.series_counts@[j].0@,
            decreases self.series_counts.len() - i,
        {
            out.push(self.series_counts[i].0.clone());
            i = i + 1;
        }
        out
    }

    /// The tags of series `id`, none when it is not registered.
    pub fn series_tags(&self, id: u64) -> (r: Vec<(String, String)>)
        ensures
            (exists|i: int| 0 <= i < self.registry@.len() && (#[trigger] self.registry@[i]).0 == id && r@
                == self.registry@[i].1.tags@
                && forall|j: int| 0 <= j < i ==> self.registry@[j].0 != id) || (!registered(
                self.registry@,
                id,
            ) && r@.len() == 0),
    {
        let mut i: usize = 0;
        while i < self.registry.len()
            invariant
                i <= self.registry.len(),
                forall|j: int| 0 <= j < i ==> self.registry@[j].0 != id,
            decreases self.registry.len() - i,
        {
            if self.registry[i].0 == id {
                let r = clone_pairs(&self.registry[i].1.tags);
                assert(self.registry@[i as int].0 == id);
                return r;
            }
            i = i + 1;
        }
        Vec::new()
    }

    /// The header of a series section: its metric, the numbers of its tag
    /// keys and values (numbering those that have none), and its point count.
    pub fn series_header(&mut self, metric: &str, tags: &Vec<(String, String)>, point_count: u64) -> (r: Vec<u8>)
        requires
            old(self).wf(),
            old(self).dict@.values.len() + tags@.len() + 1 < u64::MAX,
            old(self).dict@.keys.len() + tags@.len() + 1 < u64::MAX,
        ensures
            final(self).wf(),
            final(self).active@ == old(self).active@,
            final(self).registry@ == old(self).registry@,
            final(self).series_counts@ == old(self).series_counts@,
            final(self).time_index@ == old(self).time_index@,
            final(self).max_series_per_metric == old(self).max_series_per_metric,
            exists|ids: Seq<(u64, u64)>|
                {
                    &&& ids.len() == tags@.len()
                    &&& r@ == series_header_bytes(metric@, ids, point_count)
                    &&& forall|i: int|
                        0 <= i < ids.len() ==> 1 <= (#[trigger] ids[i]).0 <= final(self).dict@.keys.len()
                            && final(self).dict@.keys[ids[i].0 - 1] == tags@[i].0@
                },
    {
        let mut ids: Vec<(u64, u64)> = Vec::new();
        let mut i: usize = 0;
        while i < tags.len()
            invariant
                i <= tags.len(),
                ids@.len() == i,
                self.wf(),
                self.dict@.values.len() + (tags@.len() - i) + 1 < u64::MAX,
                self.dict@.keys.len() + (tags@.len() - i) + 1 < u64::MAX,
                self.active@ == old(self).active@,
                self.registry@ == old(self).registry@,
                self.series_counts@ == old(self).series_counts@,
                self.time_index@ == old(self).time_index@,
                self.max_series_per_metric == old(self).max_series_per_metric,
                forall|j: int|
                    0 <= j < i ==> 1 <= (#[trigger] ids@[j]).0 <= self.dict@.keys.len()
                        && self.dict@.keys[ids@[j].0 - 1] == tags@[j].0@,
            decreases tags.len() - i,
        {
            let ghost keys0 = self.dict@.keys;
            let kid = self.dict.get_key_id(tags[i].0.as_str());
            let ghost keys1 = self.dict@.keys;
            let vid = self.dict.get_or_create_id(tags[i].0.as_str(), tags[i].1.as_str());
            ids.push((kid, vid));
            proof {
                assert forall|j: int|
                    0 <= j < i + 1 implies 1 <= (#[trigger] ids@[j]).0 <= self.dict@.keys.len()
                        && self.dict@.keys[ids@[j].0 - 1] == tags@[j].0@ by {
                    if j < i {
                        assert(keys1.len() >= keys0.len());
                        assert(keys1[ids@[j].0 - 1] == keys0[ids@[j].0 - 1]);
                    }
                }
            }
            i = i + 1;
        }
        let r = encode_series_header(metric, ids.as_slice(), point_count);
        assert(ids@.len() == tags@.len());
        r
    }
}



/// No metric ever holds more series than the limit: admission refuses a new
/// series at the limit, and a write counts a new series only when admitted,
/// so counts within the limit stay within it.
pub proof fn lemma_series_limit_kept(
    before: Seq<(String, usize)>,
    after: Seq<(String, usize)>,
    metric: Seq<char>,
    is_new: bool,
    max: usize,
)
    requires
        forall|m: Seq<char>| #[trigger] count_of(before, m) <= max,
        is_new ==> count_of(before, metric) < max,
        forall|m: Seq<char>|
            #[trigger] assoc_find(after, m) == (if is_new && m == metric {
                Some((count_of(before, m) + 1) as usize)
            } else {
                assoc_find(before, m)
            }),
    ensures
        forall|m: Seq<char>| #[trigger] count_of(after, m) <= max,
{
    assert forall|m: Seq<char>| #[trigger] count_of(after, m) <= max by {
        assert(count_of(before, m) <= max);
        if is_new && m == metric {
        } else {
            assert(assoc_find(after, m) == assoc_find(before, m));
        }
    }
}

/// The progress of writing a batch of points: the index of the next point to
/// decide, how many points were written, and the refused points, each with
/// its index and the reason.
#[derive(Debug)]
pub struct WriteBatch {
    pub next: usize,
    pub written: usize,
    pub errors: Vec<(usize, String)>,
}

impl WriteBatch {
    /// Every point before `next` was written or refused, and the refusals
    /// come in ascending index order.
    pub open spec fn wf(&self) -> bool {
        &&& self.written + self.errors@.len() == self.next
        &&& forall|i: int, j: int|
            0 <= i < j < self.errors@.len() ==> (#[trigger] self.errors@[i]).0 < (#[trigger] self.errors@[j]).0
        &&& forall|i: int| 0 <= i < self.errors@.len() ==> (#[trigger] self.errors@[i]).0 < self.next
    }

    /// A batch with nothing decided yet.
    pub fn new() -> (r: Self)
        ensures
            r.wf(),
            r.next == 0,
            r.written == 0,
            r.errors@.len() == 0,
    {
        WriteBatch { next: 0, written: 0, errors: Vec::new() }
    }

    /// Decides the next point of the batch against the state: gives the
    /// point's series id and whether the series is new when the point may be
    /// written (the batch is then unchanged until `commit`), or records the
    /// refusal of a new series whose metric is at its limit and moves on.
    pub fn decide(&mut self, state: &mut EngineState, point: &DataPoint) -> (r: Option<(u64, bool)>)
        requires
            old(self).wf(),
            old(state).wf(),
            old(self).next < usize::MAX,
        ensures
            final(self).wf(),
            final(state).wf(),
            final(state).active@ == old(state).active@,
            final(state).registry@ == old(state).registry@,
            final(state).max_series_per_metric == old(state).max_series_per_metric,
            forall|m: Seq<char>|
                #[trigger] assoc_find(final(state).series_counts@, m) == (if m == point.metric@ {
                    Some(count_of(old(state).series_counts@, m))
                } else {
                    assoc_find(old(state).series_counts@, m)
                }),
            match r {
                Some((id, is_new)) => {
                    &&& id == point_series_id(*point)
                    &&& is_new == !registered(old(state).registry@, id)
                    &&& (is_new ==> count_of(old(state).series_counts@, point.metric@)
                        < old(state).max_series_per_metric)
                    &&& final(self).next == old(self).next
                    &&& final(self).written == old(self).written
                    &&& final(self).errors@ == old(self).errors@
                },
                None => {
                    &&& !registered(old(state).registry@, point_series_id(*point))
                    &&& count_of(old(state).series_counts@, point.metric@) >= old(state).max_series_per_metric
                    &&& final(self).next == old(self).next + 1
                    &&& final(self).written == old(self).written
                    &&& final(self).errors@.len() == old(self).errors@.len() + 1
                    &&& final(self).errors@.drop_last() == old(self).errors@
                    &&& final(self).errors@.last().0 == old(self).next
                    &&& final(self).errors@.last().1@ == "Series limit exceeded for metric "@ + point.metric@
                },
            },
    {
        let id = compute_series_id(point.metric.as_str(), &point.tags);
        match state.check_admission(point.metric.as_str(), id) {
            Admission::Accept { is_new } => Some((id, is_new)),
            Admission::Reject(msg) => {
                let i = self.next;
                let ghost e0 = self.errors@;
                self.errors.push((i, msg));
                self.next = i + 1;
                proof {
                    assert(self.errors@.drop_last() =~= e0);
                    assert forall|a: int, b: int|
                        0 <= a < b < self.errors@.len() implies (#[trigger] self.errors@[a]).0
                        < (#[trigger] self.errors@[b]).0 by {
                        assert(self.errors@[a] == e0[a]);
                        if b < e0.len() {
                            assert(self.errors@[b] == e0[b]);
                        }
                    }
                    assert forall|a: int| 0 <= a < self.errors@.len() implies (#[trigger] self.errors@[a]).0
                        < self.next by {
                        if a < e0.len() {
                            assert(self.errors@[a] == e0[a]);
                        }
                    }
                }
                None
            },
        }
    }

    /// Writes the admitted point the batch is at and moves on, counting it
    /// written.
    pub fn commit(&mut self, state: &mut EngineState, id: u64, is_new: bool, point: DataPoint)
        requires
            old(self).wf(),
            old(self).next < usize::MAX,
            old(state).wf(),
            id == point_series_id(point),
            is_new == !registered(old(state).registry@, id),
            is_new ==> count_of(old(state).series_counts@, point.metric@) < old(state).max_series_per_metric,
            is_new ==> old(state).dict@.values.len() + point.tags@.len() + 1 < u64::MAX,
        ensures
            final(self).wf(),
            final(self).next == old(self).next + 1,
            final(self).written == old(self).written + 1,
            final(self).errors@ == old(self).errors@,
            final(state).wf(),
            final(state).active@.series == insert_point(
                old(state).active@.series,
                id,
                point.metric@,
                point.tags@,
                PointView { timestamp: point.timestamp, fields: point.fields@ },
            ),
            registered(final(state).registry@, id),
            !is_new ==> final(state).registry@ == old(state).registry@,
            is_new ==> final(state).registry@.len() == old(state).registry@.len() + 1,
            forall|m: Seq<char>|
                #[trigger] assoc_find(final(state).series_counts@, m) == (if is_new && m
                    == point.metric@ {
                    Some((count_of(old(state).series_counts@, m) + 1) as usize)
                } else {
                    assoc_find(old(state).series_counts@, m)
                }),
            final(state).max_series_per_metric == old(state).max_series_per_metric,
    {
        let ghost reg0 = state.registry@;
        state.apply_write(id, is_new, point);
        proof {
            if is_new {
                let n = state.registry@.len() - 1;
                assert(state.registry@[n].0 == id);
            } else {
                let k = choose|k: int| 0 <= k < reg0.len() && (#[trigger] reg0[k]).0 == id;
                assert(state.registry@[k].0 == id);
            }
        }
        self.written = self.written + 1;
        self.next = self.next + 1;
    }

    /// The points-written counter after this batch: `before` plus the
    /// points the batch wrote.
    pub fn total_written(&self, before: u64) -> (r: u64)
        requires
            before + self.written <= u64::MAX,
        ensures
            r == before + self.written,
    {
        before + self.written as u64
    }
}

/// Once every point of a batch of `n` points is decided, the points written
/// and the points refused together are the `n` points, and the refusals come
/// in ascending index order, each index within the batch.
pub proof fn lemma_batch_complete(b: WriteBatch, n: nat)
    requires
        b.wf(),
        b.next == n,
    ensures
        b.written + b.errors@.len() == n,
        forall|i: int, j: int| 0 <= i < j < b.errors@.len() ==> (#[trigger] b.errors@[i]).0 < (#[trigger] b.errors@[j]).0,
        forall|i: int| 0 <= i < b.errors@.len() ==> (#[trigger] b.errors@[i]).0 < n,
{
}

} // verus!
