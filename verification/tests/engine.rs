use tsdb_engine::model::{FieldValue, DataPoint};
use tsdb_engine::config::EngineConfig;
use tsdb_engine::engine::active_block::{ActiveBlock, align_to_window};
use tsdb_engine::engine::index::time_index::TimeIndex;
use tsdb_engine::engine::index::inverted::InvertedIndex;
use tsdb_engine::engine::index::dictionary::GlobalDictionary;
use tsdb_engine::engine::block::BlockMeta;
use tsdb_engine::engine::state::{EngineState, Admission, WriteBatch};
use tsdb_engine::series_key::compute_series_id;
use tsdb_engine::engine::compaction::plan_compaction;
use tsdb_engine::engine::ttl::{ttl_cutoff, expired_blocks, NANOS_PER_DAY};

fn f(name: &str, v: FieldValue) -> (String, FieldValue) {
    (name.to_string(), v)
}

fn tags(pairs: &[(&str, &str)]) -> Vec<(String, String)> {
    pairs.iter().map(|(k, v)| (k.to_string(), v.to_string())).collect()
}

fn meta(id: &str, metric: &str, min: i64, max: i64, size: u64) -> BlockMeta {
    BlockMeta {
        block_id: id.to_string(),
        min_timestamp: min,
        max_timestamp: max,
        series_count: 1,
        compressed_size: size,
        original_size: size,
        crc32: 0,
        file_path: format!("/data/{}.blk", id),
        metric: metric.to_string(),
    }
}

#[test]
fn align_rounds_toward_zero() {
    assert_eq!(align_to_window(7_500_000_000, 5), 5_000_000_000);
    assert_eq!(align_to_window(-7_500_000_000, 5), -5_000_000_000);
    assert_eq!(align_to_window(0, 5), 0);
    assert_eq!(align_to_window(12_000_000_000, -5), 10_000_000_000);
}

#[test]
fn insert_then_query_reads_back_in_range() {
    let mut b = ActiveBlock::new(3600);
    b.insert(7, "cpu".to_string(), tags(&[("host", "a")]), vec![f("usage", FieldValue::Integer(1))], 100);
    b.insert(7, "cpu".to_string(), tags(&[("host", "a")]), vec![f("usage", FieldValue::Integer(2))], 200);
    b.insert(3, "mem".to_string(), vec![], vec![f("used", FieldValue::Bool(true))], 150);
    let rows = b.query(7, 100, 200);
    assert_eq!(rows.len(), 1);
    assert_eq!(rows[0].0, 100);
    assert_eq!(rows[0].1, vec![f("usage", FieldValue::Integer(1))]);
    assert_eq!(b.query(7, 0, 1000).len(), 2);
    assert!(b.query(99, 0, 1000).is_empty());
    let by_metric = b.query_metric("cpu", 0, 1000);
    assert_eq!(by_metric.len(), 1);
    assert_eq!(by_metric[0].0, 7);
    assert_eq!(by_metric[0].2, tags(&[("host", "a")]));
    assert!(b.query_metric("cpu", 500, 1000).is_empty());
}

#[test]
fn drain_takes_everything_in_id_order() {
    let mut b = ActiveBlock::new(10);
    assert!(b.drain_for_flush().is_none());
    b.insert(9, "m".to_string(), vec![], vec![f("v", FieldValue::Integer(1))], 50);
    b.insert(2, "m".to_string(), vec![], vec![f("v", FieldValue::Integer(2))], -20);
    b.insert(9, "m".to_string(), vec![], vec![f("v", FieldValue::Integer(3))], 70);
    let d = b.drain_for_flush().unwrap();
    assert_eq!(d.series_count, 2);
    assert_eq!(d.total_points, 3);
    assert_eq!(d.min_timestamp, -20);
    assert_eq!(d.max_timestamp, 70);
    assert_eq!(d.series[0].series_id, 2);
    assert_eq!(d.series[1].series_id, 9);
    assert!(b.drain_for_flush().is_none());
    assert!(b.query(9, i64::MIN, i64::MAX).is_empty());
}

#[test]
fn flush_due_after_window() {
    let mut b = ActiveBlock::new(10);
    assert!(!b.should_flush_at(i64::MAX / 2));
    b.insert(1, "m".to_string(), vec![], vec![f("v", FieldValue::Integer(1))], 25_000_000_000);
    assert!(!b.should_flush_at(29_999_999_999));
    assert!(b.should_flush_at(30_000_000_000));
}

#[test]
fn memory_estimate() {
    let mut b = ActiveBlock::new(10);
    assert_eq!(b.memory_size(), 0);
    b.insert(1, "cpu".to_string(), tags(&[("host", "ab")]), vec![], 1);
    b.insert(1, "cpu".to_string(), tags(&[("host", "ab")]), vec![], 2);
    assert_eq!(b.memory_size(), 3 + 6 + 128);
}

#[test]
fn time_index_finds_overlapping_blocks() {
    let mut ti = TimeIndex::new();
    ti.add_block(meta("b", "cpu", 100, 200, 10));
    ti.add_block(meta("a", "cpu", 300, 400, 10));
    ti.add_block(meta("c", "mem", 100, 200, 10));
    assert_eq!(ti.block_count(), 3);
    let found = ti.find_blocks("cpu", 150, 350);
    assert_eq!(found.len(), 2);
    assert_eq!(found[0].block_id, "b");
    let found = ti.find_blocks("cpu", 201, 300);
    assert!(found.is_empty());
    let all = ti.all_blocks();
    let ids: Vec<&str> = all.iter().map(|m| m.block_id.as_str()).collect();
    assert_eq!(ids, vec!["a", "b", "c"]);
    ti.remove_block("b");
    assert_eq!(ti.block_count(), 2);
    assert!(ti.get_block("b").is_none());
    assert_eq!(ti.find_blocks("cpu", 0, 1000).len(), 1);
    ti.remove_block("zzz");
    assert_eq!(ti.block_count(), 2);
}

#[test]
fn time_index_same_span_is_ignored() {
    let mut ti = TimeIndex::new();
    ti.add_block(meta("x", "cpu", 1, 2, 10));
    ti.add_block(meta("x", "cpu", 1, 2, 99));
    assert_eq!(ti.get_block("x").unwrap().compressed_size, 10);
    ti.add_block(meta("x", "cpu", 1, 3, 99));
    assert_eq!(ti.get_block("x").unwrap().compressed_size, 99);
    assert_eq!(ti.find_blocks("cpu", 0, 10).len(), 2);
}

#[test]
fn inverted_index_lookups() {
    let mut ix = InvertedIndex::new();
    ix.add("host", "a", 1);
    ix.add("host", "a", 2);
    ix.add("host", "a", 2);
    ix.add("dc", "east", 2);
    ix.add("dc", "east", 3);
    ix.add_metric_series("cpu", 1);
    ix.add_metric_series("cpu", 2);
    let mut l = ix.lookup("host", "a");
    l.sort();
    assert_eq!(l, vec![1, 2]);
    assert!(ix.lookup("host", "b").is_empty());
    let filters = tags(&[("dc", "east"), ("host", "a")]);
    assert_eq!(ix.lookup_multi(&filters), vec![2]);
    assert!(ix.lookup_multi(&vec![]).is_empty());
    let mut m = ix.lookup_metric("cpu");
    m.sort();
    assert_eq!(m, vec![1, 2]);
    assert!(ix.is_indexable("host"));
    assert!(ix.is_indexable("never"));
}

#[test]
fn dictionary_numbers_keys_and_values() {
    let mut d = GlobalDictionary::new();
    let k1 = d.get_key_id("host");
    let k2 = d.get_key_id("dc");
    assert_eq!(k1, 1);
    assert_eq!(k2, 2);
    assert_eq!(d.get_key_id("host"), 1);
    assert_eq!(d.get_key_by_id(1).unwrap(), "host");
    assert!(d.get_key_by_id(0).is_none());
    assert!(d.get_key_by_id(3).is_none());
    let v1 = d.get_or_create_id("host", "a");
    let v2 = d.get_or_create_id("host", "b");
    assert_eq!((v1, v2), (1, 2));
    assert_eq!(d.get_or_create_id("host", "a"), 1);
    assert_eq!(d.get_value_by_id(2).unwrap(), "b");
    assert_eq!(d.value_count_for_key("host"), 2);
    assert_eq!(d.value_count_for_key("dc"), 0);
    // key and value joined with a colon: "a:b"+"c" and "a"+"b:c" share a number
    let x = d.get_or_create_id("a:b", "c");
    let y = d.get_or_create_id("a", "b:c");
    assert_eq!(x, y);
}

fn point(metric: &str, t: &[(&str, &str)], ts: i64) -> DataPoint {
    DataPoint { metric: metric.to_string(), tags: tags(t), fields: vec![f("value", FieldValue::Integer(ts))], timestamp: ts }
}

#[test]
fn series_limit_refuses_new_series() {
    let mut config = EngineConfig::default();
    config.max_series_per_metric = 1;
    let mut st = EngineState::new(&config);
    match st.check_admission("cpu", 11) {
        Admission::Accept { is_new } => assert!(is_new),
        Admission::Reject(_) => panic!("first series refused"),
    }
    st.apply_write(11, true, point("cpu", &[("host", "a")], 5));
    match st.check_admission("cpu", 11) {
        Admission::Accept { is_new } => assert!(!is_new),
        Admission::Reject(_) => panic!("known series refused"),
    }
    st.apply_write(11, false, point("cpu", &[("host", "a")], 6));
    match st.check_admission("cpu", 12) {
        Admission::Reject(msg) => assert_eq!(msg, "Series limit exceeded for metric cpu"),
        Admission::Accept { .. } => panic!("limit not applied"),
    }
    assert_eq!(st.series_count(), 1);
    assert_eq!(st.list_metrics(), vec!["cpu".to_string()]);
    assert_eq!(st.series_tags(11), tags(&[("host", "a")]));
    assert!(st.series_tags(12).is_empty());
    assert_eq!(st.active.query(11, 0, 10).len(), 2);
    assert_eq!(st.inverted.lookup("host", "a"), vec![11]);
}

#[test]
fn series_header_uses_dictionary() {
    let config = EngineConfig::default();
    let mut st = EngineState::new(&config);
    let h = st.series_header("cpu", &tags(&[("host", "a")]), 9);
    assert_eq!(tsdb_engine::engine::block::series_header::estimate_point_count(&h), 9);
    assert_eq!(st.dict.get_key_by_id(1).unwrap(), "host");
}

#[test]
fn compaction_groups_four_small_blocks() {
    let blocks = vec![
        meta("1", "cpu", 40, 49, 10),
        meta("2", "cpu", 10, 19, 10),
        meta("3", "cpu", 30, 39, 10),
        meta("4", "cpu", 20, 29, 10),
        meta("5", "cpu", 50, 59, 10),
        meta("6", "mem", 10, 19, 10),
    ];
    let plan = plan_compaction(&blocks);
    assert_eq!(plan.len(), 1);
    assert_eq!(plan[0].metric, "cpu");
    let ids: Vec<&str> = plan[0].blocks.iter().map(|m| m.block_id.as_str()).collect();
    assert_eq!(ids, vec!["2", "4", "3", "1"]);
    assert_eq!(plan[0].min_timestamp, 10);
    assert_eq!(plan[0].max_timestamp, 49);
}

#[test]
fn compaction_skips_large_windows() {
    let big = 200 * 1024 * 1024;
    let blocks = vec![
        meta("1", "cpu", 1, 1, big),
        meta("2", "cpu", 2, 2, big),
        meta("3", "cpu", 3, 3, 1),
        meta("4", "cpu", 4, 4, 1),
        meta("5", "cpu", 5, 5, 1),
        meta("6", "cpu", 6, 6, 1),
    ];
    let plan = plan_compaction(&blocks);
    assert_eq!(plan.len(), 1);
    assert_eq!(plan[0].blocks[0].block_id, "2");
}

#[test]
fn ttl_expires_old_blocks() {
    let now = 100 * NANOS_PER_DAY;
    let cutoff = ttl_cutoff(now, 30);
    assert_eq!(cutoff, 70 * NANOS_PER_DAY);
    let mut ti = TimeIndex::new();
    ti.add_block(meta("old", "cpu", 0, 10, 1));
    ti.add_block(meta("edge", "cpu", 0, cutoff, 1));
    ti.add_block(meta("new", "cpu", cutoff + 5, cutoff + 10, 1));
    let expired = expired_blocks(&ti, "cpu", cutoff);
    let ids: Vec<&str> = expired.iter().map(|m| m.block_id.as_str()).collect();
    assert_eq!(ids, vec!["old"]);
}

#[test]
fn series_counts_match_registered_series() {
    let mut config = EngineConfig::default();
    config.max_series_per_metric = 2;
    let mut st = EngineState::new(&config);
    let writes: [(&str, u64); 5] = [("cpu", 1), ("mem", 3), ("cpu", 2), ("cpu", 1), ("cpu", 4)];
    let mut refused = Vec::new();
    for (i, (metric, id)) in writes.iter().enumerate() {
        match st.check_admission(metric, *id) {
            Admission::Accept { is_new } => {
                let v = id.to_string();
                st.apply_write(*id, is_new, point(metric, &[("n", v.as_str())], i as i64));
            }
            Admission::Reject(msg) => refused.push((i, msg)),
        }
    }
    assert_eq!(refused, vec![(4, "Series limit exceeded for metric cpu".to_string())]);
    assert_eq!(st.series_counts, vec![("cpu".to_string(), 2), ("mem".to_string(), 1)]);
    for (metric, count) in &st.series_counts {
        assert_eq!(st.registry.iter().filter(|(_, s)| &s.metric == metric).count(), *count);
        assert!(*count <= config.max_series_per_metric);
    }
}

#[test]
fn batch_counts_written_and_refused_points() {
    let mut config = EngineConfig::default();
    config.max_series_per_metric = 2;
    let mut st = EngineState::new(&config);
    let points = vec![
        point("cpu", &[("host", "a")], 1),
        point("cpu", &[("host", "b")], 2),
        point("cpu", &[("host", "c")], 3),
        point("mem", &[("host", "a")], 4),
        point("cpu", &[("host", "a")], 5),
        point("cpu", &[("host", "d")], 6),
    ];
    let n = points.len();
    let mut batch = WriteBatch::new();
    for p in points {
        if let Some((id, is_new)) = batch.decide(&mut st, &p) {
            assert_eq!(id, compute_series_id(&p.metric, &p.tags));
            batch.commit(&mut st, id, is_new, p);
        }
    }
    assert_eq!(batch.next, n);
    assert_eq!(batch.written, 4);
    let msg = "Series limit exceeded for metric cpu".to_string();
    assert_eq!(batch.errors, vec![(2, msg.clone()), (5, msg)]);
    assert_eq!(batch.total_written(10), 14);
    assert_eq!(st.series_count(), 3);
}
