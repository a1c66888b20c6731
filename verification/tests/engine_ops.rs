use tsdb_engine::model::{FieldValue, DataPoint};
use tsdb_engine::config::EngineConfig;
use tsdb_engine::engine::active_block::ActiveBlock;
use tsdb_engine::engine::state::{EngineState, Admission};
use tsdb_engine::engine::index::inverted::InvertedIndex;
use tsdb_engine::engine::query::executor::{QueryRequest, select_series};
use tsdb_engine::engine::block::{BlockStore, SeriesBlockData, decode_block, BLOCK_HEADER_SIZE};
use tsdb_engine::engine::wal::{wal_file_name, wal_sequence_of, max_wal_sequence, WalState};
use tsdb_engine::series_key::compute_series_id;
use tsdb_engine::engine::encoding::delta_of_delta::timestamps_encodable;

fn tags(pairs: &[(&str, &str)]) -> Vec<(String, String)> {
    pairs.iter().map(|(k, v)| (k.to_string(), v.to_string())).collect()
}

fn point(metric: &str, t: &[(&str, &str)], ts: i64) -> DataPoint {
    DataPoint {
        metric: metric.to_string(),
        tags: tags(t),
        fields: vec![("value".to_string(), FieldValue::Integer(ts))],
        timestamp: ts,
    }
}

fn write(st: &mut EngineState, p: DataPoint) {
    let id = compute_series_id(&p.metric, &p.tags);
    match st.check_admission(&p.metric, id) {
        Admission::Accept { is_new } => st.apply_write(id, is_new, p),
        Admission::Reject(m) => panic!("{}", m),
    }
}

#[test]
fn delete_range_removes_matching_points() {
    let mut b = ActiveBlock::new(3600);
    let v = |i: i64| vec![("v".to_string(), FieldValue::Integer(i))];
    b.insert(1, "cpu".to_string(), tags(&[("host", "a")]), v(1), 10);
    b.insert(1, "cpu".to_string(), tags(&[("host", "a")]), v(2), 20);
    b.insert(2, "cpu".to_string(), tags(&[("host", "b")]), v(3), 15);
    b.insert(3, "mem".to_string(), tags(&[("host", "a")]), v(4), 15);
    // only host=a of cpu, only [15, 25)
    assert_eq!(b.delete_range("cpu", &tags(&[("host", "a")]), 15, 25), 1);
    assert_eq!(b.query(1, 0, 100).len(), 1);
    assert_eq!(b.query(2, 0, 100).len(), 1);
    assert_eq!(b.query(3, 0, 100).len(), 1);
    // no filter: every cpu series; an emptied series is gone
    assert_eq!(b.delete_range("cpu", &vec![], 0, 100), 2);
    assert!(b.query(1, 0, 100).is_empty());
    assert!(b.query_metric("cpu", i64::MIN, i64::MAX).is_empty());
    assert_eq!(b.delete_range("cpu", &vec![], 0, 100), 0);
}

#[test]
fn delete_points_needs_a_known_metric() {
    let mut st = EngineState::new(&EngineConfig::default());
    write(&mut st, point("cpu", &[("host", "a")], 5));
    write(&mut st, point("cpu", &[("host", "a")], 50));
    assert_eq!(st.delete_points("disk", &vec![], 0, 100), 0);
    assert_eq!(st.delete_points("cpu", &tags(&[("host", "x")]), 0, 100), 0);
    assert_eq!(st.delete_points("cpu", &tags(&[("host", "a")]), 0, 10), 1);
    assert_eq!(st.series_count(), 1);
}

#[test]
fn list_tags_sorted_and_distinct() {
    let mut st = EngineState::new(&EngineConfig::default());
    write(&mut st, point("cpu", &[("region", "us"), ("host", "b")], 1));
    write(&mut st, point("cpu", &[("host", "a"), ("region", "us")], 2));
    write(&mut st, point("cpu", &[("host", "b"), ("region", "us")], 3));
    write(&mut st, point("mem", &[("zone", "z1")], 4));
    let t = st.list_tags("cpu");
    assert_eq!(
        t,
        vec![
            ("host".to_string(), vec!["a".to_string(), "b".to_string()]),
            ("region".to_string(), vec!["us".to_string()]),
        ]
    );
    assert!(st.list_tags("nothing").is_empty());
}

#[test]
fn replay_buffers_without_registering() {
    let mut st = EngineState::new(&EngineConfig::default());
    let n = st.replay_wal(vec![point("cpu", &[("host", "a")], 1), point("cpu", &[("host", "a")], 2)]);
    assert_eq!(n, 2);
    let id = compute_series_id("cpu", &tags(&[("host", "a")]));
    assert_eq!(st.active.query(id, 0, 10).len(), 2);
    assert_eq!(st.series_count(), 0);
    assert!(st.list_metrics().is_empty());
}

#[test]
fn query_selects_by_indexable_tags() {
    let mut ix = InvertedIndex::new();
    ix.add_metric_series("cpu", 1);
    ix.add_metric_series("cpu", 2);
    ix.add("host", "a", 1);
    ix.add("host", "b", 2);
    ix.add("dc", "x", 1);
    ix.add("dc", "x", 2);
    let mut req = QueryRequest {
        metric: "cpu".to_string(),
        tags: vec![],
        start_time: 0,
        end_time: 10,
        field: None,
        aggregation: None,
        group_by: None,
    };
    let mut all = select_series(&ix, &req);
    all.sort();
    assert_eq!(all, vec![1, 2]);
    req.tags = tags(&[("host", "a")]);
    assert_eq!(select_series(&ix, &req), vec![1]);
    req.tags = tags(&[("host", "b"), ("dc", "x")]);
    assert_eq!(select_series(&ix, &req), vec![2]);
    req.tags = tags(&[("host", "zzz")]);
    assert!(select_series(&ix, &req).is_empty());
}

#[test]
fn block_store_lays_out_files() {
    let store = BlockStore::new("/data/blocks".to_string());
    assert_eq!(store.block_file_path("abc"), "/data/blocks/abc.blk");
    assert_eq!(BlockStore::new("rel/".to_string()).block_file_path("x"), "rel/x.blk");
    let mut b = ActiveBlock::new(10);
    b.insert(4, "cpu".to_string(), vec![], vec![("v".to_string(), FieldValue::Integer(1))], 7);
    let data = b.drain_for_flush().unwrap();
    let sections = vec![SeriesBlockData { header: vec![1, 2], timestamps: vec![3], fields: vec![] }];
    let (file, meta) = store.prepare_block(&data, &sections);
    assert_eq!(meta.metric, "cpu");
    assert_eq!(meta.block_id.len(), 36);
    assert_eq!(meta.file_path, format!("/data/blocks/{}.blk", meta.block_id));
    assert_eq!(meta.min_timestamp, 7);
    assert_eq!(meta.series_count, 1);
    assert_eq!(meta.original_size, 3);
    assert_eq!(file.bytes.len(), BLOCK_HEADER_SIZE + file.compressed_size as usize);
    let decoded = decode_block(&file.bytes, meta.crc32).ok().unwrap();
    assert_eq!(decoded.series.len(), 1);
    assert_eq!(decoded.series[0].header, vec![1, 2]);
}

#[test]
fn wal_file_names_and_rotation() {
    assert_eq!(wal_file_name(3), "wal_00000003.log");
    assert_eq!(wal_file_name(123456789), "wal_123456789.log");
    assert_eq!(wal_sequence_of("wal_00000012.log"), Some(12));
    assert_eq!(wal_sequence_of("wal_+7.log"), Some(7));
    assert_eq!(wal_sequence_of("wal_.log"), None);
    assert_eq!(wal_sequence_of("wal_x.log"), None);
    assert_eq!(wal_sequence_of("blk_00000001.log"), None);
    let names = vec!["wal_00000002.log".to_string(), "notes.txt".to_string(), "wal_00000009.log".to_string()];
    assert_eq!(max_wal_sequence(&names), 9);
    assert_eq!(max_wal_sequence(&vec![]), 0);
    let mut w = WalState::new(9, 30);
    assert!(!w.should_rotate());
    assert_eq!(w.rotate(), "wal_00000010.log");
    assert_eq!(w.current_size, 4);
    w.record_append(20);
    assert_eq!(w.current_size, 34);
    assert!(w.should_rotate());
}

#[test]
fn series_id_ignores_order_of_three_tags() {
    let a = compute_series_id("cpu", &tags(&[("host", "a"), ("dc", "x"), ("rack", "7")]));
    let b = compute_series_id("cpu", &tags(&[("rack", "7"), ("host", "a"), ("dc", "x")]));
    let c = compute_series_id("cpu", &tags(&[("rack", "8"), ("host", "a"), ("dc", "x")]));
    assert_eq!(a, b);
    assert_ne!(a, c);
}

#[test]
fn wal_names_read_back() {
    for seq in [0u64, 1, 42, 99_999_999, 100_000_000, u64::MAX] {
        assert_eq!(wal_sequence_of(&wal_file_name(seq)), Some(seq));
    }
    assert_eq!(wal_sequence_of("wal_+7.log"), Some(7));
    assert_eq!(wal_sequence_of("wal_+.log"), None);
    assert_eq!(wal_sequence_of("wal_1x.log"), None);
    assert_eq!(wal_sequence_of("wal_18446744073709551616.log"), None);
    assert_eq!(wal_sequence_of("wal_18446744073709551615.log"), Some(u64::MAX));
}

#[test]
fn checked_measures() {
    let mut b = ActiveBlock::new(10);
    assert_eq!(b.point_count_checked(), Some(0));
    assert_eq!(b.memory_size_checked(), Some(0));
    assert!(b.window_end_ok());
    b.insert(1, "ab".to_string(), tags(&[("k", "vv")]), vec![("v".to_string(), FieldValue::Integer(1))], 5);
    b.insert(1, "ab".to_string(), tags(&[("k", "vv")]), vec![("v".to_string(), FieldValue::Integer(2))], 6);
    assert_eq!(b.point_count_checked(), Some(2));
    // metric 2 bytes, tag 3 bytes, two points of 64
    assert_eq!(b.memory_size_checked(), Some(2 + 3 + 128));
    assert_eq!(b.memory_size(), 133);
    assert!(b.window_end_ok());
    let mut late = ActiveBlock::new(10);
    late.insert(1, "m".to_string(), vec![], vec![("v".to_string(), FieldValue::Integer(1))], i64::MAX - 5);
    assert!(!late.window_end_ok());
}

#[test]
fn timestamp_columns_check_their_deltas() {
    assert!(timestamps_encodable(&[1, 2, 3, 10]));
    assert!(timestamps_encodable(&[]));
    assert!(!timestamps_encodable(&[i64::MIN, i64::MAX]));
    assert!(!timestamps_encodable(&[0, i64::MAX, 0]));
}

#[test]
fn dictionary_counts() {
    let mut st = EngineState::new(&EngineConfig::default());
    write(&mut st, point("cpu", &[("host", "a"), ("dc", "x")], 1));
    write(&mut st, point("cpu", &[("host", "b"), ("dc", "x")], 2));
    // a write numbers tag values; keys are numbered when a block is written
    assert_eq!(st.dict.key_count(), 0);
    assert_eq!(st.dict.value_total(), 3);
    st.series_header("cpu", &tags(&[("host", "a"), ("dc", "x")]), 1);
    assert_eq!(st.dict.key_count(), 2);
    assert_eq!(st.dict.value_total(), 3);
}
