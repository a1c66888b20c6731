use std::hash::{Hash, Hasher};
use tsdb_engine::model::{FieldValue, ONE_BITS};
use tsdb_engine::config::{WalSyncMode, EngineConfig, RetentionPolicy};
use tsdb_engine::engine::query::group_by::GroupByTime;
use tsdb_engine::engine::query::aggregation::{AggFunc, group_by_time, bucket_of, P50_BITS, P90_BITS, P99_BITS};
use tsdb_engine::engine::query::executor::{QueryRequest, query_field_name, collect_points, sort_by_time, section_points};
use tsdb_engine::engine::block::{SeriesBlockData, DecodedBlock};
use tsdb_engine::engine::block::series_header::encode_series_header;
use tsdb_engine::engine::block::field_column::{encode_field_column, FieldSample};
use tsdb_engine::engine::encoding::delta_of_delta::encode_timestamps;
use tsdb_engine::series_key::{compute_series_id, sort_tags_by_key};
use tsdb_engine::line_protocol::parse_measurement_and_tags;
use tsdb_engine::api::{WriteResponse, WalConfigResponse, RetentionCreate, batch_too_large, MAX_POINTS_PER_REQUEST};

fn tags(pairs: &[(&str, &str)]) -> Vec<(String, String)> {
    pairs.iter().map(|(k, v)| (k.to_string(), v.to_string())).collect()
}

#[test]
fn group_by_names_and_numbers() {
    assert_eq!(GroupByTime::from_str("1m"), Some(GroupByTime { interval_secs: 60 }));
    assert_eq!(GroupByTime::from_str("1H"), Some(GroupByTime { interval_secs: 3600 }));
    assert_eq!(GroupByTime::from_str("10s"), Some(GroupByTime { interval_secs: 10 }));
    assert_eq!(GroupByTime::from_str("5m").unwrap().interval_secs, 300);
    assert_eq!(GroupByTime::from_str("1d").unwrap().interval_secs, 86400);
    assert_eq!(GroupByTime::from_str("30s"), Some(GroupByTime { interval_secs: 30 }));
    assert_eq!(GroupByTime::from_str("45"), Some(GroupByTime { interval_secs: 45 }));
    assert_eq!(GroupByTime::from_str("2h"), None);
    assert_eq!(GroupByTime::from_str("abc"), None);
    assert_eq!(GroupByTime::from_str("7sss"), Some(GroupByTime { interval_secs: 7 }));
    assert_eq!(GroupByTime::from_str("s7"), None);
    assert_eq!(GroupByTime::from_str("ss"), None);
    assert_eq!(GroupByTime { interval_secs: 60 }.interval_ns(), 60_000_000_000);
}

#[test]
fn agg_func_names() {
    assert_eq!(AggFunc::from_str("AVG"), Some(AggFunc::Avg));
    assert_eq!(AggFunc::from_str("p99"), Some(AggFunc::Percentile(P99_BITS)));
    assert_eq!(f64::from_bits(P50_BITS), 50.0);
    assert_eq!(f64::from_bits(P90_BITS), 90.0);
    assert_eq!(f64::from_bits(P99_BITS), 99.0);
    assert_eq!(AggFunc::from_str("derivative"), Some(AggFunc::Derivative));
    assert_eq!(AggFunc::from_str("median"), None);
}

#[test]
fn grouping_by_time_buckets() {
    let points: Vec<(i64, u64)> = vec![(5, 1), (12, 2), (15, 3), (-3, 4), (25, 5)];
    let g = group_by_time(&points, 10);
    assert_eq!(g, vec![(0, vec![1, 4]), (10, vec![2, 3]), (20, vec![5])]);
    assert_eq!(bucket_of(-15, 10), -10);
    assert_eq!(bucket_of(15, -10), 10);
    assert_eq!(bucket_of(i64::MIN, i64::MIN), i64::MIN);
}

#[test]
fn sorting_points_is_stable() {
    let mut pts: Vec<(i64, u8)> = vec![(3, 0), (1, 1), (3, 2), (2, 3), (1, 4)];
    sort_by_time(&mut pts);
    assert_eq!(pts, vec![(1, 1), (1, 4), (2, 3), (3, 0), (3, 2)]);
}

fn section(ts: &[i64], field: &str, floats: &[u64], ints: &[i64]) -> SeriesBlockData {
    SeriesBlockData {
        header: encode_series_header("cpu", &[], ts.len() as u64),
        timestamps: encode_timestamps(ts),
        fields: vec![(field.to_string(), encode_field_column(floats, ints))],
    }
}

#[test]
fn collecting_points_from_rows_and_blocks() {
    let rows = vec![
        (5i64, vec![("value".to_string(), FieldValue::Integer(7))]),
        (6i64, vec![("value".to_string(), FieldValue::String("x".to_string()))]),
        (7i64, vec![("value".to_string(), FieldValue::Bool(true))]),
        (8i64, vec![("other".to_string(), FieldValue::Integer(1))]),
    ];
    let blocks = vec![DecodedBlock { series: vec![section(&[1, 2, 3], "value", &[], &[10, 20, 30])] }];
    let pts = collect_points(&rows, &blocks, "value", 2, 4);
    assert_eq!(pts, vec![
        (5, FieldSample::Integer(7)),
        (7, FieldSample::Float(ONE_BITS)),
        (2, FieldSample::Integer(20)),
        (3, FieldSample::Integer(30)),
    ]);
    let s = section(&[1, 2], "value", &[1.5f64.to_bits(), 2.5f64.to_bits()], &[]);
    assert_eq!(section_points(&s, "other", 0, 10), vec![]);
    assert_eq!(section_points(&s, "value", 0, 10).len(), 2);
}

#[test]
fn query_field_defaults_to_value() {
    let mut req = QueryRequest {
        metric: "cpu".to_string(),
        tags: vec![],
        start_time: 0,
        end_time: 1,
        field: None,
        aggregation: None,
        group_by: None,
    };
    assert_eq!(query_field_name(&req), "value");
    req.field = Some("usage".to_string());
    assert_eq!(query_field_name(&req), "usage");
}

#[test]
fn series_id_ignores_tag_order() {
    let a = compute_series_id("cpu", &tags(&[("host", "a"), ("dc", "x")]));
    let b = compute_series_id("cpu", &tags(&[("dc", "x"), ("host", "a")]));
    assert_eq!(a, b);
    let c = compute_series_id("cpu", &tags(&[("dc", "x"), ("host", "b")]));
    assert_ne!(a, c);
    assert_eq!(sort_tags_by_key(&tags(&[("z", "1"), ("a", "2"), ("m", "3")])), tags(&[("a", "2"), ("m", "3"), ("z", "1")]));
}

#[test]
fn series_id_matches_hashing_in_key_order() {
    let mut h = std::collections::hash_map::DefaultHasher::new();
    "cpu".hash(&mut h);
    "dc".hash(&mut h);
    "x".hash(&mut h);
    "host".hash(&mut h);
    "a".hash(&mut h);
    assert_eq!(compute_series_id("cpu", &tags(&[("host", "a"), ("dc", "x")])), h.finish());
}

#[test]
fn measurement_and_tags() {
    let (m, t) = parse_measurement_and_tags("cpu,host=server01,region=us-west").unwrap();
    assert_eq!(m, "cpu");
    assert_eq!(t, tags(&[("host", "server01"), ("region", "us-west")]));
    let (m, t) = parse_measurement_and_tags("temperature").unwrap();
    assert_eq!(m, "temperature");
    assert!(t.is_empty());
    let (_, t) = parse_measurement_and_tags("m,b=1,a=2,b=3,novalue,c=x=y").unwrap();
    assert_eq!(t, tags(&[("a", "2"), ("b", "3"), ("c", "x=y")]));
    assert_eq!(parse_measurement_and_tags(",host=a").err().unwrap(), "metric name cannot be empty");
    assert_eq!(parse_measurement_and_tags("").err().unwrap(), "metric name cannot be empty");
}

#[test]
fn wal_sync_mode_names() {
    assert_eq!(WalSyncMode::from_str("EVERY_WRITE"), Some(WalSyncMode::EveryWrite));
    assert_eq!(WalSyncMode::from_str("everysecond"), Some(WalSyncMode::EverySecond));
    assert_eq!(WalSyncMode::from_str("none"), Some(WalSyncMode::NoSync));
    assert_eq!(WalSyncMode::from_str("sometimes"), None);
    assert_eq!(WalSyncMode::NoSync.as_str(), "none");
}

#[test]
fn default_config() {
    let c = EngineConfig::default();
    assert_eq!(c.data_dir, "./data");
    assert_eq!(c.wal_sync_mode, WalSyncMode::EverySecond);
    assert_eq!(c.wal_max_size_bytes, 64 * 1024 * 1024);
    assert_eq!(c.active_block_window_secs, 7200);
    assert_eq!(c.max_series_per_metric, 1_000_000);
    assert!(c.retention_policies.is_empty());
}

#[test]
fn api_answers() {
    let r = WriteResponse::from_parts(3, vec![(0, "bad".to_string())], vec![(4, "limit".to_string())]);
    assert_eq!(r.success, 3);
    assert_eq!(r.failed, 2);
    assert_eq!(r.errors[1].0, 4);
    assert!(!batch_too_large(MAX_POINTS_PER_REQUEST));
    assert!(batch_too_large(MAX_POINTS_PER_REQUEST + 1));
    let w = WalConfigResponse::new(WalSyncMode::EveryWrite, 10, 5);
    assert_eq!(w.sync_mode, "every_write");
    let p: RetentionPolicy = RetentionCreate {
        metric: "cpu".to_string(),
        ttl_days: 7,
        downsample_7d_interval_secs: Some(60),
        downsample_30d_interval_secs: None,
    }.into_policy();
    assert_eq!(p.metric, "cpu");
    assert_eq!(p.ttl_days, 7);
    assert_eq!(p.downsample_7d_interval_secs, Some(60));
}
