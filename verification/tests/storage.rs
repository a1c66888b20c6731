use tsdb_engine::engine::block::{SeriesBlockData, BlockError, build_block_file, decode_block, decode_block_body, encode_block_body, BLOCK_HEADER_SIZE};
use tsdb_engine::engine::block::series_header::{encode_series_header, estimate_point_count};
use tsdb_engine::engine::block::field_column::{encode_field_column, field_samples, FieldSample, gather_column, integers_of};
use tsdb_engine::engine::active_block::FlushPoint;
use tsdb_engine::model::FieldValue;
use tsdb_engine::engine::encoding::delta_of_delta::encode_timestamps;
use tsdb_engine::engine::wal::{encode_wal_entry, wal_file_header, recover_entries, WalError};

fn sample_series() -> Vec<SeriesBlockData> {
    let ts = vec![1000i64, 2000, 3000];
    let header = encode_series_header("cpu", &[(1, 1), (2, 3)], 3);
    let col = encode_field_column(&[1.5f64.to_bits(), 2.5f64.to_bits(), 3.5f64.to_bits()], &[]);
    vec![SeriesBlockData {
        header,
        timestamps: encode_timestamps(&ts),
        fields: vec![("value".to_string(), col)],
    }]
}

#[test]
fn series_header_point_count_roundtrip() {
    let h = encode_series_header("temperature", &[(1, 2), (3, 4), (5, 6)], 42);
    assert_eq!(estimate_point_count(&h), 42);
    let h = encode_series_header("m", &[], 0);
    assert_eq!(estimate_point_count(&h), 0);
}

#[test]
fn malformed_header_counts_zero() {
    assert_eq!(estimate_point_count(&[]), 0);
    assert_eq!(estimate_point_count(&[0x80]), 0);
}

#[test]
fn block_file_roundtrip() {
    let series = sample_series();
    let file = build_block_file(&series, 1000, 3000, 1);
    assert_eq!(file.bytes.len(), BLOCK_HEADER_SIZE + file.compressed_size as usize);
    assert_eq!(&file.bytes[0..4], &[66u8, 76, 75, 0]);
    let decoded = decode_block(&file.bytes, file.crc32).unwrap();
    assert_eq!(decoded.series.len(), 1);
    assert_eq!(decoded.series[0].header, series[0].header);
    assert_eq!(decoded.series[0].timestamps, series[0].timestamps);
    assert_eq!(decoded.series[0].fields, series[0].fields);
    assert_eq!(file.original_size, (series[0].header.len() + series[0].timestamps.len()) as u64);
}

#[test]
fn block_errors() {
    let series = sample_series();
    let file = build_block_file(&series, 1000, 3000, 1);
    assert_eq!(decode_block(&file.bytes[..10], file.crc32).err(), Some(BlockError::TooSmall));
    assert_eq!(decode_block(&file.bytes, file.crc32 ^ 1).err(), Some(BlockError::CrcMismatch));
    assert_eq!(decode_block_body(&[0x80]).err(), Some(BlockError::VarintDecode));
    assert_eq!(decode_block_body(&[5, 1]).err(), Some(BlockError::Truncated));
    assert_eq!(decode_block_body(&[0, 0, 1, 1, 0xFF, 0]).err(), Some(BlockError::InvalidUtf8));
    assert_eq!(BlockError::CrcMismatch.message(), "CRC mismatch");
    assert_eq!(BlockError::TooSmall.message(), "block file too small");
}

#[test]
fn block_body_roundtrip() {
    let series = sample_series();
    let body = encode_block_body(&series);
    let back = decode_block_body(&body).unwrap();
    assert_eq!(back.len(), 1);
    assert_eq!(back[0].fields, series[0].fields);
}

#[test]
fn field_column_float_samples() {
    let ts = vec![10i64, 20, 30];
    let col = encode_field_column(&[1.0f64.to_bits(), 2.0f64.to_bits(), 3.0f64.to_bits()], &[]);
    assert_eq!(col[0], 1);
    let s = field_samples(&ts, &col, 15, 31);
    assert_eq!(s, vec![(20, FieldSample::Float(2.0f64.to_bits())), (30, FieldSample::Float(3.0f64.to_bits()))]);
}

#[test]
fn field_column_int_samples() {
    let ts = vec![10i64, 20, 30];
    let col = encode_field_column(&[], &[-5, 7, 100]);
    assert_eq!(col[0], 2);
    let s = field_samples(&ts, &col, 0, 25);
    assert_eq!(s, vec![(10, FieldSample::Integer(-5)), (20, FieldSample::Integer(7))]);
}

#[test]
fn empty_field_column() {
    let col = encode_field_column(&[], &[]);
    assert_eq!(col, vec![0u8]);
    assert!(field_samples(&[1, 2], &col, 0, 10).is_empty());
    assert!(field_samples(&[1, 2], &[], 0, 10).is_empty());
}

#[test]
fn wal_roundtrip_and_torn_tail() {
    let mut file = wal_file_header();
    assert_eq!(file, vec![87u8, 65, 76, 0]);
    let a = encode_wal_entry(b"first");
    let b = encode_wal_entry(b"second entry");
    file.extend_from_slice(&a);
    file.extend_from_slice(&b);
    let recovered = recover_entries(&file).unwrap();
    assert_eq!(recovered, vec![b"first".to_vec(), b"second entry".to_vec()]);
    let mut torn = file.clone();
    torn.extend_from_slice(&encode_wal_entry(b"third")[..5]);
    assert_eq!(recover_entries(&torn).unwrap(), recovered);
}

#[test]
fn wal_corrupt_entry_skipped() {
    let mut file = wal_file_header();
    let mut bad = encode_wal_entry(b"bad");
    let last = bad.len() - 1;
    bad[last] ^= 0xFF;
    file.extend_from_slice(&bad);
    file.extend_from_slice(&encode_wal_entry(b"good"));
    let recovered = recover_entries(&file).unwrap();
    assert_eq!(recovered.last().unwrap(), &b"good".to_vec());
}

#[test]
fn wal_bad_header() {
    assert_eq!(recover_entries(b"XXXX").err(), Some(WalError::InvalidHeader));
    assert_eq!(recover_entries(b"WA").err(), Some(WalError::InvalidHeader));
    assert_eq!(WalError::InvalidHeader.message(), "invalid WAL header");
}

#[test]
fn columns_gather_first_field_of_each_point() {
    let fp = |ts: i64, fields: Vec<(&str, FieldValue)>| FlushPoint {
        timestamp: ts,
        fields: fields.into_iter().map(|(k, v)| (k.to_string(), v)).collect(),
    };
    let points = vec![
        fp(1, vec![("v", FieldValue::Integer(5)), ("w", FieldValue::Bool(true))]),
        fp(2, vec![("w", FieldValue::Integer(9))]),
        fp(3, vec![("v", FieldValue::Float(7)), ("v", FieldValue::Integer(8))]),
        fp(4, vec![("v", FieldValue::Integer(-3))]),
    ];
    let v = gather_column(&points, "v");
    assert_eq!(v, vec![FieldValue::Integer(5), FieldValue::Float(7), FieldValue::Integer(-3)]);
    assert_eq!(integers_of(&v), vec![5, -3]);
    assert!(gather_column(&points, "x").is_empty());
    assert_eq!(integers_of(&gather_column(&points, "w")), vec![9]);
}
