use tsdb_engine::engine::encoding::delta_of_delta::{encode_timestamps, decode_timestamps, try_decode_timestamps};
use tsdb_engine::engine::encoding::varint::{encode_varint, decode_varint, encode_signed_varint, decode_signed_varint};
use tsdb_engine::engine::encoding::zigzag::{encode, decode};
use tsdb_engine::engine::encoding::xor::{encode_floats, decode_floats, try_decode_floats};
use tsdb_engine::engine::encoding::{BitWriter, BitReader};

#[test]
fn test_encode_decode_timestamps() {
    let timestamps: Vec<i64> = vec![1609459200000000000, 1609459201000000000, 1609459202000000000, 1609459203000000000];
    let encoded = encode_timestamps(&timestamps);
    let decoded = decode_timestamps(&encoded, timestamps.len());
    assert_eq!(decoded, timestamps);
}

#[test]
fn test_varying_timestamps() {
    let timestamps: Vec<i64> = vec![1000, 1050, 1120, 1150, 1300, 2000];
    let encoded = encode_timestamps(&timestamps);
    let decoded = decode_timestamps(&encoded, timestamps.len());
    assert_eq!(decoded, timestamps);
}

#[test]
fn test_single_timestamp() {
    let timestamps: Vec<i64> = vec![12345];
    let encoded = encode_timestamps(&timestamps);
    let decoded = decode_timestamps(&encoded, 1);
    assert_eq!(decoded, timestamps);
}

#[test]
fn test_varint_roundtrip() {
    let values = vec![0, 1, 127, 128, 255, 256, 16383, 16384, u64::MAX];
    for v in values {
        let mut buf = Vec::new();
        encode_varint(v, &mut buf);
        let (decoded, len) = decode_varint(&buf).unwrap();
        assert_eq!(decoded, v);
        assert_eq!(len, buf.len());
    }
}

#[test]
fn test_signed_varint_roundtrip() {
    let values = vec![0i64, -1, 1, -128, 127, i64::MAX, i64::MIN];
    for v in values {
        let mut buf = Vec::new();
        encode_signed_varint(v, &mut buf);
        let (decoded, len) = decode_signed_varint(&buf).unwrap();
        assert_eq!(decoded, v);
        assert_eq!(len, buf.len());
    }
}

#[test]
fn test_zigzag() {
    assert_eq!(encode(0), 0);
    assert_eq!(encode(-1), 1);
    assert_eq!(encode(1), 2);
    assert_eq!(encode(-2), 3);
    assert_eq!(encode(2147483647), 4294967294);
    assert_eq!(encode(-2147483648), 4294967295);

    for v in [-1000i64, -1, 0, 1, 1000, i64::MAX, i64::MIN] {
        assert_eq!(decode(encode(v)), v);
    }
}

fn bits_of(values: &[f64]) -> Vec<u64> {
    values.iter().map(|v| v.to_bits()).collect()
}

fn floats_of(bits: &[u64]) -> Vec<f64> {
    bits.iter().map(|b| f64::from_bits(*b)).collect()
}

#[test]
fn test_encode_decode_floats() {
    let values = vec![1.0, 1.0, 1.001, 1.002, 1.001, 1.0];
    let encoded = encode_floats(&bits_of(&values));
    let decoded = floats_of(&decode_floats(&encoded, values.len()));
    for (a, b) in values.iter().zip(decoded.iter()) {
        assert!((a - b).abs() < 1e-10);
    }
}

#[test]
fn test_constant_floats() {
    let values = vec![3.14, 3.14, 3.14, 3.14];
    let encoded = encode_floats(&bits_of(&values));
    let decoded = floats_of(&decode_floats(&encoded, values.len()));
    assert_eq!(decoded, values);
}

#[test]
fn test_single_float() {
    let values = vec![42.0];
    let encoded = encode_floats(&bits_of(&values));
    let decoded = floats_of(&decode_floats(&encoded, 1));
    assert_eq!(decoded, values);
}

#[test]
fn varint_lengths_and_bytes() {
    let mut buf = Vec::new();
    encode_varint(300, &mut buf);
    assert_eq!(buf, vec![0xAC, 0x02]);
    let mut buf = Vec::new();
    encode_varint(0, &mut buf);
    assert_eq!(buf, vec![0]);
    let mut buf = Vec::new();
    encode_varint(u64::MAX, &mut buf);
    assert_eq!(buf.len(), 10);
    assert_eq!(decode_varint(&[]), None);
    assert_eq!(decode_varint(&[0x80, 0x80]), None);
}

#[test]
fn signed_varint_uses_zigzag() {
    let mut buf = Vec::new();
    encode_signed_varint(-1, &mut buf);
    assert_eq!(buf, vec![1]);
    let mut buf = Vec::new();
    encode_signed_varint(1, &mut buf);
    assert_eq!(buf, vec![2]);
}

#[test]
fn zigzag_extremes() {
    assert_eq!(encode(i64::MAX), u64::MAX - 1);
    assert_eq!(encode(i64::MIN), u64::MAX);
    assert_eq!(decode(u64::MAX), i64::MIN);
}

#[test]
fn timestamps_with_negative_and_irregular_deltas() {
    let ts: Vec<i64> = vec![-5000, -4000, -2999, 10_000_000_000, 10_000_000_001, 9_000_000_000];
    let enc = encode_timestamps(&ts);
    assert_eq!(decode_timestamps(&enc, ts.len()), ts);
    assert_eq!(try_decode_timestamps(&enc, ts.len()), Some(ts.clone()));
}

#[test]
fn empty_timestamps_encode_to_nothing() {
    let enc = encode_timestamps(&[]);
    assert!(enc.is_empty());
    assert_eq!(decode_timestamps(&enc, 0), Vec::<i64>::new());
}

#[test]
fn float_patterns_roundtrip_exactly() {
    let values: Vec<u64> = vec![0, 1, u64::MAX, 0x4049_0000_0000_0000, 0x4049_0000_0000_0001, 0];
    let enc = encode_floats(&values);
    assert_eq!(decode_floats(&enc, values.len()), values);
    assert_eq!(try_decode_floats(&enc, values.len()), Some(values.clone()));
}

#[test]
fn bit_writer_and_reader_agree() {
    let mut w = BitWriter::new();
    w.write_bit(true);
    w.write_bits(0b1011, 4);
    w.write_bits(0xABCD, 16);
    let bytes = w.into_bytes();
    assert_eq!(bytes.len(), 3);
    let mut r = BitReader::new(&bytes);
    assert!(r.has_more());
    assert_eq!(r.read_bit(), Some(true));
    assert_eq!(r.read_bits(4), Some(0b1011));
    assert_eq!(r.read_bits(16), Some(0xABCD));
    assert_eq!(r.read_bits(8), None);
}

#[test]
fn shorter_counts_decode_prefixes() {
    let timestamps: Vec<i64> = vec![1000, 1050, 1120, 1150, 1300, 2000, -5, i64::MAX / 4];
    let encoded = encode_timestamps(&timestamps);
    for k in 0..=timestamps.len() {
        assert_eq!(decode_timestamps(&encoded, k), timestamps[..k].to_vec());
    }
    let values = vec![1.0f64, 1.0, -0.0, f64::NAN, 1.5e300, f64::INFINITY, 2.0];
    let bits = bits_of(&values);
    let encoded = encode_floats(&bits);
    for k in 0..=values.len() {
        assert_eq!(decode_floats(&encoded, k), bits[..k].to_vec());
    }
}
