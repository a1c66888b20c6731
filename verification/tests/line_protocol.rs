use tsdb_engine::line_protocol::{
    RawValue, RawLine, split_line, classify_value, split_fields, fields_scan_ok, finish_fields,
    parse_timestamp, split_lines, parse_line_at, parse_line,
};
use tsdb_engine::model::FieldValue;

fn ok_line(line: &str, now: i64) -> RawLine {
    match parse_line_at(line, now) {
        Some(Ok(p)) => p,
        Some(Err(e)) => panic!("refused: {}", e),
        None => panic!("lone quote"),
    }
}

fn err_line(line: &str) -> String {
    match parse_line_at(line, 0) {
        Some(Err(e)) => e,
        Some(Ok(_)) => panic!("accepted"),
        None => panic!("lone quote"),
    }
}

fn number_value(v: &RawValue) -> f64 {
    match v {
        RawValue::Number(text) => text.parse::<f64>().unwrap(),
        other => panic!("not a number: {:?}", other),
    }
}

#[test]
fn test_parse_line_protocol() {
    let line = "cpu,host=server01,region=us-west usage=80.5,cores=4i 1609459200000000000";
    let dp = ok_line(line, 0);
    assert_eq!(dp.metric, "cpu");
    let host = dp.tags.iter().find(|(k, _)| k == "host").unwrap();
    assert_eq!(host.1, "server01");
    let region = dp.tags.iter().find(|(k, _)| k == "region").unwrap();
    assert_eq!(region.1, "us-west");
    let usage = dp.fields.iter().find(|(k, _)| k == "usage").unwrap();
    assert!(number_value(&usage.1) == 80.5);
    let cores = dp.fields.iter().find(|(k, _)| k == "cores").unwrap();
    assert!(matches!(cores.1, RawValue::Integer(4)));
    assert_eq!(dp.timestamp, 1609459200000000000);
}

#[test]
fn test_parse_no_tags() {
    let line = "temperature value=23.5 1609459200000000000";
    let dp = ok_line(line, 0);
    assert_eq!(dp.metric, "temperature");
    assert!(dp.tags.is_empty());
}

#[test]
fn test_parse_no_timestamp() {
    let line = "cpu,host=server01 usage=80.5";
    let dp = ok_line(line, 77);
    assert_eq!(dp.metric, "cpu");
    assert_eq!(dp.timestamp, 77);
    match parse_line(line) {
        Some(Ok(p)) => {
            assert_eq!(p.metric, "cpu");
            assert!(p.timestamp > 0);
        }
        _ => panic!("clock-stamped parse failed"),
    }
}

#[test]
fn line_errors_in_order() {
    assert_eq!(err_line("   "), "empty line");
    assert_eq!(err_line("cpu"), "invalid line protocol format: need at least measurement and fields");
    assert!(err_line("cpu v=1 12x").starts_with("invalid timestamp: "));
    assert_eq!(err_line(",host=a v=1 5"), "metric name cannot be empty");
    // the timestamp is checked before the metric
    assert!(err_line(",host=a v=1 x").starts_with("invalid timestamp: "));
    assert!(parse_line_at("cpu v=\" 5", 0).is_none());
}

#[test]
fn tags_keep_last_value_in_key_order() {
    let p = ok_line("m,z=1,a=2,z=3,bad v=1i 9", 0);
    assert_eq!(p.tags, vec![("a".to_string(), "2".to_string()), ("z".to_string(), "3".to_string())]);
}

#[test]
fn field_errors_stop_reading() {
    let p = ok_line("m a=1i,b,c=2i 1", 0);
    assert_eq!(p.fields, vec![("a".to_string(), RawValue::Integer(1))]);
    assert_eq!(p.field_error, Some("invalid field pair: b".to_string()));
    let p = ok_line("m a=xi 1", 0);
    assert!(p.fields.is_empty());
    assert!(p.field_error.unwrap().starts_with("invalid integer x: "));
}

#[test]
fn split_line_parts() {
    let p = split_line("  cpu,h=a v=1 123  ").unwrap();
    assert_eq!(p.measurement, "cpu,h=a");
    assert_eq!(p.fields, "v=1");
    assert_eq!(p.timestamp, Some("123".to_string()));
    let p = split_line("\u{3000}\tcpu v=1 5\u{a0}\u{2029}\n").unwrap();
    assert_eq!(p.measurement, "cpu");
    assert_eq!(p.timestamp, Some("5".to_string()));
    assert_eq!(split_line("\u{85}\u{200a} \u{205f}").unwrap_err(), "empty line");
    let p = split_line("cpu v=1").unwrap();
    assert_eq!(p.timestamp, None);
    let p = split_line("cpu v=1 2 3").unwrap();
    assert_eq!(p.timestamp, Some("2 3".to_string()));
    assert_eq!(split_line("").unwrap_err(), "empty line");
}

#[test]
fn classify_each_kind() {
    assert_eq!(classify_value("12i").unwrap(), RawValue::Integer(12));
    assert_eq!(classify_value("-3i").unwrap(), RawValue::Integer(-3));
    assert_eq!(classify_value("true").unwrap(), RawValue::Bool(true));
    assert_eq!(classify_value("FALSE").unwrap(), RawValue::Bool(false));
    assert_eq!(classify_value("True").unwrap(), RawValue::Number("True".to_string()));
    assert_eq!(classify_value("\"hi there\"").unwrap(), RawValue::Text("hi there".to_string()));
    assert_eq!(classify_value("\"\"").unwrap(), RawValue::Text(String::new()));
    assert_eq!(classify_value("2.5").unwrap(), RawValue::Number("2.5".to_string()));
    assert!(classify_value("i").unwrap_err().starts_with("invalid integer : "));
}

#[test]
fn split_fields_reads_in_order() {
    let (fs, err) = split_fields("b=1i,a=\"x\",c=2.0");
    assert!(err.is_none());
    assert_eq!(fs.len(), 3);
    assert_eq!(fs[0], ("b".to_string(), RawValue::Integer(1)));
    assert_eq!(fs[1], ("a".to_string(), RawValue::Text("x".to_string())));
    assert_eq!(fs[2], ("c".to_string(), RawValue::Number("2.0".to_string())));
    let (fs, err) = split_fields("");
    assert!(fs.is_empty());
    assert_eq!(err, Some("invalid field pair: ".to_string()));
    assert!(fields_scan_ok("a=1,b=2i"));
    assert!(!fields_scan_ok("a=1,b=\""));
    // a lone quote after the first error is never read
    assert!(fields_scan_ok("a,b=\""));
}

#[test]
fn finish_keeps_last_of_each_key_sorted() {
    let fields = vec![
        ("z".to_string(), FieldValue::Integer(1)),
        ("a".to_string(), FieldValue::Bool(true)),
        ("z".to_string(), FieldValue::Integer(2)),
    ];
    let out = finish_fields(fields).unwrap();
    assert_eq!(out, vec![("a".to_string(), FieldValue::Bool(true)), ("z".to_string(), FieldValue::Integer(2))]);
    assert_eq!(finish_fields(vec![]).unwrap_err(), "at least one field is required");
}

#[test]
fn timestamps_parse_or_explain() {
    assert_eq!(parse_timestamp("-42").unwrap(), -42);
    assert_eq!(parse_timestamp("+7").unwrap(), 7);
    assert_eq!(parse_timestamp("-9223372036854775808").unwrap(), i64::MIN);
    assert_eq!(parse_timestamp("9223372036854775807").unwrap(), i64::MAX);
    assert_eq!(parse_timestamp("-0").unwrap(), 0);
    assert_eq!(parse_timestamp("99999999999999999999999").unwrap_err(), "invalid timestamp: number too large to fit in target type");
    assert_eq!(parse_timestamp("9223372036854775808").unwrap_err(), "invalid timestamp: number too large to fit in target type");
    assert_eq!(parse_timestamp("").unwrap_err(), "invalid timestamp: cannot parse integer from empty string");
    assert_eq!(parse_timestamp("-9223372036854775809").unwrap_err(), "invalid timestamp: number too small to fit in target type");
    assert_eq!(parse_timestamp("+").unwrap_err(), "invalid timestamp: invalid digit found in string");
    assert_eq!(parse_timestamp("12x").unwrap_err(), "invalid timestamp: invalid digit found in string");
}

#[test]
fn lines_split_like_str_lines() {
    assert_eq!(split_lines("a\nb\r\n\nc"), vec!["a", "b", "", "c"]);
    assert_eq!(split_lines("a\n"), vec!["a"]);
    assert!(split_lines("").is_empty());
    assert_eq!(split_lines("\n"), vec![""]);
}
