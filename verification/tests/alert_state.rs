use tsdb_engine::alert::templates::get_templates;
use tsdb_engine::alert::store::acknowledge_in_files;
use std::collections::BTreeMap;
use tsdb_engine::alert::rule::{AlertRule, AggType, CompareOp, LogicOperator, Severity, RuleEvalState, RuleState};
use tsdb_engine::alert::event::{AlertEvent, EventsQuery, query_ok, rule_event};
use tsdb_engine::alert::cache::{AggCache, AGG_CACHE_MAX_ENTRIES, make_key};
use tsdb_engine::alert::notifier::{EventQueue, MEMORY_QUEUE_CAPACITY};
use tsdb_engine::alert::rule_store::RuleStore;
use tsdb_engine::alert::requests::{
    SubConditionRequest, CreateRuleRequest, UpdateRuleRequest, parse_conditions, build_rule, create_rule,
    apply_update,
};

const SEC: i64 = 1_000_000_000;

fn rule(id: &str, enabled: bool) -> AlertRule {
    AlertRule {
        id: id.to_string(),
        name: format!("rule {}", id),
        conditions: vec![],
        logic: LogicOperator::And,
        metric: "cpu".to_string(),
        tags: BTreeMap::new(),
        aggregation: AggType::Avg,
        window_secs: 60,
        operator: CompareOp::Gt,
        threshold_bits: 80f64.to_bits(),
        trigger_count: 1,
        severity: Severity::Warning,
        silence_secs: 300,
        enabled,
    }
}

fn event(id: &str, ts: i64) -> AlertEvent {
    AlertEvent {
        id: id.to_string(),
        rule_id: "r".to_string(),
        rule_name: "rule r".to_string(),
        event_type: "firing".to_string(),
        timestamp: ts,
        value_bits: 0,
        threshold_bits: 0,
        severity: "warning".to_string(),
        metric: "cpu".to_string(),
        tags: BTreeMap::new(),
        acknowledged: false,
        acknowledged_by: None,
    }
}

fn sub(metric: &str, agg: &str, op: &str, threshold: f64) -> SubConditionRequest {
    SubConditionRequest {
        metric: metric.to_string(),
        tags: BTreeMap::new(),
        aggregation: agg.to_string(),
        window_secs: 120,
        operator: op.to_string(),
        threshold_bits: threshold.to_bits(),
    }
}

fn create_req(conditions: Vec<SubConditionRequest>, metric: Option<&str>) -> CreateRuleRequest {
    CreateRuleRequest {
        name: "high cpu".to_string(),
        conditions,
        logic: "and".to_string(),
        metric: metric.map(|m| m.to_string()),
        tags: None,
        aggregation: None,
        window_secs: None,
        operator: None,
        threshold_bits: None,
        trigger_count: 1,
        severity: "warning".to_string(),
        silence_secs: 300,
        enabled: true,
    }
}

fn empty_update() -> UpdateRuleRequest {
    UpdateRuleRequest {
        name: None,
        conditions: None,
        logic: None,
        metric: None,
        tags: None,
        aggregation: None,
        window_secs: None,
        operator: None,
        threshold_bits: None,
        trigger_count: None,
        severity: None,
        silence_secs: None,
        enabled: None,
    }
}

#[test]
fn cache_returns_fresh_values_only() {
    let mut c = AggCache::new();
    c.put("k".to_string(), 7, 100 * SEC);
    assert_eq!(c.get("k", 100 * SEC), Some(7));
    assert_eq!(c.get("k", 114 * SEC), Some(7));
    assert_eq!(c.get("k", 115 * SEC), None);
    assert_eq!(c.get("other", 100 * SEC), None);
    c.put("k".to_string(), 9, 200 * SEC);
    assert_eq!(c.get("k", 201 * SEC), Some(9));
    assert_eq!(c.len(), 1);
}

#[test]
fn full_cache_drops_oldest() {
    let mut c = AggCache::new();
    for i in 0..AGG_CACHE_MAX_ENTRIES {
        c.put(format!("k{}", i), i as u64, 0);
    }
    assert_eq!(c.len(), AGG_CACHE_MAX_ENTRIES);
    // refreshing k0 makes it the newest, so k1 is dropped next
    c.put("k0".to_string(), 42, 0);
    c.put("new".to_string(), 1, 0);
    assert_eq!(c.len(), AGG_CACHE_MAX_ENTRIES);
    assert_eq!(c.get("k0", 0), Some(42));
    assert_eq!(c.get("k1", 0), None);
    assert_eq!(c.get("k2", 0), Some(2));
    assert_eq!(c.get("new", 0), Some(1));
}

#[test]
fn event_queue_keeps_newest() {
    let mut q = EventQueue::new();
    for i in 0..(MEMORY_QUEUE_CAPACITY + 5) {
        q.record(event(&format!("e{}", i), i as i64));
    }
    assert_eq!(q.len(), MEMORY_QUEUE_CAPACITY);
    let recent = q.recent(3);
    let ids: Vec<&str> = recent.iter().map(|e| e.id.as_str()).collect();
    let last = MEMORY_QUEUE_CAPACITY + 4;
    assert_eq!(ids, vec![format!("e{}", last - 2), format!("e{}", last - 1), format!("e{}", last)]);
    let all = q.recent(usize::MAX);
    assert_eq!(all.len(), MEMORY_QUEUE_CAPACITY);
    assert_eq!(all[0].id, "e5");
}

#[test]
fn rule_store_crud() {
    let mut s = RuleStore::from_rules(vec![rule("a", true)]);
    let made = s.create(rule("b", false));
    assert_eq!(made.id, "b");
    assert_eq!(s.list().len(), 2);
    assert_eq!(s.get("b").unwrap().name, "rule b");
    assert!(s.get("zz").is_none());
    let enabled: Vec<String> = s.enabled_rules().into_iter().map(|r| r.id).collect();
    assert_eq!(enabled, vec!["a".to_string()]);
    let r = s.set_enabled("b", true).unwrap();
    assert!(r.enabled);
    assert_eq!(s.enabled_rules().len(), 2);
    assert!(s.set_enabled("zz", true).is_none());
    let mut changed = rule("b", true);
    changed.name = "renamed".to_string();
    assert_eq!(s.update("b", changed).unwrap().name, "renamed");
    assert_eq!(s.get("b").unwrap().name, "renamed");
    assert!(s.update("zz", rule("zz", true)).is_none());
    assert!(s.delete("a"));
    assert!(!s.delete("a"));
    assert!(s.get("a").is_none());
    assert_eq!(s.list().len(), 1);
}

#[test]
fn sub_condition_errors() {
    let cs = vec![sub("cpu", "AVG", ">", 1.0)];
    let parsed = parse_conditions(&cs).unwrap();
    assert_eq!(parsed[0].aggregation, AggType::Avg);
    assert_eq!(parsed[0].operator, CompareOp::Gt);
    let bad_agg = vec![sub("cpu", "median", ">", 1.0), sub("cpu", "avg", "=>", 1.0)];
    assert_eq!(
        parse_conditions(&bad_agg).err().unwrap(),
        "invalid aggregation in sub-condition, must be one of: avg, max, min, sum, count"
    );
    let bad_op = vec![sub("cpu", "avg", "=>", 1.0)];
    assert_eq!(
        parse_conditions(&bad_op).err().unwrap(),
        "invalid operator in sub-condition, must be one of: >, >=, <, <=, ==, !="
    );
    let six: Vec<SubConditionRequest> = (0..6).map(|_| sub("cpu", "avg", ">", 1.0)).collect();
    assert_eq!(parse_conditions(&six).err().unwrap(), "maximum 5 sub-conditions allowed");
}

#[test]
fn create_takes_defaults_from_first_condition() {
    let r = build_rule(create_req(vec![sub("mem", "max", "<=", 3.5)], None), "id1".to_string()).ok().unwrap();
    assert_eq!(r.id, "id1");
    assert_eq!(r.metric, "mem");
    assert_eq!(r.aggregation, AggType::Max);
    assert_eq!(r.operator, CompareOp::Lte);
    assert_eq!(r.window_secs, 120);
    assert_eq!(f64::from_bits(r.threshold_bits), 3.5);
    assert_eq!(r.conditions.len(), 1);
    let r = build_rule(create_req(vec![], Some("cpu")), "id2".to_string()).ok().unwrap();
    assert_eq!(r.aggregation, AggType::Avg);
    assert_eq!(r.operator, CompareOp::Gt);
    assert_eq!(r.window_secs, 300);
    assert_eq!(r.threshold_bits, 0);
    assert_eq!(r.severity, Severity::Warning);
    let made = create_rule(create_req(vec![], Some("cpu"))).ok().unwrap();
    assert_eq!(made.id.len(), 36);
}

#[test]
fn create_refusals() {
    assert_eq!(
        build_rule(create_req(vec![], None), "x".to_string()).err().unwrap(),
        "must provide either conditions array or top-level metric field"
    );
    let mut req = create_req(vec![], Some("cpu"));
    req.logic = "xor".to_string();
    assert_eq!(build_rule(req, "x".to_string()).err().unwrap(), "invalid logic, must be one of: and, or");
    let mut req = create_req(vec![], Some("cpu"));
    req.aggregation = Some("p95".to_string());
    assert_eq!(
        build_rule(req, "x".to_string()).err().unwrap(),
        "invalid aggregation, must be one of: avg, max, min, sum, count"
    );
    let mut req = create_req(vec![], Some("cpu"));
    req.operator = Some("~".to_string());
    assert_eq!(
        build_rule(req, "x".to_string()).err().unwrap(),
        "invalid operator, must be one of: >, >=, <, <=, ==, !="
    );
    let mut req = create_req(vec![], Some("cpu"));
    req.severity = "fatal".to_string();
    assert_eq!(
        build_rule(req, "x".to_string()).err().unwrap(),
        "invalid severity, must be one of: critical, warning, info"
    );
}

#[test]
fn update_replaces_given_fields() {
    let mut req = empty_update();
    req.name = Some("new".to_string());
    req.severity = Some("Critical".to_string());
    req.window_secs = Some(5);
    let r = apply_update(rule("a", true), req).ok().unwrap();
    assert_eq!(r.id, "a");
    assert_eq!(r.name, "new");
    assert_eq!(r.severity, Severity::Critical);
    assert_eq!(r.window_secs, 5);
    assert_eq!(r.metric, "cpu");
    assert_eq!(f64::from_bits(r.threshold_bits), 80.0);
    let mut req = empty_update();
    req.logic = Some("nand".to_string());
    assert_eq!(apply_update(rule("a", true), req).err().unwrap(), "invalid logic");
    let mut req = empty_update();
    req.operator = Some("<>".to_string());
    assert_eq!(apply_update(rule("a", true), req).err().unwrap(), "invalid operator");
    let mut req = empty_update();
    req.conditions = Some(vec![sub("cpu", "avg", "!", 1.0)]);
    assert_eq!(
        apply_update(rule("a", true), req).err().unwrap(),
        "invalid operator in sub-condition, must be one of: >, >=, <, <=, ==, !="
    );
}

#[test]
fn rule_events_carry_the_rule() {
    let r = rule("a", true);
    let e = rule_event(&r, true, 55, Some(3));
    assert_eq!(e.event_type, "firing");
    assert_eq!(e.rule_id, "a");
    assert_eq!(e.timestamp, 55);
    assert_eq!(e.value_bits, 3);
    assert_eq!(e.severity, "warning");
    assert_eq!(e.id.len(), 36);
    let e2 = rule_event(&r, false, 56, None);
    assert_eq!(e2.event_type, "resolved");
    assert_eq!(e2.value_bits, 0);
    assert_ne!(e.id, e2.id);
}

#[test]
fn cache_keys_name_metric_tags_and_window() {
    let tags = vec![("z".to_string(), "1".to_string()), ("a".to_string(), "2".to_string())];
    assert_eq!(make_key("cpu", &tags, 300), "cpu|a=2|z=1|w300");
    assert_eq!(make_key("m", &vec![], 0), "m|w0");
    assert_eq!(make_key("m", &vec![], u64::MAX), format!("m|w{}", u64::MAX));
}

#[test]
fn guards_of_the_shell() {
    let mut c = AggCache::new();
    c.put("k".to_string(), 1, i64::MIN + 1);
    assert!(c.age_fits("k", 0));
    assert!(!c.age_fits("k", i64::MAX));
    assert!(c.age_fits("absent", i64::MAX));

    let q = |limit: usize| EventsQuery {
        start_time: None,
        end_time: None,
        severity: Some("critical".to_string()),
        rule_name: None,
        cursor: None,
        limit,
    };
    let events = vec![event("a", 1)];
    assert!(query_ok(&events, &q(0)));
    let mut crit = event("b", 2);
    crit.severity = "critical".to_string();
    assert!(!query_ok(&vec![crit.clone()], &q(0)));
    assert!(query_ok(&vec![crit], &q(1)));

    let mut s = RuleEvalState::new("r".to_string());
    assert!(s.evaluation_ok(true, 1, 300));
    s.consecutive_count = u32::MAX;
    assert!(!s.evaluation_ok(true, 1, 300));
    assert!(s.evaluation_ok(false, 1, 300));
    let mut t = RuleEvalState::new("r".to_string());
    t.state = RuleState::Resolved;
    t.last_fire_time = Some(i64::MAX - 10);
    assert!(!t.evaluation_ok(true, 1, 300));
    assert!(t.evaluation_ok(true, 5, 300));
}

#[test]
fn second_acknowledgement_finds_nothing() {
    let mut resolved = event("e1", 1);
    resolved.event_type = "resolved".to_string();
    let mut files = vec![vec![event("e0", 0), resolved], vec![event("e2", 1), event("e1", 2), event("e1", 3)]];
    let flags = |fs: &Vec<Vec<AlertEvent>>| -> Vec<Vec<(bool, Option<String>)>> {
        fs.iter().map(|f| f.iter().map(|e| (e.acknowledged, e.acknowledged_by.clone())).collect()).collect()
    };
    assert_eq!(acknowledge_in_files(&mut files, "e1", "ops"), Some((1, 1)));
    assert!(files[1][1].acknowledged);
    assert_eq!(files[1][1].acknowledged_by.as_deref(), Some("ops"));
    assert!(!files[0][1].acknowledged && !files[1][2].acknowledged);
    // another unacknowledged firing event shares the id: it is the next one
    assert_eq!(acknowledge_in_files(&mut files, "e1", "ops"), Some((1, 2)));
    let before = flags(&files);
    assert_eq!(acknowledge_in_files(&mut files, "e1", "ops"), None);
    assert_eq!(flags(&files), before);
    assert_eq!(acknowledge_in_files(&mut files, "e0", "ops"), Some((0, 0)));
    assert_eq!(acknowledge_in_files(&mut files, "e0", "ops"), None);
    assert_eq!(acknowledge_in_files(&mut vec![], "e0", "ops"), None);
}

#[test]
fn templates_are_the_three_built_in_rules() {
    let t = get_templates();
    assert_eq!(t.len(), 3);
    let ids: Vec<&str> = t.iter().map(|x| x.id.as_str()).collect();
    assert_eq!(ids, vec!["cpu-high-load", "memory-low", "disk-io-high"]);
    let th: Vec<f64> = t.iter().map(|x| f64::from_bits(x.conditions[0].threshold_bits)).collect();
    assert_eq!(th, vec![80.0, 10.0, 90.0]);
    assert_eq!(t[0].name, "CPU High Load");
    assert_eq!(t[1].conditions[0].metric, "memory_available");
    assert_eq!(t[1].conditions[0].operator, "<");
    assert_eq!(t[1].conditions[0].window_secs, 180);
    assert_eq!(t[2].conditions[0].aggregation, "max");
    assert_eq!((t[0].trigger_count, t[0].silence_secs), (2, 600));
    assert_eq!(t[1].severity, "warning");
    assert!(t.iter().all(|x| x.logic == "and" && x.conditions.len() == 1));
}
