use std::collections::BTreeMap;
use tsdb_engine::alert::rule::{LogicOperator, AggType, CompareOp, Severity, RuleState, RuleEvalState, EvalAction, AlertRule, SubCondition};
use tsdb_engine::alert::event::{AlertEvent, EventsQuery, select_events};
use tsdb_engine::alert::store::{EventStore, active_firing, ack_position, acknowledge, path_join, file_in_range, day_expired, day_key};

fn event(id: &str, rule: &str, kind: &str, ts: i64) -> AlertEvent {
    AlertEvent {
        id: id.to_string(),
        rule_id: rule.to_string(),
        rule_name: format!("rule {}", rule),
        event_type: kind.to_string(),
        timestamp: ts,
        value_bits: 0,
        threshold_bits: 0,
        severity: "warning".to_string(),
        metric: "cpu".to_string(),
        tags: BTreeMap::new(),
        acknowledged: false,
        acknowledged_by: None,
    }
}

#[test]
fn rule_enum_names() {
    assert_eq!(LogicOperator::from_str("AND"), Some(LogicOperator::And));
    assert_eq!(LogicOperator::Or.as_str(), "or");
    assert_eq!(AggType::from_str("Count"), Some(AggType::Count));
    assert_eq!(AggType::Avg.as_str(), "avg");
    assert_eq!(CompareOp::from_str(">="), Some(CompareOp::Gte));
    assert_eq!(CompareOp::from_str("=>"), None);
    assert_eq!(CompareOp::Neq.as_str(), "!=");
    assert_eq!(Severity::from_str("CRITICAL"), Some(Severity::Critical));
    assert_eq!(Severity::Info.as_str(), "info");
    assert_eq!(RuleState::Acknowledged.as_str(), "acknowledged");
}

#[test]
fn fires_after_trigger_count_then_silenced() {
    let mut s = RuleEvalState::new("r1".to_string());
    assert_eq!(s.apply_evaluation(true, None, 3, 60, 1), EvalAction::NoEvent);
    assert_eq!(s.state, RuleState::Pending);
    assert_eq!(s.apply_evaluation(true, None, 3, 60, 2), EvalAction::NoEvent);
    assert_eq!(s.apply_evaluation(true, Some(7), 3, 60, 3), EvalAction::Fire);
    assert_eq!(s.state, RuleState::Firing);
    assert_eq!(s.current_value_bits, Some(7));
    assert_eq!(s.apply_evaluation(true, None, 3, 60, 4), EvalAction::NoEvent);
    assert_eq!(s.apply_evaluation(false, None, 3, 60, 5), EvalAction::Resolve);
    assert_eq!(s.state, RuleState::Resolved);
    for t in 6..8 {
        s.apply_evaluation(true, None, 3, 60, t);
    }
    assert_eq!(s.apply_evaluation(true, None, 3, 60, 9), EvalAction::NoEvent);
    assert_eq!(s.state, RuleState::Firing);
    assert_eq!(s.last_fire_time, Some(3));
}

#[test]
fn acknowledge_and_reset() {
    let mut s = RuleEvalState::new("r".to_string());
    s.apply_evaluation(true, None, 1, 0, 10);
    s.acknowledge();
    assert_eq!(s.state, RuleState::Acknowledged);
    assert_eq!(s.apply_evaluation(true, None, 1, 0, 11), EvalAction::NoEvent);
    s.reset();
    assert_eq!(s.state, RuleState::Inactive);
    assert_eq!(s.consecutive_count, 0);
}

fn cond(metric: &str) -> SubCondition {
    SubCondition {
        metric: metric.to_string(),
        tags: BTreeMap::new(),
        aggregation: AggType::Max,
        window_secs: 60,
        operator: CompareOp::Gt,
        threshold_bits: 1.0f64.to_bits(),
    }
}

#[test]
fn rule_conditions_and_logic() {
    let mut rule = AlertRule {
        id: "r".to_string(),
        name: "n".to_string(),
        conditions: vec![],
        logic: LogicOperator::And,
        metric: "cpu".to_string(),
        tags: BTreeMap::new(),
        aggregation: AggType::Avg,
        window_secs: 30,
        operator: CompareOp::Lt,
        threshold_bits: 5.0f64.to_bits(),
        trigger_count: 1,
        severity: Severity::Warning,
        silence_secs: 0,
        enabled: true,
    };
    let single = rule.effective_conditions();
    assert_eq!(single.len(), 1);
    assert_eq!(single[0].metric, "cpu");
    assert_eq!(single[0].window_secs, 30);
    rule.conditions = vec![cond("a"), cond("b")];
    assert_eq!(rule.effective_conditions().len(), 2);
    assert!(rule.evaluate_logic(&[true, true]));
    assert!(!rule.evaluate_logic(&[true, false]));
    assert!(!rule.evaluate_logic(&[]));
    rule.logic = LogicOperator::Or;
    assert!(rule.evaluate_logic(&[false, true]));
}

#[test]
fn event_pages_newest_first() {
    let events = vec![event("a", "r", "firing", 10), event("b", "r", "firing", 30), event("c", "r", "firing", 20), event("d", "r", "firing", 20)];
    let q = EventsQuery { start_time: None, end_time: None, severity: None, rule_name: None, cursor: None, limit: 2 };
    let (page, cursor) = select_events(events, &q);
    let ids: Vec<&str> = page.iter().map(|e| e.id.as_str()).collect();
    assert_eq!(ids, vec!["b", "d", "c"]);
    assert_eq!(cursor, Some(10));
}

#[test]
fn event_filters() {
    let events = vec![event("a", "r", "firing", 10), event("b", "r", "firing", 30)];
    let q = EventsQuery { start_time: Some(20), end_time: None, severity: Some("warning".to_string()), rule_name: None, cursor: None, limit: 10 };
    let (page, cursor) = select_events(events, &q);
    assert_eq!(page.len(), 1);
    assert_eq!(page[0].id, "b");
    assert_eq!(cursor, None);
}

#[test]
fn active_firing_keeps_unresolved() {
    let events = vec![
        event("1", "r2", "firing", 1),
        event("2", "r1", "firing", 2),
        event("3", "r2", "resolved", 3),
        event("4", "r3", "firing", 4),
        event("5", "r3", "firing", 5),
    ];
    let firing = active_firing(events);
    let ids: Vec<&str> = firing.iter().map(|e| e.id.as_str()).collect();
    assert_eq!(ids, vec!["2", "5"]);
}

#[test]
fn acknowledging_an_event() {
    let mut events = vec![event("x", "r", "resolved", 1), event("x", "r", "firing", 2), event("y", "r", "firing", 3)];
    assert_eq!(ack_position(&events, "x"), Some(1));
    acknowledge(&mut events[1], "ops");
    assert!(events[1].acknowledged);
    assert_eq!(events[1].acknowledged_by.as_deref(), Some("ops"));
    assert_eq!(ack_position(&events, "x"), None);
    assert_eq!(ack_position(&events, "zz"), None);
}

#[test]
fn event_files() {
    assert_eq!(path_join("data", "x"), "data/x");
    assert_eq!(path_join("data/", "x"), "data/x");
    assert_eq!(path_join("", "x"), "x");
    let store = EventStore::new("./data");
    assert_eq!(store.dir, "./data/alerts/events");
    assert_eq!(store.max_retention_days, 7);
    assert_eq!(store.file_path("2024-01-02"), "./data/alerts/events/events-2024-01-02.jsonl");
    assert_eq!(day_key(86_400_000_000_000), "1970-01-02");
    assert_eq!(store.day_start_nanos_from_filename("events-1970-01-02.jsonl"), Some(86_400_000_000_000));
    assert_eq!(store.day_start_nanos_from_filename("events-bad.jsonl"), None);
    assert_eq!(store.day_start_nanos_from_filename("other.txt"), None);
    assert_eq!(store.cleanup_cutoff(10 * 86_400_000_000_000), 3 * 86_400_000_000_000);
}

#[test]
fn event_file_selection() {
    let day = 86_400_000_000_000i64;
    assert!(file_in_range(Some(0), None, None, None));
    assert!(!file_in_range(Some(0), Some(day + 1), None, None));
    assert!(file_in_range(Some(0), Some(day), None, None));
    assert!(!file_in_range(Some(0), Some(0), None, Some(2 * day)));
    assert!(!file_in_range(Some(5 * day), None, Some(4 * day), None));
    assert!(file_in_range(None, Some(day * 10), Some(0), None));
    assert!(day_expired(0, day + 1));
    assert!(!day_expired(0, day));
}
