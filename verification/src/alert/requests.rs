use vstd::prelude::*;
use std::collections::BTreeMap;
use crate::alert::rule::{
    AlertRule, AggType, CompareOp, LogicOperator, Severity, SubCondition, SubConditionSpec,
    conditions_view, agg_type_of, compare_op_of, logic_operator_of, severity_of,
};
use crate::text::{lowercase_of, new_uuid};

verus! {

/// The most sub-conditions a rule may have.
pub const MAX_SUB_CONDITIONS: usize = 5;

/// A sub-condition as a request gives it: names still to be parsed, and the
/// threshold as its IEEE-754 bit pattern.
pub struct SubConditionRequest {
    pub metric: String,
    pub tags: BTreeMap<String, String>,
    pub aggregation: String,
    pub window_secs: u64,
    pub operator: String,
    pub threshold_bits: u64,
}

/// A request to create a rule, with the defaults of absent fields filled in
/// except those taken from the first sub-condition.
pub struct CreateRuleRequest {
    pub name: String,
    pub conditions: Vec<SubConditionRequest>,
    pub logic: String,
    pub metric: Option<String>,
    pub tags: Option<BTreeMap<String, String>>,
    pub aggregation: Option<String>,
    pub window_secs: Option<u64>,
    pub operator: Option<String>,
    pub threshold_bits: Option<u64>,
    pub trigger_count: u32,
    pub severity: String,
    pub silence_secs: u64,
    pub enabled: bool,
}

/// A request to change a rule: each field that is given replaces the rule's.
pub struct UpdateRuleRequest {
    pub name: Option<String>,
    pub conditions: Option<Vec<SubConditionRequest>>,
    pub logic: Option<String>,
    pub metric: Option<String>,
    pub tags: Option<BTreeMap<String, String>>,
    pub aggregation: Option<String>,
    pub window_secs: Option<u64>,
    pub operator: Option<String>,
    pub threshold_bits: Option<u64>,
    pub trigger_count: Option<u32>,
    pub severity: Option<String>,
    pub silence_secs: Option<u64>,
    pub enabled: Option<bool>,
}

/// Why a sub-condition request is refused, if it is.
pub open spec fn sub_condition_error(c: SubConditionRequest) -> Option<Seq<char>> {
    if agg_type_of(lowercase_of(c.aggregation@)) is None {
        Some("invalid aggregation in sub-condition, must be one of: avg, max, min, sum, count"@)
    } else if compare_op_of(c.operator@) is None {
        Some("invalid operator in sub-condition, must be one of: >, >=, <, <=, ==, !="@)
    } else {
        None
    }
}

/// The sub-condition an accepted request gives.
pub open spec fn sub_condition_of(c: SubConditionRequest) -> SubConditionSpec {
    SubConditionSpec {
        metric: c.metric@,
        tags: c.tags@,
        aggregation: agg_type_of(lowercase_of(c.aggregation@))->0,
        window_secs: c.window_secs,
        operator: compare_op_of(c.operator@)->0,
        threshold_bits: c.threshold_bits,
    }
}

/// The error of the first refused sub-condition, if any.
pub open spec fn first_condition_error(cs: Seq<SubConditionRequest>) -> Option<Seq<char>>
    decreases cs.len(),
{
    if cs.len() == 0 {
        None
    } else {
        match first_condition_error(cs.drop_last()) {
            Some(e) => Some(e),
            None => sub_condition_error(cs.last()),
        }
    }
}

/// Why a list of sub-condition requests is refused, if it is: the first
/// refused one, else too many of them.
pub open spec fn conditions_error(cs: Seq<SubConditionRequest>) -> Option<Seq<char>> {
    match first_condition_error(cs) {
        Some(e) => Some(e),
        None => if cs.len() > MAX_SUB_CONDITIONS {
            Some("maximum 5 sub-conditions allowed"@)
        } else {
            None
        },
    }
}

/// The sub-conditions accepted requests give.
pub open spec fn conditions_of(cs: Seq<SubConditionRequest>) -> Seq<SubConditionSpec> {
    cs.map_values(|c: SubConditionRequest| sub_condition_of(c))
}

impl SubConditionRequest {
    /// The sub-condition the request describes, or why it is refused.
    pub fn to_sub_condition(&self) -> (r: Result<SubCondition, String>)
        ensures
            match r {
                Ok(c) => sub_condition_error(*self) is None && c@ == sub_condition_of(*self),
                Err(e) => sub_condition_error(*self) == Some(e@),
            },
    {
        let aggregation = match AggType::from_str(self.aggregation.as_str()) {
            Some(a) => a,
            None => {
                return Err(
                    "invalid aggregation in sub-condition, must be one of: avg, max, min, sum, count".to_owned(),
                );
            },
        };
        let operator = match CompareOp::from_str(self.operator.as_str()) {
            Some(o) => o,
            None => {
                return Err("invalid operator in sub-condition, must be one of: >, >=, <, <=, ==, !=".to_owned());
            },
        };
        Ok(
            SubCondition {
                metric: self.metric.clone(),
                tags: self.tags.clone(),
                aggregation,
                window_secs: self.window_secs,
                operator,
                threshold_bits: self.threshold_bits,
            },
        )
    }
}

proof fn lemma_error_sticks(cs: Seq<SubConditionRequest>, k: int)
    requires
        0 <= k <= cs.len(),
        first_condition_error(cs.take(k)) is Some,
    ensures
        first_condition_error(cs) == first_condition_error(cs.take(k)),
    decreases cs.len(),
{
    if k < cs.len() {
        assert(cs.drop_last().take(k) =~= cs.take(k));
        lemma_error_sticks(cs.drop_last(), k);
    } else {
        assert(cs.take(k) =~= cs);
    }
}

/// The sub-conditions of a list of requests, or why the list is refused.
pub fn parse_conditions(cs: &Vec<SubConditionRequest>) -> (r: Result<Vec<SubCondition>, String>)
    ensures
        match r {
            Ok(v) => conditions_error(cs@) is None && conditions_view(v@) == conditions_of(cs@),
            Err(e) => conditions_error(cs@) == Some(e@),
        },
{
    let mut out: Vec<SubCondition> = Vec::new();
    let mut i: usize = 0;
    assert(cs@.take(0) =~= Seq::<SubConditionRequest>::empty());
    while i < cs.len()
        invariant
            i <= cs.len(),
            first_condition_error(cs@.take(i as int)) is None,
            conditions_view(out@) == conditions_of(cs@.take(i as int)),
        decreases cs.len() - i,
    {
        assert(cs@.take(i as int + 1).drop_last() =~= cs@.take(i as int));
        match cs[i].to_sub_condition() {
            Ok(c) => {
                let ghost before = out@;
                out.push(c);
                assert(conditions_view(out@) =~= conditions_view(before).push(c@));
                assert(conditions_of(cs@.take(i as int + 1)) =~= conditions_of(cs@.take(i as int)).push(
                    sub_condition_of(cs@[i as int]),
                ));
            },
            Err(e) => {
                proof {
                    lemma_error_sticks(cs@, i as int + 1);
                }
                return Err(e);
            },
        }
        i = i + 1;
    }
    assert(cs@.take(cs@.len() as int) =~= cs@);
    if out.len() > MAX_SUB_CONDITIONS {
        return Err("maximum 5 sub-conditions allowed".to_owned());
    }
    Ok(out)
}

/// Why a create request is refused, if it is, in the order the checks run.
pub open spec fn create_error(req: CreateRuleRequest) -> Option<Seq<char>> {
    if req.conditions@.len() == 0 && req.metric is None {
        Some("must provide either conditions array or top-level metric field"@)
    } else if conditions_error(req.conditions@) is Some {
        conditions_error(req.conditions@)
    } else if logic_operator_of(lowercase_of(req.logic@)) is None {
        Some("invalid logic, must be one of: and, or"@)
    } else if req.aggregation matches Some(a) && agg_type_of(lowercase_of(a@)) is None {
        Some("invalid aggregation, must be one of: avg, max, min, sum, count"@)
    } else if req.operator matches Some(o) && compare_op_of(o@) is None {
        Some("invalid operator, must be one of: >, >=, <, <=, ==, !="@)
    } else if severity_of(lowercase_of(req.severity@)) is None {
        Some("invalid severity, must be one of: critical, warning, info"@)
    } else {
        None
    }
}

/// What a created rule holds, beyond its id and its sub-conditions: each
/// top-level field from the request, else from the first sub-condition, else
/// its default.
pub open spec fn created_fields_ok(rule: AlertRule, req: CreateRuleRequest) -> bool {
    let cs = req.conditions@;
    let first = conditions_of(cs)[0];
    &&& rule.name@ == req.name@
    &&& conditions_view(rule.conditions@) == conditions_of(cs)
    &&& Some(rule.logic) == logic_operator_of(lowercase_of(req.logic@))
    &&& rule.metric@ == (match req.metric {
        Some(m) => m@,
        None => first.metric,
    })
    &&& rule.tags@ == (match req.tags {
        Some(t) => t@,
        None => if cs.len() > 0 { first.tags } else { Map::empty() },
    })
    &&& Some(rule.aggregation) == (match req.aggregation {
        Some(a) => agg_type_of(lowercase_of(a@)),
        None => Some(if cs.len() > 0 { first.aggregation } else { AggType::Avg }),
    })
    &&& Some(rule.operator) == (match req.operator {
        Some(o) => compare_op_of(o@),
        None => Some(if cs.len() > 0 { first.operator } else { CompareOp::Gt }),
    })
    &&& rule.window_secs == (match req.window_secs {
        Some(w) => w,
        None => if cs.len() > 0 { first.window_secs } else { 300 },
    })
    &&& rule.threshold_bits == (match req.threshold_bits {
        Some(t) => t,
        None => if cs.len() > 0 { first.threshold_bits } else { 0 },
    })
    &&& rule.trigger_count == req.trigger_count
    &&& Some(rule.severity) == severity_of(lowercase_of(req.severity@))
    &&& rule.silence_secs == req.silence_secs
    &&& rule.enabled == req.enabled
}

/// The rule a create request describes, under the id `id`, or why the request
/// is refused.
pub fn build_rule(req: CreateRuleRequest, id: String) -> (r: Result<AlertRule, String>)
    ensures
        match r {
            Ok(rule) => create_error(req) is None && rule.id@ == id@ && created_fields_ok(rule, req),
            Err(e) => create_error(req) == Some(e@),
        },
{
    if req.conditions.len() == 0 && req.metric.is_none() {
        return Err("must provide either conditions array or top-level metric field".to_owned());
    }
    let conditions = match parse_conditions(&req.conditions) {
        Ok(cs) => cs,
        Err(e) => {
            return Err(e);
        },
    };
    let logic = match LogicOperator::from_str(req.logic.as_str()) {
        Some(l) => l,
        None => {
            return Err("invalid logic, must be one of: and, or".to_owned());
        },
    };
    let ghost cv = conditions_view(conditions@);
    assert(cv.len() == conditions@.len());
    assert(conditions@.len() == req.conditions@.len());
    let has_first = conditions.len() > 0;
    let metric = match &req.metric {
        Some(m) => m.clone(),
        None => {
            if has_first {
                conditions[0].metric.clone()
            } else {
                return Err("metric is required when no conditions provided".to_owned());
            }
        },
    };
    let tags = match &req.tags {
        Some(t) => t.clone(),
        None => {
            if has_first {
                conditions[0].tags.clone()
            } else {
                BTreeMap::new()
            }
        },
    };
    let aggregation = match &req.aggregation {
        Some(a) => match AggType::from_str(a.as_str()) {
            Some(x) => x,
            None => {
                return Err("invalid aggregation, must be one of: avg, max, min, sum, count".to_owned());
            },
        },
        None => if has_first {
            conditions[0].aggregation
        } else {
            AggType::Avg
        },
    };
    let operator = match &req.operator {
        Some(o) => match CompareOp::from_str(o.as_str()) {
            Some(x) => x,
            None => {
                return Err("invalid operator, must be one of: >, >=, <, <=, ==, !=".to_owned());
            },
        },
        None => if has_first {
            conditions[0].operator
        } else {
            CompareOp::Gt
        },
    };
    let window_secs = match req.window_secs {
        Some(w) => w,
        None => if has_first {
            conditions[0].window_secs
        } else {
            300
        },
    };
    let threshold_bits = match req.threshold_bits {
        Some(t) => t,
        None => if has_first {
            conditions[0].threshold_bits
        } else {
            0
        },
    };
    let severity = match Severity::from_str(req.severity.as_str()) {
        Some(s) => s,
        None => {
            return Err("invalid severity, must be one of: critical, warning, info".to_owned());
        },
    };
    proof {
        if has_first {
            assert(cv[0] == conditions@[0]@);
        }
    }
    Ok(
        AlertRule {
            id,
            name: req.name,
            conditions,
            logic,
            metric,
            tags,
            aggregation,
            window_secs,
            operator,
            threshold_bits,
            trigger_count: req.trigger_count,
            severity,
            silence_secs: req.silence_secs,
            enabled: req.enabled,
        },
    )
}

/// The rule a create request describes, under a new random id, or why the
/// request is refused.
pub fn create_rule(req: CreateRuleRequest) -> (r: Result<AlertRule, String>)
    ensures
        match r {
            Ok(rule) => create_error(req) is None && rule.id@.len() == 36 && created_fields_ok(rule, req),
            Err(e) => create_error(req) == Some(e@),
        },
{
    let id = new_uuid();
    build_rule(req, id)
}

/// Why an update request is refused, if it is, in the order the checks run.
pub open spec fn update_error(req: UpdateRuleRequest) -> Option<Seq<char>> {
    if req.conditions matches Some(cs) && conditions_error(cs@) is Some {
        conditions_error(req.conditions->0@)
    } else if req.logic matches Some(l) && logic_operator_of(lowercase_of(l@)) is None {
        Some("invalid logic"@)
    } else if req.aggregation matches Some(a) && agg_type_of(lowercase_of(a@)) is None {
        Some("invalid aggregation"@)
    } else if req.operator matches Some(o) && compare_op_of(o@) is None {
        Some("invalid operator"@)
    } else if req.severity matches Some(s) && severity_of(lowercase_of(s@)) is None {
        Some("invalid severity"@)
    } else {
        None
    }
}

/// An updated rule: each field the request gives, else the rule's own; the
/// id is kept.
pub open spec fn updated_fields_ok(rule: AlertRule, old: AlertRule, req: UpdateRuleRequest) -> bool {
    &&& rule.id@ == old.id@
    &&& rule.name@ == (match req.name {
        Some(n) => n@,
        None => old.name@,
    })
    &&& conditions_view(rule.conditions@) == (match req.conditions {
        Some(cs) => conditions_of(cs@),
        None => conditions_view(old.conditions@),
    })
    &&& Some(rule.logic) == (match req.logic {
        Some(l) => logic_operator_of(lowercase_of(l@)),
        None => Some(old.logic),
    })
    &&& rule.metric@ == (match req.metric {
        Some(m) => m@,
        None => old.metric@,
    })
    &&& rule.tags@ == (match req.tags {
        Some(t) => t@,
        None => old.tags@,
    })
    &&& Some(rule.aggregation) == (match req.aggregation {
        Some(a) => agg_type_of(lowercase_of(a@)),
        None => Some(old.aggregation),
    })
    &&& rule.window_secs == (match req.window_secs {
        Some(w) => w,
        None => old.window_secs,
    })
    &&& Some(rule.operator) == (match req.operator {
        Some(o) => compare_op_of(o@),
        None => Some(old.operator),
    })
    &&& rule.threshold_bits == (match req.threshold_bits {
        Some(t) => t,
        None => old.threshold_bits,
    })
    &&& rule.trigger_count == (match req.trigger_count {
        Some(t) => t,
        None => old.trigger_count,
    })
    &&& Some(rule.severity) == (match req.severity {
        Some(s) => severity_of(lowercase_of(s@)),
        None => Some(old.severity),
    })
    &&& rule.silence_secs == (match req.silence_secs {
        Some(s) => s,
        None => old.silence_secs,
    })
    &&& rule.enabled == (match req.enabled {
        Some(e) => e,
        None => old.enabled,
    })
}

/// The rule `existing` with the changes of `req`, or why the request is
/// refused.
pub fn apply_update(existing: AlertRule, req: UpdateRuleRequest) -> (r: Result<AlertRule, String>)
    ensures
        match r {
            Ok(rule) => update_error(req) is None && updated_fields_ok(rule, existing, req),
            Err(e) => update_error(req) == Some(e@),
        },
{
    let conditions = match &req.conditions {
        Some(cs) => match parse_conditions(cs) {
            Ok(ps) => ps,
            Err(e) => {
                return Err(e);
            },
        },
        None => existing.conditions,
    };
    let logic = match &req.logic {
        Some(l) => match LogicOperator::from_str(l.as_str()) {
            Some(op) => op,
            None => {
                return Err("invalid logic".to_owned());
            },
        },
        None => existing.logic,
    };
    let aggregation = match &req.aggregation {
        Some(a) => match AggType::from_str(a.as_str()) {
            Some(x) => x,
            None => {
                return Err("invalid aggregation".to_owned());
            },
        },
        None => existing.aggregation,
    };
    let operator = match &req.operator {
        Some(o) => match CompareOp::from_str(o.as_str()) {
            Some(x) => x,
            None => {
                return Err("invalid operator".to_owned());
            },
        },
        None => existing.operator,
    };
    let severity = match &req.severity {
        Some(s) => match Severity::from_str(s.as_str()) {
            Some(x) => x,
            None => {
                return Err("invalid severity".to_owned());
            },
        },
        None => existing.severity,
    };
    let name = match req.name {
        Some(n) => n,
        None => existing.name,
    };
    let metric = match req.metric {
        Some(m) => m,
        None => existing.metric,
    };
    let tags = match req.tags {
        Some(t) => t,
        None => existing.tags,
    };
    Ok(
        AlertRule {
            id: existing.id,
            name,
            conditions,
            logic,
            metric,
            tags,
            aggregation,
            window_secs: match req.window_secs {
                Some(w) => w,
                None => existing.window_secs,
            },
            operator,
            threshold_bits: match req.threshold_bits {
                Some(t) => t,
                None => existing.threshold_bits,
            },
            trigger_count: match req.trigger_count {
                Some(t) => t,
                None => existing.trigger_count,
            },
            severity,
            silence_secs: match req.silence_secs {
                Some(s) => s,
                None => existing.silence_secs,
            },
            enabled: match req.enabled {
                Some(e) => e,
                None => existing.enabled,
            },
        },
    )
}

} // verus!
