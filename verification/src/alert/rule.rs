use vstd::prelude::*;
use std::collections::BTreeMap;
use crate::text::{str_eq, to_lowercase, lowercase_of};

verus! {

/// How the results of several sub-conditions combine.
#[derive(Debug, Clone, Copy, PartialEq, Eq, Structural)]
pub enum LogicOperator {
    And,
    Or,
}

pub open spec fn logic_operator_of(s: Seq<char>) -> Option<LogicOperator> {
    if s == "and"@ {
        Some(LogicOperator::And)
    } else if s == "or"@ {
        Some(LogicOperator::Or)
    } else {
        None
    }
}

pub open spec fn logic_operator_name(l: LogicOperator) -> Seq<char> {
    match l {
        LogicOperator::And => "and"@,
        LogicOperator::Or => "or"@,
    }
}

impl LogicOperator {
    /// Parses an already lowercased name.
    pub fn from_lowercase(s: &str) -> (r: Option<Self>)
        ensures
            r == logic_operator_of(s@),
    {
        if str_eq(s, "and") {
            Some(LogicOperator::And)
        } else if str_eq(s, "or") {
            Some(LogicOperator::Or)
        } else {
            None
        }
    }

    /// Parses a name, ignoring case.
    pub fn from_str(s: &str) -> (r: Option<Self>)
        ensures
            r == logic_operator_of(lowercase_of(s@)),
    {
        let lower = to_lowercase(s);
        Self::from_lowercase(lower.as_str())
    }

    pub fn as_str(&self) -> (r: &'static str)
        ensures
            r@ == logic_operator_name(*self),
    {
        match self {
            LogicOperator::And => "and",
            LogicOperator::Or => "or",
        }
    }
}

/// The aggregation a sub-condition applies over its window.
#[derive(Debug, Clone, Copy, PartialEq, Eq, Structural)]
pub enum AggType {
    Avg,
    Max,
    Min,
    Sum,
    Count,
}

pub open spec fn agg_type_of(s: Seq<char>) -> Option<AggType> {
    if s == "avg"@ {
        Some(AggType::Avg)
    } else if s == "max"@ {
        Some(AggType::Max)
    } else if s == "min"@ {
        Some(AggType::Min)
    } else if s == "sum"@ {
        Some(AggType::Sum)
    } else if s == "count"@ {
        Some(AggType::Count)
    } else {
        None
    }
}

pub open spec fn agg_type_name(a: AggType) -> Seq<char> {
    match a {
        AggType::Avg => "avg"@,
        AggType::Max => "max"@,
        AggType::Min => "min"@,
        AggType::Sum => "sum"@,
        AggType::Count => "count"@,
    }
}

impl AggType {
    /// Parses an already lowercased name.
    pub fn from_lowercase(s: &str) -> (r: Option<Self>)
        ensures
            r == agg_type_of(s@),
    {
        if str_eq(s, "avg") {
            Some(AggType::Avg)
        } else if str_eq(s, "max") {
            Some(AggType::Max)
        } else if str_eq(s, "min") {
            Some(AggType::Min)
        } else if str_eq(s, "sum") {
            Some(AggType::Sum)
        } else if str_eq(s, "count") {
            Some(AggType::Count)
        } else {
            None
        }
    }

    /// Parses a name, ignoring case.
    pub fn from_str(s: &str) -> (r: Option<Self>)
        ensures
            r == agg_type_of(lowercase_of(s@)),
    {
        let lower = to_lowercase(s);
        Self::from_lowercase(lower.as_str())
    }

    pub fn as_str(&self) -> (r: &'static str)
        ensures
            r@ == agg_type_name(*self),
    {
        match self {
            AggType::Avg => "avg",
            AggType::Max => "max",
            AggType::Min => "min",
            AggType::Sum => "sum",
            AggType::Count => "count",
        }
    }
}

/// How an aggregate is compared with a threshold.
#[derive(Debug, Clone, Copy, PartialEq, Eq, Structural)]
pub enum CompareOp {
    Gt,
    Gte,
    Lt,
    Lte,
    Eq,
    Neq,
}

pub open spec fn compare_op_of(s: Seq<char>) -> Option<CompareOp> {
    if s == ">"@ {
        Some(CompareOp::Gt)
    } else if s == ">="@ {
        Some(CompareOp::Gte)
    } else if s == "<"@ {
        Some(CompareOp::Lt)
    } else if s == "<="@ {
        Some(CompareOp::Lte)
    } else if s == "=="@ {
        Some(CompareOp::Eq)
    } else if s == "!="@ {
        Some(CompareOp::Neq)
    } else {
        None
    }
}

pub open spec fn compare_op_name(c: CompareOp) -> Seq<char> {
    match c {
        CompareOp::Gt => ">"@,
        CompareOp::Gte => ">="@,
        CompareOp::Lt => "<"@,
        CompareOp::Lte => "<="@,
        CompareOp::Eq => "=="@,
        CompareOp::Neq => "!="@,
    }
}

/// Whether `value` stands in relation `op` to `threshold`: greater, at least,
/// less, at most, equal, different.
pub open spec fn compare_holds(op: CompareOp, value: int, threshold: int) -> bool {
    match op {
        CompareOp::Gt => value > threshold,
        CompareOp::Gte => value >= threshold,
        CompareOp::Lt => value < threshold,
        CompareOp::Lte => value <= threshold,
        CompareOp::Eq => value == threshold,
        CompareOp::Neq => value != threshold,
    }
}

/// The relation an operator symbol spells: `<` less, `>` greater, `=` equal
/// (unless after `!`), and `!` different, each character adding its case.
pub open spec fn symbol_relation(sym: Seq<char>, value: int, threshold: int) -> bool {
    ||| sym.contains('<') && value < threshold
    ||| sym.contains('>') && value > threshold
    ||| sym.contains('=') && !sym.contains('!') && value == threshold
    ||| sym.contains('!') && value != threshold
}

impl CompareOp {
    /// Parses an operator symbol.
    pub fn from_str(s: &str) -> (r: Option<Self>)
        ensures
            r == compare_op_of(s@),
    {
        if str_eq(s, ">") {
            Some(CompareOp::Gt)
        } else if str_eq(s, ">=") {
            Some(CompareOp::Gte)
        } else if str_eq(s, "<") {
            Some(CompareOp::Lt)
        } else if str_eq(s, "<=") {
            Some(CompareOp::Lte)
        } else if str_eq(s, "==") {
            Some(CompareOp::Eq)
        } else if str_eq(s, "!=") {
            Some(CompareOp::Neq)
        } else {
            None
        }
    }

    pub fn as_str(&self) -> (r: &'static str)
        ensures
            r@ == compare_op_name(*self),
    {
        match self {
            CompareOp::Gt => ">",
            CompareOp::Gte => ">=",
            CompareOp::Lt => "<",
            CompareOp::Lte => "<=",
            CompareOp::Eq => "==",
            CompareOp::Neq => "!=",
        }
    }
}

/// How urgent an alert is.
#[derive(Debug, Clone, Copy, PartialEq, Eq, Structural)]
pub enum Severity {
    Critical,
    Warning,
    Info,
}

pub open spec fn severity_of(s: Seq<char>) -> Option<Severity> {
    if s == "critical"@ {
        Some(Severity::Critical)
    } else if s == "warning"@ {
        Some(Severity::Warning)
    } else if s == "info"@ {
        Some(Severity::Info)
    } else {
        None
    }
}

pub open spec fn severity_name(s: Severity) -> Seq<char> {
    match s {
        Severity::Critical => "critical"@,
        Severity::Warning => "warning"@,
        Severity::Info => "info"@,
    }
}

impl Severity {
    /// Parses an already lowercased name.
    pub fn from_lowercase(s: &str) -> (r: Option<Self>)
        ensures
            r == severity_of(s@),
    {
        if str_eq(s, "critical") {
            Some(Severity::Critical)
        } else if str_eq(s, "warning") {
            Some(Severity::Warning)
        } else if str_eq(s, "info") {
            Some(Severity::Info)
        } else {
            None
        }
    }

    /// Parses a name, ignoring case.
    pub fn from_str(s: &str) -> (r: Option<Self>)
        ensures
            r == severity_of(lowercase_of(s@)),
    {
        let lower = to_lowercase(s);
        Self::from_lowercase(lower.as_str())
    }

    pub fn as_str(&self) -> (r: &'static str)
        ensures
            r@ == severity_name(*self),
    {
        match self {
            Severity::Critical => "critical",
            Severity::Warning => "warning",
            Severity::Info => "info",
        }
    }
}

/// Where a rule stands in its evaluation cycle.
#[derive(Debug, Clone, Copy, PartialEq, Eq, Structural)]
pub enum RuleState {
    Inactive,
    Pending,
    Firing,
    Acknowledged,
    Resolved,
}

pub open spec fn rule_state_name(s: RuleState) -> Seq<char> {
    match s {
        RuleState::Inactive => "inactive"@,
        RuleState::Pending => "pending"@,
        RuleState::Firing => "firing"@,
        RuleState::Acknowledged => "acknowledged"@,
        RuleState::Resolved => "resolved"@,
    }
}

impl RuleState {
    pub fn as_str(&self) -> (r: &'static str)
        ensures
            r@ == rule_state_name(*self),
    {
        match self {
            RuleState::Inactive => "inactive",
            RuleState::Pending => "pending",
            RuleState::Firing => "firing",
            RuleState::Acknowledged => "acknowledged",
            RuleState::Resolved => "resolved",
        }
    }
}

proof fn lemma_logic_operator_name(x: LogicOperator)
    ensures
        logic_operator_of(logic_operator_name(x)) == Some(x),
{
    reveal_strlit("and");
    reveal_strlit("or");
    assert("and"@.len() == 3);
    assert("and"@[0] == 'a');
    assert("and"@[1] == 'n');
    assert("and"@[2] == 'd');
    assert("or"@.len() == 2);
    assert("or"@[0] == 'o');
    assert("or"@[1] == 'r');
}

proof fn lemma_agg_type_name(x: AggType)
    ensures
        agg_type_of(agg_type_name(x)) == Some(x),
{
    reveal_strlit("avg");
    reveal_strlit("max");
    reveal_strlit("min");
    reveal_strlit("sum");
    reveal_strlit("count");
    assert("avg"@.len() == 3);
    assert("avg"@[0] == 'a');
    assert("avg"@[1] == 'v');
    assert("avg"@[2] == 'g');
    assert("max"@.len() == 3);
    assert("max"@[0] == 'm');
    assert("max"@[1] == 'a');
    assert("max"@[2] == 'x');
    assert("min"@.len() == 3);
    assert("min"@[0] == 'm');
    assert("min"@[1] == 'i');
    assert("min"@[2] == 'n');
    assert("sum"@.len() == 3);
    assert("sum"@[0] == 's');
    assert("sum"@[1] == 'u');
    assert("sum"@[2] == 'm');
    assert("count"@.len() == 5);
    assert("count"@[0] == 'c');
    assert("count"@[1] == 'o');
    assert("count"@[2] == 'u');
    assert("count"@[3] == 'n');
    assert("count"@[4] == 't');
}

proof fn lemma_compare_op_name(x: CompareOp)
    ensures
        compare_op_of(compare_op_name(x)) == Some(x),
{
    reveal_strlit(">");
    reveal_strlit(">=");
    reveal_strlit("<");
    reveal_strlit("<=");
    reveal_strlit("==");
    reveal_strlit("!=");
    assert(">"@.len() == 1);
    assert(">"@[0] == '>');
    assert(">="@.len() == 2);
    assert(">="@[0] == '>');
    assert(">="@[1] == '=');
    assert("<"@.len() == 1);
    assert("<"@[0] == '<');
    assert("<="@.len() == 2);
    assert("<="@[0] == '<');
    assert("<="@[1] == '=');
    assert("=="@.len() == 2);
    assert("=="@[0] == '=');
    assert("=="@[1] == '=');
    assert("!="@.len() == 2);
    assert("!="@[0] == '!');
    assert("!="@[1] == '=');
}

proof fn lemma_severity_name(x: Severity)
    ensures
        severity_of(severity_name(x)) == Some(x),
{
    reveal_strlit("critical");
    reveal_strlit("warning");
    reveal_strlit("info");
    assert("critical"@.len() == 8);
    assert("critical"@[0] == 'c');
    assert("critical"@[1] == 'r');
    assert("critical"@[2] == 'i');
    assert("critical"@[3] == 't');
    assert("critical"@[4] == 'i');
    assert("critical"@[5] == 'c');
    assert("critical"@[6] == 'a');
    assert("critical"@[7] == 'l');
    assert("warning"@.len() == 7);
    assert("warning"@[0] == 'w');
    assert("warning"@[1] == 'a');
    assert("warning"@[2] == 'r');
    assert("warning"@[3] == 'n');
    assert("warning"@[4] == 'i');
    assert("warning"@[5] == 'n');
    assert("warning"@[6] == 'g');
    assert("info"@.len() == 4);
    assert("info"@[0] == 'i');
    assert("info"@[1] == 'n');
    assert("info"@[2] == 'f');
    assert("info"@[3] == 'o');
}

/// One condition of a rule: the aggregate of a metric over a trailing window,
/// compared with a threshold. The threshold is held as its IEEE-754 bit pattern.
#[derive(Debug, Clone)]
pub struct SubCondition {
    pub metric: String,
    pub tags: BTreeMap<String, String>,
    pub aggregation: AggType,
    pub window_secs: u64,
    pub operator: CompareOp,
    pub threshold_bits: u64,
}

pub struct SubConditionSpec {
    pub metric: Seq<char>,
    pub tags: Map<String, String>,
    pub aggregation: AggType,
    pub window_secs: u64,
    pub operator: CompareOp,
    pub threshold_bits: u64,
}

impl View for SubCondition {
    type V = SubConditionSpec;

    open spec fn view(&self) -> SubConditionSpec {
        SubConditionSpec {
            metric: self.metric@,
            tags: self.tags@,
            aggregation: self.aggregation,
            window_secs: self.window_secs,
            operator: self.operator,
            threshold_bits: self.threshold_bits,
        }
    }
}

pub open spec fn conditions_view(cs: Seq<SubCondition>) -> Seq<SubConditionSpec> {
    cs.map_values(|c: SubCondition| c@)
}

impl SubCondition {
    /// A copy with the same content.
    pub fn duplicate(&self) -> (r: SubCondition)
        ensures
            r@ == self@,
    {
        SubCondition {
            metric: self.metric.clone(),
            tags: self.tags.clone(),
            aggregation: self.aggregation,
            window_secs: self.window_secs,
            operator: self.operator,
            threshold_bits: self.threshold_bits,
        }
    }
}

/// An alert rule: either a list of sub-conditions combined by `logic`, or,
/// when that list is empty, the single condition given by the top-level fields.
#[derive(Debug, Clone)]
pub struct AlertRule {
    pub id: String,
    pub name: String,
    pub conditions: Vec<SubCondition>,
    pub logic: LogicOperator,
    pub metric: String,
    pub tags: BTreeMap<String, String>,
    pub aggregation: AggType,
    pub window_secs: u64,
    pub operator: CompareOp,
    pub threshold_bits: u64,
    pub trigger_count: u32,
    pub severity: Severity,
    pub silence_secs: u64,
    pub enabled: bool,
}

/// The conditions a rule is evaluated by.
pub open spec fn effective_conditions_spec(rule: AlertRule) -> Seq<SubConditionSpec> {
    if rule.conditions@.len() > 0 {
        conditions_view(rule.conditions@)
    } else {
        seq![
            SubConditionSpec {
                metric: rule.metric@,
                tags: rule.tags@,
                aggregation: rule.aggregation,
                window_secs: rule.window_secs,
                operator: rule.operator,
                threshold_bits: rule.threshold_bits,
            },
        ]
    }
}

/// Whether the results of a rule's conditions make the rule's condition met:
/// never for no results; all of them under `And`, any of them under `Or`.
pub open spec fn logic_holds(logic: LogicOperator, results: Seq<bool>) -> bool {
    results.len() > 0 && match logic {
        LogicOperator::And => forall|i: int| 0 <= i < results.len() ==> #[trigger] results[i],
        LogicOperator::Or => exists|i: int| 0 <= i < results.len() && #[trigger] results[i],
    }
}

impl AlertRule {
    /// The conditions the rule is evaluated by.
    pub fn effective_conditions(&self) -> (r: Vec<SubCondition>)
        ensures
            conditions_view(r@) == effective_conditions_spec(*self),
    {
        let mut out: Vec<SubCondition> = Vec::new();
        if self.conditions.len() > 0 {
            let mut i: usize = 0;
            while i < self.conditions.len()
                invariant
                    i <= self.conditions.len(),
                    conditions_view(out@) == conditions_view(self.conditions@.take(i as int)),
                decreases self.conditions.len() - i,
            {
                let c = self.conditions[i].duplicate();
                let ghost before = out@;
                out.push(c);
                proof {
                    assert(conditions_view(out@) =~= conditions_view(before).push(c@));
                    assert(conditions_view(self.conditions@.take(i + 1)) =~= conditions_view(
                        self.conditions@.take(i as int),
                    ).push(self.conditions@[i as int]@));
                }
                i = i + 1;
            }
            proof {
                assert(self.conditions@.take(i as int) =~= self.conditions@);
            }
        } else {
            out.push(
                SubCondition {
                    metric: self.metric.clone(),
                    tags: self.tags.clone(),
                    aggregation: self.aggregation,
                    window_secs: self.window_secs,
                    operator: self.operator,
                    threshold_bits: self.threshold_bits,
                },
            );
            proof {
                assert(conditions_view(out@) =~= effective_conditions_spec(*self));
            }
        }
        out
    }

    /// Combines the results of the rule's conditions by its logic operator.
    pub fn evaluate_logic(&self, results: &[bool]) -> (r: bool)
        ensures
            r == logic_holds(self.logic, results@),
    {
        if results.len() == 0 {
            return false;
        }
        match self.logic {
            LogicOperator::And => {
                let mut i: usize = 0;
                while i < results.len()
                    invariant
                        i <= results.len(),
                        results.len() > 0,
                        self.logic == LogicOperator::And,
                        forall|j: int| 0 <= j < i ==> results@[j],
                    decreases results.len() - i,
                {
                    if !results[i] {
                        assert(!results@[i as int]);
                        return false;
                    }
                    i = i + 1;
                }
                true
            },
            LogicOperator::Or => {
                let mut i: usize = 0;
                while i < results.len()
                    invariant
                        i <= results.len(),
                        results.len() > 0,
                        self.logic == LogicOperator::Or,
                        forall|j: int| 0 <= j < i ==> !results@[j],
                    decreases results.len() - i,
                {
                    if results[i] {
                        assert(results@[i as int]);
                        return true;
                    }
                    i = i + 1;
                }
                false
            },
        }
    }
}

/// What an evaluation asks to be recorded and announced.
#[derive(Debug, Clone, Copy, PartialEq, Eq, Structural)]
pub enum EvalAction {
    NoEvent,
    Fire,
    Resolve,
}

/// The evaluation state of one rule. The last aggregate value is held as its
/// IEEE-754 bit pattern.
#[derive(Debug, Clone)]
pub struct RuleEvalState {
    pub rule_id: String,
    pub state: RuleState,
    pub consecutive_count: u32,
    pub last_fire_time: Option<i64>,
    pub last_eval_time: Option<i64>,
    pub current_value_bits: Option<u64>,
}

/// The part of the evaluation state that the transition decides.
pub struct EvalSpec {
    pub state: RuleState,
    pub count: nat,
    pub last_fire: Option<i64>,
}

/// Whether a firing at `now` falls within the silence window after the last one.
pub open spec fn in_silence(last_fire: Option<i64>, silence_secs: u64, now: i64) -> bool {
    match last_fire {
        Some(lf) => now < lf + (silence_secs as i64) * 1_000_000_000,
        None => false,
    }
}

/// One evaluation of a rule whose condition is or is not met at `now`.
pub open spec fn eval_step(s: EvalSpec, met: bool, trigger_count: u32, silence_secs: u64, now: i64) -> (
    EvalSpec,
    EvalAction,
) {
    if met {
        let count = s.count + 1;
        if count >= trigger_count {
            if s.state != RuleState::Firing && s.state != RuleState::Acknowledged {
                if !in_silence(s.last_fire, silence_secs, now) {
                    (EvalSpec { state: RuleState::Firing, count, last_fire: Some(now) }, EvalAction::Fire)
                } else {
                    (EvalSpec { state: RuleState::Firing, count, last_fire: s.last_fire }, EvalAction::NoEvent)
                }
            } else {
                (EvalSpec { state: s.state, count, last_fire: s.last_fire }, EvalAction::NoEvent)
            }
        } else if s.state != RuleState::Pending && s.state != RuleState::Firing && s.state
            != RuleState::Acknowledged {
            (EvalSpec { state: RuleState::Pending, count, last_fire: s.last_fire }, EvalAction::NoEvent)
        } else {
            (EvalSpec { state: s.state, count, last_fire: s.last_fire }, EvalAction::NoEvent)
        }
    } else if s.state == RuleState::Firing || s.state == RuleState::Acknowledged || s.state
        == RuleState::Pending {
        (EvalSpec { state: RuleState::Resolved, count: 0, last_fire: s.last_fire }, EvalAction::Resolve)
    } else {
        (EvalSpec { state: RuleState::Inactive, count: 0, last_fire: s.last_fire }, EvalAction::NoEvent)
    }
}

impl RuleEvalState {
    pub open spec fn eval_view(&self) -> EvalSpec {
        EvalSpec {
            state: self.state,
            count: self.consecutive_count as nat,
            last_fire: self.last_fire_time,
        }
    }

    /// A rule that has not been evaluated yet.
    pub fn new(rule_id: String) -> (r: Self)
        ensures
            r.rule_id == rule_id,
            r.state == RuleState::Inactive,
            r.consecutive_count == 0,
            r.last_fire_time.is_none(),
            r.last_eval_time.is_none(),
            r.current_value_bits.is_none(),
    {
        RuleEvalState {
            rule_id,
            state: RuleState::Inactive,
            consecutive_count: 0,
            last_fire_time: None,
            last_eval_time: None,
            current_value_bits: None,
        }
    }

    /// Forgets everything but the rule id.
    pub fn reset(&mut self)
        ensures
            final(self).rule_id == old(self).rule_id,
            final(self).state == RuleState::Inactive,
            final(self).consecutive_count == 0,
            final(self).last_fire_time.is_none(),
            final(self).last_eval_time.is_none(),
            final(self).current_value_bits.is_none(),
    {
        self.state = RuleState::Inactive;
        self.consecutive_count = 0;
        self.last_fire_time = None;
        self.last_eval_time = None;
        self.current_value_bits = None;
    }

    /// The arithmetic an evaluation performs can be done: the count can grow
    /// when the condition is met, and the end of the silence window can be
    /// computed when it is consulted.
    pub open spec fn can_evaluate(&self, met: bool, trigger_count: u32, silence_secs: u64) -> bool {
        met ==> {
            &&& self.consecutive_count < u32::MAX
            &&& (self.consecutive_count + 1 >= trigger_count && self.state != RuleState::Firing
                && self.state != RuleState::Acknowledged) ==> match self.last_fire_time {
                Some(lf) => {
                    let span = (silence_secs as i64) * 1_000_000_000;
                    i64::MIN <= span <= i64::MAX && i64::MIN <= lf + span <= i64::MAX
                },
                None => true,
            }
        }
    }

    /// Whether an evaluation with these arguments can be applied (see
    /// `can_evaluate`).
    pub fn evaluation_ok(&self, met: bool, trigger_count: u32, silence_secs: u64) -> (r: bool)
        ensures
            r == self.can_evaluate(met, trigger_count, silence_secs),
    {
        if !met {
            return true;
        }
        if self.consecutive_count == u32::MAX {
            return false;
        }
        if self.consecutive_count + 1 >= trigger_count && self.state != RuleState::Firing && self.state
            != RuleState::Acknowledged {
            match self.last_fire_time {
                Some(lf) => {
                    let span: i128 = (silence_secs as i64) as i128 * 1_000_000_000;
                    if span < i64::MIN as i128 || span > i64::MAX as i128 {
                        return false;
                    }
                    let end: i128 = lf as i128 + span;
                    end >= i64::MIN as i128 && end <= i64::MAX as i128
                },
                None => true,
            }
        } else {
            true
        }
    }

    /// Applies one evaluation at `now_nanos`: records the time and the primary
    /// value, moves the state, and says whether a firing or a resolution is to
    /// be announced.
    pub fn apply_evaluation(
        &mut self,
        condition_met: bool,
        primary_value_bits: Option<u64>,
        trigger_count: u32,
        silence_secs: u64,
        now_nanos: i64,
    ) -> (action: EvalAction)
        requires
            old(self).can_evaluate(condition_met, trigger_count, silence_secs),
        ensures
            (final(self).eval_view(), action) == eval_step(
                old(self).eval_view(),
                condition_met,
                trigger_count,
                silence_secs,
                now_nanos,
            ),
            final(self).rule_id == old(self).rule_id,
            final(self).last_eval_time == Some(now_nanos),
            final(self).current_value_bits == match primary_value_bits {
                Some(v) => Some(v),
                None => old(self).current_value_bits,
            },
    {
        self.last_eval_time = Some(now_nanos);
        if let Some(v) = primary_value_bits {
            self.current_value_bits = Some(v);
        }
        let prev_state = self.state;
        if condition_met {
            self.consecutive_count = self.consecutive_count + 1;
            if self.consecutive_count >= trigger_count {
                if prev_state != RuleState::Firing && prev_state != RuleState::Acknowledged {
                    let silenced = match self.last_fire_time {
                        Some(last_fire) => {
                            let silence_nanos = (silence_secs as i64) * 1_000_000_000;
                            now_nanos < last_fire + silence_nanos
                        },
                        None => false,
                    };
                    if !silenced {
                        self.state = RuleState::Firing;
                        self.last_fire_time = Some(now_nanos);
                        return EvalAction::Fire;
                    } else {
                        self.state = RuleState::Firing;
                    }
                }
            } else {
                if prev_state != RuleState::Pending && prev_state != RuleState::Firing && prev_state
                    != RuleState::Acknowledged {
                    self.state = RuleState::Pending;
                }
            }
            EvalAction::NoEvent
        } else {
            if prev_state == RuleState::Firing || prev_state == RuleState::Acknowledged || prev_state
                == RuleState::Pending {
                self.state = RuleState::Resolved;
                self.consecutive_count = 0;
                EvalAction::Resolve
            } else {
                self.state = RuleState::Inactive;
                self.consecutive_count = 0;
                EvalAction::NoEvent
            }
        }
    }

    /// An operator acknowledged the rule's firing event: a firing rule becomes
    /// acknowledged, any other state is kept.
    pub fn acknowledge(&mut self)
        ensures
            final(self).state == (if old(self).state == RuleState::Firing {
                RuleState::Acknowledged
            } else {
                old(self).state
            }),
            final(self).rule_id == old(self).rule_id,
            final(self).consecutive_count == old(self).consecutive_count,
            final(self).last_fire_time == old(self).last_fire_time,
            final(self).last_eval_time == old(self).last_eval_time,
            final(self).current_value_bits == old(self).current_value_bits,
    {
        if self.state == RuleState::Firing {
            self.state = RuleState::Acknowledged;
        }
    }
}

/// The evaluation state after a run of evaluations, each a pair of whether
/// the condition was met and the time.
pub open spec fn eval_run(s: EvalSpec, evs: Seq<(bool, i64)>, trigger_count: u32, silence_secs: u64) -> EvalSpec
    decreases evs.len(),
{
    if evs.len() == 0 {
        s
    } else {
        eval_step(
            eval_run(s, evs.drop_last(), trigger_count, silence_secs),
            evs.last().0,
            trigger_count,
            silence_secs,
            evs.last().1,
        ).0
    }
}

/// What the `i`-th evaluation of a run asks to announce.
pub open spec fn action_at(s: EvalSpec, evs: Seq<(bool, i64)>, i: int, trigger_count: u32, silence_secs: u64) -> EvalAction {
    eval_step(
        eval_run(s, evs.take(i), trigger_count, silence_secs),
        evs[i].0,
        trigger_count,
        silence_secs,
        evs[i].1,
    ).1
}

/// How many evaluations at the end of `evs` met the condition in a row.
pub open spec fn trailing_met(evs: Seq<(bool, i64)>) -> nat
    decreases evs.len(),
{
    if evs.len() == 0 {
        0
    } else if evs.last().0 {
        trailing_met(evs.drop_last()) + 1
    } else {
        0
    }
}

proof fn lemma_count_is_trailing(s: EvalSpec, evs: Seq<(bool, i64)>, trigger_count: u32, silence_secs: u64)
    requires
        s.count == 0,
    ensures
        eval_run(s, evs, trigger_count, silence_secs).count == trailing_met(evs),
    decreases evs.len(),
{
    if evs.len() > 0 {
        lemma_count_is_trailing(s, evs.drop_last(), trigger_count, silence_secs);
    }
}

proof fn lemma_trailing_all_met(evs: Seq<(bool, i64)>, k: int)
    requires
        0 <= k <= trailing_met(evs),
    ensures
        k <= evs.len(),
        forall|j: int| evs.len() - k <= j < evs.len() ==> (#[trigger] evs[j]).0,
    decreases evs.len(),
{
    if k > 0 {
        lemma_trailing_all_met(evs.drop_last(), k - 1);
        assert forall|j: int| evs.len() - k <= j < evs.len() implies (#[trigger] evs[j]).0 by {
            if j < evs.len() - 1 {
                assert(evs.drop_last()[j] == evs[j]);
            }
        }
    }
}

/// A rule starting with no met evaluations announces a firing only on an
/// evaluation that ends a run of at least `trigger_count` consecutive
/// evaluations that met the condition.
pub proof fn lemma_fires_after_trigger_count(
    s: EvalSpec,
    evs: Seq<(bool, i64)>,
    i: int,
    trigger_count: u32,
    silence_secs: u64,
)
    requires
        s.count == 0,
        0 <= i < evs.len(),
        action_at(s, evs, i, trigger_count, silence_secs) == EvalAction::Fire,
    ensures
        i + 1 >= trigger_count,
        forall|j: int| i + 1 - trigger_count <= j <= i ==> (#[trigger] evs[j]).0,
{
    let pre = evs.take(i);
    let pre1 = evs.take(i + 1);
    lemma_count_is_trailing(s, pre, trigger_count, silence_secs);
    assert(pre1.drop_last() =~= pre);
    assert(pre1.last() == evs[i]);
    assert(evs[i].0);
    assert(trailing_met(pre1) == trailing_met(pre) + 1);
    lemma_trailing_all_met(pre1, trigger_count as int);
    assert forall|j: int| i + 1 - trigger_count <= j <= i implies (#[trigger] evs[j]).0 by {
        assert(pre1[j] == evs[j]);
    }
}

/// A rule that is firing or acknowledged announces no new firing until a
/// resolution has been announced.
pub proof fn lemma_no_refire(s: EvalSpec, met: bool, trigger_count: u32, silence_secs: u64, now: i64)
    requires
        s.state == RuleState::Firing || s.state == RuleState::Acknowledged,
    ensures
        eval_step(s, met, trigger_count, silence_secs, now).1 != EvalAction::Fire,
        eval_step(s, met, trigger_count, silence_secs, now).1 == EvalAction::Resolve <==> !met,
{
}

proof fn lemma_last_fire_kept(
    s: EvalSpec,
    evs: Seq<(bool, i64)>,
    i: int,
    k: int,
    trigger_count: u32,
    silence_secs: u64,
)
    requires
        0 <= i < k <= evs.len(),
        action_at(s, evs, i, trigger_count, silence_secs) == EvalAction::Fire,
        forall|m: int| i < m < k ==> action_at(s, evs, m, trigger_count, silence_secs) != EvalAction::Fire,
    ensures
        eval_run(s, evs.take(k), trigger_count, silence_secs).last_fire == Some(evs[i].1),
    decreases k - i,
{
    let pk = evs.take(k);
    assert(pk.drop_last() =~= evs.take(k - 1));
    assert(pk.last() == evs[k - 1]);
    if k - 1 > i {
        lemma_last_fire_kept(s, evs, i, k - 1, trigger_count, silence_secs);
        assert(action_at(s, evs, k - 1, trigger_count, silence_secs) != EvalAction::Fire);
    }
}

/// Between two consecutive announced firings of a rule at least the silence
/// period passes.
pub proof fn lemma_silence_between_firings(
    s: EvalSpec,
    evs: Seq<(bool, i64)>,
    i: int,
    j: int,
    trigger_count: u32,
    silence_secs: u64,
)
    requires
        0 <= i < j < evs.len(),
        action_at(s, evs, i, trigger_count, silence_secs) == EvalAction::Fire,
        action_at(s, evs, j, trigger_count, silence_secs) == EvalAction::Fire,
        forall|m: int| i < m < j ==> action_at(s, evs, m, trigger_count, silence_secs) != EvalAction::Fire,
    ensures
        evs[j].1 >= evs[i].1 + (silence_secs as i64) * 1_000_000_000,
{
    lemma_last_fire_kept(s, evs, i, j, trigger_count, silence_secs);
}

/// When the condition is met, the trigger count is reached and the rule is
/// neither firing nor acknowledged, the rule turns firing, and it announces a
/// firing, recording `now` as its last firing time, exactly when it never
/// fired or `now` is at least the silence period after its last firing;
/// inside the silence period it announces nothing and keeps the last firing
/// time.
pub proof fn lemma_fires_outside_silence(s: EvalSpec, trigger_count: u32, silence_secs: u64, now: i64)
    requires
        s.count + 1 >= trigger_count,
        s.state != RuleState::Firing,
        s.state != RuleState::Acknowledged,
    ensures
        ({
            let (n, a) = eval_step(s, true, trigger_count, silence_secs, now);
            let outside = match s.last_fire {
                None => true,
                Some(lf) => now >= lf + (silence_secs as i64) * 1_000_000_000,
            };
            &&& n.state == RuleState::Firing
            &&& (a == EvalAction::Fire) == outside
            &&& outside ==> n.last_fire == Some(now)
            &&& !outside ==> a == EvalAction::NoEvent && n.last_fire == s.last_fire
        }),
{
}

/// Each operator symbol is read as the relation its characters spell: the
/// operator parsed from a symbol, and the symbol an operator is written as,
/// hold of a value and a threshold exactly when the symbol's relation does
/// (`<` for less, `==` for equal, `!=` for different, and so on).
pub proof fn lemma_symbols_mean_relations(sym: Seq<char>, op: CompareOp, value: int, threshold: int)
    ensures
        compare_op_of(sym) == Some(op) ==> (compare_holds(op, value, threshold) <==> symbol_relation(
            sym,
            value,
            threshold,
        )),
        compare_holds(op, value, threshold) <==> symbol_relation(compare_op_name(op), value, threshold),
{
    reveal_strlit(">");
    reveal_strlit(">=");
    reveal_strlit("<");
    reveal_strlit("<=");
    reveal_strlit("==");
    reveal_strlit("!=");
    let n = compare_op_name(op);
    assert(n.len() >= 1 && n.len() <= 2);
    assert(n.contains(n[0]));
    if n.len() == 2 {
        assert(n.contains(n[1]));
    }
    assert(!n.contains('<') <== forall|i: int| 0 <= i < n.len() ==> n[i] != '<');
    assert(!n.contains('>') <== forall|i: int| 0 <= i < n.len() ==> n[i] != '>');
    assert(!n.contains('=') <== forall|i: int| 0 <= i < n.len() ==> n[i] != '=');
    assert(!n.contains('!') <== forall|i: int| 0 <= i < n.len() ==> n[i] != '!');
    if compare_op_of(sym) == Some(op) {
        lemma_compare_op_name(op);
        assert(sym == n) by {
            if sym != n {
                assert(compare_op_of(n) == Some(op));
            }
        }
    }
}

/// Every name parses back to what it names.
pub proof fn lemma_names_parse_back(l: LogicOperator, a: AggType, c: CompareOp, s: Severity)
    ensures
        logic_operator_of(logic_operator_name(l)) == Some(l),
        agg_type_of(agg_type_name(a)) == Some(a),
        compare_op_of(compare_op_name(c)) == Some(c),
        severity_of(severity_name(s)) == Some(s),
{
    lemma_logic_operator_name(l);
    lemma_agg_type_name(a);
    lemma_compare_op_name(c);
    lemma_severity_name(s);
}

} // verus!
