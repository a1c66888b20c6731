use vstd::prelude::*;

verus! {

/// One condition of a rule template; the threshold is an IEEE-754 bit pattern.
#[derive(Debug)]
pub struct TemplateSubCondition {
    pub metric: String,
    pub aggregation: String,
    pub window_secs: u64,
    pub operator: String,
    pub threshold_bits: u64,
}

/// A ready-made alert rule a client may start from.
#[derive(Debug)]
pub struct AlertTemplate {
    pub id: String,
    pub name: String,
    pub description: String,
    pub conditions: Vec<TemplateSubCondition>,
    pub logic: String,
    pub severity: String,
    pub trigger_count: u32,
    pub silence_secs: u64,
}

/// The bit pattern of the float 80.0.
pub const EIGHTY_BITS: u64 = 0x4054_0000_0000_0000u64;

/// The bit pattern of the float 10.0.
pub const TEN_BITS: u64 = 0x4024_0000_0000_0000u64;

/// The bit pattern of the float 90.0.
pub const NINETY_BITS: u64 = 0x4056_8000_0000_0000u64;

/// `t` is the template with these texts and numbers: one condition, joined
/// with `and`.
pub open spec fn template_is(
    t: AlertTemplate,
    id: Seq<char>,
    name: Seq<char>,
    description: Seq<char>,
    metric: Seq<char>,
    aggregation: Seq<char>,
    window_secs: u64,
    operator: Seq<char>,
    threshold_bits: u64,
    severity: Seq<char>,
    trigger_count: u32,
    silence_secs: u64,
) -> bool {
    &&& t.id@ == id
    &&& t.name@ == name
    &&& t.description@ == description
    &&& t.conditions@.len() == 1
    &&& t.conditions@[0].metric@ == metric
    &&& t.conditions@[0].aggregation@ == aggregation
    &&& t.conditions@[0].window_secs == window_secs
    &&& t.conditions@[0].operator@ == operator
    &&& t.conditions@[0].threshold_bits == threshold_bits
    &&& t.logic@ == "and"@
    &&& t.severity@ == severity
    &&& t.trigger_count == trigger_count
    &&& t.silence_secs == silence_secs
}

fn template(
    id: &str,
    name: &str,
    description: &str,
    metric: &str,
    aggregation: &str,
    window_secs: u64,
    operator: &str,
    threshold_bits: u64,
    severity: &str,
    trigger_count: u32,
    silence_secs: u64,
) -> (r: AlertTemplate)
    ensures
        template_is(
            r,
            id@,
            name@,
            description@,
            metric@,
            aggregation@,
            window_secs,
            operator@,
            threshold_bits,
            severity@,
            trigger_count,
            silence_secs,
        ),
{
    let mut conditions: Vec<TemplateSubCondition> = Vec::new();
    conditions.push(
        TemplateSubCondition {
            metric: metric.to_owned(),
            aggregation: aggregation.to_owned(),
            window_secs,
            operator: operator.to_owned(),
            threshold_bits,
        },
    );
    AlertTemplate {
        id: id.to_owned(),
        name: name.to_owned(),
        description: description.to_owned(),
        conditions,
        logic: "and".to_owned(),
        severity: severity.to_owned(),
        trigger_count,
        silence_secs,
    }
}

/// The built-in rule templates: high CPU load, low memory and high disk IO.
pub fn get_templates() -> (r: Vec<AlertTemplate>)
    ensures
        r@.len() == 3,
        template_is(
            r@[0],
            "cpu-high-load"@,
            "CPU High Load"@,
            "Alerts when CPU usage exceeds threshold over a time window"@,
            "cpu_usage"@,
            "avg"@,
            300,
            ">"@,
            EIGHTY_BITS,
            "critical"@,
            2,
            600,
        ),
        template_is(
            r@[1],
            "memory-low"@,
            "Memory Insufficient"@,
            "Alerts when available memory drops below threshold"@,
            "memory_available"@,
            "avg"@,
            180,
            "<"@,
            TEN_BITS,
            "warning"@,
            1,
            300,
        ),
        template_is(
            r@[2],
            "disk-io-high"@,
            "Disk IO Too High"@,
            "Alerts when disk IO utilization exceeds threshold"@,
            "disk_io_util"@,
            "max"@,
            120,
            ">"@,
            NINETY_BITS,
            "critical"@,
            1,
            300,
        ),
{
    let mut r: Vec<AlertTemplate> = Vec::new();
    r.push(
        template(
            "cpu-high-load",
            "CPU High Load",
            "Alerts when CPU usage exceeds threshold over a time window",
            "cpu_usage",
            "avg",
            300,
            ">",
            EIGHTY_BITS,
            "critical",
            2,
            600,
        ),
    );
    r.push(
        template(
            "memory-low",
            "Memory Insufficient",
            "Alerts when available memory drops below threshold",
            "memory_available",
            "avg",
            180,
            "<",
            TEN_BITS,
            "warning",
            1,
            300,
        ),
    );
    r.push(
        template(
            "disk-io-high",
            "Disk IO Too High",
            "Alerts when disk IO utilization exceeds threshold",
            "disk_io_util",
            "max",
            120,
            ">",
            NINETY_BITS,
            "critical",
            1,
            300,
        ),
    );
    r
}

} // verus!
