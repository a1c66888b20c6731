use vstd::prelude::*;
use std::collections::BTreeMap;
use vstd::utf8::encode_utf8;
use vstd::multiset::Multiset;
use vstd::string::StringSliceAdditionalSpecFns;
use crate::alert::rule::{AlertRule, severity_name};
use crate::text::{new_uuid, str_eq, str_lt, bytes_lt, lemma_bytes_lt_irreflexive, lemma_bytes_lt_transitive};

verus! {

broadcast use vstd::seq_lib::group_to_multiset_ensures, vstd::multiset::group_multiset_axioms;

/// A recorded firing or resolution of a rule. The value and threshold are held
/// as IEEE-754 bit patterns.
#[derive(Debug, Clone)]
pub struct AlertEvent {
    pub id: String,
    pub rule_id: String,
    pub rule_name: String,
    pub event_type: String,
    pub timestamp: i64,
    pub value_bits: u64,
    pub threshold_bits: u64,
    pub severity: String,
    pub metric: String,
    pub tags: BTreeMap<String, String>,
    pub acknowledged: bool,
    pub acknowledged_by: Option<String>,
}

/// A query over the event log: an optional time range, severity, rule name and
/// cursor, and the page size.
#[derive(Debug, Clone)]
pub struct EventsQuery {
    pub start_time: Option<i64>,
    pub end_time: Option<i64>,
    pub severity: Option<String>,
    pub rule_name: Option<String>,
    pub cursor: Option<i64>,
    pub limit: usize,
}

/// An operator's acknowledgement of an event.
#[derive(Debug, Clone)]
pub struct AckRequest {
    pub operator: String,
}

/// Whether an event passes the filters of a query: the severity and rule
/// name when given, a timestamp at or after the start, at or before the end,
/// and at or before the cursor.
pub open spec fn event_matches(e: AlertEvent, q: EventsQuery) -> bool {
    &&& (q.severity matches Some(s) ==> e.severity@ == s@)
    &&& (q.rule_name matches Some(n) ==> e.rule_name@ == n@)
    &&& (q.start_time matches Some(st) ==> e.timestamp >= st)
    &&& (q.end_time matches Some(en) ==> e.timestamp <= en)
    &&& (q.cursor matches Some(c) ==> e.timestamp <= c)
}

/// The events of `es` that pass the filters.
pub open spec fn matching(es: Seq<AlertEvent>, q: EventsQuery) -> Seq<AlertEvent>
    decreases es.len(),
{
    if es.len() == 0 {
        Seq::empty()
    } else if event_matches(es.last(), q) {
        matching(es.drop_last(), q).push(es.last())
    } else {
        matching(es.drop_last(), q)
    }
}

/// `a` comes strictly before `b` in the log's order: newer first, and among
/// events of the same time, the greater id first.
pub open spec fn event_before(a: AlertEvent, b: AlertEvent) -> bool {
    a.timestamp > b.timestamp || (a.timestamp == b.timestamp && bytes_lt(
        encode_utf8(b.id@),
        encode_utf8(a.id@),
    ))
}

pub open spec fn sorted_events(s: Seq<AlertEvent>) -> bool {
    forall|i: int, j: int| 0 <= i < j < s.len() ==> !event_before(#[trigger] s[j], #[trigger] s[i])
}

/// Where a page of `limit` events ends in the sorted matches: after `limit`
/// events, extended over every further event with the timestamp of the last one.
pub open spec fn page_end(s: Seq<AlertEvent>, limit: nat) -> nat {
    if s.len() <= limit {
        s.len()
    } else {
        page_end_from(s, s[limit - 1].timestamp, limit)
    }
}

pub open spec fn page_end_from(s: Seq<AlertEvent>, boundary: i64, k: nat) -> nat
    decreases s.len() - k,
{
    if k >= s.len() || s[k as int].timestamp != boundary {
        k
    } else {
        page_end_from(s, boundary, k + 1)
    }
}

/// The cursor for the next page: the timestamp of the first event left out.
pub open spec fn next_cursor_spec(s: Seq<AlertEvent>, limit: nat) -> Option<i64> {
    if s.len() <= limit || page_end(s, limit) >= s.len() {
        None
    } else {
        Some(s[page_end(s, limit) as int].timestamp)
    }
}

/// The query can be answered: a page size of zero is allowed only when no event matches.
pub open spec fn query_answerable(es: Seq<AlertEvent>, q: EventsQuery) -> bool {
    q.limit > 0 || matching(es, q).len() == 0
}

fn opt_str_matches(filter: &Option<String>, value: &String) -> (r: bool)
    ensures
        r == (filter matches Some(s) ==> value@ == s@),
{
    match filter {
        Some(s) => str_eq(value.as_str(), s.as_str()),
        None => true,
    }
}

fn matches_query(e: &AlertEvent, q: &EventsQuery) -> (r: bool)
    ensures
        r == event_matches(*e, *q),
{
    if !opt_str_matches(&q.severity, &e.severity) {
        return false;
    }
    if !opt_str_matches(&q.rule_name, &e.rule_name) {
        return false;
    }
    if let Some(start) = q.start_time {
        if e.timestamp < start {
            return false;
        }
    }
    if let Some(end) = q.end_time {
        if e.timestamp > end {
            return false;
        }
    }
    if let Some(c) = q.cursor {
        if e.timestamp > c {
            return false;
        }
    }
    true
}

/// Whether a query can be answered over `events`: a page size of zero is
/// only allowed when no event matches.
pub fn query_ok(events: &Vec<AlertEvent>, q: &EventsQuery) -> (r: bool)
    ensures
        r == query_answerable(events@, *q),
{
    if q.limit > 0 {
        return true;
    }
    let mut i: usize = 0;
    while i < events.len()
        invariant
            i <= events.len(),
            q.limit == 0,
            matching(events@.take(i as int), *q).len() == 0,
        decreases events.len() - i,
    {
        assert(events@.take(i as int + 1).drop_last() =~= events@.take(i as int));
        if matches_query(&events[i], q) {
            proof {
                assert(events@.take(i as int + 1).last() == events@[i as int]);
                assert(matching(events@.take(i as int + 1), *q).len() == 1);
                lemma_matching_prefix(events@, *q, i as int + 1);
            }
            return false;
        }
        i = i + 1;
    }
    assert(events@.take(events@.len() as int) =~= events@);
    true
}

proof fn lemma_matching_prefix(es: Seq<AlertEvent>, q: EventsQuery, k: int)
    requires
        0 <= k <= es.len(),
    ensures
        matching(es.take(k), q).len() <= matching(es, q).len(),
    decreases es.len(),
{
    if k < es.len() {
        assert(es.drop_last().take(k) =~= es.take(k));
        lemma_matching_prefix(es.drop_last(), q, k);
    } else {
        assert(es.take(k) =~= es);
    }
}

fn before(a: &AlertEvent, b: &AlertEvent) -> (r: bool)
    ensures
        r == event_before(*a, *b),
{
    a.timestamp > b.timestamp || (a.timestamp == b.timestamp && str_lt(b.id.as_str(), a.id.as_str()))
}

proof fn lemma_before_transitive(a: AlertEvent, b: AlertEvent, c: AlertEvent)
    requires
        event_before(a, b),
        event_before(b, c),
    ensures
        event_before(a, c),
{
    if a.timestamp == b.timestamp && b.timestamp == c.timestamp {
        lemma_bytes_lt_transitive(encode_utf8(c.id@), encode_utf8(b.id@), encode_utf8(a.id@));
    }
}

proof fn lemma_before_asymmetric(a: AlertEvent, b: AlertEvent)
    ensures
        !(event_before(a, b) && event_before(b, a)),
{
    if event_before(a, b) && event_before(b, a) {
        lemma_before_transitive(a, b, a);
        lemma_bytes_lt_irreflexive(encode_utf8(a.id@));
    }
}

/// Inserts `e` into the sorted `out` after every event that does not come after it.
fn insert_sorted(out: &mut Vec<AlertEvent>, e: AlertEvent)
    requires
        sorted_events(old(out)@),
    ensures
        sorted_events(final(out)@),
        final(out)@.to_multiset() == old(out)@.to_multiset().insert(e),
{
    let mut k: usize = 0;
    while k < out.len()
        invariant
            k <= out.len(),
            forall|i: int| 0 <= i < k ==> !event_before(e, #[trigger] out@[i]),
        ensures
            k <= out.len(),
            forall|i: int| 0 <= i < k ==> !event_before(e, #[trigger] out@[i]),
            k < out.len() ==> event_before(e, out@[k as int]),
        decreases out.len() - k,
    {
        if before(&e, &out[k]) {
            break;
        }
        k = k + 1;
    }
    let ghost s = out@;
    let ghost ev = e;
    out.insert(k, e);
    proof {
        let t = out@;
        assert(t == s.insert(k as int, ev));
        assert forall|i: int, j: int| 0 <= i < j < t.len() implies !event_before(
            #[trigger] t[j],
            #[trigger] t[i],
        ) by {
            if j < k {
                assert(t[i] == s[i] && t[j] == s[j]);
            } else if j == k {
                assert(t[i] == s[i] && t[j] == ev);
                lemma_before_asymmetric(s[i], ev);
                if event_before(ev, s[i]) {
                    assert(!event_before(ev, s[i]));
                }
            } else if i > k {
                assert(t[i] == s[i - 1] && t[j] == s[j - 1]);
            } else if i == k {
                assert(t[i] == ev && t[j] == s[j - 1]);
                assert(k < s.len());
                assert(event_before(ev, s[k as int]));
                if event_before(s[j - 1], ev) {
                    lemma_before_transitive(s[j - 1], ev, s[k as int]);
                    if j - 1 == k {
                        lemma_before_asymmetric(s[k as int], s[k as int]);
                    } else {
                        assert(!event_before(s[j - 1], s[k as int]));
                    }
                }
            } else {
                assert(t[i] == s[i] && t[j] == s[j - 1]);
            }
        }
    }
}

/// Selects one page of the event log: the events that pass the query's
/// filters, newest first (ties by greater id), cut after `limit` events but
/// never inside a run of equal timestamps; with the cursor for the next page.
pub fn select_events(events: Vec<AlertEvent>, q: &EventsQuery) -> (r: (Vec<AlertEvent>, Option<i64>))
    requires
        query_answerable(events@, *q),
    ensures
        exists|s: Seq<AlertEvent>|
            {
                &&& sorted_events(s)
                &&& s.to_multiset() == matching(events@, *q).to_multiset()
                &&& r.0@ == s.take(page_end(s, q.limit as nat) as int)
                &&& r.1 == next_cursor_spec(s, q.limit as nat)
            },
        forall|i: int| 0 <= i < r.0@.len() ==> matching(events@, *q).contains(#[trigger] r.0@[i]),
{
    let ghost all = events@;
    let mut rest = events;
    let mut sorted: Vec<AlertEvent> = Vec::new();
    proof {
        assert(all.take(all.len() as int) =~= all);
        assert(sorted@.to_multiset().len() == 0);
        assert(sorted@.to_multiset() =~= Multiset::<AlertEvent>::empty());
        assert(sorted@.to_multiset().add(matching(rest@, *q).to_multiset()) =~= matching(
            all,
            *q,
        ).to_multiset());
    }
    while rest.len() > 0
        invariant
            sorted_events(sorted@),
            rest@.len() <= all.len(),
            rest@ == all.take(rest@.len() as int),
            sorted@.to_multiset().add(matching(rest@, *q).to_multiset()) == matching(
                all,
                *q,
            ).to_multiset(),
        decreases rest.len(),
    {
        let ghost before_rest = rest@;
        let e = rest.pop().unwrap();
        proof {
            assert(rest@ == before_rest.drop_last());
            assert(rest@ =~= all.take(rest@.len() as int));
        }
        if matches_query(&e, q) {
            let ghost old_sorted = sorted@;
            insert_sorted(&mut sorted, e);
            proof {
                assert(matching(before_rest, *q) == matching(rest@, *q).push(e));
                assert(sorted@.to_multiset().add(matching(rest@, *q).to_multiset()) =~= matching(
                    all,
                    *q,
                ).to_multiset());
            }
        } else {
            proof {
                assert(matching(before_rest, *q) == matching(rest@, *q));
            }
        }
    }
    proof {
        assert(rest@.len() == 0);
        assert(matching(rest@, *q) =~= Seq::<AlertEvent>::empty());
        assert(matching(rest@, *q).to_multiset().len() == 0);
        assert(matching(rest@, *q).to_multiset() =~= Multiset::<AlertEvent>::empty());
        assert(sorted@.to_multiset() =~= matching(all, *q).to_multiset());
        vstd::seq_lib::to_multiset_len(sorted@);
        vstd::seq_lib::to_multiset_len(matching(all, *q));
    }
    let ghost s = sorted@;
    proof {
        broadcast use vstd::seq_lib::group_to_multiset_ensures;

        assert forall|i: int| 0 <= i < s.len() implies matching(all, *q).contains(#[trigger] s[i]) by {
            assert(s.to_multiset().count(s[i]) > 0);
        }
    }
    let n = sorted.len();
    if n == 0 || n <= q.limit {
        return (sorted, None);
    }
    let boundary = sorted[q.limit - 1].timestamp;
    let mut end_idx = q.limit;
    while end_idx < n && sorted[end_idx].timestamp == boundary
        invariant
            q.limit <= end_idx <= n,
            n == sorted.len(),
            s == sorted@,
            q.limit >= 1,
            boundary == s[q.limit - 1].timestamp,
            page_end_from(s, boundary, end_idx as nat) == page_end(s, q.limit as nat),
        decreases n - end_idx,
    {
        end_idx = end_idx + 1;
    }
    let next_cursor = if end_idx < n {
        Some(sorted[end_idx].timestamp)
    } else {
        None
    };
    let mut page = sorted;
    page.truncate(end_idx);
    (page, next_cursor)
}

proof fn lemma_matching_contains(es: Seq<AlertEvent>, q: EventsQuery, e: AlertEvent)
    ensures
        matching(es, q).contains(e) <==> (es.contains(e) && event_matches(e, q)),
    decreases es.len(),
{
    if es.len() > 0 {
        let d = es.drop_last();
        lemma_matching_contains(d, q, e);
        assert(es =~= d.push(es.last()));
        if event_matches(es.last(), q) {
            let m = matching(d, q);
            assert(matching(es, q) == m.push(es.last()));
            if m.contains(e) {
                let k = choose|k: int| 0 <= k < m.len() && m[k] == e;
                assert(m.push(es.last())[k] == e);
            }
            if m.push(es.last()).contains(e) {
                let k = choose|k: int| 0 <= k < m.len() + 1 && m.push(es.last())[k] == e;
                if k < m.len() {
                    assert(m[k] == e);
                }
            }
            assert(m.push(es.last())[m.len() as int] == es.last());
        } else {
            assert(matching(es, q) == matching(d, q));
        }
        if es.contains(e) {
            let k = choose|k: int| 0 <= k < es.len() && es[k] == e;
            if k < d.len() {
                assert(d[k] == e);
            }
        }
        if d.contains(e) {
            let k = choose|k: int| 0 <= k < d.len() && d[k] == e;
            assert(es[k] == e);
        }
    }
}

/// The events an events query keeps are exactly the events of the log whose
/// severity and rule name are the ones asked for, when asked, and whose
/// time is at or after the start, at or before the end and at or before
/// the cursor, when given.
pub proof fn lemma_matching_filters(es: Seq<AlertEvent>, q: EventsQuery)
    ensures
        forall|e: AlertEvent|
            #[trigger] matching(es, q).contains(e) <==> {
                &&& es.contains(e)
                &&& (q.severity matches Some(sv) ==> e.severity@ == sv@)
                &&& (q.rule_name matches Some(wanted) ==> e.rule_name@ == wanted@)
                &&& (q.start_time matches Some(st) ==> st <= e.timestamp)
                &&& (q.end_time matches Some(en) ==> e.timestamp <= en)
                &&& (q.cursor matches Some(c) ==> e.timestamp <= c)
            },
{
    assert forall|e: AlertEvent| #[trigger] matching(es, q).contains(e) <==> {
        &&& es.contains(e)
        &&& (q.severity matches Some(sv) ==> e.severity@ == sv@)
        &&& (q.rule_name matches Some(wanted) ==> e.rule_name@ == wanted@)
        &&& (q.start_time matches Some(st) ==> st <= e.timestamp)
        &&& (q.end_time matches Some(en) ==> e.timestamp <= en)
        &&& (q.cursor matches Some(c) ==> e.timestamp <= c)
    } by {
        lemma_matching_contains(es, q, e);
    }
}

/// The page and the events after it split the sorted matches by the next
/// cursor: everything on the page is newer than the cursor, everything left
/// out is at or before it, so asking again with that cursor continues the
/// listing without losing or repeating events.
pub proof fn lemma_page_partition(s: Seq<AlertEvent>, limit: nat)
    requires
        sorted_events(s),
        limit > 0,
        next_cursor_spec(s, limit) is Some,
    ensures
        ({
            let c = next_cursor_spec(s, limit)->0;
            let e = page_end(s, limit);
            &&& limit <= e < s.len()
            &&& forall|i: int| 0 <= i < e ==> (#[trigger] s[i]).timestamp > c
            &&& forall|i: int| e <= i < s.len() ==> (#[trigger] s[i]).timestamp <= c
        }),
{
    let b = s[limit - 1].timestamp;
    lemma_page_end_from(s, b, limit);
    let e = page_end(s, limit);
    let c = s[e as int].timestamp;
    assert forall|i: int| 0 <= i < e implies (#[trigger] s[i]).timestamp > c by {
        if i < limit - 1 {
            assert(!event_before(s[limit - 1], s[i]));
        }
        assert(!event_before(s[e as int], s[limit - 1]));
    }
    assert forall|i: int| e <= i < s.len() implies (#[trigger] s[i]).timestamp <= c by {
        if i > e {
            assert(!event_before(s[i], s[e as int]));
        }
    }
}

proof fn lemma_page_end_from(s: Seq<AlertEvent>, b: i64, k: nat)
    requires
        1 <= k <= s.len(),
        sorted_events(s),
        s[k - 1].timestamp == b,
    ensures
        k <= page_end_from(s, b, k) <= s.len(),
        page_end_from(s, b, k) < s.len() ==> s[page_end_from(s, b, k) as int].timestamp != b,
        forall|i: int| k - 1 <= i < page_end_from(s, b, k) ==> (#[trigger] s[i]).timestamp == b,
    decreases s.len() - k,
{
    if k < s.len() && s[k as int].timestamp == b {
        lemma_page_end_from(s, b, k + 1);
    }
}

/// The event a rule evaluation announces: a firing or a resolution of
/// `rule` at `now_nanos`, with the primary value (0 when none was computed).
pub fn rule_event(rule: &AlertRule, firing: bool, now_nanos: i64, primary_value_bits: Option<u64>) -> (r: AlertEvent)
    ensures
        r.id@.len() == 36,
        r.rule_id@ == rule.id@,
        r.rule_name@ == rule.name@,
        r.event_type@ == (if firing { "firing"@ } else { "resolved"@ }),
        r.timestamp == now_nanos,
        r.value_bits == (match primary_value_bits {
            Some(v) => v,
            None => 0,
        }),
        r.threshold_bits == rule.threshold_bits,
        r.severity@ == severity_name(rule.severity),
        r.metric@ == rule.metric@,
        r.tags@ == rule.tags@,
        !r.acknowledged,
        r.acknowledged_by is None,
{
    let event_type = if firing { "firing".to_owned() } else { "resolved".to_owned() };
    AlertEvent {
        id: new_uuid(),
        rule_id: rule.id.clone(),
        rule_name: rule.name.clone(),
        event_type,
        timestamp: now_nanos,
        value_bits: match primary_value_bits {
            Some(v) => v,
            None => 0,
        },
        threshold_bits: rule.threshold_bits,
        severity: rule.severity.as_str().to_owned(),
        metric: rule.metric.clone(),
        tags: rule.tags.clone(),
        acknowledged: false,
        acknowledged_by: None,
    }
}

} // verus!
