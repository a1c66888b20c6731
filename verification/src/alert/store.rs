use vstd::prelude::*;
use vstd::utf8::{encode_utf8, valid_utf8, decode_utf8};
use vstd::string::StringSliceAdditionalSpecFns;
use crate::alert::event::AlertEvent;
use crate::text::{lemma_encode_injective, join_text, str_eq, str_lt, string_from_utf8, bytes_lt, lemma_bytes_lt_irreflexive,
    lemma_bytes_lt_transitive, lemma_bytes_lt_total};
use crate::engine::ttl::NANOS_PER_DAY;

verus! {

/// The calendar date, `YYYY-MM-DD` in UTC, of the second `secs` after the
/// Unix epoch (the epoch's date where chrono cannot represent it).
pub uninterp spec fn utc_date_of(secs: i64) -> Seq<char>;

/// The instant, in nanoseconds since the Unix epoch, at which the UTC day
/// written `YYYY-MM-DD` begins, if the text is such a date and the instant
/// fits in an `i64`.
pub uninterp spec fn utc_day_start_of(date: Seq<char>) -> Option<i64>;

/// Formats a day with chrono: `DateTime::from_timestamp(secs, 0)` (the
/// default date where out of range) formatted with `%Y-%m-%d`. Claimed: the
/// text is `utc_date_of(secs)`, a function of `secs` alone.
#[verifier::external_body]
fn utc_date_text(secs: i64) -> (r: String)
    ensures
        r@ == utc_date_of(secs),
{
    chrono::DateTime::from_timestamp(secs, 0).unwrap_or_default().format("%Y-%m-%d").to_string()
}

/// Reads a day with chrono: `NaiveDate::parse_from_str(date, "%Y-%m-%d")`,
/// midnight of that day, in UTC, as nanoseconds. Claimed: the result is
/// `utc_day_start_of(date@)`, a function of the text alone.
#[verifier::external_body]
fn utc_day_start(date: &str) -> (r: Option<i64>)
    ensures
        r == utc_day_start_of(date@),
{
    chrono::NaiveDate::parse_from_str(date, "%Y-%m-%d").ok().and_then(|d| d.and_hms_opt(0, 0, 0)).and_then(
        |t| t.and_utc().timestamp_nanos_opt(),
    )
}

/// The path of `name` under the directory `dir`: `name` when `dir` is empty,
/// else `dir`, a `/` unless `dir` ends with one, and `name`.
pub open spec fn path_join_spec(dir: Seq<char>, name: Seq<char>) -> Seq<char> {
    if dir.len() == 0 {
        name
    } else if dir.last() == '/' {
        dir + name
    } else {
        dir + "/"@ + name
    }
}

/// Joins a relative name to a directory path.
pub fn path_join(dir: &str, name: &str) -> (r: String)
    ensures
        r@ == path_join_spec(dir@, name@),
{
    let bytes = dir.as_bytes();
    proof {
        lemma_encode_empty(dir@);
    }
    if bytes.len() == 0 {
        return name.to_owned();
    }
    let last = bytes[bytes.len() - 1];
    proof {
        ends_with_slash(dir@);
    }
    if last == 47u8 {
        join_text(dir, name)
    } else {
        let with_sep = join_text(dir, "/");
        join_text(with_sep.as_str(), name)
    }
}

/// A string is empty exactly when its encoding is.
pub proof fn lemma_encode_empty_pub(s: Seq<char>)
    ensures
        (encode_utf8(s).len() == 0) == (s.len() == 0),
{
    lemma_encode_empty(s);
}

proof fn lemma_encode_empty(s: Seq<char>)
    ensures
        (encode_utf8(s).len() == 0) == (s.len() == 0),
{
    if s.len() > 0 {
        assert(encode_utf8(s) == vstd::utf8::encode_scalar(s[0] as u32) + encode_utf8(s.drop_first()));
    }
}

proof fn ends_with_slash(s: Seq<char>)
    requires
        encode_utf8(s).len() > 0,
    ensures
        (encode_utf8(s).last() == 47u8) == (s.len() > 0 && s.last() == '/'),
{
    lemma_encode_empty(s);
    let c = s.last();
    let front = s.drop_last();
    assert(front + seq![c] =~= s);
    crate::text::lemma_encode_concat(front, seq![c]);
    let v = c as u32;
    assert(seq![c].drop_first() =~= Seq::<char>::empty());
    assert(encode_utf8(seq![c]) =~= vstd::utf8::encode_scalar(v) + encode_utf8(Seq::<char>::empty()));
    let e = vstd::utf8::encode_scalar(v);
    assert(encode_utf8(s).last() == e.last());
    if v <= 0x7F {
        assert(e.last() == (v & 0x7F) as u8);
        assert((v & 0x7F) as u8 == 47u8 <==> v == 47u32) by (bit_vector)
            requires v <= 0x7F;
        vstd::utf8::char_u32_cast(c, v);
        vstd::utf8::char_u32_cast('/', 47u32);
        assert(('/' as u32) == 47u32);
        assert((v == 47u32) == (c == '/'));
    } else {
        assert(e.last() == 0x80u8 | (v & 0x3F) as u8);
        assert(0x80u8 | (v & 0x3F) as u8 != 47u8) by (bit_vector);
        assert(('/' as u32) == 47u32);
        assert(c != '/');
    }
}

/// The day an event file is named after: the UTC date of the event's second.
pub fn day_key(ts_nanos: i64) -> (r: String)
    ensures
        r@ == utc_date_of((if ts_nanos >= 0 { ts_nanos / 1_000_000_000 } else { -((-(ts_nanos as int)) / 1_000_000_000) }) as i64),
{
    let secs = ts_nanos / 1_000_000_000;
    utc_date_text(secs)
}

/// The directory of the event log and how many days of it are kept.
#[derive(Debug)]
pub struct EventStore {
    pub dir: String,
    pub max_retention_days: u64,
}

impl EventStore {
    /// The event log under `data_dir/alerts/events`, keeping seven days.
    pub fn new(data_dir: &str) -> (r: Self)
        ensures
            r.dir@ == path_join_spec(path_join_spec(data_dir@, "alerts"@), "events"@),
            r.max_retention_days == 7,
    {
        let alerts = path_join(data_dir, "alerts");
        let dir = path_join(alerts.as_str(), "events");
        EventStore { dir, max_retention_days: 7 }
    }

    /// The file of the day `day_key`: `events-<day>.jsonl` in the directory.
    pub fn file_path(&self, day_key: &str) -> (r: String)
        ensures
            r@ == path_join_spec(self.dir@, "events-"@ + day_key@ + ".jsonl"@),
    {
        let a = join_text("events-", day_key);
        let name = join_text(a.as_str(), ".jsonl");
        path_join(self.dir.as_str(), name.as_str())
    }
}


/// The bytes of `events-`.
pub open spec fn prefix_bytes() -> Seq<u8> {
    seq![101u8, 118u8, 101u8, 110u8, 116u8, 115u8, 45u8]
}

/// The bytes of `.jsonl`.
pub open spec fn suffix_bytes() -> Seq<u8> {
    seq![46u8, 106u8, 115u8, 111u8, 110u8, 108u8]
}

/// The date part of an event file's name: the bytes between `events-` and
/// `.jsonl`, when the name has both.
pub open spec fn date_part(name: Seq<u8>) -> Option<Seq<u8>> {
    if name.len() >= 13 && name.take(7) == prefix_bytes() && name.skip(name.len() - 6)
        == suffix_bytes() {
        Some(name.subrange(7, name.len() - 6))
    } else {
        None
    }
}

/// The instant the day of an event file begins, read from its name.
pub open spec fn day_start_spec(name: Seq<u8>) -> Option<i64> {
    match date_part(name) {
        Some(d) => if valid_utf8(d) {
            utc_day_start_of(decode_utf8(d))
        } else {
            None
        },
        None => None,
    }
}

/// Whether `b` starts at `at` in `a`.
fn bytes_at(a: &[u8], at: usize, b: &Vec<u8>) -> (r: bool)
    requires
        at + b@.len() <= a@.len(),
    ensures
        r == (a@.subrange(at as int, at + b@.len()) == b@),
{
    let mut i: usize = 0;
    let n = a.len();
    while i < b.len()
        invariant
            i <= b.len(),
            n == a@.len(),
            at + b@.len() <= a@.len(),
            forall|j: int| 0 <= j < i ==> a@[at + j] == b@[j],
        decreases b.len() - i,
    {
        if a[at + i] != b[i] {
            assert(a@.subrange(at as int, at + b@.len())[i as int] != b@[i as int]);
            return false;
        }
        i = i + 1;
    }
    assert(a@.subrange(at as int, at + b@.len()) =~= b@);
    true
}

impl EventStore {
    /// The instant the day of an event file begins, read from the file's
    /// name (`events-YYYY-MM-DD.jsonl`); `None` for another name.
    pub fn day_start_nanos_from_filename(&self, filename: &str) -> (r: Option<i64>)
        ensures
            r == day_start_spec(filename.spec_bytes()),
    {
        let b = filename.as_bytes();
        let n = b.len();
        if n < 13 {
            return None;
        }
        let prefix: Vec<u8> = vec![101u8, 118u8, 101u8, 110u8, 116u8, 115u8, 45u8];
        let suffix: Vec<u8> = vec![46u8, 106u8, 115u8, 111u8, 110u8, 108u8];
        assert(prefix@ =~= prefix_bytes());
        assert(suffix@ =~= suffix_bytes());
        if !bytes_at(b, 0, &prefix) || !bytes_at(b, n - 6, &suffix) {
            assert(b@.take(7) =~= b@.subrange(0, 7));
            assert(b@.skip(n - 6) =~= b@.subrange(n - 6, n as int));
            return None;
        }
        assert(b@.take(7) =~= b@.subrange(0, 7));
        assert(b@.skip(n - 6) =~= b@.subrange(n - 6, n as int));
        let mut d: Vec<u8> = Vec::new();
        let mut i: usize = 7;
        while i < n - 6
            invariant
                7 <= i <= n - 6,
                n == b@.len(),
                d@ == b@.subrange(7, i as int),
            decreases n - 6 - i,
        {
            d.push(b[i]);
            i = i + 1;
            assert(d@ =~= b@.subrange(7, i as int));
        }
        match string_from_utf8(d) {
            Some(text) => utc_day_start(text.as_str()),
            None => None,
        }
    }
}

/// Whether the file of the day beginning at `day_start` can hold events of
/// a query: not when the day ends before the query's effective start (the
/// later of the start and the cursor), nor when it begins after the end. A
/// file whose day is unknown is read.
pub open spec fn file_in_range_spec(
    day_start: Option<i64>,
    start_time: Option<i64>,
    end_time: Option<i64>,
    cursor: Option<i64>,
) -> bool {
    let eff = match cursor {
        Some(c) => Some(
            if (match start_time {
                Some(s) => s,
                None => i64::MIN,
            }) >= c {
                match start_time {
                    Some(s) => s,
                    None => i64::MIN,
                }
            } else {
                c
            },
        ),
        None => start_time,
    };
    &&& !(eff matches Some(st) && day_start matches Some(ds) && ds + NANOS_PER_DAY < st)
    &&& !(end_time matches Some(en) && day_start matches Some(ds) && ds > en)
}

/// Decides whether a day's event file is read for a query.
pub fn file_in_range(
    day_start: Option<i64>,
    start_time: Option<i64>,
    end_time: Option<i64>,
    cursor: Option<i64>,
) -> (r: bool)
    requires
        day_start matches Some(ds) ==> ds + NANOS_PER_DAY <= i64::MAX,
    ensures
        r == file_in_range_spec(day_start, start_time, end_time, cursor),
{
    let effective_start = match cursor {
        Some(c) => {
            let s = match start_time {
                Some(s) => s,
                None => i64::MIN,
            };
            Some(if s >= c { s } else { c })
        },
        None => start_time,
    };
    if let Some(start) = effective_start {
        if let Some(ds) = day_start {
            if ds + NANOS_PER_DAY < start {
                return false;
            }
        }
    }
    if let Some(end) = end_time {
        if let Some(ds) = day_start {
            if ds > end {
                return false;
            }
        }
    }
    true
}

/// Whether the file of the day beginning at `day_start` is old enough to be
/// removed at `cutoff`: the day ends before it.
pub fn day_expired(day_start: i64, cutoff: i64) -> (r: bool)
    requires
        day_start + NANOS_PER_DAY <= i64::MAX,
    ensures
        r == (day_start + NANOS_PER_DAY < cutoff),
{
    day_start + NANOS_PER_DAY < cutoff
}

impl EventStore {
    /// The instant before which event files are removed at the time `now`.
    pub fn cleanup_cutoff(&self, now_nanos: i64) -> (r: i64)
        requires
            self.max_retention_days * NANOS_PER_DAY <= i64::MAX,
            i64::MIN <= now_nanos - self.max_retention_days * NANOS_PER_DAY,
        ensures
            r == now_nanos - self.max_retention_days * NANOS_PER_DAY,
    {
        now_nanos - (self.max_retention_days as i64 * NANOS_PER_DAY)
    }
}

/// The first firing, unacknowledged event with id `event_id`.
pub open spec fn ack_target(es: Seq<AlertEvent>, event_id: Seq<char>, i: int) -> bool {
    &&& 0 <= i < es.len()
    &&& es[i].id@ == event_id
    &&& es[i].event_type@ == "firing"@
    &&& !es[i].acknowledged
}

/// Where the event to acknowledge stands: the first firing event with id
/// `event_id` not yet acknowledged.
pub fn ack_position(events: &Vec<AlertEvent>, event_id: &str) -> (r: Option<usize>)
    ensures
        match r {
            Some(i) => ack_target(events@, event_id@, i as int) && forall|j: int|
                0 <= j < i ==> !ack_target(events@, event_id@, j),
            None => forall|j: int| 0 <= j < events@.len() ==> !ack_target(events@, event_id@, j),
        },
{
    let mut i: usize = 0;
    while i < events.len()
        invariant
            i <= events.len(),
            forall|j: int| 0 <= j < i ==> !ack_target(events@, event_id@, j),
        decreases events.len() - i,
    {
        let e = &events[i];
        if str_eq(e.id.as_str(), event_id) && str_eq(e.event_type.as_str(), "firing") && !e.acknowledged {
            return Some(i);
        }
        i = i + 1;
    }
    None
}

/// Marks an event acknowledged by `operator`.
pub fn acknowledge(event: &mut AlertEvent, operator: &str)
    ensures
        final(event).acknowledged_by matches Some(o) && o@ == operator@,
        *final(event) == (AlertEvent {
            acknowledged: true,
            acknowledged_by: final(event).acknowledged_by,
            ..*old(event)
        }),
{
    event.acknowledged = true;
    event.acknowledged_by = Some(operator.to_owned());
}

/// Putting an acknowledged event in place of the one at `i`, an event to
/// acknowledge for `event_id`, takes exactly it out of those left: every other
/// event to acknowledge stays one. So when it was the only one, a second
/// acknowledgement of the same id finds nothing.
pub proof fn lemma_ack_once(es: Seq<AlertEvent>, event_id: Seq<char>, i: int, acked: AlertEvent)
    requires
        ack_target(es, event_id, i),
        acked.acknowledged,
    ensures
        forall|j: int| ack_target(es.update(i, acked), event_id, j) <==> (ack_target(es, event_id, j) && j != i),
        (forall|j: int| ack_target(es, event_id, j) ==> j == i) ==> forall|j: int|
            !ack_target(es.update(i, acked), event_id, j),
{
    assert forall|j: int| ack_target(es.update(i, acked), event_id, j) implies ack_target(es, event_id, j) && j != i by {
        assert(es.update(i, acked)[j] == es[j]);
    }
    if forall|j: int| ack_target(es, event_id, j) ==> j == i {
        assert forall|j: int| !ack_target(es.update(i, acked), event_id, j) by {
            if ack_target(es.update(i, acked), event_id, j) {
                assert(ack_target(es, event_id, j));
            }
        }
    }
}

/// The events of each day file, file by file.
pub open spec fn events_of(files: Seq<Vec<AlertEvent>>) -> Seq<Seq<AlertEvent>> {
    files.map_values(|v: Vec<AlertEvent>| v@)
}

/// Event `i` of file `f` of the store is one to acknowledge for `event_id`.
pub open spec fn store_target(store: Seq<Seq<AlertEvent>>, event_id: Seq<char>, f: int, i: int) -> bool {
    0 <= f < store.len() && ack_target(store[f], event_id, i)
}

/// Acknowledges, by `operator`, the first event to acknowledge for `event_id`
/// in the store, taking the files in order and the events of a file in
/// order; gives its file and place, or `None` with the store unchanged when
/// no event is to be acknowledged.
pub fn acknowledge_in_files(files: &mut Vec<Vec<AlertEvent>>, event_id: &str, operator: &str) -> (r: Option<(usize, usize)>)
    ensures
        match r {
            Some((f, i)) => {
                &&& store_target(events_of(old(files)@), event_id@, f as int, i as int)
                &&& forall|g: int, j: int|
                    store_target(events_of(old(files)@), event_id@, g, j) ==> (g > f || (g == f && j >= i))
                &&& events_of(final(files)@) == events_of(old(files)@).update(
                    f as int,
                    events_of(old(files)@)[f as int].update(i as int, final(files)@[f as int]@[i as int]),
                )
                &&& final(files)@[f as int]@[i as int].acknowledged_by matches Some(o) && o@ == operator@
                &&& final(files)@[f as int]@[i as int] == (AlertEvent {
                    acknowledged: true,
                    acknowledged_by: final(files)@[f as int]@[i as int].acknowledged_by,
                    ..old(files)@[f as int]@[i as int]
                })
            },
            None => {
                &&& final(files)@ == old(files)@
                &&& forall|g: int, j: int| !store_target(events_of(old(files)@), event_id@, g, j)
            },
        },
{
    let mut f: usize = 0;
    while f < files.len()
        invariant
            f <= files.len(),
            files@ == old(files)@,
            forall|g: int, j: int| 0 <= g < f ==> !store_target(events_of(files@), event_id@, g, j),
        decreases files.len() - f,
    {
        match ack_position(&files[f], event_id) {
            Some(i) => {
                let ghost before = files@;
                acknowledge(&mut files[f][i], operator);
                proof {
                    assert(events_of(files@) =~= events_of(before).update(
                        f as int,
                        events_of(before)[f as int].update(i as int, files@[f as int]@[i as int]),
                    ));
                }
                return Some((f, i));
            },
            None => {},
        }
        f = f + 1;
    }
    None
}

/// In a store of day files, putting an acknowledged event in place of event
/// `i` of file `f`, one to acknowledge for `event_id`, takes exactly it out of
/// those left: every other event to acknowledge stays one. So when it was the
/// only one in the whole store, acknowledging the same id again finds nothing.
pub proof fn lemma_store_ack_once(
    store: Seq<Seq<AlertEvent>>,
    event_id: Seq<char>,
    f: int,
    i: int,
    acked: AlertEvent,
)
    requires
        store_target(store, event_id, f, i),
        acked.acknowledged,
    ensures
        forall|g: int, j: int|
            store_target(store.update(f, store[f].update(i, acked)), event_id, g, j) <==> (store_target(
                store,
                event_id,
                g,
                j,
            ) && !(g == f && j == i)),
        (forall|g: int, j: int| store_target(store, event_id, g, j) ==> g == f && j == i) ==> forall|
            g: int,
            j: int,
        | !store_target(store.update(f, store[f].update(i, acked)), event_id, g, j),
{
    let after = store.update(f, store[f].update(i, acked));
    lemma_ack_once(store[f], event_id, i, acked);
    assert forall|g: int, j: int|
        store_target(after, event_id, g, j) <==> (store_target(store, event_id, g, j) && !(g == f && j == i)) by {
        if 0 <= g < store.len() && g != f {
            assert(after[g] == store[g]);
        }
    }
    if forall|g: int, j: int| store_target(store, event_id, g, j) ==> g == f && j == i {
        assert forall|g: int, j: int| !store_target(after, event_id, g, j) by {
            if store_target(after, event_id, g, j) {
                assert(store_target(store, event_id, g, j));
            }
        }
    }
}

/// The firing event of rule `rid` once the events were seen in order: the
/// last firing or resolved event of the rule decides; a firing one is it, a
/// resolved one leaves none.
pub open spec fn firing_state(es: Seq<AlertEvent>, rid: Seq<char>) -> Option<AlertEvent>
    decreases es.len(),
{
    if es.len() == 0 {
        None
    } else {
        let e = es.last();
        if e.rule_id@ == rid && e.event_type@ == "firing"@ {
            Some(e)
        } else if e.rule_id@ == rid && e.event_type@ == "resolved"@ {
            None
        } else {
            firing_state(es.drop_last(), rid)
        }
    }
}

/// Whether rule id `a` sorts before `b`.
pub open spec fn rule_before(a: Seq<char>, b: Seq<char>) -> bool {
    bytes_lt(encode_utf8(a), encode_utf8(b))
}

/// Rule ids strictly ascending.
pub open spec fn rules_ascending(s: Seq<AlertEvent>) -> bool {
    forall|i: int, j: int| 0 <= i < j < s.len() ==> rule_before(s[i].rule_id@, s[j].rule_id@)
}

/// The event of rule `rid` in a list, the first of that rule.
pub open spec fn by_rule(s: Seq<AlertEvent>, rid: Seq<char>) -> Option<AlertEvent>
    decreases s.len(),
{
    if s.len() == 0 {
        None
    } else if s[0].rule_id@ == rid {
        Some(s[0])
    } else {
        by_rule(s.drop_first(), rid)
    }
}

proof fn lemma_rule_before_ne(a: Seq<char>, b: Seq<char>)
    requires
        rule_before(a, b),
    ensures
        a != b,
{
    lemma_bytes_lt_irreflexive(encode_utf8(a));
}

proof fn lemma_by_rule_at(s: Seq<AlertEvent>, x: Seq<char>, k: int)
    requires
        0 <= k < s.len(),
        s[k].rule_id@ == x,
        forall|j: int| 0 <= j < k ==> s[j].rule_id@ != x,
    ensures
        by_rule(s, x) == Some(s[k]),
    decreases k,
{
    if k > 0 {
        lemma_by_rule_at(s.drop_first(), x, k - 1);
    }
}

proof fn lemma_by_rule_absent(s: Seq<AlertEvent>, x: Seq<char>)
    requires
        forall|j: int| 0 <= j < s.len() ==> s[j].rule_id@ != x,
    ensures
        by_rule(s, x) == None::<AlertEvent>,
    decreases s.len(),
{
    if s.len() > 0 {
        lemma_by_rule_absent(s.drop_first(), x);
    }
}

proof fn lemma_by_rule_ascending(s: Seq<AlertEvent>, x: Seq<char>)
    requires
        rules_ascending(s),
    ensures
        forall|k: int| 0 <= k < s.len() && s[k].rule_id@ == x ==> by_rule(s, x) == Some(s[k]),
        (forall|k: int| 0 <= k < s.len() ==> s[k].rule_id@ != x) ==> by_rule(s, x) == None::<AlertEvent>,
{
    assert forall|k: int| 0 <= k < s.len() && s[k].rule_id@ == x implies by_rule(s, x) == Some(s[k]) by {
        assert forall|j: int| 0 <= j < k implies s[j].rule_id@ != x by {
            lemma_rule_before_ne(s[j].rule_id@, s[k].rule_id@);
        }
        lemma_by_rule_at(s, x, k);
    }
    if forall|k: int| 0 <= k < s.len() ==> s[k].rule_id@ != x {
        lemma_by_rule_absent(s, x);
    }
}

/// The index at which the event of rule `rid` stands or would stand in an
/// ascending list, and whether it stands there.
fn rule_pos(s: &Vec<AlertEvent>, rid: &str) -> (r: (usize, bool))
    requires
        rules_ascending(s@),
    ensures
        r.0 <= s@.len(),
        forall|j: int| 0 <= j < r.0 ==> rule_before(s@[j].rule_id@, rid@),
        r.1 == (r.0 < s@.len() && s@[r.0 as int].rule_id@ == rid@),
        !r.1 ==> forall|k: int| 0 <= k < s@.len() ==> s@[k].rule_id@ != rid@,
        !r.1 && r.0 < s@.len() ==> rule_before(rid@, s@[r.0 as int].rule_id@),
{
    let mut i: usize = 0;
    while i < s.len() && str_lt(s[i].rule_id.as_str(), rid)
        invariant
            i <= s.len(),
            forall|j: int| 0 <= j < i ==> rule_before(s@[j].rule_id@, rid@),
        decreases s.len() - i,
    {
        i = i + 1;
    }
    let found = i < s.len() && str_eq(s[i].rule_id.as_str(), rid);
    proof {
        if !found && i < s.len() {
            let a = encode_utf8(s@[i as int].rule_id@);
            let c = encode_utf8(rid@);
            lemma_bytes_lt_total(a, c);
            if a =~= c {
                lemma_encode_injective(s@[i as int].rule_id@, rid@);
            }
        }
        if !found {
            assert forall|k: int| 0 <= k < s@.len() implies s@[k].rule_id@ != rid@ by {
                if k < i {
                    lemma_rule_before_ne(s@[k].rule_id@, rid@);
                } else if k > i {
                    assert(rule_before(s@[i as int].rule_id@, s@[k].rule_id@));
                    lemma_bytes_lt_transitive(
                        encode_utf8(rid@),
                        encode_utf8(s@[i as int].rule_id@),
                        encode_utf8(s@[k].rule_id@),
                    );
                    lemma_rule_before_ne(rid@, s@[k].rule_id@);
                }
            }
        }
    }
    (i, found)
}

proof fn lemma_upsert_rule(s: Seq<AlertEvent>, e: AlertEvent, i: int, found: bool, n: Seq<AlertEvent>)
    requires
        n == (if found { s.update(i, e) } else { s.insert(i, e) }),
        rules_ascending(s),
        0 <= i <= s.len(),
        forall|j: int| 0 <= j < i ==> rule_before(s[j].rule_id@, e.rule_id@),
        found == (i < s.len() && s[i].rule_id@ == e.rule_id@),
        !found && i < s.len() ==> rule_before(e.rule_id@, s[i].rule_id@),
    ensures
        rules_ascending(n),
        forall|x: Seq<char>| #[trigger] by_rule(n, x) == (if x == e.rule_id@ {
            Some(e)
        } else {
            by_rule(s, x)
        }),
{
    assert forall|a: int, b: int| 0 <= a < b < n.len() implies rule_before(n[a].rule_id@, n[b].rule_id@) by {
        if found {
            if a == i {
                if b > i {
                    assert(rule_before(s[a].rule_id@, s[b].rule_id@));
                }
            } else if b == i {
                assert(rule_before(s[a].rule_id@, s[b].rule_id@));
            } else {
                assert(rule_before(s[a].rule_id@, s[b].rule_id@));
            }
        } else {
            if a < i && b < i {
                assert(rule_before(s[a].rule_id@, s[b].rule_id@));
            } else if a < i && b == i {
            } else if a < i && b > i {
                assert(rule_before(s[a].rule_id@, s[b - 1].rule_id@));
            } else if a == i {
                if b - 1 > i {
                    assert(rule_before(s[i].rule_id@, s[b - 1].rule_id@));
                    lemma_bytes_lt_transitive(
                        encode_utf8(e.rule_id@),
                        encode_utf8(s[i].rule_id@),
                        encode_utf8(s[b - 1].rule_id@),
                    );
                }
            } else {
                assert(rule_before(s[a - 1].rule_id@, s[b - 1].rule_id@));
            }
        }
    }
    assert forall|x: Seq<char>| #[trigger] by_rule(n, x) == (if x == e.rule_id@ {
        Some(e)
    } else {
        by_rule(s, x)
    }) by {
        lemma_by_rule_ascending(n, x);
        lemma_by_rule_ascending(s, x);
        if x == e.rule_id@ {
            assert(n[i] == e);
        } else {
            if exists|k: int| 0 <= k < s.len() && s[k].rule_id@ == x {
                let k = choose|k: int| 0 <= k < s.len() && s[k].rule_id@ == x;
                if found {
                    assert(n[k] == s[k]);
                } else if k < i {
                    assert(n[k] == s[k]);
                } else {
                    assert(n[k + 1] == s[k]);
                }
            } else {
                assert forall|k: int| 0 <= k < n.len() implies n[k].rule_id@ != x by {
                    if found {
                        if k != i {
                            assert(n[k] == s[k]);
                        }
                    } else if k < i {
                        assert(n[k] == s[k]);
                    } else if k > i {
                        assert(n[k] == s[k - 1]);
                    }
                }
            }
        }
    }
}

proof fn lemma_remove_rule(s: Seq<AlertEvent>, i: int, n: Seq<AlertEvent>)
    requires
        rules_ascending(s),
        0 <= i < s.len(),
        n == s.remove(i),
    ensures
        rules_ascending(n),
        forall|x: Seq<char>| #[trigger] by_rule(n, x) == (if x == s[i].rule_id@ {
            None
        } else {
            by_rule(s, x)
        }),
{
    assert forall|a: int, b: int| 0 <= a < b < n.len() implies rule_before(n[a].rule_id@, n[b].rule_id@) by {
        if a < i && b >= i {
            assert(rule_before(s[a].rule_id@, s[b + 1].rule_id@));
        } else if a >= i {
            assert(rule_before(s[a + 1].rule_id@, s[b + 1].rule_id@));
        } else {
            assert(rule_before(s[a].rule_id@, s[b].rule_id@));
        }
    }
    assert forall|x: Seq<char>| #[trigger] by_rule(n, x) == (if x == s[i].rule_id@ {
        None
    } else {
        by_rule(s, x)
    }) by {
        lemma_by_rule_ascending(n, x);
        lemma_by_rule_ascending(s, x);
        if x == s[i].rule_id@ {
            assert forall|k: int| 0 <= k < n.len() implies n[k].rule_id@ != x by {
                if k < i {
                    assert(n[k] == s[k]);
                    lemma_rule_before_ne(s[k].rule_id@, s[i].rule_id@);
                } else {
                    assert(n[k] == s[k + 1]);
                    lemma_rule_before_ne(s[i].rule_id@, s[k + 1].rule_id@);
                }
            }
        } else {
            if exists|k: int| 0 <= k < s.len() && s[k].rule_id@ == x {
                let k = choose|k: int| 0 <= k < s.len() && s[k].rule_id@ == x;
                if k < i {
                    assert(n[k] == s[k]);
                } else {
                    assert(k != i);
                    assert(n[k - 1] == s[k]);
                }
            } else {
                assert forall|k: int| 0 <= k < n.len() implies n[k].rule_id@ != x by {
                    if k < i {
                        assert(n[k] == s[k]);
                    } else {
                        assert(n[k] == s[k + 1]);
                    }
                }
            }
        }
    }
}

/// An event with every field empty, left where one was taken out.
fn blank_event() -> (r: AlertEvent)
    ensures
        r.id@ == Seq::<char>::empty(),
        r.rule_id@ == Seq::<char>::empty(),
        r.rule_name@ == Seq::<char>::empty(),
        r.event_type@ == Seq::<char>::empty(),
        r.timestamp == 0,
        r.value_bits == 0,
        r.threshold_bits == 0,
        r.severity@ == Seq::<char>::empty(),
        r.metric@ == Seq::<char>::empty(),
        r.tags@ == Map::<String, String>::empty(),
        !r.acknowledged,
        r.acknowledged_by is None,
{
    AlertEvent {
        id: String::new(),
        rule_id: String::new(),
        rule_name: String::new(),
        event_type: String::new(),
        timestamp: 0,
        value_bits: 0,
        threshold_bits: 0,
        severity: String::new(),
        metric: String::new(),
        tags: std::collections::BTreeMap::new(),
        acknowledged: false,
        acknowledged_by: None,
    }
}

/// The firing events of the log, one per rule, in ascending rule-id order:
/// for each rule, its last firing event unless a resolution came after it.
pub fn active_firing(events: Vec<AlertEvent>) -> (r: Vec<AlertEvent>)
    ensures
        rules_ascending(r@),
        forall|rid: Seq<char>| #[trigger] by_rule(r@, rid) == firing_state(events@, rid),
{
    let ghost es = events@;
    let mut events = events;
    let mut out: Vec<AlertEvent> = Vec::new();
    let mut i: usize = 0;
    while i < events.len()
        invariant
            i <= events.len(),
            events@.len() == es.len(),
            forall|j: int| i <= j < es.len() ==> events@[j] == es[j],
            rules_ascending(out@),
            forall|rid: Seq<char>| #[trigger] by_rule(out@, rid) == firing_state(es.take(i as int), rid),
        decreases events.len() - i,
    {
        let mut e = blank_event();
        std::mem::swap(&mut e, &mut events[i]);
        assert(e == es[i as int]);
        let ghost before = out@;
        assert(es.take(i as int + 1).drop_last() =~= es.take(i as int));
        assert(es.take(i as int + 1).last() == e);
        let is_firing = str_eq(e.event_type.as_str(), "firing");
        let is_resolved = str_eq(e.event_type.as_str(), "resolved");
        let ghost ev = e;
        if is_firing {
            let (p, found) = rule_pos(&out, e.rule_id.as_str());
            if found {
                out.set(p, e);
            } else {
                out.insert(p, e);
            }
            proof {
                lemma_upsert_rule(before, ev, p as int, found, out@);
            }
        } else if is_resolved {
            let (p, found) = rule_pos(&out, e.rule_id.as_str());
            if found {
                out.remove(p);
                proof {
                    lemma_remove_rule(before, p as int, out@);
                }
            } else {
                proof {
                    lemma_by_rule_ascending(before, e.rule_id@);
                }
            }
        }
        proof {
            let t = es.take(i as int + 1);
            assert forall|rid: Seq<char>| #[trigger] by_rule(out@, rid) == firing_state(t, rid) by {
                assert(firing_state(t, rid) == (if ev.rule_id@ == rid && ev.event_type@ == "firing"@ {
                    Some(ev)
                } else if ev.rule_id@ == rid && ev.event_type@ == "resolved"@ {
                    None
                } else {
                    firing_state(es.take(i as int), rid)
                }));
                assert(by_rule(before, rid) == firing_state(es.take(i as int), rid));
            }
        }
        i = i + 1;
    }
    assert(es.take(es.len() as int) =~= es);
    out
}

} // verus!
