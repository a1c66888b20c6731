use vstd::prelude::*;
use crate::alert::event::AlertEvent;

verus! {

/// The most notified events kept in memory.
pub const MEMORY_QUEUE_CAPACITY: usize = 1000;

/// Two events with the same content.
pub open spec fn same_event(a: AlertEvent, b: AlertEvent) -> bool {
    &&& a.id@ == b.id@
    &&& a.rule_id@ == b.rule_id@
    &&& a.rule_name@ == b.rule_name@
    &&& a.event_type@ == b.event_type@
    &&& a.timestamp == b.timestamp
    &&& a.value_bits == b.value_bits
    &&& a.threshold_bits == b.threshold_bits
    &&& a.severity@ == b.severity@
    &&& a.metric@ == b.metric@
    &&& a.tags@ == b.tags@
    &&& a.acknowledged == b.acknowledged
    &&& match (a.acknowledged_by, b.acknowledged_by) {
        (Some(x), Some(y)) => x@ == y@,
        (None, None) => true,
        _ => false,
    }
}

impl AlertEvent {
    /// A copy with the same content.
    pub fn duplicate(&self) -> (r: AlertEvent)
        ensures
            same_event(r, *self),
    {
        let by = match &self.acknowledged_by {
            Some(s) => Some(s.clone()),
            None => None,
        };
        AlertEvent {
            id: self.id.clone(),
            rule_id: self.rule_id.clone(),
            rule_name: self.rule_name.clone(),
            event_type: self.event_type.clone(),
            timestamp: self.timestamp,
            value_bits: self.value_bits,
            threshold_bits: self.threshold_bits,
            severity: self.severity.clone(),
            metric: self.metric.clone(),
            tags: self.tags.clone(),
            acknowledged: self.acknowledged,
            acknowledged_by: by,
        }
    }
}

/// The events a notifier has sent, oldest first, of which only the newest
/// `MEMORY_QUEUE_CAPACITY` are kept.
pub struct EventQueue {
    events: Vec<AlertEvent>,
}

/// The queue after `e` is recorded: appended, and the oldest dropped when
/// that makes it longer than the capacity.
pub open spec fn record_spec(q: Seq<AlertEvent>, e: AlertEvent) -> Seq<AlertEvent> {
    if q.len() + 1 > MEMORY_QUEUE_CAPACITY {
        q.push(e).skip(q.len() + 1 - MEMORY_QUEUE_CAPACITY)
    } else {
        q.push(e)
    }
}

impl View for EventQueue {
    type V = Seq<AlertEvent>;

    closed spec fn view(&self) -> Seq<AlertEvent> {
        self.events@
    }
}

impl EventQueue {
    /// An empty queue.
    pub fn new() -> (r: Self)
        ensures
            r@.len() == 0,
    {
        EventQueue { events: Vec::new() }
    }

    /// How many events are kept.
    pub fn len(&self) -> (r: usize)
        ensures
            r == self@.len(),
    {
        self.events.len()
    }

    /// Records a sent event.
    pub fn record(&mut self, event: AlertEvent)
        requires
            old(self)@.len() <= MEMORY_QUEUE_CAPACITY,
        ensures
            final(self)@ == record_spec(old(self)@, event),
            final(self)@.len() <= MEMORY_QUEUE_CAPACITY,
    {
        self.events.push(event);
        if self.events.len() > MEMORY_QUEUE_CAPACITY {
            let ghost pushed = self.events@;
            let excess = self.events.len() - MEMORY_QUEUE_CAPACITY;
            let mut old_events: Vec<AlertEvent> = Vec::new();
            std::mem::swap(&mut old_events, &mut self.events);
            let kept = old_events.split_off(excess);
            assert(kept@ =~= pushed.skip(excess as int));
            self.events = kept;
        }
    }

    /// Copies of the newest `limit` events (all of them when fewer are
    /// kept), oldest first.
    pub fn recent(&self, limit: usize) -> (r: Vec<AlertEvent>)
        ensures
            ({
                let q = self@;
                let start = if q.len() > limit { q.len() - limit } else { 0 };
                &&& r@.len() == q.len() - start
                &&& forall|i: int| 0 <= i < r@.len() ==> same_event(#[trigger] r@[i], q[start + i])
            }),
    {
        let n = self.events.len();
        let start: usize = if n > limit { n - limit } else { 0 };
        let mut out: Vec<AlertEvent> = Vec::new();
        let mut i: usize = start;
        while i < n
            invariant
                start <= i <= n,
                n == self.events@.len(),
                out@.len() == i - start,
                forall|j: int| 0 <= j < out@.len() ==> same_event(#[trigger] out@[j], self.events@[start + j]),
            decreases n - i,
        {
            out.push(self.events[i].duplicate());
            i = i + 1;
        }
        out
    }
}

/// A recorded event is the newest of the queue, and every kept event keeps
/// its order.
pub proof fn lemma_record_newest(q: Seq<AlertEvent>, e: AlertEvent)
    requires
        q.len() <= MEMORY_QUEUE_CAPACITY,
    ensures
        record_spec(q, e).len() > 0,
        record_spec(q, e).last() == e,
        record_spec(q, e).len() == if q.len() < MEMORY_QUEUE_CAPACITY { q.len() + 1 } else { q.len() },
        forall|i: int|
            0 <= i < record_spec(q, e).len() - 1 ==> #[trigger] record_spec(q, e)[i] == q[i + (q.len() + 1
                - record_spec(q, e).len())],
{
}

} // verus!
