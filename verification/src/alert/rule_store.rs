use vstd::prelude::*;
use crate::alert::rule::{AlertRule, conditions_view};
use crate::text::str_eq;

verus! {

/// Two rules with the same content.
pub open spec fn same_rule(a: AlertRule, b: AlertRule) -> bool {
    &&& a.id@ == b.id@
    &&& a.name@ == b.name@
    &&& conditions_view(a.conditions@) == conditions_view(b.conditions@)
    &&& a.logic == b.logic
    &&& a.metric@ == b.metric@
    &&& a.tags@ == b.tags@
    &&& a.aggregation == b.aggregation
    &&& a.window_secs == b.window_secs
    &&& a.operator == b.operator
    &&& a.threshold_bits == b.threshold_bits
    &&& a.trigger_count == b.trigger_count
    &&& a.severity == b.severity
    &&& a.silence_secs == b.silence_secs
    &&& a.enabled == b.enabled
}

/// The same content, but for the enabled flag.
pub open spec fn same_but_enabled(a: AlertRule, b: AlertRule, enabled: bool) -> bool {
    same_rule(a, AlertRule { enabled, ..b })
}

impl AlertRule {
    /// A copy with the same content.
    pub fn duplicate(&self) -> (r: AlertRule)
        ensures
            same_rule(r, *self),
    {
        let mut conditions = Vec::new();
        let mut i: usize = 0;
        while i < self.conditions.len()
            invariant
                i <= self.conditions.len(),
                conditions_view(conditions@) == conditions_view(self.conditions@.take(i as int)),
            decreases self.conditions.len() - i,
        {
            let c = self.conditions[i].duplicate();
            let ghost before = conditions@;
            conditions.push(c);
            proof {
                assert(conditions_view(conditions@) =~= conditions_view(before).push(c@));
                assert(conditions_view(self.conditions@.take(i + 1)) =~= conditions_view(
                    self.conditions@.take(i as int),
                ).push(self.conditions@[i as int]@));
            }
            i = i + 1;
        }
        assert(self.conditions@.take(self.conditions@.len() as int) =~= self.conditions@);
        AlertRule {
            id: self.id.clone(),
            name: self.name.clone(),
            conditions,
            logic: self.logic,
            metric: self.metric.clone(),
            tags: self.tags.clone(),
            aggregation: self.aggregation,
            window_secs: self.window_secs,
            operator: self.operator,
            threshold_bits: self.threshold_bits,
            trigger_count: self.trigger_count,
            severity: self.severity,
            silence_secs: self.silence_secs,
            enabled: self.enabled,
        }
    }
}

/// The position of the first rule with id `id`.
pub open spec fn first_rule(s: Seq<AlertRule>, id: Seq<char>, i: int) -> bool {
    &&& 0 <= i < s.len()
    &&& s[i].id@ == id
    &&& forall|j: int| 0 <= j < i ==> (#[trigger] s[j]).id@ != id
}

/// Some rule has id `id`.
pub open spec fn has_rule(s: Seq<AlertRule>, id: Seq<char>) -> bool {
    exists|i: int| 0 <= i < s.len() && (#[trigger] s[i]).id@ == id
}

/// Whether a rule's id is not `id`.
pub open spec fn other_id(id: Seq<char>) -> spec_fn(AlertRule) -> bool {
    |r: AlertRule| r.id@ != id
}

/// The rules of `s` whose id is not `id`, in order.
pub open spec fn without_id(s: Seq<AlertRule>, id: Seq<char>) -> Seq<AlertRule> {
    s.filter(other_id(id))
}

/// The rules of `s` that are enabled, in order.
pub open spec fn enabled_of(s: Seq<AlertRule>) -> Seq<AlertRule> {
    s.filter(|r: AlertRule| r.enabled)
}

/// Copies of every rule of `r` match those of `s`, one for one.
pub open spec fn same_rules(r: Seq<AlertRule>, s: Seq<AlertRule>) -> bool {
    r.len() == s.len() && forall|i: int| 0 <= i < r.len() ==> same_rule(#[trigger] r[i], s[i])
}

/// The alert rules, in the order they were created.
pub struct RuleStore {
    rules: Vec<AlertRule>,
}

impl View for RuleStore {
    type V = Seq<AlertRule>;

    closed spec fn view(&self) -> Seq<AlertRule> {
        self.rules@
    }
}

impl RuleStore {
    /// A store holding `rules`, as they were loaded.
    pub fn from_rules(rules: Vec<AlertRule>) -> (r: Self)
        ensures
            r@ == rules@,
    {
        RuleStore { rules }
    }

    /// Adds a rule, and returns a copy of it.
    pub fn create(&mut self, rule: AlertRule) -> (r: AlertRule)
        ensures
            final(self)@ == old(self)@.push(rule),
            same_rule(r, rule),
    {
        let r = rule.duplicate();
        self.rules.push(rule);
        r
    }

    /// Copies of every rule.
    pub fn list(&self) -> (r: Vec<AlertRule>)
        ensures
            same_rules(r@, self@),
    {
        let mut out: Vec<AlertRule> = Vec::new();
        let mut i: usize = 0;
        while i < self.rules.len()
            invariant
                i <= self.rules.len(),
                same_rules(out@, self.rules@.take(i as int)),
            decreases self.rules.len() - i,
        {
            out.push(self.rules[i].duplicate());
            i = i + 1;
        }
        assert(self.rules@.take(self.rules@.len() as int) =~= self.rules@);
        out
    }

    fn position(&self, id: &str) -> (r: Option<usize>)
        ensures
            match r {
                Some(i) => first_rule(self@, id@, i as int),
                None => !has_rule(self@, id@),
            },
    {
        let mut i: usize = 0;
        while i < self.rules.len()
            invariant
                i <= self.rules.len(),
                forall|j: int| 0 <= j < i ==> (#[trigger] self.rules@[j]).id@ != id@,
            decreases self.rules.len() - i,
        {
            if str_eq(self.rules[i].id.as_str(), id) {
                return Some(i);
            }
            i = i + 1;
        }
        None
    }

    /// A copy of the first rule with id `id`, if any.
    pub fn get(&self, id: &str) -> (r: Option<AlertRule>)
        ensures
            match r {
                Some(x) => exists|i: int| first_rule(self@, id@, i) && same_rule(x, self@[i]),
                None => !has_rule(self@, id@),
            },
    {
        match self.position(id) {
            Some(i) => Some(self.rules[i].duplicate()),
            None => None,
        }
    }

    /// Replaces the first rule with id `id` by `updated`, and returns a copy of
    /// it; `None`, with nothing changed, when no rule has that id.
    pub fn update(&mut self, id: &str, updated: AlertRule) -> (r: Option<AlertRule>)
        ensures
            match r {
                Some(x) => same_rule(x, updated) && exists|i: int|
                    first_rule(old(self)@, id@, i) && final(self)@ == old(self)@.update(i, updated),
                None => !has_rule(old(self)@, id@) && final(self)@ == old(self)@,
            },
    {
        match self.position(id) {
            Some(i) => {
                let r = updated.duplicate();
                self.rules.set(i, updated);
                Some(r)
            },
            None => None,
        }
    }

    /// Removes every rule with id `id`; whether there was one.
    pub fn delete(&mut self, id: &str) -> (r: bool)
        ensures
            r == has_rule(old(self)@, id@),
            final(self)@ == without_id(old(self)@, id@),
    {
        let ghost s = self.rules@;
        let mut old_rules: Vec<AlertRule> = Vec::new();
        std::mem::swap(&mut old_rules, &mut self.rules);
        let mut kept: Vec<AlertRule> = Vec::new();
        let mut found = false;
        let mut i: usize = 0;
        let mut rest = old_rules;
        let total = rest.len();
        assert(s.take(0) =~= Seq::<AlertRule>::empty());
        assert(s.skip(0) =~= s);
        while rest.len() > 0
            invariant
                i + rest@.len() == s.len(),
                s.len() == total,
                rest@ == s.skip(i as int),
                kept@ == without_id(s.take(i as int), id@),
                found == has_rule(s.take(i as int), id@),
            decreases rest.len(),
        {
            let r = rest.remove(0);
            assert(r == s[i as int]);
            assert(rest@ =~= s.skip(i as int + 1));
            let ghost t = s.take(i as int + 1);
            assert(t.drop_last() =~= s.take(i as int));
            assert(t.last() == r);
            proof {
                t.drop_last().lemma_filter_push(r, other_id(id@));
                assert(t =~= t.drop_last().push(r));
            }
            if str_eq(r.id.as_str(), id) {
                found = true;
                assert(t[i as int].id@ == id@);
            } else {
                kept.push(r);
                proof {
                    if has_rule(t, id@) {
                        let q = choose|q: int| 0 <= q < t.len() && (#[trigger] t[q]).id@ == id@;
                        assert(s.take(i as int)[q].id@ == id@);
                    }
                }
            }
            i = i + 1;
        }
        assert(s.take(s.len() as int) =~= s);
        self.rules = kept;
        found
    }

    /// Sets whether the first rule with id `id` is enabled, and returns a copy
    /// of it; `None`, with nothing changed, when no rule has that id.
    pub fn set_enabled(&mut self, id: &str, enabled: bool) -> (r: Option<AlertRule>)
        ensures
            match r {
                Some(x) => exists|i: int|
                    first_rule(old(self)@, id@, i) && final(self)@.len() == old(self)@.len() && same_but_enabled(
                        final(self)@[i],
                        old(self)@[i],
                        enabled,
                    ) && final(self)@[i].enabled == enabled && same_rule(x, final(self)@[i]) && forall|j: int|
                        0 <= j < old(self)@.len() && j != i ==> #[trigger] final(self)@[j] == old(self)@[j],
                None => !has_rule(old(self)@, id@) && final(self)@ == old(self)@,
            },
    {
        match self.position(id) {
            Some(i) => {
                self.rules[i].enabled = enabled;
                Some(self.rules[i].duplicate())
            },
            None => None,
        }
    }

    /// Copies of the enabled rules, in order.
    pub fn enabled_rules(&self) -> (r: Vec<AlertRule>)
        ensures
            same_rules(r@, enabled_of(self@)),
    {
        let mut out: Vec<AlertRule> = Vec::new();
        let mut i: usize = 0;
        while i < self.rules.len()
            invariant
                i <= self.rules.len(),
                same_rules(out@, enabled_of(self.rules@.take(i as int))),
            decreases self.rules.len() - i,
        {
            let ghost t = self.rules@.take(i as int + 1);
            proof {
                assert(t.drop_last() =~= self.rules@.take(i as int));
                t.drop_last().lemma_filter_push(self.rules@[i as int], |x: AlertRule| x.enabled);
                assert(t =~= t.drop_last().push(self.rules@[i as int]));
            }
            if self.rules[i].enabled {
                out.push(self.rules[i].duplicate());
            }
            i = i + 1;
        }
        assert(self.rules@.take(self.rules@.len() as int) =~= self.rules@);
        out
    }
}

/// After a rule is created, a get of its id finds a rule, and finds that very
/// rule when no earlier rule has its id.
pub proof fn lemma_get_after_create(s: Seq<AlertRule>, rule: AlertRule)
    ensures
        has_rule(s.push(rule), rule.id@),
        !has_rule(s, rule.id@) ==> first_rule(s.push(rule), rule.id@, s.len() as int),
{
    assert(s.push(rule)[s.len() as int] == rule);
    if !has_rule(s, rule.id@) {
        assert forall|j: int| 0 <= j < s.len() implies (#[trigger] s.push(rule)[j]).id@ != rule.id@ by {
            assert(s.push(rule)[j] == s[j]);
        }
    }
}

/// After a delete of an id, no rule has it, and every other rule stays.
pub proof fn lemma_delete_removes(s: Seq<AlertRule>, id: Seq<char>)
    ensures
        !has_rule(without_id(s, id), id),
        forall|r: AlertRule| r.id@ != id ==> (s.contains(r) <==> #[trigger] without_id(s, id).contains(r)),
{
    let f = other_id(id);
    assert forall|r: AlertRule| r.id@ != id implies (s.contains(r) <==> #[trigger] without_id(s, id).contains(r)) by {
        if s.contains(r) {
            let i = choose|i: int| 0 <= i < s.len() && s[i] == r;
            assert(f(s[i]));
            s.lemma_filter_contains(f, i);
        }
        if without_id(s, id).contains(r) {
            s.lemma_filter_contains_rev(f, r);
        }
    }
    if has_rule(without_id(s, id), id) {
        let i = choose|i: int| 0 <= i < without_id(s, id).len() && (#[trigger] without_id(s, id)[i]).id@ == id;
        s.lemma_filter_pred(f, i);
        assert(f(without_id(s, id)[i]));
    }
}

} // verus!
