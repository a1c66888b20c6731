use vstd::prelude::*;
use crate::assoc::{assoc_find, assoc_pos, first_at, lemma_find_update, lemma_find_push};
use crate::text::str_eq;

verus! {

/// A tag key stops being indexed for new values once this many distinct
/// values have been seen for it.
pub const TAG_VALUE_LIMIT: usize = 100_000;

/// The set stored under `k` in a list of (name, ids) entries; empty when
/// there is none.
pub open spec fn set_at(s: Seq<(String, Vec<u64>)>, k: Seq<char>) -> Set<u64> {
    match assoc_find(s, k) {
        Some(ids) => ids@.to_set(),
        None => Set::empty(),
    }
}

/// Every list of ids in an entry list is without repeats.
pub open spec fn sets_wf(s: Seq<(String, Vec<u64>)>) -> bool {
    forall|i: int| 0 <= i < s.len() ==> (#[trigger] s[i]).1@.no_duplicates()
}

/// The series with tag `k=v`.
pub open spec fn postings(ix: Seq<(String, Vec<(String, Vec<u64>)>)>, k: Seq<char>, v: Seq<char>) -> Set<
    u64,
> {
    match assoc_find(ix, k) {
        Some(vs) => set_at(vs@, v),
        None => Set::empty(),
    }
}

/// The distinct values seen for tag key `k`, in the order first seen.
pub open spec fn tag_value_list(tv: Seq<(String, Vec<String>)>, k: Seq<char>) -> Seq<Seq<char>> {
    match assoc_find(tv, k) {
        Some(vs) => vs@.map_values(|s: String| s@),
        None => seq![],
    }
}

/// The index as a value.
pub struct InvertedView {
    pub index: Seq<(String, Vec<(String, Vec<u64>)>)>,
    pub metric_series: Seq<(String, Vec<u64>)>,
    pub tag_values: Seq<(String, Vec<String>)>,
}

impl InvertedView {
    pub open spec fn wf(self) -> bool {
        &&& forall|i: int| 0 <= i < self.index.len() ==> sets_wf((#[trigger] self.index[i]).1@)
        &&& sets_wf(self.metric_series)
    }
}

/// The series of each tag `key=value` and of each metric, and the distinct
/// values of each tag key.
pub struct InvertedIndex {
    index: Vec<(String, Vec<(String, Vec<u64>)>)>,
    metric_series: Vec<(String, Vec<u64>)>,
    tag_values: Vec<(String, Vec<String>)>,
}

impl View for InvertedIndex {
    type V = InvertedView;

    closed spec fn view(&self) -> InvertedView {
        InvertedView {
            index: self.index@,
            metric_series: self.metric_series@,
            tag_values: self.tag_values@,
        }
    }
}

/// Whether `id` is in the list.
fn contains_id(ids: &Vec<u64>, id: u64) -> (r: bool)
    ensures
        r == ids@.contains(id),
{
    let mut i: usize = 0;
    while i < ids.len()
        invariant
            i <= ids.len(),
            forall|j: int| 0 <= j < i ==> ids@[j] != id,
        decreases ids.len() - i,
    {
        if ids[i] == id {
            return true;
        }
        i = i + 1;
    }
    false
}

/// Adds `id` to a list without repeats, unless it is there.
fn add_to_set(ids: &mut Vec<u64>, id: u64)
    requires
        old(ids)@.no_duplicates(),
    ensures
        final(ids)@.no_duplicates(),
        final(ids)@.to_set() == old(ids)@.to_set().insert(id),
{
    if !contains_id(ids, id) {
        ids.push(id);
        assert(ids@.to_set() =~= old(ids)@.to_set().insert(id)) by {
            assert forall|x: u64| ids@.contains(x) <==> old(ids)@.contains(x) || x == id by {
                if x == id {
                    assert(ids@[ids@.len() - 1] == id);
                }
                if old(ids)@.contains(x) {
                    let j = choose|j: int| 0 <= j < old(ids)@.len() && old(ids)@[j] == x;
                    assert(ids@[j] == x);
                }
                if ids@.contains(x) && x != id {
                    let j = choose|j: int| 0 <= j < ids@.len() && ids@[j] == x;
                    assert(j < old(ids)@.len());
                }
            }
        }
    } else {
        assert(ids@.to_set() =~= old(ids)@.to_set().insert(id));
    }
}

/// A copy of a list of ids.
fn copy_ids(ids: &Vec<u64>) -> (r: Vec<u64>)
    ensures
        r@ == ids@,
{
    let mut r: Vec<u64> = Vec::new();
    let mut i: usize = 0;
    while i < ids.len()
        invariant
            i <= ids.len(),
            r@ == ids@.take(i as int),
        decreases ids.len() - i,
    {
        r.push(ids[i]);
        i = i + 1;
        assert(r@ =~= ids@.take(i as int));
    }
    assert(ids@.take(ids.len() as int) =~= ids@);
    r
}

/// The ids of `a` that are in `b`, in the order of `a`.
fn intersect_ids(a: &Vec<u64>, b: &Vec<u64>) -> (r: Vec<u64>)
    requires
        a@.no_duplicates(),
    ensures
        r@.no_duplicates(),
        r@.to_set() == a@.to_set().intersect(b@.to_set()),
{
    let mut r: Vec<u64> = Vec::new();
    let mut i: usize = 0;
    while i < a.len()
        invariant
            i <= a.len(),
            a@.no_duplicates(),
            r@.no_duplicates(),
            forall|x: u64|
                r@.contains(x) <==> ((exists|j: int| 0 <= j < i && #[trigger] a@[j] == x) && b@.contains(x)),
        decreases a.len() - i,
    {
        let x = a[i];
        if contains_id(b, x) {
            proof {
                if r@.contains(x) {
                    let j = choose|j: int| 0 <= j < i && #[trigger] a@[j] == x;
                    assert(a@[j] == a@[i as int]);
                }
            }
            let ghost r0 = r@;
            assert(forall|y: u64|
                r0.contains(y) <==> ((exists|j: int| 0 <= j < i && #[trigger] a@[j] == y) && b@.contains(y)));
            assert(b@.contains(x));
            r.push(x);
            assert forall|y: u64| r@.contains(y) <==> (r0.contains(y) || y == x) by {
                if r@.contains(y) {
                    let j = choose|j: int| 0 <= j < r@.len() && r@[j] == y;
                    if j < r0.len() {
                        assert(r0[j] == y);
                    }
                }
                if r0.contains(y) {
                    let j = choose|j: int| 0 <= j < r0.len() && r0[j] == y;
                    assert(r@[j] == y);
                }
                if y == x {
                    assert(r@[r0.len() as int] == y);
                }
            }
            assert forall|y: u64|
                r@.contains(y) <==> ((exists|j: int| 0 <= j < i + 1 && #[trigger] a@[j] == y) && b@.contains(y)) by {
                assert(r@.contains(y) <==> (r0.contains(y) || y == x));
                assert(r0.contains(y) <==> ((exists|j: int| 0 <= j < i && #[trigger] a@[j] == y) && b@.contains(y)));
                if y == x {
                    assert(a@[i as int] == y);
                }
                if exists|j: int| 0 <= j < i + 1 && #[trigger] a@[j] == y {
                    let j = choose|j: int| 0 <= j < i + 1 && #[trigger] a@[j] == y;
                    if j < i {
                        assert(exists|j: int| 0 <= j < i && #[trigger] a@[j] == y);
                    } else {
                        assert(y == x);
                    }
                }
            }
        } else {
            assert forall|y: u64|
                r@.contains(y) <==> ((exists|j: int| 0 <= j < i + 1 && #[trigger] a@[j] == y) && b@.contains(y)) by {
                if exists|j: int| 0 <= j < i + 1 && #[trigger] a@[j] == y {
                    let j = choose|j: int| 0 <= j < i + 1 && #[trigger] a@[j] == y;
                    if j < i {
                        assert(exists|j: int| 0 <= j < i && #[trigger] a@[j] == y);
                    }
                }
            }
        }
        i = i + 1;
    }
    assert(r@.to_set() =~= a@.to_set().intersect(b@.to_set()));
    r
}

/// Adds `id` to the set stored under `k`, opening it if there is none.
fn add_to_entry(s: &mut Vec<(String, Vec<u64>)>, k: &str, id: u64)
    requires
        sets_wf(old(s)@),
    ensures
        sets_wf(final(s)@),
        forall|x: Seq<char>|
            #[trigger] set_at(final(s)@, x) == (if x == k@ {
                set_at(old(s)@, k@).insert(id)
            } else {
                set_at(old(s)@, x)
            }),
{
    let ghost o = s@;
    let p = assoc_pos(s, k);
    if p < s.len() {
        let ghost key = s@[p as int].0;
        add_to_set(&mut s[p].1, id);
        proof {
            let t = s@[p as int].1;
            assert(s@ =~= o.update(p as int, (key, t)));
            lemma_find_update(o, k@, p as int, t);
            assert forall|i: int| 0 <= i < s@.len() implies (#[trigger] s@[i]).1@.no_duplicates() by {
                if i != p {
                    assert(s@[i] == o[i]);
                }
            }
        }
    } else {
        let mut ids: Vec<u64> = Vec::new();
        ids.push(id);
        let key = k.to_owned();
        let ghost t = ids;
        proof {
            lemma_find_push(o, key, t);
            assert(ids@ =~= seq![id]);
            assert forall|x: u64| ids@.contains(x) <==> x == id by {
                if x == id {
                    assert(ids@[0] == x);
                }
            }
            assert(ids@.to_set() =~= Set::<u64>::empty().insert(id));
        }
        s.push((key, ids));
        assert forall|i: int| 0 <= i < s@.len() implies (#[trigger] s@[i]).1@.no_duplicates() by {
            if i < o.len() {
                assert(s@[i] == o[i]);
            }
        }
    }
}

/// Whether the list holds `v`.
fn contains_str(vs: &Vec<String>, v: &str) -> (r: bool)
    ensures
        r == vs@.map_values(|s: String| s@).contains(v@),
{
    let ghost m = vs@.map_values(|s: String| s@);
    let mut i: usize = 0;
    while i < vs.len()
        invariant
            i <= vs.len(),
            m == vs@.map_values(|s: String| s@),
            forall|j: int| 0 <= j < i ==> m[j] != v@,
        decreases vs.len() - i,
    {
        if str_eq(vs[i].as_str(), v) {
            assert(m[i as int] == v@);
            return true;
        }
        i = i + 1;
    }
    false
}

impl InvertedIndex {
    /// An empty index.
    pub fn new() -> (r: Self)
        ensures
            r@.wf(),
            forall|k: Seq<char>, v: Seq<char>| #[trigger] postings(r@.index, k, v) == Set::<u64>::empty(),
            forall|m: Seq<char>| #[trigger] set_at(r@.metric_series, m) == Set::<u64>::empty(),
            forall|k: Seq<char>| #[trigger] tag_value_list(r@.tag_values, k) == Seq::<Seq<char>>::empty(),
    {
        InvertedIndex { index: Vec::new(), metric_series: Vec::new(), tag_values: Vec::new() }
    }

    /// Records that series `series_id` has tag `tag_key=tag_value`, and
    /// notes the value among the distinct values of the key while they are
    /// fewer than the limit.
    pub fn add(&mut self, tag_key: &str, tag_value: &str, series_id: u64)
        requires
            old(self)@.wf(),
        ensures
            final(self)@.wf(),
            forall|k: Seq<char>, v: Seq<char>|
                #[trigger] postings(final(self)@.index, k, v) == (if k == tag_key@ && v == tag_value@ {
                    postings(old(self)@.index, k, v).insert(series_id)
                } else {
                    postings(old(self)@.index, k, v)
                }),
            forall|m: Seq<char>| #[trigger] set_at(final(self)@.metric_series, m) == set_at(
                old(self)@.metric_series,
                m,
            ),
            forall|k: Seq<char>|
                #[trigger] tag_value_list(final(self)@.tag_values, k) == (if k == tag_key@ && tag_value_list(
                    old(self)@.tag_values,
                    k,
                ).len() < TAG_VALUE_LIMIT && !tag_value_list(old(self)@.tag_values, k).contains(
                    tag_value@,
                ) {
                    tag_value_list(old(self)@.tag_values, k).push(tag_value@)
                } else {
                    tag_value_list(old(self)@.tag_values, k)
                }),
    {
        let ghost o = self@;
        let p = assoc_pos(&self.index, tag_key);
        if p == self.index.len() {
            let key = tag_key.to_owned();
            let empty: Vec<(String, Vec<u64>)> = Vec::new();
            proof {
                lemma_find_push(self.index@, key, empty);
            }
            self.index.push((key, empty));
            assert(sets_wf(self.index@[p as int].1@));
        }
        let ghost ix1 = self.index@;
        proof {
            assert forall|i: int| 0 <= i < ix1.len() implies sets_wf((#[trigger] ix1[i]).1@) by {
                if i < o.index.len() {
                    assert(ix1[i] == o.index[i]);
                }
            }
            assert forall|k: Seq<char>, v: Seq<char>| #[trigger] postings(ix1, k, v) == postings(o.index, k, v) by {
            }
            assert(ix1[p as int].0@ == tag_key@);
            assert(first_at(ix1, tag_key@, p as int));
            assert(sets_wf(ix1[p as int].1@));
        }
        let ghost key1 = ix1[p as int].0;
        add_to_entry(&mut self.index[p].1, tag_value, series_id);
        proof {
            let t = self.index@[p as int].1;
            assert(self.index@ =~= ix1.update(p as int, (key1, t)));
            lemma_find_update(ix1, tag_key@, p as int, t);
            assert forall|i: int| 0 <= i < self.index@.len() implies sets_wf(
                (#[trigger] self.index@[i]).1@,
            ) by {
                if i != p {
                    assert(self.index@[i] == ix1[i]);
                    assert(sets_wf(ix1[i].1@));
                }
            }
        }
        self.note_value(tag_key, tag_value);
    }

    /// Notes `tag_value` among the distinct values of `tag_key` while they
    /// are fewer than the limit.
    fn note_value(&mut self, tag_key: &str, tag_value: &str)
        ensures
            final(self).index@ == old(self).index@,
            final(self).metric_series@ == old(self).metric_series@,
            forall|k: Seq<char>|
                #[trigger] tag_value_list(final(self)@.tag_values, k) == (if k == tag_key@ && tag_value_list(
                    old(self)@.tag_values,
                    k,
                ).len() < TAG_VALUE_LIMIT && !tag_value_list(old(self)@.tag_values, k).contains(
                    tag_value@,
                ) {
                    tag_value_list(old(self)@.tag_values, k).push(tag_value@)
                } else {
                    tag_value_list(old(self)@.tag_values, k)
                }),
    {
        let ghost o = self.tag_values@;
        let p = assoc_pos(&self.tag_values, tag_key);
        if p == self.tag_values.len() {
            let mut vals: Vec<String> = Vec::new();
            let v = tag_value.to_owned();
            vals.push(v);
            let key = tag_key.to_owned();
            proof {
                lemma_find_push(o, key, vals);
                assert(vals@.map_values(|s: String| s@) =~= seq![tag_value@]);
                assert(Seq::<Seq<char>>::empty().push(tag_value@) =~= seq![tag_value@]);
            }
            self.tag_values.push((key, vals));
            assert forall|k: Seq<char>| #[trigger] tag_value_list(self@.tag_values, k) == (if k
                == tag_key@ && tag_value_list(o, k).len() < TAG_VALUE_LIMIT && !tag_value_list(
                o,
                k,
            ).contains(tag_value@) {
                tag_value_list(o, k).push(tag_value@)
            } else {
                tag_value_list(o, k)
            }) by {
                if k == tag_key@ {
                    assert(tag_value_list(o, k) =~= Seq::<Seq<char>>::empty());
                }
            }
            return;
        }
        let count = self.tag_values[p].1.len();
        if count < TAG_VALUE_LIMIT && !contains_str(&self.tag_values[p].1, tag_value) {
            let ghost key = o[p as int].0;
            let ghost before = o[p as int].1@;
            let v = tag_value.to_owned();
            self.tag_values[p].1.push(v);
            proof {
                let t = self.tag_values@[p as int].1;
                assert(self.tag_values@ =~= o.update(p as int, (key, t)));
                lemma_find_update(o, tag_key@, p as int, t);
                assert(t@ == before.push(v));
                assert(t@.map_values(|s: String| s@) =~= before.map_values(|s: String| s@).push(
                    tag_value@,
                ));
            }
        }
    }

    /// Records that series `series_id` belongs to `metric`.
    pub fn add_metric_series(&mut self, metric: &str, series_id: u64)
        requires
            old(self)@.wf(),
        ensures
            final(self)@.wf(),
            forall|k: Seq<char>, v: Seq<char>| #[trigger] postings(final(self)@.index, k, v) == postings(
                old(self)@.index,
                k,
                v,
            ),
            forall|m: Seq<char>|
                #[trigger] set_at(final(self)@.metric_series, m) == (if m == metric@ {
                    set_at(old(self)@.metric_series, m).insert(series_id)
                } else {
                    set_at(old(self)@.metric_series, m)
                }),
            forall|k: Seq<char>| #[trigger] tag_value_list(final(self)@.tag_values, k) == tag_value_list(
                old(self)@.tag_values,
                k,
            ),
    {
        let ghost ix = self.index@;
        assert(old(self)@.wf());
        assert(old(self)@.index == ix);
        add_to_entry(&mut self.metric_series, metric, series_id);
        assert(self.index@ == ix);
        assert(forall|i: int| 0 <= i < self@.index.len() ==> sets_wf((#[trigger] self@.index[i]).1@));
        assert(sets_wf(self@.metric_series));
    }

    /// The series with tag `tag_key=tag_value`.
    pub fn lookup(&self, tag_key: &str, tag_value: &str) -> (r: Vec<u64>)
        requires
            self@.wf(),
        ensures
            r@.no_duplicates(),
            r@.to_set() == postings(self@.index, tag_key@, tag_value@),
    {
        let p = assoc_pos(&self.index, tag_key);
        if p < self.index.len() {
            let vs = &self.index[p].1;
            let q = assoc_pos(vs, tag_value);
            if q < vs.len() {
                assert(sets_wf(self.index@[p as int].1@));
                assert(vs@[q as int].1@.no_duplicates());
                return copy_ids(&vs[q].1);
            }
        }
        let r: Vec<u64> = Vec::new();
        assert(r@.to_set() =~= Set::<u64>::empty());
        r
    }

    /// The series that carry every tag of `filters`; none when there is no
    /// filter.
    pub fn lookup_multi(&self, filters: &Vec<(String, String)>) -> (r: Vec<u64>)
        requires
            self@.wf(),
        ensures
            r@.no_duplicates(),
            r@.to_set() == multi_spec(self@.index, filters@),
    {
        let mut result: Vec<u64> = Vec::new();
        let mut i: usize = 0;
        assert(result@.to_set() =~= Set::<u64>::empty());
        while i < filters.len()
            invariant
                i <= filters.len(),
                self@.wf(),
                result@.no_duplicates(),
                result@.to_set() == multi_spec(self@.index, filters@.take(i as int)),
            decreases filters.len() - i,
        {
            assert(filters@.take(i as int + 1).drop_last() =~= filters@.take(i as int));
            let ids = self.lookup(filters[i].0.as_str(), filters[i].1.as_str());
            if i == 0 {
                result = ids;
            } else {
                result = intersect_ids(&result, &ids);
            }
            i = i + 1;
        }
        assert(filters@.take(filters.len() as int) =~= filters@);
        result
    }

    /// The series of `metric`.
    pub fn lookup_metric(&self, metric: &str) -> (r: Vec<u64>)
        requires
            self@.wf(),
        ensures
            r@.no_duplicates(),
            r@.to_set() == set_at(self@.metric_series, metric@),
    {
        let p = assoc_pos(&self.metric_series, metric);
        if p < self.metric_series.len() {
            return copy_ids(&self.metric_series[p].1);
        }
        let r: Vec<u64> = Vec::new();
        assert(r@.to_set() =~= Set::<u64>::empty());
        r
    }

    /// Whether a filter on `tag_key` goes through the index: while fewer
    /// distinct values than the limit have been seen for it.
    pub fn is_indexable(&self, tag_key: &str) -> (r: bool)
        ensures
            r == (tag_value_list(self@.tag_values, tag_key@).len() < TAG_VALUE_LIMIT),
    {
        let p = assoc_pos(&self.tag_values, tag_key);
        if p < self.tag_values.len() {
            self.tag_values[p].1.len() < TAG_VALUE_LIMIT
        } else {
            true
        }
    }
}

/// The series that carry every tag of `fs`: the intersection of their
/// postings; empty when there is no filter.
pub open spec fn multi_spec(ix: Seq<(String, Vec<(String, Vec<u64>)>)>, fs: Seq<(String, String)>) -> Set<u64>
    decreases fs.len(),
{
    if fs.len() == 0 {
        Set::empty()
    } else if fs.len() == 1 {
        postings(ix, fs[0].0@, fs[0].1@)
    } else {
        multi_spec(ix, fs.drop_last()).intersect(postings(ix, fs.last().0@, fs.last().1@))
    }
}


/// The lookup depends on the characters of the filter tags alone.
pub proof fn lemma_multi_same_views(
    ix: Seq<(String, Vec<(String, Vec<u64>)>)>,
    a: Seq<(String, String)>,
    b: Seq<(String, String)>,
)
    requires
        a.len() == b.len(),
        forall|j: int| 0 <= j < a.len() ==> (#[trigger] a[j]).0@ == b[j].0@ && a[j].1@ == b[j].1@,
    ensures
        multi_spec(ix, a) == multi_spec(ix, b),
    decreases a.len(),
{
    if a.len() > 1 {
        lemma_multi_same_views(ix, a.drop_last(), b.drop_last());
        assert(a.last() == a[a.len() - 1]);
        assert(b.last() == b[b.len() - 1]);
    } else if a.len() == 1 {
        assert(a[0].0@ == b[0].0@);
    }
}

/// A multi-tag lookup finds only series that carry each of the tags: its
/// result lies within the postings of every filter.
pub proof fn lemma_multi_within_each(ix: Seq<(String, Vec<(String, Vec<u64>)>)>, fs: Seq<(String, String)>, i: int)
    requires
        0 <= i < fs.len(),
    ensures
        multi_spec(ix, fs).subset_of(postings(ix, fs[i].0@, fs[i].1@)),
    decreases fs.len(),
{
    if fs.len() > 1 {
        if i < fs.len() - 1 {
            lemma_multi_within_each(ix, fs.drop_last(), i);
            assert(fs.drop_last()[i] == fs[i]);
        }
    }
}

/// A series recorded under a tag is found by a lookup of that tag, beside
/// every series found before.
pub proof fn lemma_lookup_after_add(
    before: Seq<(String, Vec<(String, Vec<u64>)>)>,
    after: Seq<(String, Vec<(String, Vec<u64>)>)>,
    k: Seq<char>,
    v: Seq<char>,
    id: u64,
)
    requires
        forall|k2: Seq<char>, v2: Seq<char>|
            #[trigger] postings(after, k2, v2) == (if k2 == k && v2 == v {
                postings(before, k2, v2).insert(id)
            } else {
                postings(before, k2, v2)
            }),
    ensures
        postings(after, k, v).contains(id),
        postings(before, k, v).subset_of(postings(after, k, v)),
{
    assert(postings(after, k, v) == postings(before, k, v).insert(id));
}
} // verus!
