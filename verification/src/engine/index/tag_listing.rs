use vstd::prelude::*;
use vstd::utf8::encode_utf8;
use crate::text::{
    lemma_encode_injective,
    str_eq, str_lt, bytes_lt, lemma_bytes_lt_transitive,
    lemma_bytes_lt_total,
};
use crate::engine::index::inverted::{InvertedIndex, set_at};
use crate::engine::state::SeriesInfo;

verus! {

/// `a` sorts before `b`, by their UTF-8 bytes, as `String`'s order does.
pub open spec fn str_before(a: Seq<char>, b: Seq<char>) -> bool {
    bytes_lt(encode_utf8(a), encode_utf8(b))
}

/// Strictly ascending.
pub open spec fn sorted_strs(s: Seq<Seq<char>>) -> bool {
    forall|i: int, j: int| 0 <= i < j < s.len() ==> str_before(#[trigger] s[i], #[trigger] s[j])
}

/// The characters of each string.
pub open spec fn strs_view(v: Seq<String>) -> Seq<Seq<char>> {
    v.map_values(|x: String| x@)
}

/// The keys of a tag listing.
pub open spec fn listing_keys(r: Seq<(String, Vec<String>)>) -> Seq<Seq<char>> {
    r.map_values(|e: (String, Vec<String>)| e.0@)
}

/// Keys strictly ascending, and under each key a nonempty, strictly
/// ascending list of values.
pub open spec fn listing_wf(r: Seq<(String, Vec<String>)>) -> bool {
    &&& sorted_strs(listing_keys(r))
    &&& forall|a: int| 0 <= a < r.len() ==> {
        &&& sorted_strs(strs_view((#[trigger] r[a]).1@))
        &&& r[a].1@.len() > 0
    }
}

/// The key and value pairs a tag listing holds.
pub open spec fn listing_pairs(r: Seq<(String, Vec<String>)>) -> Set<(Seq<char>, Seq<char>)> {
    Set::new(
        |p: (Seq<char>, Seq<char>)|
            exists|a: int, b: int|
                0 <= a < r.len() && 0 <= b < r[a].1@.len() && (#[trigger] r[a]).0@ == p.0
                    && (#[trigger] r[a].1@[b])@ == p.1,
    )
}

/// `i` is the first registry entry of series `id`.
pub open spec fn first_series(reg: Seq<(u64, SeriesInfo)>, id: u64, i: int) -> bool {
    &&& 0 <= i < reg.len()
    &&& reg[i].0 == id
    &&& forall|j: int| 0 <= j < i ==> (#[trigger] reg[j]).0 != id
}

/// Series `id` carries tag `k=v`.
pub open spec fn series_has_tag(reg: Seq<(u64, SeriesInfo)>, id: u64, k: Seq<char>, v: Seq<char>) -> bool {
    exists|i: int, t: int|
        first_series(reg, id, i) && 0 <= t < reg[i].1.tags@.len() && (#[trigger] reg[i].1.tags@[t]).0@ == k
            && reg[i].1.tags@[t].1@ == v
}

/// The tags of the series in `ids`.
pub open spec fn tags_of_ids(ids: Set<u64>, reg: Seq<(u64, SeriesInfo)>) -> Set<(Seq<char>, Seq<char>)> {
    Set::new(|p: (Seq<char>, Seq<char>)| exists|id: u64| ids.contains(id) && #[trigger] series_has_tag(reg, id, p.0, p.1))
}

proof fn lemma_before_total(a: Seq<char>, b: Seq<char>)
    ensures
        a == b || str_before(a, b) || str_before(b, a),
{
    lemma_bytes_lt_total(encode_utf8(a), encode_utf8(b));
    if encode_utf8(a) =~= encode_utf8(b) {
        lemma_encode_injective(a, b);
    }
}

proof fn lemma_before_transitive(a: Seq<char>, b: Seq<char>, c: Seq<char>)
    requires
        str_before(a, b),
        str_before(b, c),
    ensures
        str_before(a, c),
{
    lemma_bytes_lt_transitive(encode_utf8(a), encode_utf8(b), encode_utf8(c));
}

/// The first position whose string does not sort before `v` (the length
/// when every one does).
fn lower_bound(list: &Vec<String>, v: &str) -> (r: usize)
    ensures
        r <= list@.len(),
        forall|j: int| 0 <= j < r ==> str_before(#[trigger] list@[j]@, v@),
        r < list@.len() ==> !str_before(list@[r as int]@, v@),
{
    let mut i: usize = 0;
    while i < list.len() && str_lt(list[i].as_str(), v)
        invariant
            i <= list.len(),
            forall|j: int| 0 <= j < i ==> str_before(#[trigger] list@[j]@, v@),
        decreases list.len() - i,
    {
        i = i + 1;
    }
    i
}

/// Adds `v` to a strictly ascending list of strings, unless it is there.
fn insert_sorted(list: &mut Vec<String>, v: &String)
    requires
        sorted_strs(strs_view(old(list)@)),
    ensures
        sorted_strs(strs_view(final(list)@)),
        strs_view(final(list)@).to_set() == strs_view(old(list)@).to_set().insert(v@),
{
    let ghost s = strs_view(list@);
    let p = lower_bound(list, v.as_str());
    if p < list.len() && str_eq(list[p].as_str(), v.as_str()) {
        assert(s[p as int] == v@);
        assert(s.to_set() =~= s.to_set().insert(v@));
        return;
    }
    proof {
        if p < list@.len() {
            lemma_before_total(list@[p as int]@, v@);
        }
    }
    list.insert(p, v.clone());
    let ghost t = strs_view(list@);
    assert(t =~= s.insert(p as int, v@));
    assert forall|i: int, j: int| 0 <= i < j < t.len() implies str_before(#[trigger] t[i], #[trigger] t[j]) by {
        if j < p {
            assert(t[i] == s[i] && t[j] == s[j]);
        } else if j == p {
            assert(t[i] == s[i]);
        } else if i == p {
            assert(t[j] == s[j - 1]);
            if j - 1 > p {
                lemma_before_transitive(v@, s[p as int], s[j - 1]);
            }
        } else if i < p {
            assert(t[i] == s[i] && t[j] == s[j - 1]);
        } else {
            assert(t[i] == s[i - 1] && t[j] == s[j - 1]);
        }
    }
    assert forall|x: Seq<char>| #[trigger] t.to_set().contains(x) == s.to_set().insert(v@).contains(x) by {
        if t.contains(x) {
            let k = choose|k: int| 0 <= k < t.len() && t[k] == x;
            if k < p {
                assert(s[k] == x);
            } else if k > p {
                assert(s[k - 1] == x);
            }
        }
        if s.contains(x) {
            let k = choose|k: int| 0 <= k < s.len() && s[k] == x;
            if k < p {
                assert(t[k] == x);
            } else {
                assert(t[k + 1] == x);
            }
        }
        if x == v@ {
            assert(t[p as int] == x);
        }
    }
    assert(t.to_set() =~= s.to_set().insert(v@));
}

proof fn lemma_values_set(vs: Seq<String>, x: Seq<char>)
    ensures
        strs_view(vs).to_set().contains(x) <==> exists|b: int| 0 <= b < vs.len() && (#[trigger] vs[b])@ == x,
{
    if strs_view(vs).to_set().contains(x) {
        let b = choose|b: int| 0 <= b < strs_view(vs).len() && strs_view(vs)[b] == x;
        assert(vs[b]@ == x);
    }
    if exists|b: int| 0 <= b < vs.len() && (#[trigger] vs[b])@ == x {
        let b = choose|b: int| 0 <= b < vs.len() && (#[trigger] vs[b])@ == x;
        assert(strs_view(vs)[b] == x);
    }
}

/// Adds the pair `k=v` to a tag listing.
fn insert_pair(out: &mut Vec<(String, Vec<String>)>, k: &String, v: &String)
    requires
        listing_wf(old(out)@),
    ensures
        listing_wf(final(out)@),
        listing_pairs(final(out)@) == listing_pairs(old(out)@).insert((k@, v@)),
{
    let ghost s = out@;
    let mut p: usize = 0;
    while p < out.len() && str_lt(out[p].0.as_str(), k.as_str())
        invariant
            p <= out.len(),
            out@ == s,
            forall|j: int| 0 <= j < p ==> str_before(#[trigger] s[j].0@, k@),
        decreases out.len() - p,
    {
        p = p + 1;
    }
    if p < out.len() && str_eq(out[p].0.as_str(), k.as_str()) {
        let (key, mut vals) = out.remove(p);
        let ghost old_vals = vals@;
        insert_sorted(&mut vals, v);
        proof {
            lemma_values_set(old_vals, v@);
        }
        let ghost ne = (key, vals);
        out.insert(p, (key, vals));
        let ghost t = out@;
        assert(t =~= s.update(p as int, ne));
        assert(listing_keys(t) =~= listing_keys(s));
        assert forall|a: int| 0 <= a < t.len() implies {
            &&& sorted_strs(strs_view((#[trigger] t[a]).1@))
            &&& t[a].1@.len() > 0
        } by {
            if a != p {
                assert(t[a] == s[a]);
            } else {
                assert(strs_view(t[a].1@).to_set().contains(v@));
            }
        }
        assert forall|q: (Seq<char>, Seq<char>)| #[trigger] listing_pairs(t).contains(q) == listing_pairs(s).insert(
            (k@, v@),
        ).contains(q) by {
            if listing_pairs(t).contains(q) {
                let (a, b) = choose|a: int, b: int|
                    0 <= a < t.len() && 0 <= b < t[a].1@.len() && (#[trigger] t[a]).0@ == q.0
                        && (#[trigger] t[a].1@[b])@ == q.1;
                if a != p {
                    assert(s[a] == t[a]);
                    assert(listing_pairs(s).contains(q));
                } else {
                    lemma_values_set(t[a].1@, q.1);
                    lemma_values_set(old_vals, q.1);
                    if q.1 != v@ {
                        let b2 = choose|b2: int| 0 <= b2 < old_vals.len() && (#[trigger] old_vals[b2])@ == q.1;
                        assert(s[a].1@[b2]@ == q.1);
                        assert(listing_pairs(s).contains(q));
                    }
                }
            }
            if listing_pairs(s).contains(q) {
                let (a, b) = choose|a: int, b: int|
                    0 <= a < s.len() && 0 <= b < s[a].1@.len() && (#[trigger] s[a]).0@ == q.0
                        && (#[trigger] s[a].1@[b])@ == q.1;
                if a != p {
                    assert(t[a] == s[a]);
                } else {
                    lemma_values_set(old_vals, q.1);
                    lemma_values_set(t[a].1@, q.1);
                    let b2 = choose|b2: int| 0 <= b2 < t[a].1@.len() && (#[trigger] t[a].1@[b2])@ == q.1;
                    assert(t[a].1@[b2]@ == q.1);
                }
                assert(listing_pairs(t).contains(q));
            }
            if q == (k@, v@) {
                lemma_values_set(t[p as int].1@, v@);
                let b2 = choose|b2: int| 0 <= b2 < t[p as int].1@.len() && (#[trigger] t[p as int].1@[b2])@ == v@;
                assert(t[p as int].1@[b2]@ == q.1);
                assert(listing_pairs(t).contains(q));
            }
        }
        assert(listing_pairs(t) =~= listing_pairs(s).insert((k@, v@)));
        return;
    }
    proof {
        if p < s.len() {
            lemma_before_total(s[p as int].0@, k@);
        }
    }
    let mut vals: Vec<String> = Vec::new();
    vals.push(v.clone());
    let ghost ne = (k@, vals@);
    let e = (k.clone(), vals);
    let ghost ev = e;
    out.insert(p, e);
    let ghost t = out@;
    assert(t =~= s.insert(p as int, ev));
    let ghost ks = listing_keys(s);
    let ghost kt = listing_keys(t);
    assert(kt =~= ks.insert(p as int, k@));
    assert forall|i: int, j: int| 0 <= i < j < kt.len() implies str_before(#[trigger] kt[i], #[trigger] kt[j]) by {
        if j < p {
            assert(kt[i] == ks[i] && kt[j] == ks[j]);
        } else if j == p {
            assert(kt[i] == ks[i]);
        } else if i == p {
            assert(kt[j] == ks[j - 1]);
            if j - 1 > p {
                lemma_before_transitive(k@, ks[p as int], ks[j - 1]);
            }
        } else if i < p {
            assert(kt[i] == ks[i] && kt[j] == ks[j - 1]);
        } else {
            assert(kt[i] == ks[i - 1] && kt[j] == ks[j - 1]);
        }
    }
    assert forall|a: int| 0 <= a < t.len() implies {
        &&& sorted_strs(strs_view((#[trigger] t[a]).1@))
        &&& t[a].1@.len() > 0
    } by {
        if a < p {
            assert(t[a] == s[a]);
        } else if a > p {
            assert(t[a] == s[a - 1]);
        }
    }
    assert forall|q: (Seq<char>, Seq<char>)| #[trigger] listing_pairs(t).contains(q) == listing_pairs(s).insert(
        (k@, v@),
    ).contains(q) by {
        if listing_pairs(t).contains(q) {
            let (a, b) = choose|a: int, b: int|
                0 <= a < t.len() && 0 <= b < t[a].1@.len() && (#[trigger] t[a]).0@ == q.0
                    && (#[trigger] t[a].1@[b])@ == q.1;
            if a < p {
                assert(s[a] == t[a]);
                assert(listing_pairs(s).contains(q));
            } else if a > p {
                assert(s[a - 1] == t[a]);
                assert(listing_pairs(s).contains(q));
            }
        }
        if listing_pairs(s).contains(q) {
            let (a, b) = choose|a: int, b: int|
                0 <= a < s.len() && 0 <= b < s[a].1@.len() && (#[trigger] s[a]).0@ == q.0
                    && (#[trigger] s[a].1@[b])@ == q.1;
            if a < p {
                assert(t[a] == s[a]);
            } else {
                assert(t[a + 1] == s[a]);
            }
            assert(listing_pairs(t).contains(q));
        }
        if q == (k@, v@) {
            assert(t[p as int].1@[0]@ == v@);
            assert(listing_pairs(t).contains(q));
        }
    }
    assert(listing_pairs(t) =~= listing_pairs(s).insert((k@, v@)));
}

impl InvertedIndex {
    /// The tag keys of the series of `metric`, ascending, each with its
    /// values, ascending; a series is looked up in `registry` by its first
    /// entry.
    pub fn get_tags_for_metric(&self, metric: &str, registry: &Vec<(u64, SeriesInfo)>) -> (r: Vec<
        (String, Vec<String>),
    >)
        requires
            self@.wf(),
        ensures
            listing_wf(r@),
            listing_pairs(r@) == tags_of_ids(set_at(self@.metric_series, metric@), registry@),
    {
        let ids = self.lookup_metric(metric);
        let ghost reg = registry@;
        let mut out: Vec<(String, Vec<String>)> = Vec::new();
        assert(listing_pairs(out@) =~= Set::<(Seq<char>, Seq<char>)>::empty());
        let mut i: usize = 0;
        while i < ids.len()
            invariant
                i <= ids.len(),
                reg == registry@,
                listing_wf(out@),
                listing_pairs(out@) == tags_of_ids(ids@.take(i as int).to_set(), reg),
            decreases ids.len() - i,
        {
            let id = ids[i];
            let ghost before = listing_pairs(out@);
            let mut e: usize = 0;
            while e < registry.len() && registry[e].0 != id
                invariant
                    e <= registry.len(),
                    reg == registry@,
                    forall|j: int| 0 <= j < e ==> (#[trigger] reg[j]).0 != id,
                decreases registry.len() - e,
            {
                e = e + 1;
            }
            if e < registry.len() {
                let tags = &registry[e].1.tags;
                let mut t: usize = 0;
                while t < tags.len()
                    invariant
                        t <= tags.len(),
                        first_series(reg, id, e as int),
                        tags@ == reg[e as int].1.tags@,
                        listing_wf(out@),
                        listing_pairs(out@) == before + Set::new(
                            |p: (Seq<char>, Seq<char>)|
                                exists|x: int| 0 <= x < t && (#[trigger] tags@[x]).0@ == p.0 && tags@[x].1@ == p.1,
                        ),
                    decreases tags.len() - t,
                {
                    let ghost prev = listing_pairs(out@);
                    insert_pair(&mut out, &tags[t].0, &tags[t].1);
                    assert(listing_pairs(out@) =~= before + Set::new(
                        |p: (Seq<char>, Seq<char>)|
                            exists|x: int| 0 <= x < t + 1 && (#[trigger] tags@[x]).0@ == p.0 && tags@[x].1@ == p.1,
                    ));
                    t = t + 1;
                }
            }
            proof {
                let ids_prev = ids@.take(i as int).to_set();
                let ids_next = ids@.take(i as int + 1).to_set();
                assert(ids@.take(i as int + 1) =~= ids@.take(i as int).push(id));
                ids@.take(i as int).lemma_push_to_set_commute(id);
                assert(ids_next =~= ids_prev.insert(id));
                assert forall|p: (Seq<char>, Seq<char>)| #[trigger] listing_pairs(out@).contains(p)
                    == tags_of_ids(ids_next, reg).contains(p) by {
                    if series_has_tag(reg, id, p.0, p.1) {
                        let (fi, ft) = choose|fi: int, ft: int|
                            first_series(reg, id, fi) && 0 <= ft < reg[fi].1.tags@.len() && (#[trigger] reg[fi].1.tags@[ft]).0@
                                == p.0 && reg[fi].1.tags@[ft].1@ == p.1;
                        assert(fi == e);
                    }
                    if e < reg.len() {
                        if exists|x: int|
                            0 <= x < reg[e as int].1.tags@.len() && (#[trigger] reg[e as int].1.tags@[x]).0@ == p.0
                                && reg[e as int].1.tags@[x].1@ == p.1 {
                            assert(series_has_tag(reg, id, p.0, p.1));
                        }
                    }
                    if tags_of_ids(ids_next, reg).contains(p) {
                        let w = choose|w: u64| ids_next.contains(w) && #[trigger] series_has_tag(reg, w, p.0, p.1);
                        if w != id {
                            assert(tags_of_ids(ids_prev, reg).contains(p));
                        }
                    }
                    if tags_of_ids(ids_prev, reg).contains(p) {
                        let w = choose|w: u64| ids_prev.contains(w) && #[trigger] series_has_tag(reg, w, p.0, p.1);
                        assert(ids_next.contains(w));
                    }
                }
                assert(listing_pairs(out@) =~= tags_of_ids(ids_next, reg));
            }
            i = i + 1;
        }
        assert(ids@.take(ids@.len() as int) =~= ids@);
        out
    }
}

} // verus!
