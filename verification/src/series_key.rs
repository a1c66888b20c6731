use vstd::prelude::*;
use std::collections::hash_map::DefaultHasher;
use std::hash::Hasher;
use vstd::std_specs::hash::DefaultHasherAdditionalSpecFns;
use vstd::utf8::encode_utf8;
use vstd::string::StringSliceAdditionalSpecFns;
use crate::text::{
    str_lt, bytes_lt, lemma_bytes_lt_total, lemma_bytes_lt_transitive, lemma_bytes_lt_irreflexive, lemma_encode_injective,
};

verus! {

/// The writes that hashing a string makes: its UTF-8 bytes, then the byte
/// 0xff that ends every string.
pub open spec fn str_writes(s: Seq<char>) -> Seq<Seq<u8>> {
    seq![encode_utf8(s), seq![0xffu8]]
}

/// Feeds a string to a hasher as `<str as Hash>::hash` does: its bytes, then
/// the byte 0xff.
fn feed_str(h: &mut DefaultHasher, s: &str)
    ensures
        final(h)@ == old(h)@ + str_writes(s@),
{
    let b = s.as_bytes();
    h.write(b);
    let end: Vec<u8> = vec![0xffu8];
    assert(end@ =~= seq![0xffu8]);
    h.write(end.as_slice());
    assert(h@ =~= old(h)@ + str_writes(s@));
}

/// Whether key `a` sorts before key `b`.
pub open spec fn key_before(a: Seq<char>, b: Seq<char>) -> bool {
    bytes_lt(encode_utf8(a), encode_utf8(b))
}

/// The tags with `t` placed after every tag whose key does not sort after
/// its own.
pub open spec fn insert_by_key(s: Seq<(String, String)>, t: (String, String)) -> Seq<(String, String)>
    decreases s.len(),
{
    if s.len() == 0 {
        seq![t]
    } else if key_before(t.0@, s.last().0@) {
        insert_by_key(s.drop_last(), t).push(s.last())
    } else {
        s.push(t)
    }
}

/// The tags ordered by key, tags with equal keys kept in their order.
pub open spec fn sort_by_key_spec(s: Seq<(String, String)>) -> Seq<(String, String)>
    decreases s.len(),
{
    if s.len() == 0 {
        seq![]
    } else {
        insert_by_key(sort_by_key_spec(s.drop_last()), s.last())
    }
}

/// The writes a series key makes to the hasher: the metric, then each tag's
/// key and value in key order, each as a hashed string.
pub open spec fn key_input(metric: Seq<char>, sorted: Seq<(String, String)>) -> Seq<Seq<u8>>
    decreases sorted.len(),
{
    if sorted.len() == 0 {
        str_writes(metric)
    } else {
        key_input(metric, sorted.drop_last()) + str_writes(sorted.last().0@) + str_writes(
            sorted.last().1@,
        )
    }
}

proof fn lemma_insert_by_key_at(s: Seq<(String, String)>, t: (String, String), j: int)
    requires
        0 <= j <= s.len(),
        forall|k: int| j <= k < s.len() ==> key_before(t.0@, #[trigger] s[k].0@),
        j > 0 ==> !key_before(t.0@, s[j - 1].0@),
    ensures
        insert_by_key(s, t) == s.insert(j, t),
    decreases s.len(),
{
    if s.len() == 0 {
        assert(s.insert(j, t) =~= seq![t]);
    } else if j == s.len() {
        assert(s.insert(j, t) =~= s.push(t));
    } else {
        assert(key_before(t.0@, s.last().0@));
        lemma_insert_by_key_at(s.drop_last(), t, j);
        assert(s.drop_last().insert(j, t).push(s.last()) =~= s.insert(j, t));
    }
}

/// Keys never decrease along the tags.
pub open spec fn keys_sorted(s: Seq<(String, String)>) -> bool {
    forall|i: int, j: int| 0 <= i < j < s.len() ==> !key_before(#[trigger] s[j].0@, #[trigger] s[i].0@)
}

/// No key occurs twice among the tags.
pub open spec fn keys_distinct(s: Seq<(String, String)>) -> bool {
    forall|i: int, j: int| 0 <= i < j < s.len() ==> (#[trigger] s[i]).0@ != (#[trigger] s[j]).0@
}

proof fn lemma_key_order(a: Seq<char>, b: Seq<char>)
    ensures
        !(key_before(a, b) && key_before(b, a)),
        a == b || key_before(a, b) || key_before(b, a),
        !key_before(a, a),
{
    lemma_bytes_lt_total(encode_utf8(a), encode_utf8(b));
    if encode_utf8(a) =~= encode_utf8(b) {
        lemma_encode_injective(a, b);
    }
    lemma_bytes_lt_irreflexive(encode_utf8(a));
    if key_before(a, b) && key_before(b, a) {
        lemma_bytes_lt_transitive(encode_utf8(a), encode_utf8(b), encode_utf8(a));
    }
}

proof fn lemma_key_transitive(a: Seq<char>, b: Seq<char>, c: Seq<char>)
    requires
        key_before(a, b),
        key_before(b, c),
    ensures
        key_before(a, c),
{
    lemma_bytes_lt_transitive(encode_utf8(a), encode_utf8(b), encode_utf8(c));
}

proof fn lemma_insert_sorted(s: Seq<(String, String)>, t: (String, String))
    requires
        keys_sorted(s),
    ensures
        keys_sorted(insert_by_key(s, t)),
        insert_by_key(s, t).to_multiset() == s.to_multiset().insert(t),
    decreases s.len(),
{
    broadcast use vstd::seq_lib::group_to_multiset_ensures;

    if s.len() == 0 {
        assert(seq![t] =~= Seq::<(String, String)>::empty().push(t));
    } else if key_before(t.0@, s.last().0@) {
        let d = s.drop_last();
        let l = s.last();
        assert(keys_sorted(d)) by {
            assert forall|i: int, j: int| 0 <= i < j < d.len() implies !key_before(#[trigger] d[j].0@, #[trigger] d[i].0@) by {
                assert(d[i] == s[i] && d[j] == s[j]);
            }
        }
        lemma_insert_sorted(d, t);
        let m = insert_by_key(d, t);
        let r = m.push(l);
        assert(s =~= d.push(l));
        assert forall|i: int, j: int| 0 <= i < j < r.len() implies !key_before(#[trigger] r[j].0@, #[trigger] r[i].0@) by {
            if j < r.len() - 1 {
                assert(r[i] == m[i] && r[j] == m[j]);
            } else {
                assert(r[j] == l);
                assert(r[i] == m[i]);
                assert(m.to_multiset().count(m[i]) > 0);
                if m[i] == t {
                    lemma_key_order(t.0@, l.0@);
                } else {
                    assert(d.to_multiset().count(m[i]) > 0);
                    let k = choose|k: int| 0 <= k < d.len() && d[k] == m[i];
                    assert(s[k] == d[k]);
                    assert(!key_before(s[s.len() - 1].0@, s[k].0@));
                }
            }
        }
    } else {
        let l = s.last();
        let r = s.push(t);
        assert forall|i: int, j: int| 0 <= i < j < r.len() implies !key_before(#[trigger] r[j].0@, #[trigger] r[i].0@) by {
            if j < r.len() - 1 {
                assert(r[i] == s[i] && r[j] == s[j]);
            } else {
                assert(r[j] == t);
                assert(r[i] == s[i]);
                if key_before(t.0@, s[i].0@) {
                    if i == s.len() - 1 {
                    } else {
                        assert(!key_before(l.0@, s[i].0@));
                        lemma_key_order(l.0@, s[i].0@);
                        if key_before(s[i].0@, l.0@) {
                            lemma_key_transitive(t.0@, s[i].0@, l.0@);
                        }
                    }
                }
            }
        }
    }
}

proof fn lemma_sort_sorted(s: Seq<(String, String)>)
    ensures
        keys_sorted(sort_by_key_spec(s)),
        sort_by_key_spec(s).to_multiset() == s.to_multiset(),
    decreases s.len(),
{
    broadcast use vstd::seq_lib::group_to_multiset_ensures;

    if s.len() == 0 {
        assert(sort_by_key_spec(s) =~= s);
    } else {
        lemma_sort_sorted(s.drop_last());
        lemma_insert_sorted(sort_by_key_spec(s.drop_last()), s.last());
        assert(s =~= s.drop_last().push(s.last()));
    }
}

proof fn lemma_distinct_of_multiset(a: Seq<(String, String)>, b: Seq<(String, String)>)
    requires
        keys_distinct(a),
        a.to_multiset() == b.to_multiset(),
    ensures
        keys_distinct(b),
{
    broadcast use vstd::seq_lib::group_to_multiset_ensures;

    assert forall|i: int, j: int| 0 <= i < j < b.len() implies (#[trigger] b[i]).0@ != (#[trigger] b[j]).0@ by {
        if b[i].0@ == b[j].0@ {
            assert(b.to_multiset().count(b[i]) > 0);
            assert(b.to_multiset().count(b[j]) > 0);
            let x = choose|x: int| 0 <= x < a.len() && a[x] == b[i];
            let y = choose|y: int| 0 <= y < a.len() && a[y] == b[j];
            if x == y {
                assert(b[i] == b[j]);
                assert(b.remove(j).to_multiset() == b.to_multiset().remove(b[j]));
                assert(b.remove(j)[i] == b[i]);
                assert(b.remove(j).to_multiset().count(b[i]) > 0);
                assert(a.to_multiset().count(b[i]) >= 2);
                assert(a.remove(x).to_multiset() == a.to_multiset().remove(a[x]));
                assert(a.remove(x).to_multiset().count(b[i]) > 0);
                let z = choose|z: int| 0 <= z < a.remove(x).len() && a.remove(x)[z] == b[i];
                let z2 = if z < x { z } else { z + 1 };
                assert(a[z2] == b[i]);
                if z2 < x {
                    assert(a[z2].0@ != a[x].0@);
                } else {
                    assert(a[x].0@ != a[z2].0@);
                }
            } else if x < y {
                assert(a[x].0@ != a[y].0@);
            } else {
                assert(a[y].0@ != a[x].0@);
            }
        }
    }
}

/// Orders tags by key, keeping tags with equal keys in their order.
pub fn sort_tags_by_key(tags: &Vec<(String, String)>) -> (r: Vec<(String, String)>)
    ensures
        r@ == sort_by_key_spec(tags@),
{
    let mut out: Vec<(String, String)> = Vec::new();
    let mut i: usize = 0;
    while i < tags.len()
        invariant
            i <= tags.len(),
            out@ == sort_by_key_spec(tags@.take(i as int)),
        decreases tags.len() - i,
    {
        assert(tags@.take(i as int + 1).drop_last() =~= tags@.take(i as int));
        let t = (tags[i].0.clone(), tags[i].1.clone());
        assert(t == tags@[i as int]);
        let mut j: usize = out.len();
        while j > 0 && str_lt(t.0.as_str(), out[j - 1].0.as_str())
            invariant
                j <= out.len(),
                forall|k: int| j <= k < out.len() ==> key_before(t.0@, #[trigger] out@[k].0@),
            decreases j,
        {
            j = j - 1;
        }
        proof {
            lemma_insert_by_key_at(out@, t, j as int);
        }
        out.insert(j, t);
        i = i + 1;
    }
    assert(tags@.take(tags.len() as int) =~= tags@);
    out
}

/// The id of a series: the hash of its metric and of its tags' keys and
/// values in key order, as `DefaultHasher` computes it.
pub fn compute_series_id(metric: &str, tags: &Vec<(String, String)>) -> (r: u64)
    ensures
        r == DefaultHasher::spec_finish(key_input(metric@, sort_by_key_spec(tags@))),
{
    let mut hasher = DefaultHasher::new();
    feed_str(&mut hasher, metric);
    assert(hasher@ =~= str_writes(metric@));
    let sorted = sort_tags_by_key(tags);
    let mut i: usize = 0;
    while i < sorted.len()
        invariant
            i <= sorted.len(),
            hasher@ == key_input(metric@, sorted@.take(i as int)),
        decreases sorted.len() - i,
    {
        assert(sorted@.take(i as int + 1).drop_last() =~= sorted@.take(i as int));
        feed_str(&mut hasher, sorted[i].0.as_str());
        feed_str(&mut hasher, sorted[i].1.as_str());
        assert(sorted@.take(i as int + 1).last() == sorted@[i as int]);
        i = i + 1;
    }
    assert(sorted@.take(sorted.len() as int) =~= sorted@);
    hasher.finish()
}

/// Tag `(k, v)` is among the tags: some tag has key `k` and value `v`.
pub open spec fn has_pair(s: Seq<(String, String)>, k: Seq<char>, v: Seq<char>) -> bool {
    exists|j: int| 0 <= j < s.len() && (#[trigger] s[j]).0@ == k && s[j].1@ == v
}

/// The two lists hold the same key-value pairs, in any order; for lists
/// with no key twice, they are equal as maps.
pub open spec fn same_pairs(a: Seq<(String, String)>, b: Seq<(String, String)>) -> bool {
    &&& forall|i: int| 0 <= i < a.len() ==> has_pair(b, (#[trigger] a[i]).0@, a[i].1@)
    &&& forall|j: int| 0 <= j < b.len() ==> has_pair(a, (#[trigger] b[j]).0@, b[j].1@)
}

proof fn lemma_same_pairs_of_multiset(a: Seq<(String, String)>, b: Seq<(String, String)>)
    requires
        a.to_multiset() == b.to_multiset(),
    ensures
        same_pairs(a, b),
{
    broadcast use vstd::seq_lib::group_to_multiset_ensures;

    assert forall|i: int| 0 <= i < a.len() implies has_pair(b, (#[trigger] a[i]).0@, a[i].1@) by {
        assert(a.to_multiset().count(a[i]) > 0);
        let j = choose|j: int| 0 <= j < b.len() && b[j] == a[i];
        assert(b[j].0@ == a[i].0@ && b[j].1@ == a[i].1@);
    }
    assert forall|j: int| 0 <= j < b.len() implies has_pair(a, (#[trigger] b[j]).0@, b[j].1@) by {
        assert(b.to_multiset().count(b[j]) > 0);
        let i = choose|i: int| 0 <= i < a.len() && a[i] == b[j];
        assert(a[i].0@ == b[j].0@ && a[i].1@ == b[j].1@);
    }
}

proof fn lemma_same_pairs_trans(a: Seq<(String, String)>, b: Seq<(String, String)>, c: Seq<(String, String)>)
    requires
        same_pairs(a, b),
        same_pairs(b, c),
    ensures
        same_pairs(a, c),
{
    assert forall|i: int| 0 <= i < a.len() implies has_pair(c, (#[trigger] a[i]).0@, a[i].1@) by {
        let j = choose|j: int| 0 <= j < b.len() && (#[trigger] b[j]).0@ == a[i].0@ && b[j].1@ == a[i].1@;
        assert(has_pair(c, b[j].0@, b[j].1@));
    }
    assert forall|k: int| 0 <= k < c.len() implies has_pair(a, (#[trigger] c[k]).0@, c[k].1@) by {
        let j = choose|j: int| 0 <= j < b.len() && (#[trigger] b[j]).0@ == c[k].0@ && b[j].1@ == c[k].1@;
        assert(has_pair(a, b[j].0@, b[j].1@));
    }
}

/// In tags sorted by key with no key twice, an earlier key sorts before a
/// later one.
proof fn lemma_strictly_sorted(s: Seq<(String, String)>, i: int, j: int)
    requires
        keys_sorted(s),
        keys_distinct(s),
        0 <= i < j < s.len(),
    ensures
        key_before(s[i].0@, s[j].0@),
{
    assert(!key_before(s[j].0@, s[i].0@));
    assert(s[i].0@ != s[j].0@);
    lemma_key_order(s[i].0@, s[j].0@);
}

/// Two lists sorted by key, no key twice, with the same key-value pairs agree
/// tag by tag on keys and values.
proof fn lemma_sorted_pairs_unique(x: Seq<(String, String)>, y: Seq<(String, String)>)
    requires
        keys_sorted(x),
        keys_sorted(y),
        keys_distinct(x),
        keys_distinct(y),
        same_pairs(x, y),
    ensures
        x.len() == y.len(),
        forall|i: int| 0 <= i < x.len() ==> (#[trigger] x[i]).0@ == y[i].0@ && x[i].1@ == y[i].1@,
    decreases x.len() + y.len(),
{
    if x.len() == 0 {
        if y.len() > 0 {
            assert(has_pair(x, y[0].0@, y[0].1@));
        }
    } else if y.len() == 0 {
        assert(has_pair(y, x[0].0@, x[0].1@));
    } else {
        let n = x.len() - 1;
        let m = y.len() - 1;
        assert(has_pair(y, x[n].0@, x[n].1@));
        let p = choose|p: int| 0 <= p < y.len() && (#[trigger] y[p]).0@ == x[n].0@ && y[p].1@ == x[n].1@;
        assert(has_pair(x, y[m].0@, y[m].1@));
        let q = choose|q: int| 0 <= q < x.len() && (#[trigger] x[q]).0@ == y[m].0@ && x[q].1@ == y[m].1@;
        if p < m {
            lemma_strictly_sorted(y, p, m);
            if q < n {
                lemma_strictly_sorted(x, q, n);
                lemma_key_transitive(x[n].0@, y[m].0@, x[n].0@);
                lemma_key_order(x[n].0@, x[n].0@);
            } else {
                assert(y[p].0@ == y[m].0@);
            }
        }
        assert(p == m);
        let xd = x.drop_last();
        let yd = y.drop_last();
        assert(same_pairs(xd, yd)) by {
            assert forall|i: int| 0 <= i < xd.len() implies has_pair(yd, (#[trigger] xd[i]).0@, xd[i].1@) by {
                assert(xd[i] == x[i]);
                assert(has_pair(y, x[i].0@, x[i].1@));
                let j = choose|j: int| 0 <= j < y.len() && (#[trigger] y[j]).0@ == x[i].0@ && y[j].1@ == x[i].1@;
                assert(x[i].0@ != x[n].0@);
                assert(j != m);
                assert(yd[j] == y[j]);
            }
            assert forall|j: int| 0 <= j < yd.len() implies has_pair(xd, (#[trigger] yd[j]).0@, yd[j].1@) by {
                assert(yd[j] == y[j]);
                assert(has_pair(x, y[j].0@, y[j].1@));
                let i = choose|i: int| 0 <= i < x.len() && (#[trigger] x[i]).0@ == y[j].0@ && x[i].1@ == y[j].1@;
                assert(y[j].0@ != y[m].0@);
                assert(i != n);
                assert(xd[i] == x[i]);
            }
        }
        assert(keys_sorted(xd));
        assert(keys_sorted(yd));
        assert(keys_distinct(xd));
        assert(keys_distinct(yd));
        lemma_sorted_pairs_unique(xd, yd);
        assert forall|i: int| 0 <= i < x.len() implies (#[trigger] x[i]).0@ == y[i].0@ && x[i].1@ == y[i].1@ by {
            if i < n {
                assert(xd[i] == x[i]);
                assert(yd[i] == y[i]);
            }
        }
    }
}

/// The hasher input of a series key depends only on the text of the metric
/// and of each tag's key and value.
proof fn lemma_key_input_views(metric: Seq<char>, x: Seq<(String, String)>, y: Seq<(String, String)>)
    requires
        x.len() == y.len(),
        forall|i: int| 0 <= i < x.len() ==> (#[trigger] x[i]).0@ == y[i].0@ && x[i].1@ == y[i].1@,
    ensures
        key_input(metric, x) == key_input(metric, y),
    decreases x.len(),
{
    if x.len() > 0 {
        let n = x.len() - 1;
        assert(x[n].0@ == y[n].0@);
        lemma_key_input_views(metric, x.drop_last(), y.drop_last());
    }
}

/// A series' id does not depend on the order its tags are given in: two tag
/// lists with no key twice that are equal as maps (the same key-value pairs,
/// in any order) give the same hasher input and so the same id.
pub proof fn lemma_series_id_order_free(metric: Seq<char>, a: Seq<(String, String)>, b: Seq<(String, String)>)
    requires
        keys_distinct(a),
        keys_distinct(b),
        same_pairs(a, b),
    ensures
        key_input(metric, sort_by_key_spec(a)) == key_input(metric, sort_by_key_spec(b)),
        DefaultHasher::spec_finish(key_input(metric, sort_by_key_spec(a))) == DefaultHasher::spec_finish(
            key_input(metric, sort_by_key_spec(b)),
        ),
{
    let sa = sort_by_key_spec(a);
    let sb = sort_by_key_spec(b);
    lemma_sort_sorted(a);
    lemma_sort_sorted(b);
    lemma_distinct_of_multiset(a, sa);
    lemma_distinct_of_multiset(b, sb);
    lemma_same_pairs_of_multiset(sa, a);
    lemma_same_pairs_of_multiset(b, sb);
    lemma_same_pairs_trans(sa, a, b);
    lemma_same_pairs_trans(sa, b, sb);
    lemma_sorted_pairs_unique(sa, sb);
    lemma_key_input_views(metric, sa, sb);
}

} // verus!
