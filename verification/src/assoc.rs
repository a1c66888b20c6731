use vstd::prelude::*;
use crate::text::str_eq;

verus! {

/// The value stored under key `k` in a list of (key, value) entries: that of
/// the first entry with that key.
pub open spec fn assoc_find<T>(s: Seq<(String, T)>, k: Seq<char>) -> Option<T>
    decreases s.len(),
{
    if s.len() == 0 {
        None
    } else if s[0].0@ == k {
        Some(s[0].1)
    } else {
        assoc_find(s.drop_first(), k)
    }
}

/// Index `i` holds the first entry with key `k`, or is the length when no
/// entry has it.
pub open spec fn first_at<T>(s: Seq<(String, T)>, k: Seq<char>, i: int) -> bool {
    &&& 0 <= i <= s.len()
    &&& forall|j: int| 0 <= j < i ==> s[j].0@ != k
    &&& i < s.len() ==> s[i].0@ == k
}

pub proof fn lemma_find_at<T>(s: Seq<(String, T)>, k: Seq<char>, i: int)
    requires
        first_at(s, k, i),
    ensures
        assoc_find(s, k) == (if i < s.len() { Some(s[i].1) } else { None }),
    decreases i,
{
    if i > 0 {
        lemma_find_at(s.drop_first(), k, i - 1);
    } else if s.len() == 0 {
    }
}

/// Replacing the value of the first entry with key `k` changes what `k` finds
/// and nothing else.
pub proof fn lemma_find_update<T>(s: Seq<(String, T)>, k: Seq<char>, i: int, t: T)
    requires
        first_at(s, k, i),
        i < s.len(),
    ensures
        forall|x: Seq<char>|
            #[trigger] assoc_find(s.update(i, (s[i].0, t)), x) == (if x == k {
                Some(t)
            } else {
                assoc_find(s, x)
            }),
    decreases i,
{
    let u = s.update(i, (s[i].0, t));
    if i == 0 {
        assert(u.drop_first() =~= s.drop_first());
    } else {
        let d = s.drop_first();
        lemma_find_update(d, k, i - 1, t);
        assert(u.drop_first() =~= d.update(i - 1, (d[i - 1].0, t)));
        assert forall|x: Seq<char>| #[trigger] assoc_find(u, x) == (if x == k {
            Some(t)
        } else {
            assoc_find(s, x)
        }) by {
            assert(u[0] == s[0]);
            if s[0].0@ != x {
                assert(assoc_find(u, x) == assoc_find(u.drop_first(), x));
                assert(assoc_find(s, x) == assoc_find(d, x));
                assert(assoc_find(d.update(i - 1, (d[i - 1].0, t)), x) == (if x == k {
                    Some(t)
                } else {
                    assoc_find(d, x)
                }));
            } else {
                assert(x != k);
            }
        }
    }
}

/// Appending an entry with a key that no entry has makes that key find it and
/// changes nothing else.
pub proof fn lemma_find_push<T>(s: Seq<(String, T)>, key: String, t: T)
    requires
        assoc_find(s, key@) is None,
    ensures
        forall|x: Seq<char>|
            #[trigger] assoc_find(s.push((key, t)), x) == (if x == key@ {
                Some(t)
            } else {
                assoc_find(s, x)
            }),
    decreases s.len(),
{
    let u = s.push((key, t));
    if s.len() == 0 {
        assert(u.drop_first() =~= s);
    } else {
        let d = s.drop_first();
        assert(u.drop_first() =~= d.push((key, t)));
        lemma_find_push(d, key, t);
        assert forall|x: Seq<char>| #[trigger] assoc_find(u, x) == (if x == key@ {
            Some(t)
        } else {
            assoc_find(s, x)
        }) by {
            assert(u[0] == s[0]);
            if s[0].0@ != x {
                assert(assoc_find(u, x) == assoc_find(u.drop_first(), x));
                assert(assoc_find(d.push((key, t)), x) == (if x == key@ {
                    Some(t)
                } else {
                    assoc_find(d, x)
                }));
            }
        }
    }
}

/// The index of the first entry with key `k`, or the length when there is none.
pub fn assoc_pos<T>(s: &Vec<(String, T)>, k: &str) -> (r: usize)
    ensures
        first_at(s@, k@, r as int),
        assoc_find(s@, k@) == (if r < s@.len() { Some(s@[r as int].1) } else { None }),
{
    let mut i: usize = 0;
    while i < s.len() && !str_eq(s[i].0.as_str(), k)
        invariant
            i <= s.len(),
            forall|j: int| 0 <= j < i ==> s@[j].0@ != k@,
        decreases s.len() - i,
    {
        i = i + 1;
    }
    proof {
        lemma_find_at(s@, k@, i as int);
    }
    i
}

} // verus!
