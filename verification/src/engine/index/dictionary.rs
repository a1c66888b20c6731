use vstd::prelude::*;
use vstd::utf8::encode_utf8;
use vstd::string::StringSliceAdditionalSpecFns;
use crate::assoc::{assoc_find, assoc_pos, lemma_find_update, lemma_find_push};
use crate::engine::encoding::bytes::append_bytes;

verus! {

/// The bytes under which a tag's value is numbered: the key, a colon, the
/// value.
pub open spec fn composite_of(key: Seq<char>, value: Seq<char>) -> Seq<u8> {
    encode_utf8(key) + seq![58u8] + encode_utf8(value)
}

/// The number given to the first entry whose bytes are `c`.
pub open spec fn bytes_find(s: Seq<(Vec<u8>, u64)>, c: Seq<u8>) -> Option<u64>
    decreases s.len(),
{
    if s.len() == 0 {
        None
    } else if s[0].0@ == c {
        Some(s[0].1)
    } else {
        bytes_find(s.drop_first(), c)
    }
}

/// The dictionary as a value: the number of each key and the key of each
/// number (number `n` at index `n - 1`), the number of each tag value by its
/// key-colon-value bytes and the value of each number, and how many values
/// were numbered under each key.
pub struct DictView {
    pub key_ids: Seq<(String, u64)>,
    pub keys: Seq<Seq<char>>,
    pub value_ids: Seq<(Vec<u8>, u64)>,
    pub values: Seq<Seq<char>>,
    pub counts: Seq<(String, usize)>,
}

impl DictView {
    /// Every numbered key or value is found again under its number.
    pub open spec fn wf(self) -> bool {
        &&& forall|i: int|
            0 <= i < self.key_ids.len() ==> {
                let (k, id) = #[trigger] self.key_ids[i];
                1 <= id <= self.keys.len() && self.keys[id - 1] == k@
            }
        &&& forall|i: int|
            0 <= i < self.value_ids.len() ==> {
                let (_, id) = #[trigger] self.value_ids[i];
                1 <= id <= self.values.len()
            }
        &&& forall|i: int| 0 <= i < self.counts.len() ==> (#[trigger] self.counts[i]).1 <= self.values.len()
        &&& self.keys.len() < u64::MAX
        &&& self.values.len() < u64::MAX
    }
}

/// Numbers for tag keys and tag values, and the way back from a number.
pub struct GlobalDictionary {
    key_ids: Vec<(String, u64)>,
    next_key_id: u64,
    value_ids: Vec<(Vec<u8>, u64)>,
    next_value_id: u64,
    reverse_keys: Vec<String>,
    reverse_values: Vec<String>,
    tag_value_counts: Vec<(String, usize)>,
}

pub open spec fn names_view(v: Seq<String>) -> Seq<Seq<char>> {
    v.map_values(|s: String| s@)
}

impl View for GlobalDictionary {
    type V = DictView;

    closed spec fn view(&self) -> DictView {
        DictView {
            key_ids: self.key_ids@,
            keys: names_view(self.reverse_keys@),
            value_ids: self.value_ids@,
            values: names_view(self.reverse_values@),
            counts: self.tag_value_counts@,
        }
    }
}

impl GlobalDictionary {
    /// The next numbers follow the numbers given.
    pub closed spec fn counters_ok(&self) -> bool {
        &&& self.next_key_id == self.reverse_keys@.len() + 1
        &&& self.next_value_id == self.reverse_values@.len() + 1
    }

    /// An empty dictionary; numbers start at 1.
    pub fn new() -> (r: Self)
        ensures
            r@.wf(),
            r.counters_ok(),
            r@.key_ids.len() == 0,
            r@.keys.len() == 0,
            r@.value_ids.len() == 0,
            r@.values.len() == 0,
            r@.counts.len() == 0,
    {
        let r = GlobalDictionary {
            key_ids: Vec::new(),
            next_key_id: 1,
            value_ids: Vec::new(),
            next_value_id: 1,
            reverse_keys: Vec::new(),
            reverse_values: Vec::new(),
            tag_value_counts: Vec::new(),
        };
        assert(r@.keys =~= Seq::<Seq<char>>::empty());
        assert(r@.values =~= Seq::<Seq<char>>::empty());
        r
    }

    /// The number of tag key `key`, numbering it with the next number when it
    /// has none.
    pub fn get_key_id(&mut self, key: &str) -> (r: u64)
        requires
            old(self)@.wf(),
            old(self).counters_ok(),
            old(self)@.keys.len() + 1 < u64::MAX,
        ensures
            final(self)@.wf(),
            final(self).counters_ok(),
            r == (match assoc_find(old(self)@.key_ids, key@) {
                Some(id) => id,
                None => (old(self)@.keys.len() + 1) as u64,
            }),
            final(self)@.keys.len() >= r >= 1,
            final(self)@.keys[r - 1] == key@,
            forall|k: Seq<char>|
                #[trigger] assoc_find(final(self)@.key_ids, k) == (if k == key@ {
                    Some(r)
                } else {
                    assoc_find(old(self)@.key_ids, k)
                }),
            final(self)@.keys == (match assoc_find(old(self)@.key_ids, key@) {
                Some(_) => old(self)@.keys,
                None => old(self)@.keys.push(key@),
            }),
            final(self)@.value_ids == old(self)@.value_ids,
            final(self)@.values == old(self)@.values,
            final(self)@.counts == old(self)@.counts,
    {
        let ghost o = self@;
        let p = assoc_pos(&self.key_ids, key);
        if p < self.key_ids.len() {
            let id = self.key_ids[p].1;
            proof {
                let (k, i) = o.key_ids[p as int];
                assert(1 <= i <= o.keys.len() && o.keys[i - 1] == k@);
                assert forall|k: Seq<char>| #[trigger] assoc_find(self@.key_ids, k) == (if k == key@ {
                    Some(id)
                } else {
                    assoc_find(o.key_ids, k)
                }) by {
                }
            }
            return id;
        }
        let id = self.next_key_id;
        self.next_key_id = self.next_key_id + 1;
        let owned = key.to_owned();
        proof {
            lemma_find_push(o.key_ids, owned, id);
        }
        self.key_ids.push((owned, id));
        self.reverse_keys.push(key.to_owned());
        proof {
            assert(self@.value_ids == o.value_ids);
            assert(self@.values == o.values);
            assert(self@.counts == o.counts);
            assert(self@.keys =~= o.keys.push(key@));
            assert forall|i: int| 0 <= i < self@.key_ids.len() implies {
                let (k, n) = #[trigger] self@.key_ids[i];
                1 <= n <= self@.keys.len() && self@.keys[n - 1] == k@
            } by {
                if i < o.key_ids.len() {
                    assert(self@.key_ids[i] == o.key_ids[i]);
                    let (k, n) = o.key_ids[i];
                    assert(1 <= n <= o.keys.len() && o.keys[n - 1] == k@);
                }
            }
        }
        id
    }

    /// The number of tag value `value` under key `key`, numbering it with the
    /// next number (and counting it under the key) when it has none.
    pub fn get_or_create_id(&mut self, key: &str, value: &str) -> (r: u64)
        requires
            old(self)@.wf(),
            old(self).counters_ok(),
            old(self)@.values.len() + 1 < u64::MAX,
        ensures
            final(self)@.wf(),
            final(self).counters_ok(),
            r == (match bytes_find(old(self)@.value_ids, composite_of(key@, value@)) {
                Some(id) => id,
                None => (old(self)@.values.len() + 1) as u64,
            }),
            final(self)@.values.len() >= r >= 1,
            bytes_find(old(self)@.value_ids, composite_of(key@, value@)) is None ==> {
                &&& final(self)@.values == old(self)@.values.push(value@)
                &&& forall|k: Seq<char>|
                    #[trigger] assoc_find(final(self)@.counts, k) == (if k == key@ {
                        Some(
                            (match assoc_find(old(self)@.counts, k) {
                                Some(c) => c,
                                None => 0,
                            } + 1) as usize,
                        )
                    } else {
                        assoc_find(old(self)@.counts, k)
                    })
            },
            bytes_find(old(self)@.value_ids, composite_of(key@, value@)) is Some ==> {
                &&& final(self)@.values == old(self)@.values
                &&& final(self)@.counts == old(self)@.counts
            },
            bytes_find(final(self)@.value_ids, composite_of(key@, value@)) == Some(r),
            old(self)@.value_ids.is_prefix_of(final(self)@.value_ids),
            final(self)@.key_ids == old(self)@.key_ids,
            final(self)@.keys == old(self)@.keys,
    {
        let ghost o = self@;
        let mut composite: Vec<u8> = Vec::new();
        append_bytes(&mut composite, key.as_bytes());
        composite.push(58u8);
        append_bytes(&mut composite, value.as_bytes());
        assert(composite@ =~= composite_of(key@, value@));
        let (found, existing) = find_bytes(&self.value_ids, &composite);
        if found {
            proof {
                lemma_bytes_find_in(o.value_ids, composite@);
            }
            return existing;
        }
        let id = self.next_value_id;
        self.next_value_id = self.next_value_id + 1;
        self.reverse_values.push(value.to_owned());
        assert(self@.values =~= o.values.push(value@));
        let ghost cv = composite;
        self.value_ids.push((composite, id));
        proof {
            lemma_bytes_find_push(o.value_ids, cv, id);
            assert forall|i: int| 0 <= i < self@.value_ids.len() implies {
                let (_, n) = #[trigger] self@.value_ids[i];
                1 <= n <= self@.values.len()
            } by {
                if i < o.value_ids.len() {
                    assert(self@.value_ids[i] == o.value_ids[i]);
                }
            }
        }
        assert forall|i: int| 0 <= i < self.tag_value_counts@.len() implies (#[trigger] self.tag_value_counts@[i]).1
            < self.reverse_values@.len() by {
            assert(o.counts[i].1 <= o.values.len());
        }
        self.count_value(key);
        proof {
            assert(self@.values.len() < u64::MAX);
            assert(self@.keys.len() < u64::MAX);
            assert(self@.key_ids == o.key_ids);
            assert(self@.keys == o.keys);
            assert forall|i: int| 0 <= i < self@.key_ids.len() implies {
                let (k, n) = #[trigger] self@.key_ids[i];
                1 <= n <= self@.keys.len() && self@.keys[n - 1] == k@
            } by {
                let (k, n) = o.key_ids[i];
                assert(1 <= n <= o.keys.len() && o.keys[n - 1] == k@);
            }
            assert forall|i: int| 0 <= i < self@.value_ids.len() implies {
                let (_, n) = #[trigger] self@.value_ids[i];
                1 <= n <= self@.values.len()
            } by {
                assert(self@.value_ids[i] == self.value_ids@[i]);
            }
        }
        id
    }

    /// Counts one more value under `key`.
    fn count_value(&mut self, key: &str)
        requires
            old(self).reverse_values@.len() >= 1,
            forall|i: int|
                0 <= i < old(self).tag_value_counts@.len() ==> (#[trigger] old(self).tag_value_counts@[i]).1
                    < old(self).reverse_values@.len(),
        ensures
            final(self).tag_value_counts@.len() >= old(self).tag_value_counts@.len(),
            forall|i: int|
                0 <= i < final(self).tag_value_counts@.len() ==> (#[trigger] final(self).tag_value_counts@[i]).1
                    <= final(self).reverse_values@.len(),
            final(self).key_ids@ == old(self).key_ids@,
            final(self).value_ids@ == old(self).value_ids@,
            final(self).reverse_keys@ == old(self).reverse_keys@,
            final(self).reverse_values@ == old(self).reverse_values@,
            final(self).next_key_id == old(self).next_key_id,
            final(self).next_value_id == old(self).next_value_id,
            forall|k: Seq<char>|
                #[trigger] assoc_find(final(self).tag_value_counts@, k) == (if k == key@ {
                    Some(
                        (match assoc_find(old(self).tag_value_counts@, k) {
                            Some(c) => c,
                            None => 0,
                        } + 1) as usize,
                    )
                } else {
                    assoc_find(old(self).tag_value_counts@, k)
                }),
    {
        let ghost o = self.tag_value_counts@;
        let p = assoc_pos(&self.tag_value_counts, key);
        if p < self.tag_value_counts.len() {
            let ghost k0 = o[p as int].0;
            let c = self.tag_value_counts[p].1;
            let n = self.reverse_values.len();
            assert(c < n);
            self.tag_value_counts[p].1 = c + 1;
            proof {
                assert(self.tag_value_counts@ =~= o.update(p as int, (k0, (c + 1) as usize)));
                lemma_find_update(o, key@, p as int, (c + 1) as usize);
                assert forall|i: int| 0 <= i < self.tag_value_counts@.len() implies (#[trigger] self.tag_value_counts@[i]).1
                    <= self.reverse_values@.len() by {
                    if i != p {
                        assert(self.tag_value_counts@[i] == o[i]);
                    }
                }
            }
        } else {
            let owned = key.to_owned();
            proof {
                lemma_find_push(o, owned, 1usize);
            }
            self.tag_value_counts.push((owned, 1));
            proof {
                assert forall|i: int| 0 <= i < self.tag_value_counts@.len() implies (#[trigger] self.tag_value_counts@[i]).1
                    <= self.reverse_values@.len() by {
                    if i < o.len() {
                        assert(self.tag_value_counts@[i] == o[i]);
                    }
                }
            }
        }
    }

    /// The tag value numbered `id`, if any.
    /// How many tag keys are numbered.
    pub fn key_count(&self) -> (r: usize)
        ensures
            r == self@.keys.len(),
    {
        self.reverse_keys.len()
    }

    /// How many tag values are numbered.
    pub fn value_total(&self) -> (r: usize)
        ensures
            r == self@.values.len(),
    {
        self.reverse_values.len()
    }

    pub fn get_value_by_id(&self, id: u64) -> (r: Option<String>)
        ensures
            r matches Some(s) ==> 1 <= id <= self@.values.len() && s@ == self@.values[id - 1],
            r is None ==> !(1 <= id <= self@.values.len()),
    {
        if id >= 1 && id <= self.reverse_values.len() as u64 {
            Some(self.reverse_values[(id - 1) as usize].clone())
        } else {
            None
        }
    }

    /// The tag key numbered `id`, if any.
    pub fn get_key_by_id(&self, id: u64) -> (r: Option<String>)
        ensures
            r matches Some(s) ==> 1 <= id <= self@.keys.len() && s@ == self@.keys[id - 1],
            r is None ==> !(1 <= id <= self@.keys.len()),
    {
        if id >= 1 && id <= self.reverse_keys.len() as u64 {
            Some(self.reverse_keys[(id - 1) as usize].clone())
        } else {
            None
        }
    }

    /// How many values were numbered under `key`.
    pub fn value_count_for_key(&self, key: &str) -> (r: usize)
        ensures
            r == (match assoc_find(self@.counts, key@) {
                Some(c) => c,
                None => 0,
            }),
    {
        let p = assoc_pos(&self.tag_value_counts, key);
        if p < self.tag_value_counts.len() {
            self.tag_value_counts[p].1
        } else {
            0
        }
    }
}

/// What a number was found for is found still once entries are appended.
pub proof fn lemma_bytes_find_prefix(a: Seq<(Vec<u8>, u64)>, b: Seq<(Vec<u8>, u64)>, c: Seq<u8>)
    requires
        a.is_prefix_of(b),
    ensures
        bytes_find(a, c) is Some ==> bytes_find(b, c) == bytes_find(a, c),
    decreases a.len(),
{
    if a.len() > 0 && a[0].0@ != c {
        assert(b.len() > 0 && b[0] == a[0]);
        assert(a.drop_first().is_prefix_of(b.drop_first())) by {
            assert forall|i: int| 0 <= i < a.drop_first().len() implies a.drop_first()[i] == b.drop_first()[i] by {
                assert(a[i + 1] == b[i + 1]);
            }
        }
        lemma_bytes_find_prefix(a.drop_first(), b.drop_first(), c);
    } else if a.len() > 0 {
        assert(b[0] == a[0]);
    }
}

proof fn lemma_bytes_find_in(s: Seq<(Vec<u8>, u64)>, c: Seq<u8>)
    ensures
        bytes_find(s, c) matches Some(id) ==> exists|i: int| 0 <= i < s.len() && (#[trigger] s[i]).1 == id,
    decreases s.len(),
{
    if s.len() > 0 && s[0].0@ != c {
        lemma_bytes_find_in(s.drop_first(), c);
        if bytes_find(s, c) is Some {
            let i = choose|i: int| 0 <= i < s.drop_first().len() && (#[trigger] s.drop_first()[i]).1 == bytes_find(s, c)->0;
            assert(s[i + 1] == s.drop_first()[i]);
        }
    } else if s.len() > 0 {
        assert(s[0].1 == s[0].1);
    }
}

proof fn lemma_bytes_find_push(s: Seq<(Vec<u8>, u64)>, v: Vec<u8>, id: u64)
    requires
        bytes_find(s, v@) is None,
    ensures
        bytes_find(s.push((v, id)), v@) == Some(id),
    decreases s.len(),
{
    if s.len() > 0 {
        assert(s.push((v, id)).drop_first() =~= s.drop_first().push((v, id)));
        lemma_bytes_find_push(s.drop_first(), v, id);
    }
}

/// Finds the number of the first entry whose bytes are `c`.
fn find_bytes(s: &Vec<(Vec<u8>, u64)>, c: &Vec<u8>) -> (r: (bool, u64))
    ensures
        r.0 == bytes_find(s@, c@) is Some,
        r.0 ==> bytes_find(s@, c@) == Some(r.1),
{
    let mut i: usize = 0;
    assert(s@.skip(0) =~= s@);
    while i < s.len()
        invariant
            i <= s.len(),
            bytes_find(s@, c@) == bytes_find(s@.skip(i as int), c@),
        decreases s.len() - i,
    {
        assert(s@.skip(i as int).drop_first() =~= s@.skip(i as int + 1));
        if bytes_eq(&s[i].0, c) {
            return (true, s[i].1);
        }
        i = i + 1;
    }
    (false, 0)
}

/// Whether two byte strings are equal.
fn bytes_eq(a: &Vec<u8>, b: &Vec<u8>) -> (r: bool)
    ensures
        r == (a@ == b@),
{
    if a.len() != b.len() {
        return false;
    }
    let mut i: usize = 0;
    while i < a.len()
        invariant
            i <= a.len(),
            a.len() == b.len(),
            forall|j: int| 0 <= j < i ==> a@[j] == b@[j],
        decreases a.len() - i,
    {
        if a[i] != b[i] {
            return false;
        }
        i = i + 1;
    }
    assert(a@ =~= b@);
    true
}


/// A number leads back to what it numbers: in a well-formed dictionary, the
/// key found under a number is the key that was numbered with it.
pub proof fn lemma_key_roundtrip(v: DictView, key: Seq<char>)
    requires
        v.wf(),
        assoc_find(v.key_ids, key) is Some,
    ensures
        ({
            let id = assoc_find(v.key_ids, key)->0;
            1 <= id <= v.keys.len() && v.keys[id - 1] == key
        }),
{
    lemma_find_in_keys(v.key_ids, key);
    let id = assoc_find(v.key_ids, key)->0;
    let i = choose|i: int| 0 <= i < v.key_ids.len() && v.key_ids[i].0@ == key && #[trigger] v.key_ids[i].1 == id;
    let (k, n) = v.key_ids[i];
    assert(1 <= n <= v.keys.len() && v.keys[n - 1] == k@);
}

proof fn lemma_find_in_keys(s: Seq<(String, u64)>, key: Seq<char>)
    ensures
        assoc_find(s, key) matches Some(id) ==> exists|i: int|
            0 <= i < s.len() && s[i].0@ == key && #[trigger] s[i].1 == id,
    decreases s.len(),
{
    if s.len() > 0 && s[0].0@ != key {
        lemma_find_in_keys(s.drop_first(), key);
        if assoc_find(s, key) is Some {
            let id = assoc_find(s, key)->0;
            let i = choose|i: int| 0 <= i < s.drop_first().len() && s.drop_first()[i].0@ == key && #[trigger] s.drop_first()[i].1 == id;
            assert(s[i + 1] == s.drop_first()[i]);
        }
    } else if s.len() > 0 {
        assert(s[0].1 == s[0].1);
    }
}
} // verus!
