use vstd::prelude::*;
use crate::text::{str_eq, join_text, decimal, decimal_text};
use crate::series_key::{sort_tags_by_key, sort_by_key_spec};

verus! {

/// The most aggregates the cache holds.
pub const AGG_CACHE_MAX_ENTRIES: usize = 500;

/// How long, in seconds, a cached aggregate stays valid.
pub const AGG_CACHE_TTL_SECS: u64 = 15;

/// The `|key=value` parts of a cache key, one for each tag in order.
pub open spec fn tags_text(sorted: Seq<(String, String)>) -> Seq<char>
    decreases sorted.len(),
{
    if sorted.len() == 0 {
        seq![]
    } else {
        tags_text(sorted.drop_last()) + "|"@ + sorted.last().0@ + "="@ + sorted.last().1@
    }
}

/// The cache key of an aggregate: the metric, each tag as `key=value` in key
/// order, and `w` with the window length, joined by `|`.
pub open spec fn cache_key_spec(metric: Seq<char>, tags: Seq<(String, String)>, window_secs: u64) -> Seq<char> {
    metric + tags_text(sort_by_key_spec(tags)) + "|w"@ + decimal(window_secs as nat)
}

/// The cache key of the aggregate of `metric` with `tags` over a window of
/// `window_secs` seconds.
pub fn make_key(metric: &str, tags: &Vec<(String, String)>, window_secs: u64) -> (r: String)
    ensures
        r@ == cache_key_spec(metric@, tags@, window_secs),
{
    let sorted = sort_tags_by_key(tags);
    let mut key = metric.to_owned();
    let mut i: usize = 0;
    assert(sorted@.take(0) =~= Seq::<(String, String)>::empty());
    while i < sorted.len()
        invariant
            i <= sorted.len(),
            key@ == metric@ + tags_text(sorted@.take(i as int)),
        decreases sorted.len() - i,
    {
        let a = join_text(key.as_str(), "|");
        let b = join_text(a.as_str(), sorted[i].0.as_str());
        let c = join_text(b.as_str(), "=");
        key = join_text(c.as_str(), sorted[i].1.as_str());
        proof {
            let t = sorted@.take(i as int + 1);
            assert(t.drop_last() =~= sorted@.take(i as int));
            assert(t.last() == sorted@[i as int]);
            assert(key@ =~= metric@ + tags_text(t));
        }
        i = i + 1;
    }
    assert(sorted@.take(sorted@.len() as int) =~= sorted@);
    let w = decimal_text(window_secs);
    let d = join_text(key.as_str(), "|w");
    let r = join_text(d.as_str(), w.as_str());
    assert(r@ =~= cache_key_spec(metric@, tags@, window_secs));
    r
}

/// A cached aggregate: its key, the IEEE-754 bit pattern of its value, and
/// the time (nanoseconds) it was computed at.
pub struct CacheEntry {
    pub key: String,
    pub value_bits: u64,
    pub computed_at: i64,
}

impl View for CacheEntry {
    type V = (Seq<char>, u64, i64);

    open spec fn view(&self) -> (Seq<char>, u64, i64) {
        (self.key@, self.value_bits, self.computed_at)
    }
}

/// A bounded cache of computed aggregates, oldest first: a full cache drops
/// its oldest entry to take a new key, and a put of a cached key refreshes it
/// and makes it the newest.
pub struct AggCache {
    entries: Vec<CacheEntry>,
}

/// The position of the entry with key `k`, if any.
pub open spec fn entry_pos(s: Seq<(Seq<char>, u64, i64)>, k: Seq<char>) -> Option<int> {
    if exists|i: int| 0 <= i < s.len() && (#[trigger] s[i]).0 == k {
        Some(choose|i: int| 0 <= i < s.len() && (#[trigger] s[i]).0 == k)
    } else {
        None
    }
}

/// The cached value and time of key `k`, if any.
pub open spec fn cached(s: Seq<(Seq<char>, u64, i64)>, k: Seq<char>) -> Option<(u64, i64)> {
    match entry_pos(s, k) {
        Some(i) => Some((s[i].1, s[i].2)),
        None => None,
    }
}

/// The entries after a put of `(k, bits)` at `now`.
pub open spec fn put_spec(s: Seq<(Seq<char>, u64, i64)>, k: Seq<char>, bits: u64, now: i64) -> Seq<
    (Seq<char>, u64, i64),
> {
    match entry_pos(s, k) {
        Some(i) => s.remove(i).push((k, bits, now)),
        None => if s.len() >= AGG_CACHE_MAX_ENTRIES {
            s.drop_first().push((k, bits, now))
        } else {
            s.push((k, bits, now))
        },
    }
}

/// Whether an entry computed at `at` is still valid at `now`.
pub open spec fn fresh(at: i64, now: i64) -> bool {
    now - at < AGG_CACHE_TTL_SECS * 1_000_000_000
}

/// Keys at distinct positions differ.
pub open spec fn keys_unique(s: Seq<(Seq<char>, u64, i64)>) -> bool {
    forall|i: int, j: int| 0 <= i < j < s.len() ==> (#[trigger] s[i]).0 != (#[trigger] s[j]).0
}

proof fn lemma_pos_unique(s: Seq<(Seq<char>, u64, i64)>, k: Seq<char>, i: int)
    requires
        keys_unique(s),
        0 <= i < s.len(),
        s[i].0 == k,
    ensures
        entry_pos(s, k) == Some(i),
{
    let j = choose|j: int| 0 <= j < s.len() && (#[trigger] s[j]).0 == k;
    if j != i {
        if j < i {
            assert(s[j].0 != s[i].0);
        } else {
            assert(s[i].0 != s[j].0);
        }
    }
}

impl View for AggCache {
    type V = Seq<(Seq<char>, u64, i64)>;

    closed spec fn view(&self) -> Seq<(Seq<char>, u64, i64)> {
        self.entries@.map_values(|e: CacheEntry| e@)
    }
}

impl AggCache {
    /// No key twice, and at most the bound of entries.
    pub open spec fn wf(&self) -> bool {
        keys_unique(self@) && self@.len() <= AGG_CACHE_MAX_ENTRIES
    }

    /// An empty cache.
    pub fn new() -> (r: Self)
        ensures
            r.wf(),
            r@.len() == 0,
    {
        let r = AggCache { entries: Vec::new() };
        assert(r@ =~= Seq::<(Seq<char>, u64, i64)>::empty());
        r
    }

    /// How many aggregates are cached.
    pub fn len(&self) -> (r: usize)
        ensures
            r == self@.len(),
    {
        self.entries.len()
    }

    fn position(&self, key: &str) -> (r: Option<usize>)
        requires
            self.wf(),
        ensures
            match r {
                Some(i) => entry_pos(self@, key@) == Some(i as int),
                None => entry_pos(self@, key@) is None,
            },
    {
        let mut i: usize = 0;
        while i < self.entries.len()
            invariant
                i <= self.entries.len(),
                self.wf(),
                forall|j: int| 0 <= j < i ==> (#[trigger] self@[j]).0 != key@,
            decreases self.entries.len() - i,
        {
            if str_eq(self.entries[i].key.as_str(), key) {
                proof {
                    lemma_pos_unique(self@, key@, i as int);
                }
                return Some(i);
            }
            i = i + 1;
        }
        None
    }

    /// Whether the age of the entry of `key` at `now_nanos` can be computed
    /// in an `i64` (so when there is no such entry).
    pub fn age_fits(&self, key: &str, now_nanos: i64) -> (r: bool)
        requires
            self.wf(),
        ensures
            r == (cached(self@, key@) matches Some((_, at)) ==> i64::MIN <= now_nanos - at <= i64::MAX),
    {
        match self.position(key) {
            Some(i) => {
                let d: i128 = now_nanos as i128 - self.entries[i].computed_at as i128;
                d >= i64::MIN as i128 && d <= i64::MAX as i128
            },
            None => true,
        }
    }

    /// The cached value of `key`, as its bit pattern, if it was computed less
    /// than the time to live before `now`.
    pub fn get(&self, key: &str, now_nanos: i64) -> (r: Option<u64>)
        requires
            self.wf(),
            cached(self@, key@) matches Some((_, at)) ==> i64::MIN <= now_nanos - at <= i64::MAX,
        ensures
            r == (match cached(self@, key@) {
                Some((bits, at)) => if fresh(at, now_nanos) {
                    Some(bits)
                } else {
                    None
                },
                None => None,
            }),
    {
        match self.position(key) {
            Some(i) => {
                let e = &self.entries[i];
                let elapsed = now_nanos - e.computed_at;
                let ttl_nanos: i64 = AGG_CACHE_TTL_SECS as i64 * 1_000_000_000;
                if elapsed < ttl_nanos {
                    Some(e.value_bits)
                } else {
                    None
                }
            },
            None => None,
        }
    }

    /// Caches the value `value_bits` of `key`, computed at `now_nanos`.
    pub fn put(&mut self, key: String, value_bits: u64, now_nanos: i64)
        requires
            old(self).wf(),
        ensures
            final(self).wf(),
            final(self)@ == put_spec(old(self)@, key@, value_bits, now_nanos),
    {
        let ghost s = self@;
        let ghost k = key@;
        match self.position(key.as_str()) {
            Some(i) => {
                let ghost ent = self.entries@;
                self.entries.remove(i);
                assert(self@ =~= s.remove(i as int)) by {
                    assert(self.entries@ =~= ent.remove(i as int));
                }
            },
            None => {
                if self.entries.len() >= AGG_CACHE_MAX_ENTRIES {
                    let ghost ent = self.entries@;
                    self.entries.remove(0);
                    assert(self@ =~= s.drop_first()) by {
                        assert(self.entries@ =~= ent.remove(0));
                    }
                }
            },
        }
        let ghost mid = self@;
        let e = CacheEntry { key, value_bits, computed_at: now_nanos };
        self.entries.push(e);
        assert(self@ =~= mid.push((k, value_bits, now_nanos)));
        assert forall|a: int, b: int| 0 <= a < b < self@.len() implies (#[trigger] self@[a]).0 != (
        #[trigger] self@[b]).0 by {
            if b == self@.len() - 1 {
                if entry_pos(s, k) is None {
                    if s.len() >= AGG_CACHE_MAX_ENTRIES {
                        assert(self@[a] == s[a + 1]);
                    } else {
                        assert(self@[a] == s[a]);
                    }
                } else {
                    let p = entry_pos(s, k)->0;
                    if a < p {
                        assert(self@[a] == s[a]);
                        assert(s[a].0 != s[p].0);
                    } else {
                        assert(self@[a] == s[a + 1]);
                        assert(s[p].0 != s[a + 1].0);
                    }
                }
            } else {
                if entry_pos(s, k) is None {
                    if s.len() >= AGG_CACHE_MAX_ENTRIES {
                        assert(self@[a] == s[a + 1]);
                        assert(self@[b] == s[b + 1]);
                    }
                } else {
                    let p = entry_pos(s, k)->0;
                    let a2 = if a < p { a } else { a + 1 };
                    let b2 = if b < p { b } else { b + 1 };
                    assert(self@[a] == s[a2]);
                    assert(self@[b] == s[b2]);
                }
            }
        }
    }
}

/// After a put, a get of the same key at most the time to live later gives
/// back the value put.
pub proof fn lemma_get_after_put(s: Seq<(Seq<char>, u64, i64)>, k: Seq<char>, bits: u64, at: i64, now: i64)
    requires
        keys_unique(put_spec(s, k, bits, at)),
        fresh(at, now),
    ensures
        cached(put_spec(s, k, bits, at), k) == Some((bits, at)),
{
    let t = put_spec(s, k, bits, at);
    lemma_pos_unique(t, k, t.len() - 1);
}

/// A put of one key leaves what is cached under every other key, but for
/// the oldest entry, which a full cache drops to take a new key.
pub proof fn lemma_put_keeps_others(s: Seq<(Seq<char>, u64, i64)>, k: Seq<char>, bits: u64, at: i64, other: Seq<char>)
    requires
        keys_unique(s),
        keys_unique(put_spec(s, k, bits, at)),
        other != k,
        !(entry_pos(s, k) is None && s.len() >= AGG_CACHE_MAX_ENTRIES && s.len() > 0 && s[0].0 == other),
    ensures
        cached(put_spec(s, k, bits, at), other) == cached(s, other),
{
    let t = put_spec(s, k, bits, at);
    match entry_pos(s, other) {
        Some(i) => {
            let j: int = match entry_pos(s, k) {
                Some(p) => if i < p { i } else { i - 1 },
                None => if s.len() >= AGG_CACHE_MAX_ENTRIES { i - 1 } else { i },
            };
            if entry_pos(s, k) is Some {
                let p = entry_pos(s, k)->0;
                assert(i != p);
            }
            assert(t[j] == s[i]);
            lemma_pos_unique(t, other, j);
        },
        None => {
            if exists|j: int| 0 <= j < t.len() && (#[trigger] t[j]).0 == other {
                let j = choose|j: int| 0 <= j < t.len() && (#[trigger] t[j]).0 == other;
                let i: int = match entry_pos(s, k) {
                    Some(p) => if j < p { j } else { j + 1 },
                    None => if s.len() >= AGG_CACHE_MAX_ENTRIES { j + 1 } else { j },
                };
                assert(t[j] == s[i]);
                assert(false);
            }
        },
    }
}

} // verus!
