use vstd::prelude::*;
use vstd::utf8::encode_utf8;
use vstd::string::StringSliceAdditionalSpecFns;
use crate::engine::block::BlockMeta;
use crate::text::{lemma_encode_injective, str_eq, str_lt, bytes_lt, lemma_bytes_lt_irreflexive, lemma_bytes_lt_transitive, lemma_bytes_lt_total};

verus! {

/// Whether string `a` sorts before `b` (byte-wise, as `String`'s order).
pub open spec fn id_before(a: Seq<char>, b: Seq<char>) -> bool {
    bytes_lt(encode_utf8(a), encode_utf8(b))
}

/// Block ids strictly ascending, as a map keyed by them keeps them.
pub open spec fn blocks_ascending(bs: Seq<BlockMeta>) -> bool {
    forall|i: int, j: int| 0 <= i < j < bs.len() ==> id_before(bs[i].block_id@, bs[j].block_id@)
}

/// The block with id `id`, if one is registered.
pub open spec fn block_by_id(bs: Seq<BlockMeta>, id: Seq<char>) -> Option<BlockMeta>
    decreases bs.len(),
{
    if bs.len() == 0 {
        None
    } else if bs[0].block_id@ == id {
        Some(bs[0])
    } else {
        block_by_id(bs.drop_first(), id)
    }
}

/// The ids registered under a metric, in the order they were added.
pub open spec fn ids_for(mb: Seq<(Seq<char>, Seq<Seq<char>>)>, metric: Seq<char>) -> Seq<Seq<char>>
    decreases mb.len(),
{
    if mb.len() == 0 {
        seq![]
    } else if mb[0].0 == metric {
        mb[0].1
    } else {
        ids_for(mb.drop_first(), metric)
    }
}

/// The metric lists after `id` is added under `metric`.
pub open spec fn append_id(mb: Seq<(Seq<char>, Seq<Seq<char>>)>, metric: Seq<char>, id: Seq<char>) -> Seq<
    (Seq<char>, Seq<Seq<char>>),
>
    decreases mb.len(),
{
    if mb.len() == 0 {
        seq![(metric, seq![id])]
    } else if mb[0].0 == metric {
        seq![(metric, mb[0].1.push(id))] + mb.drop_first()
    } else {
        seq![mb[0]] + append_id(mb.drop_first(), metric, id)
    }
}

/// A list of ids without `id`.
pub open spec fn without_id(ids: Seq<Seq<char>>, id: Seq<char>) -> Seq<Seq<char>>
    decreases ids.len(),
{
    if ids.len() == 0 {
        seq![]
    } else if ids.last() == id {
        without_id(ids.drop_last(), id)
    } else {
        without_id(ids.drop_last(), id).push(ids.last())
    }
}

/// The metric lists after every `id` is taken out of the list of `metric`.
pub open spec fn drop_id(mb: Seq<(Seq<char>, Seq<Seq<char>>)>, metric: Seq<char>, id: Seq<char>) -> Seq<
    (Seq<char>, Seq<Seq<char>>),
>
    decreases mb.len(),
{
    if mb.len() == 0 {
        mb
    } else if mb[0].0 == metric {
        seq![(metric, without_id(mb[0].1, id))] + mb.drop_first()
    } else {
        seq![mb[0]] + drop_id(mb.drop_first(), metric, id)
    }
}

/// The registered blocks, found by the ids of `ids` in order, whose time span
/// `[min_timestamp, max_timestamp]` meets `[start, end)`.
pub open spec fn overlapping(ids: Seq<Seq<char>>, bs: Seq<BlockMeta>, start: i64, end: i64) -> Seq<BlockMeta>
    decreases ids.len(),
{
    if ids.len() == 0 {
        seq![]
    } else {
        let rest = overlapping(ids.drop_last(), bs, start, end);
        match block_by_id(bs, ids.last()) {
            Some(m) => if m.max_timestamp >= start && m.min_timestamp < end {
                rest.push(m)
            } else {
                rest
            },
            None => rest,
        }
    }
}

/// The time index as a value: the registered blocks in ascending id order,
/// and for each metric the ids added under it.
pub struct TimeIndexView {
    pub blocks: Seq<BlockMeta>,
    pub metric_blocks: Seq<(Seq<char>, Seq<Seq<char>>)>,
}

impl TimeIndexView {
    pub open spec fn wf(self) -> bool {
        blocks_ascending(self.blocks)
    }
}

/// Which blocks hold which metric and time span.
pub struct TimeIndex {
    blocks: Vec<BlockMeta>,
    metric_blocks: Vec<(String, Vec<String>)>,
}

pub open spec fn lists_view(mb: Seq<(String, Vec<String>)>) -> Seq<(Seq<char>, Seq<Seq<char>>)> {
    mb.map_values(|e: (String, Vec<String>)| (e.0@, e.1@.map_values(|s: String| s@)))
}

impl View for TimeIndex {
    type V = TimeIndexView;

    closed spec fn view(&self) -> TimeIndexView {
        TimeIndexView { blocks: self.blocks@, metric_blocks: lists_view(self.metric_blocks@) }
    }
}

proof fn lemma_before_ne(a: Seq<char>, b: Seq<char>)
    requires
        id_before(a, b),
    ensures
        a != b,
{
    lemma_bytes_lt_irreflexive(encode_utf8(a));
}

proof fn lemma_by_id_at(bs: Seq<BlockMeta>, x: Seq<char>, k: int)
    requires
        0 <= k < bs.len(),
        bs[k].block_id@ == x,
        forall|j: int| 0 <= j < k ==> bs[j].block_id@ != x,
    ensures
        block_by_id(bs, x) == Some(bs[k]),
    decreases k,
{
    if k > 0 {
        lemma_by_id_at(bs.drop_first(), x, k - 1);
    }
}

proof fn lemma_by_id_absent(bs: Seq<BlockMeta>, x: Seq<char>)
    requires
        forall|j: int| 0 <= j < bs.len() ==> bs[j].block_id@ != x,
    ensures
        block_by_id(bs, x) == None::<BlockMeta>,
    decreases bs.len(),
{
    if bs.len() > 0 {
        lemma_by_id_absent(bs.drop_first(), x);
    }
}

/// In an ascending list, the block of an id is the one at the index that
/// holds it, and there is none where no index holds it.
proof fn lemma_by_id_ascending(bs: Seq<BlockMeta>, x: Seq<char>)
    requires
        blocks_ascending(bs),
    ensures
        forall|k: int| 0 <= k < bs.len() && bs[k].block_id@ == x ==> block_by_id(bs, x) == Some(bs[k]),
        (forall|k: int| 0 <= k < bs.len() ==> bs[k].block_id@ != x) ==> block_by_id(bs, x) == None::<BlockMeta>,
{
    assert forall|k: int| 0 <= k < bs.len() && bs[k].block_id@ == x implies block_by_id(bs, x) == Some(bs[k]) by {
        assert forall|j: int| 0 <= j < k implies bs[j].block_id@ != x by {
            lemma_before_ne(bs[j].block_id@, bs[k].block_id@);
        }
        lemma_by_id_at(bs, x, k);
    }
    if forall|k: int| 0 <= k < bs.len() ==> bs[k].block_id@ != x {
        lemma_by_id_absent(bs, x);
    }
}

proof fn lemma_append_id_at(mb: Seq<(Seq<char>, Seq<Seq<char>>)>, metric: Seq<char>, id: Seq<char>, i: int)
    requires
        0 <= i <= mb.len(),
        forall|j: int| 0 <= j < i ==> mb[j].0 != metric,
        i < mb.len() ==> mb[i].0 == metric,
    ensures
        append_id(mb, metric, id) == (if i < mb.len() {
            mb.update(i, (metric, mb[i].1.push(id)))
        } else {
            mb.push((metric, seq![id]))
        }),
    decreases i,
{
    let r = append_id(mb, metric, id);
    if i == 0 {
        if mb.len() == 0 {
            assert(r =~= mb.push((metric, seq![id])));
        } else {
            assert(r =~= mb.update(0, (metric, mb[0].1.push(id))));
        }
    } else {
        lemma_append_id_at(mb.drop_first(), metric, id, i - 1);
        if i < mb.len() {
            assert(r =~= mb.update(i, (metric, mb[i].1.push(id))));
        } else {
            assert(r =~= mb.push((metric, seq![id])));
        }
    }
}

proof fn lemma_drop_id_at(mb: Seq<(Seq<char>, Seq<Seq<char>>)>, metric: Seq<char>, id: Seq<char>, i: int)
    requires
        0 <= i <= mb.len(),
        forall|j: int| 0 <= j < i ==> mb[j].0 != metric,
        i < mb.len() ==> mb[i].0 == metric,
    ensures
        drop_id(mb, metric, id) == (if i < mb.len() {
            mb.update(i, (metric, without_id(mb[i].1, id)))
        } else {
            mb
        }),
    decreases i,
{
    let r = drop_id(mb, metric, id);
    if i == 0 {
        if mb.len() > 0 {
            assert(r =~= mb.update(0, (metric, without_id(mb[0].1, id))));
        }
    } else {
        lemma_drop_id_at(mb.drop_first(), metric, id, i - 1);
        if i < mb.len() {
            assert(r =~= mb.update(i, (metric, without_id(mb[i].1, id))));
        } else {
            assert(r =~= mb);
        }
    }
}

proof fn lemma_ids_for_at(mb: Seq<(Seq<char>, Seq<Seq<char>>)>, metric: Seq<char>, i: int)
    requires
        0 <= i <= mb.len(),
        forall|j: int| 0 <= j < i ==> mb[j].0 != metric,
        i < mb.len() ==> mb[i].0 == metric,
    ensures
        ids_for(mb, metric) == (if i < mb.len() { mb[i].1 } else { seq![] }),
    decreases i,
{
    if i > 0 {
        lemma_ids_for_at(mb.drop_first(), metric, i - 1);
    }
}

impl TimeIndex {
    /// An index with no block.
    pub fn new() -> (r: Self)
        ensures
            r@.blocks.len() == 0,
            r@.metric_blocks.len() == 0,
            r@.wf(),
    {
        let r = TimeIndex { blocks: Vec::new(), metric_blocks: Vec::new() };
        assert(r@.metric_blocks =~= Seq::<(Seq<char>, Seq<Seq<char>>)>::empty());
        r
    }

    /// The index at which a block of id `id` stands or would stand, and
    /// whether it stands there.
    fn block_pos(&self, id: &str) -> (r: (usize, bool))
        requires
            self@.wf(),
        ensures
            r.0 <= self.blocks@.len(),
            forall|j: int| 0 <= j < r.0 ==> id_before(self.blocks@[j].block_id@, id@),
            r.0 < self.blocks@.len() ==> !id_before(self.blocks@[r.0 as int].block_id@, id@),
            r.1 == (r.0 < self.blocks@.len() && self.blocks@[r.0 as int].block_id@ == id@),
            r.1 ==> block_by_id(self@.blocks, id@) == Some(self.blocks@[r.0 as int]),
            !r.1 ==> block_by_id(self@.blocks, id@) == None::<BlockMeta>,
            !r.1 && r.0 < self.blocks@.len() ==> id_before(id@, self.blocks@[r.0 as int].block_id@),
    {
        let ghost bs = self.blocks@;
        let mut i: usize = 0;
        while i < self.blocks.len() && str_lt(self.blocks[i].block_id.as_str(), id)
            invariant
                i <= self.blocks.len(),
                bs == self.blocks@,
                forall|j: int| 0 <= j < i ==> id_before(bs[j].block_id@, id@),
            decreases self.blocks.len() - i,
        {
            i = i + 1;
        }
        let found = i < self.blocks.len() && str_eq(self.blocks[i].block_id.as_str(), id);
        proof {
            lemma_by_id_ascending(bs, id@);
            if !found {
                assert forall|k: int| 0 <= k < bs.len() implies bs[k].block_id@ != id@ by {
                    if k < i {
                        lemma_before_ne(bs[k].block_id@, id@);
                    } else if k == i {
                    } else {
                        let a = encode_utf8(bs[i as int].block_id@);
                        let c = encode_utf8(id@);
                        lemma_bytes_lt_total(a, c);
                        if a =~= c {
                            lemma_encode_injective(bs[i as int].block_id@, id@);
                        }
                        assert(id_before(bs[i as int].block_id@, bs[k].block_id@));
                        lemma_bytes_lt_transitive(c, a, encode_utf8(bs[k].block_id@));
                        lemma_before_ne(id@, bs[k].block_id@);
                    }
                }
                if i < bs.len() {
                    let a = encode_utf8(bs[i as int].block_id@);
                    let c = encode_utf8(id@);
                    lemma_bytes_lt_total(a, c);
                    if a =~= c {
                        lemma_encode_injective(bs[i as int].block_id@, id@);
                    }
                }
            }
        }
        (i, found)
    }

    /// Registers a block under its id and metric. A block whose id is
    /// registered with the same time span is ignored; one whose id is
    /// registered with another span replaces it, and its id is added under its
    /// metric once more.
    pub fn add_block(&mut self, meta: BlockMeta)
        requires
            old(self)@.wf(),
        ensures
            final(self)@.wf(),
            ({
                let o = old(self)@;
                let same = match block_by_id(o.blocks, meta.block_id@) {
                    Some(e) => e.min_timestamp == meta.min_timestamp && e.max_timestamp
                        == meta.max_timestamp,
                    None => false,
                };
                if same {
                    final(self)@ == o
                } else {
                    &&& forall|x: Seq<char>|
                        #[trigger] block_by_id(final(self)@.blocks, x) == (if x == meta.block_id@ {
                            Some(meta)
                        } else {
                            block_by_id(o.blocks, x)
                        })
                    &&& final(self)@.metric_blocks == append_id(
                        o.metric_blocks,
                        meta.metric@,
                        meta.block_id@,
                    )
                }
            }),
    {
        let ghost o = self@;
        let (i, found) = self.block_pos(meta.block_id.as_str());
        if found {
            if self.blocks[i].min_timestamp == meta.min_timestamp && self.blocks[i].max_timestamp
                == meta.max_timestamp {
                return;
            }
        }
        let id = meta.block_id.clone();
        let metric = meta.metric.clone();
        let ghost bs = self.blocks@;
        let ghost m = meta;
        if found {
            self.blocks.set(i, meta);
        } else {
            self.blocks.insert(i, meta);
        }
        proof {
            let nb = self.blocks@;
            assert(blocks_ascending(bs));
            if found {
                assert(nb =~= bs.update(i as int, m));
            } else {
                assert(nb =~= bs.insert(i as int, m));
            }
            assert forall|a: int, b: int| 0 <= a < b < nb.len() implies id_before(
                nb[a].block_id@,
                nb[b].block_id@,
            ) by {
                if found {
                    if a == i {
                        if b > i {
                            assert(id_before(bs[a].block_id@, bs[b].block_id@));
                        }
                    } else if b == i {
                        assert(id_before(bs[a].block_id@, bs[b].block_id@));
                    }
                } else {
                    if a < i && b < i {
                        assert(id_before(bs[a].block_id@, bs[b].block_id@));
                    } else if a < i && b == i {
                    } else if a < i && b > i {
                        assert(id_before(bs[a].block_id@, bs[b - 1].block_id@));
                    } else if a == i {
                        if b - 1 > i {
                            assert(id_before(bs[i as int].block_id@, bs[b - 1].block_id@));
                            lemma_bytes_lt_transitive(
                                encode_utf8(m.block_id@),
                                encode_utf8(bs[i as int].block_id@),
                                encode_utf8(bs[b - 1].block_id@),
                            );
                        }
                    } else {
                        assert(id_before(bs[a - 1].block_id@, bs[b - 1].block_id@));
                    }
                }
            }
            assert forall|x: Seq<char>| #[trigger] block_by_id(nb, x) == (if x == m.block_id@ {
                Some(m)
            } else {
                block_by_id(bs, x)
            }) by {
                lemma_by_id_ascending(nb, x);
                lemma_by_id_ascending(bs, x);
                if x == m.block_id@ {
                    assert(nb[i as int].block_id@ == x);
                } else {
                    if exists|k: int| 0 <= k < bs.len() && bs[k].block_id@ == x {
                        let k = choose|k: int| 0 <= k < bs.len() && bs[k].block_id@ == x;
                        if found {
                            assert(nb[k] == bs[k]);
                        } else if k < i {
                            assert(nb[k] == bs[k]);
                        } else {
                            assert(nb[k + 1] == bs[k]);
                        }
                    } else {
                        assert forall|k: int| 0 <= k < nb.len() implies nb[k].block_id@ != x by {
                            if found {
                                if k != i {
                                    assert(nb[k] == bs[k]);
                                }
                            } else if k < i {
                                assert(nb[k] == bs[k]);
                            } else if k > i {
                                assert(nb[k] == bs[k - 1]);
                            }
                        }
                    }
                }
            }
        }
        self.push_id(metric, id);
    }

    /// The index of the list of `metric`, or the number of lists when there
    /// is none.
    fn metric_pos(&self, metric: &str) -> (r: usize)
        ensures
            r <= self.metric_blocks@.len(),
            forall|j: int| 0 <= j < r ==> self@.metric_blocks[j].0 != metric@,
            r < self.metric_blocks@.len() ==> self@.metric_blocks[r as int].0 == metric@,
    {
        let mut i: usize = 0;
        while i < self.metric_blocks.len() && !str_eq(self.metric_blocks[i].0.as_str(), metric)
            invariant
                i <= self.metric_blocks.len(),
                forall|j: int| 0 <= j < i ==> self@.metric_blocks[j].0 != metric@,
            decreases self.metric_blocks.len() - i,
        {
            i = i + 1;
        }
        i
    }

    /// Adds `id` to the list of `metric`, opening the list if there is none.
    fn push_id(&mut self, metric: String, id: String)
        ensures
            final(self).blocks@ == old(self).blocks@,
            final(self)@.metric_blocks == append_id(old(self)@.metric_blocks, metric@, id@),
    {
        let ghost mb = self@.metric_blocks;
        let i = self.metric_pos(metric.as_str());
        proof {
            lemma_append_id_at(mb, metric@, id@, i as int);
        }
        if i < self.metric_blocks.len() {
            let ghost old_ids = self.metric_blocks@[i as int].1@;
            let ghost idv = id@;
            self.metric_blocks[i].1.push(id);
            assert(self.metric_blocks@[i as int].1@.map_values(|s: String| s@) =~= old_ids.map_values(
                |s: String| s@,
            ).push(idv));
            assert(lists_view(self.metric_blocks@) =~= mb.update(
                i as int,
                (metric@, mb[i as int].1.push(idv)),
            ));
            return;
        }
        let mut ids: Vec<String> = Vec::new();
        let ghost idv = id@;
        ids.push(id);
        assert(ids@.map_values(|s: String| s@) =~= seq![idv]);
        let ghost mv = metric@;
        self.metric_blocks.push((metric, ids));
        assert(lists_view(self.metric_blocks@) =~= mb.push((mv, seq![idv])));
    }

    /// The blocks registered under `metric`, in the order their ids were
    /// added, whose span `[min_timestamp, max_timestamp]` meets `[start, end)`.
    pub fn find_blocks(&self, metric: &str, start: i64, end: i64) -> (r: Vec<BlockMeta>)
        requires
            self@.wf(),
        ensures
            r@ == overlapping(ids_for(self@.metric_blocks, metric@), self@.blocks, start, end),
    {
        let ghost mb = self@.metric_blocks;
        let i = self.metric_pos(metric);
        proof {
            lemma_ids_for_at(mb, metric@, i as int);
        }
        let mut out: Vec<BlockMeta> = Vec::new();
        if i == self.metric_blocks.len() {
            assert(out@ =~= overlapping(seq![], self@.blocks, start, end));
            return out;
        }
        let ids = &self.metric_blocks[i].1;
        let ghost idv = ids@.map_values(|s: String| s@);
        assert(idv == ids_for(mb, metric@));
        let mut k: usize = 0;
        while k < ids.len()
            invariant
                k <= ids.len(),
                self@.wf(),
                idv == ids@.map_values(|s: String| s@),
                out@ == overlapping(idv.take(k as int), self@.blocks, start, end),
            decreases ids.len() - k,
        {
            assert(idv.take(k as int + 1).drop_last() =~= idv.take(k as int));
            let (p, found) = self.block_pos(ids[k].as_str());
            if found {
                let m = &self.blocks[p];
                if m.max_timestamp >= start && m.min_timestamp < end {
                    out.push(m.duplicate());
                }
            }
            k = k + 1;
        }
        assert(idv.take(ids.len() as int) =~= idv);
        out
    }

    /// Unregisters the block of id `block_id`, and takes its id out of its
    /// metric's list. Nothing changes when no such block is registered.
    pub fn remove_block(&mut self, block_id: &str)
        requires
            old(self)@.wf(),
        ensures
            final(self)@.wf(),
            match block_by_id(old(self)@.blocks, block_id@) {
                None => final(self)@ == old(self)@,
                Some(m) => {
                    &&& forall|x: Seq<char>|
                        #[trigger] block_by_id(final(self)@.blocks, x) == (if x == block_id@ {
                            None
                        } else {
                            block_by_id(old(self)@.blocks, x)
                        })
                    &&& final(self)@.metric_blocks == drop_id(
                        old(self)@.metric_blocks,
                        m.metric@,
                        block_id@,
                    )
                },
            },
    {
        let (i, found) = self.block_pos(block_id);
        if !found {
            return;
        }
        let ghost bs = self.blocks@;
        let meta = self.blocks.remove(i);
        proof {
            let nb = self.blocks@;
            assert(nb =~= bs.remove(i as int));
            assert forall|a: int, b: int| 0 <= a < b < nb.len() implies id_before(
                nb[a].block_id@,
                nb[b].block_id@,
            ) by {
                if a < i && b >= i {
                    assert(id_before(bs[a].block_id@, bs[b + 1].block_id@));
                } else if a >= i {
                    assert(id_before(bs[a + 1].block_id@, bs[b + 1].block_id@));
                }
            }
            assert forall|x: Seq<char>| #[trigger] block_by_id(nb, x) == (if x == block_id@ {
                None
            } else {
                block_by_id(bs, x)
            }) by {
                lemma_by_id_ascending(nb, x);
                lemma_by_id_ascending(bs, x);
                if x == block_id@ {
                    assert forall|k: int| 0 <= k < nb.len() implies nb[k].block_id@ != x by {
                        if k < i {
                            assert(nb[k] == bs[k]);
                            lemma_before_ne(bs[k].block_id@, bs[i as int].block_id@);
                        } else {
                            assert(nb[k] == bs[k + 1]);
                            lemma_before_ne(bs[i as int].block_id@, bs[k + 1].block_id@);
                        }
                    }
                } else {
                    if exists|k: int| 0 <= k < bs.len() && bs[k].block_id@ == x {
                        let k = choose|k: int| 0 <= k < bs.len() && bs[k].block_id@ == x;
                        if k < i {
                            assert(nb[k] == bs[k]);
                        } else {
                            assert(k != i);
                            assert(nb[k - 1] == bs[k]);
                        }
                    } else {
                        assert forall|k: int| 0 <= k < nb.len() implies nb[k].block_id@ != x by {
                            if k < i {
                                assert(nb[k] == bs[k]);
                            } else {
                                assert(nb[k] == bs[k + 1]);
                            }
                        }
                    }
                }
            }
        }
        self.drop_from_metric(meta.metric.as_str(), block_id);
    }

    /// Takes every `id` out of the list of `metric`.
    fn drop_from_metric(&mut self, metric: &str, id: &str)
        ensures
            final(self).blocks@ == old(self).blocks@,
            final(self)@.metric_blocks == drop_id(old(self)@.metric_blocks, metric@, id@),
    {
        let ghost mb = self@.metric_blocks;
        let i = self.metric_pos(metric);
        proof {
            lemma_drop_id_at(mb, metric@, id@, i as int);
        }
        if i < self.metric_blocks.len() {
            let kept = keep_other_ids(&self.metric_blocks[i].1, id);
            self.metric_blocks[i].1 = kept;
            assert(lists_view(self.metric_blocks@) =~= mb.update(
                i as int,
                (metric@, without_id(mb[i as int].1, id@)),
            ));
        }
    }

    /// How many blocks are registered.
    pub fn block_count(&self) -> (r: usize)
        ensures
            r == self@.blocks.len(),
    {
        self.blocks.len()
    }

    /// Every registered block, in ascending id order.
    pub fn all_blocks(&self) -> (r: Vec<BlockMeta>)
        ensures
            r@ == self@.blocks,
    {
        let mut out: Vec<BlockMeta> = Vec::new();
        let mut i: usize = 0;
        while i < self.blocks.len()
            invariant
                i <= self.blocks.len(),
                out@ == self.blocks@.take(i as int),
            decreases self.blocks.len() - i,
        {
            out.push(self.blocks[i].duplicate());
            i = i + 1;
            assert(out@ =~= self.blocks@.take(i as int));
        }
        assert(self.blocks@.take(self.blocks.len() as int) =~= self.blocks@);
        out
    }

    /// The block registered under `block_id`, if any.
    pub fn get_block(&self, block_id: &str) -> (r: Option<BlockMeta>)
        requires
            self@.wf(),
        ensures
            r == block_by_id(self@.blocks, block_id@),
    {
        let (i, found) = self.block_pos(block_id);
        if found {
            Some(self.blocks[i].duplicate())
        } else {
            None
        }
    }
}

/// The ids of `ids` other than `id`, in order.
fn keep_other_ids(ids: &Vec<String>, id: &str) -> (r: Vec<String>)
    ensures
        r@.map_values(|s: String| s@) == without_id(ids@.map_values(|s: String| s@), id@),
{
    let ghost v = ids@.map_values(|s: String| s@);
    let mut out: Vec<String> = Vec::new();
    let mut i: usize = 0;
    while i < ids.len()
        invariant
            i <= ids.len(),
            v == ids@.map_values(|s: String| s@),
            out@.map_values(|s: String| s@) == without_id(v.take(i as int), id@),
        decreases ids.len() - i,
    {
        assert(v.take(i as int + 1).drop_last() =~= v.take(i as int));
        if !str_eq(ids[i].as_str(), id) {
            out.push(ids[i].clone());
            assert(out@.map_values(|s: String| s@) =~= without_id(v.take(i as int), id@).push(
                ids@[i as int]@,
            ));
        }
        i = i + 1;
    }
    assert(v.take(ids.len() as int) =~= v);
    out
}


proof fn lemma_by_id_matches(bs: Seq<BlockMeta>, x: Seq<char>)
    ensures
        block_by_id(bs, x) matches Some(m) ==> m.block_id@ == x,
    decreases bs.len(),
{
    if bs.len() > 0 && bs[0].block_id@ != x {
        lemma_by_id_matches(bs.drop_first(), x);
    }
}

proof fn lemma_ids_for_append(mb: Seq<(Seq<char>, Seq<Seq<char>>)>, metric: Seq<char>, id: Seq<char>)
    ensures
        ids_for(append_id(mb, metric, id), metric) == ids_for(mb, metric).push(id),
    decreases mb.len(),
{
    let r = append_id(mb, metric, id);
    if mb.len() == 0 {
        assert(seq![id] =~= Seq::<Seq<char>>::empty().push(id));
    } else if mb[0].0 != metric {
        assert(r.drop_first() =~= append_id(mb.drop_first(), metric, id));
        lemma_ids_for_append(mb.drop_first(), metric, id);
    }
}

proof fn lemma_overlapping_ids(ids: Seq<Seq<char>>, bs: Seq<BlockMeta>, start: i64, end: i64, id: Seq<char>)
    requires
        block_by_id(bs, id) is None,
    ensures
        forall|k: int|
            0 <= k < overlapping(ids, bs, start, end).len() ==> (#[trigger] overlapping(
                ids,
                bs,
                start,
                end,
            )[k]).block_id@ != id,
    decreases ids.len(),
{
    if ids.len() > 0 {
        lemma_overlapping_ids(ids.drop_last(), bs, start, end, id);
        lemma_by_id_matches(bs, ids.last());
        let rest = overlapping(ids.drop_last(), bs, start, end);
        let all = overlapping(ids, bs, start, end);
        assert forall|k: int| 0 <= k < all.len() implies (#[trigger] all[k]).block_id@ != id by {
            if k < rest.len() {
                assert(all[k] == rest[k]);
            }
        }
    }
}

/// A registered block is found: once `meta` is added (and not ignored as
/// already present), a search of its metric over a range that its span meets
/// ends with it.
pub proof fn lemma_find_after_add(
    before: TimeIndexView,
    after: TimeIndexView,
    meta: BlockMeta,
    start: i64,
    end: i64,
)
    requires
        after.metric_blocks == append_id(before.metric_blocks, meta.metric@, meta.block_id@),
        forall|x: Seq<char>|
            #[trigger] block_by_id(after.blocks, x) == (if x == meta.block_id@ {
                Some(meta)
            } else {
                block_by_id(before.blocks, x)
            }),
        meta.max_timestamp >= start,
        meta.min_timestamp < end,
    ensures
        ({
            let found = overlapping(ids_for(after.metric_blocks, meta.metric@), after.blocks, start, end);
            found.len() > 0 && found.last() == meta
        }),
{
    lemma_ids_for_append(before.metric_blocks, meta.metric@, meta.block_id@);
    let ids = ids_for(after.metric_blocks, meta.metric@);
    assert(ids.last() == meta.block_id@);
    assert(block_by_id(after.blocks, meta.block_id@) == Some(meta));
}

/// A removed block is never found again: once no block of id `id` is
/// registered, a search of any list of ids over any range finds none of that
/// id.
pub proof fn lemma_removed_not_found(v: TimeIndexView, ids: Seq<Seq<char>>, id: Seq<char>, start: i64, end: i64)
    requires
        block_by_id(v.blocks, id) is None,
    ensures
        forall|k: int|
            0 <= k < overlapping(ids, v.blocks, start, end).len() ==> (#[trigger] overlapping(
                ids,
                v.blocks,
                start,
                end,
            )[k]).block_id@ != id,
{
    lemma_overlapping_ids(ids, v.blocks, start, end, id);
}
} // verus!
