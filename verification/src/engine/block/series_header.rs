use vstd::prelude::*;
use vstd::utf8::encode_utf8;
use vstd::string::StringSliceAdditionalSpecFns;
use crate::engine::encoding::varint::{
    encode_varint, decode_varint, varint_bytes, varint_decode_spec, lemma_varint_roundtrip,
};
use crate::engine::encoding::bytes::append_bytes;

verus! {

/// The varint pairs naming each tag by its key id and value id.
pub open spec fn tag_ids_bytes(ids: Seq<(u64, u64)>) -> Seq<u8>
    decreases ids.len(),
{
    if ids.len() == 0 {
        Seq::empty()
    } else {
        tag_ids_bytes(ids.drop_last()) + varint_bytes(ids.last().0) + varint_bytes(ids.last().1)
    }
}

/// The header of a series section: the length-prefixed UTF-8 metric name, the
/// number of tags, a key-id/value-id pair per tag, the number of points.
pub open spec fn series_header_bytes(metric: Seq<char>, ids: Seq<(u64, u64)>, point_count: u64) -> Seq<
    u8,
> {
    varint_bytes(encode_utf8(metric).len() as u64) + encode_utf8(metric) + varint_bytes(
        ids.len() as u64,
    ) + tag_ids_bytes(ids) + varint_bytes(point_count)
}

/// Writes the header of a series section.
pub fn encode_series_header(metric: &str, tag_ids: &[(u64, u64)], point_count: u64) -> (r: Vec<u8>)
    ensures
        r@ == series_header_bytes(metric@, tag_ids@, point_count),
{
    let mut buf: Vec<u8> = Vec::new();
    let metric_bytes = metric.as_bytes();
    encode_varint(metric_bytes.len() as u64, &mut buf);
    append_bytes(&mut buf, metric_bytes);
    encode_varint(tag_ids.len() as u64, &mut buf);
    let ghost mid = buf@;
    let mut i: usize = 0;
    while i < tag_ids.len()
        invariant
            i <= tag_ids.len(),
            buf@ == mid + tag_ids_bytes(tag_ids@.take(i as int)),
        decreases tag_ids.len() - i,
    {
        let (kid, vid) = tag_ids[i];
        encode_varint(kid, &mut buf);
        encode_varint(vid, &mut buf);
        proof {
            assert(tag_ids@.take(i + 1).drop_last() =~= tag_ids@.take(i as int));
            assert(buf@ =~= mid + tag_ids_bytes(tag_ids@.take(i + 1)));
        }
        i = i + 1;
    }
    proof {
        assert(tag_ids@.take(i as int) =~= tag_ids@);
    }
    encode_varint(point_count, &mut buf);
    proof {
        assert(buf@ =~= series_header_bytes(metric@, tag_ids@, point_count));
    }
    buf
}

/// The varint at `pos`: its value and the position after it.
pub open spec fn varint_at(h: Seq<u8>, pos: nat) -> Option<(u64, nat)> {
    match varint_decode_spec(h.subrange(pos as int, h.len() as int)) {
        Some((v, n)) => Some((v, pos + n)),
        None => None,
    }
}

/// The position after a varint at `pos`, or `pos` when none can be read there.
pub open spec fn skip_varint(h: Seq<u8>, pos: nat) -> nat {
    match varint_at(h, pos) {
        Some((_, p)) => p,
        None => pos,
    }
}

/// The position after skipping `k` key-id/value-id pairs from `pos`.
pub open spec fn skip_pairs(h: Seq<u8>, pos: nat, k: nat) -> nat
    decreases k,
{
    if k == 0 {
        pos
    } else {
        skip_pairs(h, skip_varint(h, skip_varint(h, pos)), (k - 1) as nat)
    }
}

/// The point count that `estimate_point_count` reads from a series header:
/// skip the metric name and the tag pairs, then read the count; 0 when there
/// is none, or when the metric name runs past the end of the header.
pub open spec fn estimate_spec(h: Seq<u8>) -> u64 {
    let p0: int = match varint_at(h, 0) {
        Some((ml, p)) => p + ml,
        None => 0,
    };
    if p0 > h.len() {
        0
    } else {
        let p1 = match varint_at(h, p0 as nat) {
            Some((tc, p)) => skip_pairs(h, p, tc as nat),
            None => p0 as nat,
        };
        if p1 < h.len() {
            match varint_at(h, p1) {
                Some((c, _)) => c,
                None => 0,
            }
        } else {
            0
        }
    }
}

fn varint_at_exec(h: &[u8], pos: usize) -> (r: Option<(u64, usize)>)
    requires
        pos <= h.len(),
    ensures
        match r {
            Some((v, p)) => varint_at(h@, pos as nat) == Some((v, p as nat)) && pos < p <= h.len(),
            None => varint_at(h@, pos as nat) is None,
        },
{
    let rest = vstd::slice::slice_subrange(h, pos, h.len());
    match decode_varint(rest) {
        Some((v, n)) => Some((v, pos + n)),
        None => None,
    }
}

proof fn lemma_skip_pairs_stuck(h: Seq<u8>, pos: nat, k: nat)
    requires
        skip_varint(h, skip_varint(h, pos)) == pos,
    ensures
        skip_pairs(h, pos, k) == pos,
    decreases k,
{
    if k > 0 {
        lemma_skip_pairs_stuck(h, pos, (k - 1) as nat);
    }
}

proof fn lemma_tag_ids_split(ids: Seq<(u64, u64)>)
    requires
        ids.len() >= 1,
    ensures
        tag_ids_bytes(ids) == varint_bytes(ids[0].0) + varint_bytes(ids[0].1) + tag_ids_bytes(
            ids.drop_first(),
        ),
    decreases ids.len(),
{
    if ids.len() == 1 {
        assert(ids.drop_last() =~= Seq::<(u64, u64)>::empty());
        assert(ids.drop_first() =~= Seq::<(u64, u64)>::empty());
        assert(tag_ids_bytes(ids) =~= varint_bytes(ids[0].0) + varint_bytes(ids[0].1)
            + tag_ids_bytes(ids.drop_first()));
    } else {
        lemma_tag_ids_split(ids.drop_last());
        assert(ids.drop_last().drop_first() =~= ids.drop_first().drop_last());
        assert(ids.drop_last()[0] == ids[0]);
        assert(ids.drop_first().last() == ids.last());
        assert(tag_ids_bytes(ids) =~= varint_bytes(ids[0].0) + varint_bytes(ids[0].1)
            + tag_ids_bytes(ids.drop_first()));
    }
}

proof fn lemma_varint_at(p: Seq<u8>, v: u64, r: Seq<u8>)
    ensures
        varint_at(p + varint_bytes(v) + r, p.len()) == Some((v, p.len() + varint_bytes(v).len())),
{
    let h = p + varint_bytes(v) + r;
    assert(h.subrange(p.len() as int, h.len() as int) =~= varint_bytes(v) + r);
    lemma_varint_roundtrip(v, r);
}

proof fn lemma_skip_pairs(p: Seq<u8>, ids: Seq<(u64, u64)>, r: Seq<u8>)
    ensures
        skip_pairs(p + tag_ids_bytes(ids) + r, p.len(), ids.len()) == p.len() + tag_ids_bytes(
            ids,
        ).len(),
    decreases ids.len(),
{
    if ids.len() == 0 {
        assert(tag_ids_bytes(ids) =~= Seq::<u8>::empty());
    } else {
        lemma_tag_ids_split(ids);
        let rest = ids.drop_first();
        let h = p + tag_ids_bytes(ids) + r;
        let va = varint_bytes(ids[0].0);
        let vb = varint_bytes(ids[0].1);
        assert(h =~= p + va + (vb + tag_ids_bytes(rest) + r));
        lemma_varint_at(p, ids[0].0, vb + tag_ids_bytes(rest) + r);
        assert(h =~= (p + va) + vb + (tag_ids_bytes(rest) + r));
        lemma_varint_at(p + va, ids[0].1, tag_ids_bytes(rest) + r);
        assert(h =~= (p + va + vb) + tag_ids_bytes(rest) + r);
        lemma_skip_pairs(p + va + vb, rest, r);
    }
}

/// Reading the point count back from a series header gives the count written.
pub proof fn lemma_point_count_roundtrip(metric: Seq<char>, ids: Seq<(u64, u64)>, point_count: u64)
    requires
        encode_utf8(metric).len() <= u64::MAX,
        ids.len() <= u64::MAX,
    ensures
        estimate_spec(series_header_bytes(metric, ids, point_count)) == point_count,
{
    let mb = encode_utf8(metric);
    let v1 = varint_bytes(mb.len() as u64);
    let v2 = varint_bytes(ids.len() as u64);
    let t = tag_ids_bytes(ids);
    let v3 = varint_bytes(point_count);
    let h = series_header_bytes(metric, ids, point_count);
    let e = Seq::<u8>::empty();
    assert(h =~= e + v1 + (mb + v2 + t + v3));
    lemma_varint_at(e, mb.len() as u64, mb + v2 + t + v3);
    let p0 = v1.len() + mb.len();
    assert(h =~= (v1 + mb) + v2 + (t + v3));
    lemma_varint_at(v1 + mb, ids.len() as u64, t + v3);
    assert(h =~= (v1 + mb + v2) + t + v3);
    lemma_skip_pairs(v1 + mb + v2, ids, v3);
    assert(h =~= (v1 + mb + v2 + t) + v3 + e);
    lemma_varint_at(v1 + mb + v2 + t, point_count, e);
}

/// Reads the point count from a series header written by `encode_series_header`.
pub fn estimate_point_count(header: &[u8]) -> (r: usize)
    ensures
        r == estimate_spec(header@) as usize,
{
    let ghost h = header@;
    let mut pos: usize = 0;
    match varint_at_exec(header, 0) {
        Some((metric_len, p)) => {
            if metric_len > (header.len() - p) as u64 {
                return 0;
            }
            pos = p + metric_len as usize;
        },
        None => {},
    }
    let ghost p0 = pos;
    assert(p0 as int == match varint_at(h, 0) {
        Some((ml, p)) => p + ml,
        None => 0,
    });
    match varint_at_exec(header, pos) {
        Some((tag_count, p)) => {
            pos = p;
            let mut k: u64 = 0;
            while k < tag_count
                invariant
                    k <= tag_count,
                    pos <= header.len(),
                    h == header@,
                    skip_pairs(h, pos as nat, (tag_count - k) as nat) == skip_pairs(
                        h,
                        p as nat,
                        tag_count as nat,
                    ),
                ensures
                    pos <= header.len(),
                    pos == skip_pairs(h, p as nat, tag_count as nat),
                decreases tag_count - k,
            {
                let start = pos;
                match varint_at_exec(header, pos) {
                    Some((_, p2)) => {
                        pos = p2;
                    },
                    None => {},
                }
                match varint_at_exec(header, pos) {
                    Some((_, p2)) => {
                        pos = p2;
                    },
                    None => {},
                }
                k = k + 1;
                if pos == start {
                    proof {
                        lemma_skip_pairs_stuck(h, pos as nat, (tag_count - k) as nat);
                    }
                    break;
                }
            }
        },
        None => {},
    }
    let ghost p1 = pos;
    assert(p1 == match varint_at(h, p0 as nat) {
        Some((tc, p)) => skip_pairs(h, p, tc as nat),
        None => p0 as nat,
    });
    if pos < header.len() {
        match varint_at_exec(header, pos) {
            Some((count, _)) => {
                return count as usize;
            },
            None => {},
        }
    }
    0
}

} // verus!
