use vstd::prelude::*;
use crate::engine::encoding::bits::{bits_of, packs};
use crate::engine::encoding::varint::{
    encode_varint, decode_varint, varint_bytes, varint_decode_spec, encode_signed_varint,
    decode_signed_varint, signed_varint_decode_spec, lemma_varint_roundtrip,
    lemma_signed_varint_roundtrip,
};
use crate::engine::encoding::zigzag::zigzag_spec;
use crate::engine::encoding::xor::{encode_floats, try_decode_floats, float_bits, float_decode_spec, lemma_floats_roundtrip};
use crate::engine::encoding::bytes::append_bytes;
use crate::engine::active_block::FlushPoint;
use crate::model::FieldValue;
use crate::assoc::{assoc_find, assoc_pos};

verus! {

/// A numeric sample read from a field column: a 64-bit float pattern (IEEE-754
/// bits) or an integer.
#[derive(Debug, Clone, Copy, PartialEq, Eq, Structural)]
pub enum FieldSample {
    Float(u64),
    Integer(i64),
}

/// The zigzag varints of a column of integers, one after another.
pub open spec fn ints_bytes(vals: Seq<i64>) -> Seq<u8>
    decreases vals.len(),
{
    if vals.len() == 0 {
        Seq::empty()
    } else {
        ints_bytes(vals.drop_last()) + varint_bytes(zigzag_spec(vals.last() as int) as u64)
    }
}

/// The bytes of one field column: tag 1 and the XOR-compressed float
/// patterns when there are any; else tag 2, the byte length of the integer
/// varints, and the varints; else the lone tag 0.
pub open spec fn field_column_ok(r: Seq<u8>, floats: Seq<u64>, ints: Seq<i64>) -> bool {
    if floats.len() > 0 {
        r.len() >= 1 && r[0] == 1u8 && packs(r.drop_first(), float_bits(floats))
    } else if ints.len() > 0 {
        r == seq![2u8] + varint_bytes(ints_bytes(ints).len() as u64) + ints_bytes(ints)
    } else {
        r == seq![0u8]
    }
}

/// Encodes one field column of a series.
pub fn encode_field_column(float_values: &[u64], int_values: &[i64]) -> (r: Vec<u8>)
    ensures
        field_column_ok(r@, float_values@, int_values@),
{
    let mut field_data: Vec<u8> = Vec::new();
    if float_values.len() > 0 {
        field_data.push(1u8);
        let enc = encode_floats(float_values);
        append_bytes(&mut field_data, enc.as_slice());
        proof {
            assert(field_data@.drop_first() =~= enc@);
        }
    } else if int_values.len() > 0 {
        field_data.push(2u8);
        let mut buf: Vec<u8> = Vec::new();
        let mut i: usize = 0;
        while i < int_values.len()
            invariant
                i <= int_values.len(),
                buf@ == ints_bytes(int_values@.take(i as int)),
            decreases int_values.len() - i,
        {
            encode_signed_varint(int_values[i], &mut buf);
            proof {
                assert(int_values@.take(i + 1).drop_last() =~= int_values@.take(i as int));
            }
            i = i + 1;
        }
        proof {
            assert(int_values@.take(i as int) =~= int_values@);
        }
        encode_varint(buf.len() as u64, &mut field_data);
        append_bytes(&mut field_data, buf.as_slice());
        proof {
            assert(field_data@ =~= seq![2u8] + varint_bytes(ints_bytes(int_values@).len() as u64)
                + ints_bytes(int_values@));
        }
    } else {
        field_data.push(0u8);
        proof {
            assert(field_data@ =~= seq![0u8]);
        }
    }
    field_data
}

/// The float samples at indexes `i..` whose timestamp lies in `[start, end)`,
/// appended to `acc`.
pub open spec fn float_samples_from(
    ts: Seq<i64>,
    vals: Seq<u64>,
    start: i64,
    end: i64,
    i: nat,
    acc: Seq<(i64, FieldSample)>,
) -> Seq<(i64, FieldSample)>
    decreases ts.len() - i,
{
    if i >= ts.len() {
        acc
    } else {
        let acc2 = if start <= ts[i as int] < end && i < vals.len() {
            acc.push((ts[i as int], FieldSample::Float(vals[i as int])))
        } else {
            acc
        };
        float_samples_from(ts, vals, start, end, i + 1, acc2)
    }
}

/// The integer samples at indexes `i..`: the varint at `pos` is read for
/// every index, and kept when the timestamp lies in `[start, end)`; reading
/// stops advancing once no varint can be read.
pub open spec fn int_samples_from(
    ts: Seq<i64>,
    data: Seq<u8>,
    start: i64,
    end: i64,
    i: nat,
    pos: nat,
    acc: Seq<(i64, FieldSample)>,
) -> Seq<(i64, FieldSample)>
    decreases ts.len() - i,
{
    if i >= ts.len() {
        acc
    } else {
        match signed_varint_decode_spec(data.subrange(pos as int, data.len() as int)) {
            Some((v, n)) => {
                let acc2 = if start <= ts[i as int] < end {
                    acc.push((ts[i as int], FieldSample::Integer(v)))
                } else {
                    acc
                };
                int_samples_from(ts, data, start, end, i + 1, pos + n, acc2)
            },
            None => int_samples_from(ts, data, start, end, i + 1, pos, acc),
        }
    }
}

/// The samples of a field column, paired with their timestamps, that lie in
/// `[start, end)`. A column that cannot be decoded yields no samples.
pub open spec fn field_samples_spec(ts: Seq<i64>, data: Seq<u8>, start: i64, end: i64) -> Seq<
    (i64, FieldSample),
> {
    if data.len() == 0 {
        Seq::empty()
    } else if data[0] == 1u8 {
        match float_decode_spec(bits_of(data.drop_first()), ts.len()) {
            Some(vals) => float_samples_from(ts, vals, start, end, 0, Seq::empty()),
            None => Seq::empty(),
        }
    } else if data[0] == 2u8 {
        match varint_decode_spec(data.drop_first()) {
            None => Seq::empty(),
            Some((len, n)) => if len > data.len() - 1 - n {
                Seq::empty()
            } else {
                int_samples_from(
                    ts,
                    data.subrange(1 + n as int, 1 + n + len as int),
                    start,
                    end,
                    0,
                    0,
                    Seq::empty(),
                )
            },
        }
    } else {
        Seq::empty()
    }
}

/// The integer samples at indexes `i..` whose timestamp lies in `[start, end)`.
pub open spec fn int_window_from(
    ts: Seq<i64>,
    vals: Seq<i64>,
    start: i64,
    end: i64,
    i: nat,
    acc: Seq<(i64, FieldSample)>,
) -> Seq<(i64, FieldSample)>
    decreases ts.len() - i,
{
    if i >= ts.len() {
        acc
    } else {
        let acc2 = if start <= ts[i as int] < end && i < vals.len() {
            acc.push((ts[i as int], FieldSample::Integer(vals[i as int])))
        } else {
            acc
        };
        int_window_from(ts, vals, start, end, i + 1, acc2)
    }
}

/// Every sample in `s` has a timestamp in `[start, end)` taken from `ts`.
pub open spec fn samples_within(s: Seq<(i64, FieldSample)>, ts: Seq<i64>, start: i64, end: i64) -> bool {
    forall|k: int| 0 <= k < s.len() ==> start <= (#[trigger] s[k]).0 < end && ts.contains(s[k].0)
}

proof fn lemma_float_samples_within(
    ts: Seq<i64>,
    vals: Seq<u64>,
    start: i64,
    end: i64,
    i: nat,
    acc: Seq<(i64, FieldSample)>,
)
    requires
        samples_within(acc, ts, start, end),
    ensures
        samples_within(float_samples_from(ts, vals, start, end, i, acc), ts, start, end),
    decreases ts.len() - i,
{
    if i < ts.len() {
        let kept = if start <= ts[i as int] < end && i < vals.len() {
            acc.push((ts[i as int], FieldSample::Float(vals[i as int])))
        } else {
            acc
        };
        assert(samples_within(kept, ts, start, end)) by {
            assert forall|k: int| 0 <= k < kept.len() implies start <= (#[trigger] kept[k]).0 < end
                && ts.contains(kept[k].0) by {
                if k < acc.len() {
                    assert(kept[k] == acc[k]);
                } else {
                    assert(ts[i as int] == kept[k].0);
                }
            }
        }
        lemma_float_samples_within(ts, vals, start, end, i + 1, kept);
    }
}

proof fn lemma_int_samples_within(
    ts: Seq<i64>,
    data: Seq<u8>,
    start: i64,
    end: i64,
    i: nat,
    pos: nat,
    acc: Seq<(i64, FieldSample)>,
)
    requires
        samples_within(acc, ts, start, end),
    ensures
        samples_within(int_samples_from(ts, data, start, end, i, pos, acc), ts, start, end),
    decreases ts.len() - i,
{
    if i < ts.len() {
        match signed_varint_decode_spec(data.subrange(pos as int, data.len() as int)) {
            Some((v, n)) => {
                let acc2 = if start <= ts[i as int] < end {
                    acc.push((ts[i as int], FieldSample::Integer(v)))
                } else {
                    acc
                };
                assert(samples_within(acc2, ts, start, end)) by {
                    assert forall|k: int| 0 <= k < acc2.len() implies start <= (#[trigger] acc2[k]).0 < end
                        && ts.contains(acc2[k].0) by {
                        if k < acc.len() {
                            assert(acc2[k] == acc[k]);
                        } else {
                            assert(ts[i as int] == acc2[k].0);
                        }
                    }
                }
                lemma_int_samples_within(ts, data, start, end, i + 1, pos + n, acc2);
            },
            None => {
                lemma_int_samples_within(ts, data, start, end, i + 1, pos, acc);
            },
        }
    }
}

/// Whatever a field column holds, float or integer, every sample read from
/// it for the window `[start, end)` has a timestamp at or after `start`,
/// before `end`, and among the block's timestamps.
pub proof fn lemma_samples_in_window(ts: Seq<i64>, data: Seq<u8>, start: i64, end: i64)
    ensures
        samples_within(field_samples_spec(ts, data, start, end), ts, start, end),
{
    let e: Seq<(i64, FieldSample)> = Seq::empty();
    assert(samples_within(e, ts, start, end));
    if data.len() > 0 && data[0] == 1u8 {
        if let Some(vals) = float_decode_spec(bits_of(data.drop_first()), ts.len()) {
            lemma_float_samples_within(ts, vals, start, end, 0, e);
        }
    } else if data.len() > 0 && data[0] == 2u8 {
        if let Some((len, n)) = varint_decode_spec(data.drop_first()) {
            if len <= data.len() - 1 - n {
                lemma_int_samples_within(ts, data.subrange(1 + n as int, 1 + n + len as int), start, end, 0, 0, e);
            }
        }
    }
}

/// Reading a float column back gives, for each timestamp in the window, the
/// float pattern written at the same index.
pub proof fn lemma_float_column_roundtrip(
    ts: Seq<i64>,
    r: Seq<u8>,
    floats: Seq<u64>,
    ints: Seq<i64>,
    start: i64,
    end: i64,
)
    requires
        field_column_ok(r, floats, ints),
        floats.len() > 0,
        ts.len() == floats.len(),
    ensures
        field_samples_spec(ts, r, start, end) == float_samples_from(
            ts,
            floats,
            start,
            end,
            0,
            Seq::empty(),
        ),
{
    lemma_floats_roundtrip(floats, r.drop_first());
}

proof fn lemma_ints_prefix(vals: Seq<i64>, j: int)
    requires
        0 <= j <= vals.len(),
    ensures
        ints_bytes(vals.take(j)).is_prefix_of(ints_bytes(vals)),
    decreases vals.len(),
{
    if j == vals.len() {
        assert(vals.take(j) =~= vals);
    } else {
        assert(vals.drop_last().take(j) =~= vals.take(j));
        lemma_ints_prefix(vals.drop_last(), j);
    }
}

proof fn lemma_int_samples(ts: Seq<i64>, vals: Seq<i64>, start: i64, end: i64, i: nat, acc: Seq<(i64, FieldSample)>)
    requires
        ts.len() == vals.len(),
        i <= vals.len(),
    ensures
        int_samples_from(
            ts,
            ints_bytes(vals),
            start,
            end,
            i,
            ints_bytes(vals.take(i as int)).len(),
            acc,
        ) == int_window_from(ts, vals, start, end, i, acc),
    decreases vals.len() - i,
{
    if i < vals.len() {
        let data = ints_bytes(vals);
        let p = ints_bytes(vals.take(i as int));
        let v = varint_bytes(zigzag_spec(vals[i as int] as int) as u64);
        lemma_ints_prefix(vals, i + 1int);
        assert(vals.take(i + 1int).drop_last() =~= vals.take(i as int));
        assert(ints_bytes(vals.take(i + 1int)) == p + v);
        let q = data.subrange((p.len() + v.len()) as int, data.len() as int);
        assert(data =~= p + v + q) by {
            assert(data.subrange(0, (p + v).len() as int) == p + v);
        }
        assert(data.subrange(p.len() as int, data.len() as int) =~= v + q);
        lemma_signed_varint_roundtrip(vals[i as int], q);
        lemma_int_samples(ts, vals, start, end, i + 1, if start <= ts[i as int] < end {
            acc.push((ts[i as int], FieldSample::Integer(vals[i as int])))
        } else {
            acc
        });
    }
}

/// Reading an integer column back gives, for each timestamp in the window,
/// the integer written at the same index.
pub proof fn lemma_int_column_roundtrip(
    ts: Seq<i64>,
    r: Seq<u8>,
    ints: Seq<i64>,
    start: i64,
    end: i64,
)
    requires
        field_column_ok(r, Seq::empty(), ints),
        ints.len() > 0,
        ints_bytes(ints).len() <= u64::MAX,
        ts.len() == ints.len(),
    ensures
        field_samples_spec(ts, r, start, end) == int_window_from(ts, ints, start, end, 0, Seq::empty()),
{
    let b = ints_bytes(ints);
    assert(r.drop_first() =~= varint_bytes(b.len() as u64) + b);
    lemma_varint_roundtrip(b.len() as u64, b);
    let n = varint_bytes(b.len() as u64).len();
    assert(r.subrange(1 + n as int, 1 + n + b.len() as int) =~= b);
    assert(ints.take(0) =~= Seq::<i64>::empty());
    assert(ints_bytes(Seq::<i64>::empty()) =~= Seq::<u8>::empty());
    lemma_int_samples(ts, ints, start, end, 0, Seq::empty());
}

/// Reads the samples of one field column that fall in `[start, end)`, given the
/// decoded timestamps of its series.
pub fn field_samples(timestamps: &[i64], field_data: &[u8], start: i64, end: i64) -> (r: Vec<
    (i64, FieldSample),
>)
    ensures
        r@ == field_samples_spec(timestamps@, field_data@, start, end),
        samples_within(r@, timestamps@, start, end),
{
    proof {
        lemma_samples_in_window(timestamps@, field_data@, start, end);
    }
    let mut out: Vec<(i64, FieldSample)> = Vec::new();
    if field_data.len() == 0 {
        return out;
    }
    let ts = timestamps;
    let ghost tsv = ts@;
    let field_type = field_data[0];
    if field_type == 1u8 {
        let body = vstd::slice::slice_subrange(field_data, 1, field_data.len());
        proof {
            assert(body@ =~= field_data@.drop_first());
        }
        let vals = match try_decode_floats(body, ts.len()) {
            Some(v) => v,
            None => return out,
        };
        let mut i: usize = 0;
        while i < ts.len()
            invariant
                i <= ts.len(),
                tsv == ts@,
                float_samples_from(tsv, vals@, start, end, i as nat, out@) == float_samples_from(
                    tsv,
                    vals@,
                    start,
                    end,
                    0,
                    Seq::empty(),
                ),
            decreases ts.len() - i,
        {
            let t = ts[i];
            if start <= t && t < end && i < vals.len() {
                out.push((t, FieldSample::Float(vals[i])));
            }
            i = i + 1;
        }
        out
    } else if field_type == 2u8 {
        let body = vstd::slice::slice_subrange(field_data, 1, field_data.len());
        proof {
            assert(body@ =~= field_data@.drop_first());
        }
        let (data_len, n) = match decode_varint(body) {
            Some(x) => x,
            None => return out,
        };
        if data_len > (field_data.len() - 1 - n) as u64 {
            return out;
        }
        let int_data = vstd::slice::slice_subrange(field_data, 1 + n, 1 + n + data_len as usize);
        let mut int_pos: usize = 0;
        let mut i: usize = 0;
        while i < ts.len()
            invariant
                i <= ts.len(),
                int_pos <= int_data.len(),
                tsv == ts@,
                int_samples_from(tsv, int_data@, start, end, i as nat, int_pos as nat, out@)
                    == int_samples_from(tsv, int_data@, start, end, 0, 0, Seq::empty()),
            decreases ts.len() - i,
        {
            let t = ts[i];
            let rest = vstd::slice::slice_subrange(int_data, int_pos, int_data.len());
            match decode_signed_varint(rest) {
                Some((v, consumed)) => {
                    if start <= t && t < end {
                        out.push((t, FieldSample::Integer(v)));
                    }
                    int_pos = int_pos + consumed;
                },
                None => {},
            }
            i = i + 1;
        }
        out
    } else {
        out
    }
}

/// The values of field `name` across the points, in point order: for each
/// point that has such a field, the value of its first one.
pub open spec fn column_values(points: Seq<FlushPoint>, name: Seq<char>) -> Seq<FieldValue>
    decreases points.len(),
{
    if points.len() == 0 {
        Seq::empty()
    } else {
        let prev = column_values(points.drop_last(), name);
        match assoc_find(points.last().fields@, name) {
            Some(v) => prev.push(v),
            None => prev,
        }
    }
}

/// Gathers the column of field `name` from the points of a series.
pub fn gather_column(points: &Vec<FlushPoint>, name: &str) -> (r: Vec<FieldValue>)
    ensures
        r@ == column_values(points@, name@),
{
    let mut out: Vec<FieldValue> = Vec::new();
    let mut i: usize = 0;
    while i < points.len()
        invariant
            i <= points.len(),
            out@ == column_values(points@.take(i as int), name@),
        decreases points.len() - i,
    {
        assert(points@.take(i as int + 1).drop_last() =~= points@.take(i as int));
        assert(points@.take(i as int + 1).last() == points@[i as int]);
        let p = assoc_pos(&points[i].fields, name);
        if p < points[i].fields.len() {
            out.push(points[i].fields[p].1.duplicate());
        }
        i = i + 1;
    }
    assert(points@.take(points.len() as int) =~= points@);
    out
}

/// The integers among the values, in order.
pub open spec fn column_ints(values: Seq<FieldValue>) -> Seq<i64>
    decreases values.len(),
{
    if values.len() == 0 {
        Seq::empty()
    } else {
        let prev = column_ints(values.drop_last());
        match values.last() {
            FieldValue::Integer(i) => prev.push(i),
            _ => prev,
        }
    }
}

/// The integers of a gathered column, in order.
pub fn integers_of(values: &Vec<FieldValue>) -> (r: Vec<i64>)
    ensures
        r@ == column_ints(values@),
{
    let mut out: Vec<i64> = Vec::new();
    let mut i: usize = 0;
    while i < values.len()
        invariant
            i <= values.len(),
            out@ == column_ints(values@.take(i as int)),
        decreases values.len() - i,
    {
        assert(values@.take(i as int + 1).drop_last() =~= values@.take(i as int));
        assert(values@.take(i as int + 1).last() == values@[i as int]);
        if let FieldValue::Integer(v) = values[i] {
            out.push(v);
        }
        i = i + 1;
    }
    assert(values@.take(values.len() as int) =~= values@);
    out
}

} // verus!
