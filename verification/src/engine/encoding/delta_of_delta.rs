use vstd::prelude::*;
use super::bits::{bit_at, bits_of, bits_msb, bits_to_u64, fits_bits, packs, lemma_bits_roundtrip};
use super::zigzag;
use super::zigzag::{zigzag_spec, unzigzag_spec};
use super::bit_writer::BitWriter;
use super::bit_reader::BitReader;

verus! {

pub open spec fn in_i64(x: int) -> bool {
    i64::MIN <= x <= i64::MAX
}

/// The change between consecutive timestamps `i - 1` and `i`.
pub open spec fn delta_at(ts: Seq<i64>, i: int) -> int {
    ts[i] - ts[i - 1]
}

/// The change of the change at timestamp `i`.
pub open spec fn dod_at(ts: Seq<i64>, i: int) -> int {
    delta_at(ts, i) - delta_at(ts, i - 1)
}

/// The timestamps can be encoded: every delta and every delta of deltas fits in an `i64`.
pub open spec fn ts_encodable(ts: Seq<i64>) -> bool {
    &&& forall|i: int| 1 <= i < ts.len() ==> in_i64(#[trigger] delta_at(ts, i))
    &&& forall|i: int| 2 <= i < ts.len() ==> in_i64(#[trigger] dod_at(ts, i))
}

/// Whether the timestamps can be encoded: every delta and every delta of
/// deltas fits in an `i64`.
pub fn timestamps_encodable(ts: &[i64]) -> (r: bool)
    ensures
        r == ts_encodable(ts@),
{
    let mut i: usize = 1;
    while i < ts.len()
        invariant
            1 <= i <= ts.len() || ts.len() == 0,
            forall|j: int| 1 <= j < i && j < ts.len() ==> in_i64(#[trigger] delta_at(ts@, j)),
            forall|j: int| 2 <= j < i && j < ts.len() ==> in_i64(#[trigger] dod_at(ts@, j)),
        decreases ts.len() - i,
    {
        let d: i128 = ts[i] as i128 - ts[i - 1] as i128;
        if d < i64::MIN as i128 || d > i64::MAX as i128 {
            assert(!in_i64(delta_at(ts@, i as int)));
            return false;
        }
        if i >= 2 {
            let prev: i128 = ts[i - 1] as i128 - ts[i - 2] as i128;
            let dd: i128 = d - prev;
            if dd < i64::MIN as i128 || dd > i64::MAX as i128 {
                assert(!in_i64(dod_at(ts@, i as int)));
                return false;
            }
        }
        i = i + 1;
    }
    true
}

/// The bits written for one delta of deltas: a single `0` for zero, otherwise a
/// prefix code naming the width (8, 16, 32 or 64 bits) of its zigzag code, then the code.
pub open spec fn dod_bits(dod: int) -> Seq<bool> {
    let z = zigzag_spec(dod) as u64;
    if dod == 0 {
        seq![false]
    } else if z <= 0xff {
        bits_msb(0b10, 2) + bits_msb(z, 8)
    } else if z <= 0xffff {
        bits_msb(0b110, 3) + bits_msb(z, 16)
    } else if z <= 0xffff_ffff {
        bits_msb(0b1110, 4) + bits_msb(z, 32)
    } else {
        bits_msb(0b1111, 4) + bits_msb(z, 64)
    }
}

/// The bit stream of an encoded timestamp column: the first timestamp in 64
/// bits, the zigzag code of the first delta in 64 bits, then `dod_bits` of
/// every later delta of deltas.
pub open spec fn ts_bits(ts: Seq<i64>) -> Seq<bool>
    decreases ts.len(),
{
    if ts.len() == 0 {
        Seq::empty()
    } else if ts.len() == 1 {
        bits_msb(ts[0] as u64, 64)
    } else if ts.len() == 2 {
        bits_msb(ts[0] as u64, 64) + bits_msb(zigzag_spec(delta_at(ts, 1)) as u64, 64)
    } else {
        ts_bits(ts.drop_last()) + dod_bits(dod_at(ts, ts.len() - 1))
    }
}

/// Compresses a column of timestamps by delta-of-delta coding.
pub fn encode_timestamps(timestamps: &[i64]) -> (r: Vec<u8>)
    requires
        ts_encodable(timestamps@),
    ensures
        packs(r@, ts_bits(timestamps@)),
{
    let n = timestamps.len();
    if n == 0 {
        proof {
            assert(ts_bits(timestamps@) =~= Seq::<bool>::empty());
        }
        return Vec::new();
    }
    let ghost ts = timestamps@;
    let mut writer = BitWriter::new();
    let first = timestamps[0] as u64;
    writer.write_bits(first, 64);
    if n == 1 {
        return writer.into_bytes();
    }
    assert(in_i64(delta_at(ts, 1)));
    let prev_delta = timestamps[1] - timestamps[0];
    let zigzag_prev = zigzag::encode(prev_delta);
    writer.write_bits(zigzag_prev, 64);
    proof {
        assert(ts.take(2).drop_last() =~= ts.take(1));
        assert(writer@ == ts_bits(ts.take(2)));
    }
    let mut prev_ts = timestamps[1];
    let mut prev_d = prev_delta;
    let mut i: usize = 2;
    while i < n
        invariant
            2 <= i <= n,
            n == timestamps.len(),
            ts == timestamps@,
            ts_encodable(ts),
            writer@ == ts_bits(ts.take(i as int)),
            prev_ts == ts[i - 1],
            prev_d == delta_at(ts, i - 1),
        decreases n - i,
    {
        let t = timestamps[i];
        assert(in_i64(delta_at(ts, i as int)));
        assert(in_i64(dod_at(ts, i as int)));
        let delta = t - prev_ts;
        let delta_of_delta = delta - prev_d;
        if delta_of_delta == 0 {
            writer.write_bit(false);
        } else {
            let dod_zigzag = zigzag::encode(delta_of_delta);
            if dod_zigzag <= 0xff {
                writer.write_bits(0b10, 2);
                writer.write_bits(dod_zigzag, 8);
            } else if dod_zigzag <= 0xffff {
                writer.write_bits(0b110, 3);
                writer.write_bits(dod_zigzag, 16);
            } else if dod_zigzag <= 0xffff_ffff {
                writer.write_bits(0b1110, 4);
                writer.write_bits(dod_zigzag, 32);
            } else {
                writer.write_bits(0b1111, 4);
                writer.write_bits(dod_zigzag, 64);
            }
        }
        proof {
            let tk = ts.take(i + 1);
            assert(tk.drop_last() =~= ts.take(i as int));
            assert(dod_at(tk, i as int) == delta_of_delta);
            assert(writer@ =~= ts_bits(tk));
        }
        prev_ts = t;
        prev_d = delta;
        i = i + 1;
    }
    proof {
        assert(ts.take(n as int) =~= ts);
    }
    writer.into_bytes()
}

/// The `n` bits at `pos` as a number, when the stream holds them.
pub open spec fn read_field(bits: Seq<bool>, pos: nat, n: nat) -> Option<u64> {
    if pos + n <= bits.len() {
        Some(bits_to_u64(bits.subrange(pos as int, (pos + n) as int)))
    } else {
        None
    }
}

/// After a leading `1`, the rest of the width prefix at `p`: how many more
/// prefix bits it takes and the width of the code that follows.
pub open spec fn dod_width(bits: Seq<bool>, p: nat) -> Option<(nat, nat)> {
    if p >= bits.len() {
        None
    } else if !bits[p as int] {
        Some((1, 8))
    } else if p + 1 >= bits.len() {
        None
    } else if !bits[p + 1int] {
        Some((2, 16))
    } else if p + 2 >= bits.len() {
        None
    } else if !bits[p + 2int] {
        Some((3, 32))
    } else {
        Some((3, 64))
    }
}

/// One decoding step at `pos`: the position after it, the timestamp and the delta.
/// `None` when the stream ends too early or a value leaves the `i64` range.
pub open spec fn dod_step(bits: Seq<bool>, pos: nat, prev_ts: i64, prev_d: i64) -> Option<
    (nat, i64, i64),
> {
    if pos >= bits.len() {
        None
    } else if !bits[pos as int] {
        if in_i64(prev_ts + prev_d) {
            Some((pos + 1, (prev_ts + prev_d) as i64, prev_d))
        } else {
            None
        }
    } else {
        match dod_width(bits, pos + 1) {
            None => None,
            Some((c, w)) => match read_field(bits, pos + 1 + c, w) {
                None => None,
                Some(z) => {
                    let delta = prev_d + unzigzag_spec(z as int);
                    if !in_i64(delta) || !in_i64(prev_ts + delta) {
                        None
                    } else {
                        Some((pos + 1 + c + w, (prev_ts + delta) as i64, delta as i64))
                    }
                },
            },
        }
    }
}

/// `k` more decoding steps from `pos`, appending each timestamp to `acc`.
pub open spec fn dod_loop(
    bits: Seq<bool>,
    pos: nat,
    prev_ts: i64,
    prev_d: i64,
    k: nat,
    acc: Seq<i64>,
) -> Option<Seq<i64>>
    decreases k,
{
    if k == 0 {
        Some(acc)
    } else {
        match dod_step(bits, pos, prev_ts, prev_d) {
            None => None,
            Some((pos2, t, d)) => dod_loop(bits, pos2, t, d, (k - 1) as nat, acc.push(t)),
        }
    }
}

/// The first `count` timestamps decoded from the bit stream `bits`; empty when
/// `count` is zero or the stream is empty, `None` when it cannot be decoded.
pub open spec fn ts_decode_spec(bits: Seq<bool>, count: nat) -> Option<Seq<i64>> {
    if count == 0 || bits.len() == 0 {
        Some(Seq::empty())
    } else {
        match read_field(bits, 0, 64) {
            None => None,
            Some(f) => {
                let first = f as i64;
                if count == 1 {
                    Some(seq![first])
                } else {
                    match read_field(bits, 64, 64) {
                        None => None,
                        Some(z) => {
                            let d = unzigzag_spec(z as int);
                            if !in_i64(first + d) {
                                None
                            } else {
                                let t1 = (first + d) as i64;
                                dod_loop(bits, 128, t1, d as i64, (count - 2) as nat, seq![first, t1])
                            }
                        },
                    }
                }
            },
        }
    }
}

fn read_width(reader: &mut BitReader) -> (r: Option<u8>)
    ensures
        final(reader).data() == old(reader).data(),
        match dod_width(bits_of(old(reader).data()), old(reader).pos()) {
            Some((c, w)) => r == Some(w as u8) && final(reader).pos() == old(reader).pos() + c,
            None => r is None,
        },
{
    let ghost bits = bits_of(reader.data());
    let b1 = match reader.read_bit() {
        Some(b) => b,
        None => return None,
    };
    if !b1 {
        return Some(8);
    }
    let b2 = match reader.read_bit() {
        Some(b) => b,
        None => return None,
    };
    if !b2 {
        return Some(16);
    }
    let b3 = match reader.read_bit() {
        Some(b) => b,
        None => return None,
    };
    if !b3 {
        Some(32)
    } else {
        Some(64)
    }
}

/// Decodes `count` timestamps, or `None` when `data` is too short for them or a
/// value leaves the `i64` range.
pub fn try_decode_timestamps(data: &[u8], count: usize) -> (r: Option<Vec<i64>>)
    ensures
        match r {
            Some(v) => ts_decode_spec(bits_of(data@), count as nat) == Some(v@),
            None => ts_decode_spec(bits_of(data@), count as nat) is None,
        },
{
    let ghost bits = bits_of(data@);
    if count == 0 || data.len() == 0 {
        return Some(Vec::new());
    }
    let mut reader = BitReader::new(data);
    let mut result: Vec<i64> = Vec::new();
    let first = match reader.read_bits(64) {
        Some(f) => f as i64,
        None => return None,
    };
    result.push(first);
    if count == 1 {
        return Some(result);
    }
    let zigzag_prev = match reader.read_bits(64) {
        Some(z) => z,
        None => return None,
    };
    let prev_delta = zigzag::decode(zigzag_prev);
    let t1 = match first.checked_add(prev_delta) {
        Some(t) => t,
        None => return None,
    };
    result.push(t1);
    let mut prev_ts = t1;
    let mut prev_d = prev_delta;
    let mut i: usize = 2;
    proof {
        assert(result@ =~= seq![first, t1]);
    }
    while i < count
        invariant
            2 <= i <= count,
            reader.data() == data@,
            bits == bits_of(data@),
            dod_loop(bits, reader.pos(), prev_ts, prev_d, (count - i) as nat, result@)
                == ts_decode_spec(bits, count as nat),
        decreases count - i,
    {
        let ghost pos0 = reader.pos();
        let first_bit = match reader.read_bit() {
            Some(b) => b,
            None => return None,
        };
        if !first_bit {
            let t = match prev_ts.checked_add(prev_d) {
                Some(t) => t,
                None => return None,
            };
            result.push(t);
            prev_ts = t;
        } else {
            let width = match read_width(&mut reader) {
                Some(w) => w,
                None => return None,
            };
            let dod_zigzag = match reader.read_bits(width) {
                Some(z) => z,
                None => return None,
            };
            let dod = zigzag::decode(dod_zigzag);
            let delta = match prev_d.checked_add(dod) {
                Some(d) => d,
                None => return None,
            };
            let t = match prev_ts.checked_add(delta) {
                Some(t) => t,
                None => return None,
            };
            result.push(t);
            prev_ts = t;
            prev_d = delta;
        }
        i = i + 1;
    }
    Some(result)
}

proof fn lemma_ts_bits_prefix(ts: Seq<i64>, j: int)
    requires
        1 <= j <= ts.len(),
    ensures
        ts_bits(ts.take(j)).is_prefix_of(ts_bits(ts)),
    decreases ts.len(),
{
    if j == ts.len() {
        assert(ts.take(j) =~= ts);
    } else if ts.len() == 2 {
        assert(ts.take(1).len() == 1);
        assert(ts_bits(ts.take(1)) == bits_msb(ts[0] as u64, 64));
    } else {
        let d = ts.drop_last();
        assert(d.take(j) =~= ts.take(j));
        lemma_ts_bits_prefix(d, j);
    }
}

proof fn lemma_ts_bits_extend(ts: Seq<i64>, i: int)
    requires
        2 <= i < ts.len(),
    ensures
        ts_bits(ts.take(i + 1)) == ts_bits(ts.take(i)) + dod_bits(dod_at(ts, i)),
{
    let tk = ts.take(i + 1);
    assert(tk.drop_last() =~= ts.take(i));
    assert(dod_at(tk, i) == dod_at(ts, i));
}

pub proof fn lemma_read_code(bits: Seq<bool>, pos: nat, z: u64, n: nat)
    requires
        fits_bits(z, n),
        pos + n <= bits.len(),
        bits.subrange(pos as int, (pos + n) as int) == bits_msb(z, n),
    ensures
        read_field(bits, pos, n) == Some(z),
{
    lemma_bits_roundtrip(z, n);
}

pub proof fn lemma_prefix_subrange(p: Seq<bool>, bits: Seq<bool>, a: int, b: int)
    requires
        p.is_prefix_of(bits),
        0 <= a <= b <= p.len(),
    ensures
        bits.subrange(a, b) == p.subrange(a, b),
{
    assert forall|k: int| 0 <= k < b - a implies bits.subrange(a, b)[k] == p.subrange(a, b)[k] by {
        assert(bits.subrange(0, p.len() as int)[a + k] == p[a + k]);
    }
    assert(bits.subrange(a, b) =~= p.subrange(a, b));
}

pub proof fn lemma_tail(bits: Seq<bool>, pos: int, h: Seq<bool>, c: Seq<bool>)
    requires
        0 <= pos,
        pos + h.len() + c.len() <= bits.len(),
        bits.subrange(pos, pos + h.len() + c.len()) == h + c,
    ensures
        bits.subrange(pos + h.len(), pos + h.len() + c.len()) == c,
{
    assert forall|k: int| 0 <= k < c.len() implies bits.subrange(
        pos + h.len(),
        pos + h.len() + c.len(),
    )[k] == c[k] by {
        assert(bits.subrange(pos, pos + h.len() + c.len())[h.len() + k] == (h + c)[h.len() + k]);
        assert((h + c)[h.len() + k] == c[k]);
        assert(bits.subrange(pos + h.len(), pos + h.len() + c.len())[k] == bits[pos + h.len() + k]);
        assert(bits.subrange(pos, pos + h.len() + c.len())[h.len() + k] == bits[pos + h.len() + k]);
    }
    assert(bits.subrange(pos + h.len(), pos + h.len() + c.len()) =~= c);
}

proof fn lemma_dod_step(bits: Seq<bool>, pos: nat, prev_ts: i64, prev_d: i64, dod: int)
    requires
        in_i64(dod),
        in_i64(prev_d + dod),
        in_i64(prev_ts + prev_d + dod),
        pos + dod_bits(dod).len() <= bits.len(),
        bits.subrange(pos as int, (pos + dod_bits(dod).len()) as int) == dod_bits(dod),
    ensures
        dod_step(bits, pos, prev_ts, prev_d) == Some(
            (pos + dod_bits(dod).len(), (prev_ts + prev_d + dod) as i64, (prev_d + dod) as i64),
        ),
{
    let db = dod_bits(dod);
    assert(forall|k: int| 0 <= k < db.len() ==> bits[pos + k] == #[trigger] db[k]) by {
        assert forall|k: int| 0 <= k < db.len() implies bits[pos + k] == #[trigger] db[k] by {
            assert(bits.subrange(pos as int, (pos + db.len()) as int)[k] == bits[pos + k]);
        }
    }
    if dod == 0 {
        assert(db[0] == false);
    } else {
        let dd = dod as i64;
        zigzag::lemma_zigzag_roundtrip(dd);
        let z = zigzag_spec(dod) as u64;
        assert(z as int == zigzag_spec(dod));
        assert((2u64 >> 1u64) & 1u64 == 1u64 && (2u64 >> 0u64) & 1u64 == 0u64) by (bit_vector);
        assert((6u64 >> 2u64) & 1u64 == 1u64 && (6u64 >> 1u64) & 1u64 == 1u64 && (6u64 >> 0u64)
            & 1u64 == 0u64) by (bit_vector);
        assert((14u64 >> 3u64) & 1u64 == 1u64 && (14u64 >> 2u64) & 1u64 == 1u64 && (14u64
            >> 1u64) & 1u64 == 1u64 && (14u64 >> 0u64) & 1u64 == 0u64) by (bit_vector);
        assert((15u64 >> 3u64) & 1u64 == 1u64 && (15u64 >> 2u64) & 1u64 == 1u64 && (15u64
            >> 1u64) & 1u64 == 1u64 && (15u64 >> 0u64) & 1u64 == 1u64) by (bit_vector);
        if z <= 0xff {
            let h = bits_msb(0b10, 2);
            assert(db == h + bits_msb(z, 8));
            assert(db[0] && !db[1]);
            assert(fits_bits(z, 8)) by {
                assert(z <= 0xff ==> z >> 8u64 == 0) by (bit_vector);
            }
            lemma_tail(bits, pos as int, h, bits_msb(z, 8));
            lemma_read_code(bits, pos + 2, z, 8);
        } else if z <= 0xffff {
            let h = bits_msb(0b110, 3);
            assert(db == h + bits_msb(z, 16));
            assert(db[0] && db[1] && !db[2]);
            assert(fits_bits(z, 16)) by {
                assert(z <= 0xffff ==> z >> 16u64 == 0) by (bit_vector);
            }
            lemma_tail(bits, pos as int, h, bits_msb(z, 16));
            lemma_read_code(bits, pos + 3, z, 16);
        } else if z <= 0xffff_ffff {
            let h = bits_msb(0b1110, 4);
            assert(db == h + bits_msb(z, 32));
            assert(db[0] && db[1] && db[2] && !db[3]);
            assert(fits_bits(z, 32)) by {
                assert(z <= 0xffff_ffff ==> z >> 32u64 == 0) by (bit_vector);
            }
            lemma_tail(bits, pos as int, h, bits_msb(z, 32));
            lemma_read_code(bits, pos + 4, z, 32);
        } else {
            let h = bits_msb(0b1111, 4);
            assert(db == h + bits_msb(z, 64));
            assert(db[0] && db[1] && db[2] && db[3]);
            lemma_tail(bits, pos as int, h, bits_msb(z, 64));
            lemma_read_code(bits, pos + 4, z, 64);
        }
    }
}

proof fn lemma_dod_loop(ts: Seq<i64>, bits: Seq<bool>, i: int)
    requires
        ts_encodable(ts),
        2 <= i <= ts.len(),
        ts_bits(ts).is_prefix_of(bits),
    ensures
        dod_loop(
            bits,
            ts_bits(ts.take(i)).len(),
            ts[i - 1],
            delta_at(ts, i - 1) as i64,
            (ts.len() - i) as nat,
            ts.take(i),
        ) == Some(ts),
    decreases ts.len() - i,
{
    assert(in_i64(delta_at(ts, i - 1)));
    if i == ts.len() {
        assert(ts.take(i) =~= ts);
    } else {
        assert(in_i64(delta_at(ts, i)));
        assert(in_i64(dod_at(ts, i)));
        lemma_ts_bits_extend(ts, i);
        lemma_ts_bits_prefix(ts, i + 1);
        let p = ts_bits(ts.take(i)).len();
        let db = dod_bits(dod_at(ts, i));
        let tb = ts_bits(ts.take(i + 1));
        assert(tb.is_prefix_of(bits)) by {
            lemma_prefix_subrange(ts_bits(ts), bits, 0, tb.len() as int);
            assert(ts_bits(ts).subrange(0, tb.len() as int) == tb);
        }
        lemma_prefix_subrange(tb, bits, p as int, tb.len() as int);
        assert(tb.subrange(p as int, tb.len() as int) =~= db);
        lemma_dod_step(bits, p, ts[i - 1], delta_at(ts, i - 1) as i64, dod_at(ts, i));
        assert(ts.take(i).push(ts[i]) =~= ts.take(i + 1));
        lemma_dod_loop(ts, bits, i + 1);
    }
}

/// Decoding undoes encoding: the bytes that `encode_timestamps` writes for a
/// column decode, with the column's length as count, to the same column.
pub proof fn lemma_timestamps_roundtrip(ts: Seq<i64>, bytes: Seq<u8>)
    requires
        ts_encodable(ts),
        packs(bytes, ts_bits(ts)),
    ensures
        ts_decode_spec(bits_of(bytes), ts.len()) == Some(ts),
{
    let bits = bits_of(bytes);
    let tb = ts_bits(ts);
    assert(tb.is_prefix_of(bits)) by {
        assert(bits.subrange(0, tb.len() as int) =~= tb) by {
            assert forall|k: int| 0 <= k < tb.len() implies bits.subrange(0, tb.len() as int)[k]
                == tb[k] by {
                assert(bit_at(bytes, k) == tb[k]);
            }
        }
    }
    if ts.len() == 0 {
        assert(ts =~= Seq::<i64>::empty());
    } else {
        lemma_roundtrip_head(ts, bits);
    }
}

/// Decoding a shorter count gives the start of the column: for every `k` up to
/// its length, the bytes that `encode_timestamps` writes for a column decode,
/// with `k` as count, to its first `k` timestamps.
pub proof fn lemma_timestamps_prefix(ts: Seq<i64>, bytes: Seq<u8>, k: int)
    requires
        ts_encodable(ts),
        packs(bytes, ts_bits(ts)),
        0 <= k <= ts.len(),
    ensures
        ts_decode_spec(bits_of(bytes), k as nat) == Some(ts.take(k)),
{
    let bits = bits_of(bytes);
    let tk = ts.take(k);
    if k == 0 {
        assert(tk =~= Seq::<i64>::empty());
    } else {
        assert(ts_encodable(tk)) by {
            assert forall|i: int| 1 <= i < tk.len() implies in_i64(#[trigger] delta_at(tk, i)) by {
                assert(delta_at(tk, i) == delta_at(ts, i));
            }
            assert forall|i: int| 2 <= i < tk.len() implies in_i64(#[trigger] dod_at(tk, i)) by {
                assert(dod_at(tk, i) == dod_at(ts, i));
            }
        }
        lemma_timestamps_roundtrip(ts, bytes);
        let tb = ts_bits(ts);
        assert(tb.is_prefix_of(bits)) by {
            assert(bits.subrange(0, tb.len() as int) =~= tb) by {
                assert forall|j: int| 0 <= j < tb.len() implies bits.subrange(0, tb.len() as int)[j]
                    == tb[j] by {
                    assert(bit_at(bytes, j) == tb[j]);
                }
            }
        }
        lemma_ts_bits_prefix(ts, k);
        let kb = ts_bits(tk);
        assert(kb.is_prefix_of(bits)) by {
            lemma_prefix_subrange(tb, bits, 0, kb.len() as int);
            assert(tb.subrange(0, kb.len() as int) == kb);
        }
        lemma_roundtrip_head(tk, bits);
    }
}

proof fn lemma_roundtrip_head(ts: Seq<i64>, bits: Seq<bool>)
    requires
        ts_encodable(ts),
        ts.len() >= 1,
        ts_bits(ts).is_prefix_of(bits),
    ensures
        ts_decode_spec(bits, ts.len()) == Some(ts),
{
    let tb = ts_bits(ts);
    lemma_ts_bits_prefix(ts, 1);
    let t1 = ts.take(1);
    assert(t1.len() == 1 && t1[0] == ts[0]);
    let b0 = bits_msb(ts[0] as u64, 64);
    assert(ts_bits(t1) == b0);
    lemma_prefix_subrange(tb, bits, 0, 64);
    assert(tb.subrange(0, 64) =~= b0);
    lemma_read_code(bits, 0, ts[0] as u64, 64);
    let x = ts[0];
    assert((x as u64) as i64 == x) by (bit_vector);
    if ts.len() == 1 {
        assert(seq![x] =~= ts);
    } else {
        lemma_ts_bits_prefix(ts, 2);
        let t2 = ts.take(2);
        assert(in_i64(delta_at(ts, 1)));
        assert(delta_at(t2, 1) == delta_at(ts, 1));
        zigzag::lemma_zigzag_roundtrip(delta_at(ts, 1) as i64);
        let z = zigzag_spec(delta_at(ts, 1)) as u64;
        let b1 = bits_msb(z, 64);
        assert(ts_bits(t2) == b0 + b1);
        lemma_prefix_subrange(tb, bits, 64, 128);
        assert(tb.subrange(0, 128) == b0 + b1);
        assert(tb.subrange(64, 128) =~= b1) by {
            assert forall|k: int| 0 <= k < 64 implies tb.subrange(64, 128)[k] == b1[k] by {
                assert(tb.subrange(0, 128)[64 + k] == (b0 + b1)[64 + k]);
            }
        }
        lemma_read_code(bits, 64, z, 64);
        assert(ts.take(2) =~= seq![ts[0], ts[1]]);
        lemma_dod_loop(ts, bits, 2);
    }
}

/// Decodes `count` timestamps from a column that `encode_timestamps` wrote.
pub fn decode_timestamps(data: &[u8], count: usize) -> (r: Vec<i64>)
    requires
        ts_decode_spec(bits_of(data@), count as nat) is Some,
    ensures
        ts_decode_spec(bits_of(data@), count as nat) == Some(r@),
{
    match try_decode_timestamps(data, count) {
        Some(v) => v,
        None => Vec::new(),
    }
}

} // verus!
