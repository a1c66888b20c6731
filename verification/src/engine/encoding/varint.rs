use vstd::prelude::*;
use super::zigzag;
use super::zigzag::{zigzag_spec, unzigzag_spec};

verus! {

/// LEB128 bytes of `v`: seven bits per byte, least significant group first,
/// the high bit of every byte but the last set.
pub open spec fn varint_bytes(v: u64) -> Seq<u8>
    decreases v,
{
    if v < 128 {
        seq![v as u8]
    } else {
        proof {
            lemma_shr7_decreases(v);
        }
        seq![((v & 0x7fu64) | 0x80u64) as u8] + varint_bytes(v >> 7u64)
    }
}

pub proof fn lemma_shr7_decreases(v: u64)
    ensures
        v >= 128 ==> (v >> 7u64) < v,
{
    assert(v >= 128 ==> (v >> 7u64) < v) by (bit_vector);
}

/// What the decoder computes from position `i` onward, `acc` holding the value
/// gathered from the first `i` bytes. `None` when the input ends before a byte
/// with a clear high bit, or when more than ten bytes would be needed.
pub open spec fn varint_decode_from(data: Seq<u8>, i: nat, acc: u64) -> Option<(u64, nat)>
    decreases data.len() - i,
{
    if i >= data.len() || i >= 10 {
        None
    } else {
        let acc2 = acc | (((data[i as int] & 0x7fu8) as u64) << ((7 * i) as u64));
        if data[i as int] & 0x80u8 == 0 {
            Some((acc2, i + 1))
        } else if 7 * (i + 1) >= 64 {
            None
        } else {
            varint_decode_from(data, i + 1, acc2)
        }
    }
}

/// A successful decode reads at least one byte and no more than are there.
pub proof fn lemma_varint_decode_len(data: Seq<u8>, i: nat, acc: u64)
    ensures
        varint_decode_from(data, i, acc) matches Some((v, n)) ==> i < n <= data.len(),
    decreases data.len() - i,
{
    if i < data.len() && i < 10 {
        let acc2 = acc | (((data[i as int] & 0x7fu8) as u64) << ((7 * i) as u64));
        if data[i as int] & 0x80u8 != 0 && 7 * (i + 1) < 64 {
            lemma_varint_decode_len(data, i + 1, acc2);
        }
    }
}

/// The result of `decode_varint` on `data`: the value and the number of bytes read.
pub open spec fn varint_decode_spec(data: Seq<u8>) -> Option<(u64, nat)> {
    varint_decode_from(data, 0, 0)
}

proof fn lemma_varint_decode_step(v: u64, i: nat, acc: u64, rest: Seq<u8>, prefix: Seq<u8>)
    requires
        i < 10,
        prefix.len() == i,
        acc == v & ((1u64 << ((7 * i) as u64)) - 1) as u64,
    ensures
        varint_decode_from(prefix + varint_bytes(v >> ((7 * i) as u64)) + rest, i, acc) == Some(
            (v, i + varint_bytes(v >> ((7 * i) as u64)).len()),
        ),
    decreases v >> ((7 * i) as u64),
{
    let k: u64 = (7 * i) as u64;
    let w = v >> k;
    let data = prefix + varint_bytes(w) + rest;
    assert(k <= 63);
    if w < 128 {
        assert(varint_bytes(w) == seq![w as u8]);
        assert(data[i as int] == w as u8);
        let b = w as u8;
        assert((b & 0x80u8) == 0 && (((b & 0x7fu8) as u64) << k) == w << k) by (bit_vector)
            requires
                w < 128,
                b == w as u8,
        ;
        assert((acc | (w << k)) == v) by (bit_vector)
            requires
                k <= 63,
                w == v >> k,
                w < 128,
                acc == v & ((1u64 << k) - 1) as u64,
        ;
    } else {
        let b = ((w & 0x7fu64) | 0x80u64) as u8;
        assert(varint_bytes(w) == seq![b] + varint_bytes(w >> 7u64));
        assert(data[i as int] == b);
        assert(k <= 56 && (b & 0x80u8) != 0 && (((b & 0x7fu8) as u64) << k) == (w & 0x7fu64) << k)
            by (bit_vector)
            requires
                k <= 63,
                w == v >> k,
                w >= 128,
                b == ((w & 0x7fu64) | 0x80u64) as u8,
        ;
        let acc2 = acc | ((w & 0x7fu64) << k);
        let k2: u64 = (k + 7) as u64;
        assert(acc2 == v & ((1u64 << k2) - 1) as u64 && v >> k2 == w >> 7u64) by (bit_vector)
            requires
                k <= 56,
                k2 == k + 7,
                w == v >> k,
                acc == v & ((1u64 << k) - 1) as u64,
                acc2 == acc | ((w & 0x7fu64) << k),
        ;
        assert(k2 == 7 * (i + 1));
        let prefix2 = prefix.push(b);
        assert(data =~= prefix2 + varint_bytes(w >> 7u64) + rest);
        lemma_shr7_decreases(w);
        lemma_varint_decode_step(v, i + 1, acc2, rest, prefix2);
    }
}

/// Decoding undoes encoding, whatever bytes follow the encoding: the value comes
/// back, and the length read is the length written.
pub proof fn lemma_varint_roundtrip(v: u64, rest: Seq<u8>)
    ensures
        varint_decode_spec(varint_bytes(v) + rest) == Some((v, varint_bytes(v).len())),
{
    assert(v == v >> 0u64 && 0u64 == v & ((1u64 << 0u64) - 1) as u64) by (bit_vector);
    let e: Seq<u8> = Seq::empty();
    assert(e + varint_bytes(v) + rest =~= varint_bytes(v) + rest);
    lemma_varint_decode_step(v, 0, 0, rest, e);
}

/// The signed variant round-trips too, whatever bytes follow.
pub proof fn lemma_signed_varint_roundtrip(v: i64, rest: Seq<u8>)
    ensures
        signed_varint_decode_spec(varint_bytes(zigzag_spec(v as int) as u64) + rest) == Some(
            (v, varint_bytes(zigzag_spec(v as int) as u64).len()),
        ),
{
    zigzag::lemma_zigzag_roundtrip(v);
    lemma_varint_roundtrip(zigzag_spec(v as int) as u64, rest);
}

/// Appends the LEB128 encoding of `value` to `buf`.
pub fn encode_varint(value: u64, buf: &mut Vec<u8>)
    ensures
        final(buf)@ == old(buf)@ + varint_bytes(value),
{
    let mut v = value;
    let ghost start = buf@;
    loop
        invariant_except_break
            buf@ + varint_bytes(v) == start + varint_bytes(value),
        ensures
            buf@ == start + varint_bytes(value),
        decreases v,
    {
        let ghost v0 = v;
        assert(v & 0x7fu64 < 128) by (bit_vector);
        let mut byte: u8 = (v & 0x7fu64) as u8;
        v = v >> 7u64;
        if v != 0 {
            byte = byte | 0x80u8;
        }
        proof {
            assert(v0 < 128 <==> v == 0) by (bit_vector)
                requires
                    v == v0 >> 7u64,
            ;
            if v0 < 128 {
                assert(byte == v0 as u8) by (bit_vector)
                    requires
                        v0 < 128,
                        byte == (v0 & 0x7fu64) as u8,
                ;
                assert(varint_bytes(v) == seq![0u8]);
                assert(varint_bytes(v0) == seq![byte]);
            } else {
                assert(byte == ((v0 & 0x7fu64) | 0x80u64) as u8) by (bit_vector)
                    requires
                        byte == ((v0 & 0x7fu64) as u8) | 0x80u8,
                ;
                assert(varint_bytes(v0) == seq![byte] + varint_bytes(v));
            }
            lemma_shr7_decreases(v0);
        }
        buf.push(byte);
        proof {
            if v0 >= 128 {
                assert(buf@ + varint_bytes(v) =~= (buf@.drop_last() + seq![byte]) + varint_bytes(v));
            }
        }
        if v == 0 {
            proof {
                assert(buf@ =~= start + varint_bytes(value)) by {
                    assert(buf@.drop_last() + varint_bytes(v0) == start + varint_bytes(value));
                }
            }
            break;
        }
    }
}

/// Reads one LEB128 value from the front of `data`: the value and the number
/// of bytes it took, or `None` when `data` ends first or the encoding is longer
/// than ten bytes.
pub fn decode_varint(data: &[u8]) -> (r: Option<(u64, usize)>)
    ensures
        match r {
            Some((v, n)) => varint_decode_spec(data@) == Some((v, n as nat)) && 1 <= n <= data.len(),
            None => varint_decode_spec(data@) is None,
        },
{
    proof {
        lemma_varint_decode_len(data@, 0, 0);
    }
    let mut result: u64 = 0;
    let mut shift: u32 = 0;
    let mut i: usize = 0;
    while i < data.len()
        invariant
            i <= data.len(),
            i < 10,
            shift == 7 * i,
            varint_decode_from(data@, i as nat, result) == varint_decode_spec(data@),
        decreases data.len() - i,
    {
        let byte = data[i];
        result = result | (((byte & 0x7fu8) as u64) << shift);
        if byte & 0x80u8 == 0 {
            return Some((result, i + 1));
        }
        shift = shift + 7;
        if shift >= 64 {
            return None;
        }
        i = i + 1;
    }
    None
}

/// Appends the LEB128 encoding of the zigzag code of `value` to `buf`.
pub fn encode_signed_varint(value: i64, buf: &mut Vec<u8>)
    ensures
        final(buf)@ == old(buf)@ + varint_bytes(zigzag_spec(value as int) as u64),
{
    let z = zigzag::encode(value);
    encode_varint(z, buf);
}

/// The result of `decode_signed_varint` on `data`.
pub open spec fn signed_varint_decode_spec(data: Seq<u8>) -> Option<(i64, nat)> {
    match varint_decode_spec(data) {
        Some((z, n)) => Some((unzigzag_spec(z as int) as i64, n)),
        None => None,
    }
}

/// Reads one zigzag-coded LEB128 value from the front of `data`.
pub fn decode_signed_varint(data: &[u8]) -> (r: Option<(i64, usize)>)
    ensures
        match r {
            Some((v, n)) => signed_varint_decode_spec(data@) == Some((v, n as nat)) && 1 <= n
                <= data.len(),
            None => signed_varint_decode_spec(data@) is None,
        },
{
    match decode_varint(data) {
        Some((z, len)) => Some((zigzag::decode(z), len)),
        None => None,
    }
}

} // verus!
