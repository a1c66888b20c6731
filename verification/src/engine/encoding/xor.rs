use vstd::prelude::*;
use vstd::std_specs::bits::{u64_leading_zeros, u64_trailing_zeros, axiom_u64_leading_zeros, axiom_u64_trailing_zeros};
use super::bits::{bit_at, bits_of, bits_msb, bits_to_u64, fits_bits, packs};
use super::bit_writer::BitWriter;
use super::bit_reader::BitReader;
use super::delta_of_delta::{read_field, lemma_tail, lemma_prefix_subrange, lemma_read_code};

verus! {

/// The bits written for one value after the first, with the leading and
/// trailing zero counts of the last window that was written out in full;
/// returns the bits and the window carried to the next value. A value equal
/// to its predecessor costs one `0` bit; otherwise the XOR of the two is
/// written, inside the previous window when it fits there, else with a new
/// window (6 bits of leading zeros, 6 bits of width minus one).
pub open spec fn xor_chunk(prev: u64, cur: u64, pl: nat, pt: nat) -> (Seq<bool>, nat, nat) {
    let x = prev ^ cur;
    if x == 0 {
        (seq![false], pl, pt)
    } else {
        let l = u64_leading_zeros(x) as nat;
        let t = u64_trailing_zeros(x) as nat;
        if l >= pl && t >= pt && pl + pt < 64 {
            (seq![true, false] + bits_msb(x >> (pt as u64), (64 - pl - pt) as nat), pl, pt)
        } else {
            let sig = (64 - l - t) as nat;
            (
                seq![true, true] + bits_msb(l as u64, 6) + bits_msb((sig - 1) as u64, 6) + bits_msb(
                    x >> (t as u64),
                    sig,
                ),
                l,
                t,
            )
        }
    }
}

/// The bits written for the values from index `i` on.
pub open spec fn xor_enc_from(vals: Seq<u64>, i: nat, prev: u64, pl: nat, pt: nat) -> Seq<bool>
    decreases vals.len() - i,
{
    if i >= vals.len() {
        Seq::empty()
    } else {
        let (c, pl2, pt2) = xor_chunk(prev, vals[i as int], pl, pt);
        c + xor_enc_from(vals, i + 1, vals[i as int], pl2, pt2)
    }
}

/// The bit stream of an encoded column of 64-bit float patterns: the first
/// value in 64 bits, then `xor_chunk` of each later value.
pub open spec fn float_bits(vals: Seq<u64>) -> Seq<bool> {
    if vals.len() == 0 {
        Seq::empty()
    } else {
        bits_msb(vals[0], 64) + xor_enc_from(vals, 1, vals[0], 64, 64)
    }
}

proof fn lemma_window_facts(x: u64, l: u64, t: u64)
    requires
        x != 0,
        l as int == u64_leading_zeros(x),
        t as int == u64_trailing_zeros(x),
    ensures
        l + t <= 63,
        fits_bits(x >> t, (64 - l - t) as nat),
        (x >> t) << t == x,
{
    axiom_u64_leading_zeros(x);
    axiom_u64_trailing_zeros(x);
    let s: u64 = (64 - l - t) as u64;
    assert(l + t <= 63 && (s < 64 ==> (x >> t) >> s == 0) && (x >> t) << t == x) by (bit_vector)
        requires
            x != 0,
            l < 64,
            t < 64,
            (x >> (63u64 - l) as u64) & 1u64 != 0u64,
            x >> (64u64 - l) as u64 == 0,
            (x >> t) & 1u64 == 1u64,
            x << (64u64 - t) as u64 == 0,
            s == (64 - l - t) as u64,
    ;
}

proof fn lemma_reuse_facts(x: u64, l: u64, t: u64, pl: u64, pt: u64)
    requires
        x != 0,
        l as int == u64_leading_zeros(x),
        t as int == u64_trailing_zeros(x),
        l >= pl,
        t >= pt,
        pl + pt < 64,
    ensures
        fits_bits(x >> pt, (64 - pl - pt) as nat),
        (x >> pt) << pt == x,
{
    axiom_u64_leading_zeros(x);
    axiom_u64_trailing_zeros(x);
    let s: u64 = (64 - pl - pt) as u64;
    assert((x >> pt) >> s == 0 && (x >> pt) << pt == x) by (bit_vector)
        requires
            l < 64,
            t < 64,
            l >= pl,
            t >= pt,
            pl + pt < 64,
            x >> (64u64 - l) as u64 == 0,
            x << (64u64 - t) as u64 == 0,
            s == (64 - pl - pt) as u64,
    ;
}

/// Compresses a column of 64-bit float patterns (IEEE-754 bits) by XOR with
/// the previous value.
pub fn encode_floats(values: &[u64]) -> (r: Vec<u8>)
    ensures
        packs(r@, float_bits(values@)),
{
    let n = values.len();
    if n == 0 {
        proof {
            assert(float_bits(values@) =~= Seq::<bool>::empty());
        }
        return Vec::new();
    }
    let ghost vals = values@;
    let ghost full = float_bits(vals);
    let mut writer = BitWriter::new();
    let first_bits = values[0];
    writer.write_bits(first_bits, 64);
    let mut prev_bits = first_bits;
    let mut prev_leading: u8 = 64;
    let mut prev_trailing: u8 = 64;
    let mut i: usize = 1;
    while i < n
        invariant
            1 <= i <= n,
            n == values.len(),
            vals == values@,
            full == float_bits(vals),
            prev_bits == vals[i - 1],
            prev_leading <= 64,
            prev_trailing <= 64,
            writer@ + xor_enc_from(vals, i as nat, prev_bits, prev_leading as nat, prev_trailing as nat)
                == full,
        decreases n - i,
    {
        let cur_bits = values[i];
        let xor = prev_bits ^ cur_bits;
        let ghost before = writer@;
        let ghost pl0 = prev_leading as nat;
        let ghost pt0 = prev_trailing as nat;
        if xor == 0 {
            writer.write_bit(false);
        } else {
            writer.write_bit(true);
            let leading = xor.leading_zeros() as u8;
            let trailing = xor.trailing_zeros() as u8;
            proof {
                axiom_u64_leading_zeros(xor);
                axiom_u64_trailing_zeros(xor);
                lemma_window_facts(xor, leading as u64, trailing as u64);
            }
            let significant_bits: u8 = 64 - leading - trailing;
            if leading >= prev_leading && trailing >= prev_trailing && prev_leading + prev_trailing
                < 64 {
                writer.write_bit(false);
                writer.write_bits(xor >> prev_trailing, (64 - prev_leading - prev_trailing) as u8);
            } else {
                writer.write_bit(true);
                writer.write_bits(leading as u64, 6);
                let sig_bits: u8 = if significant_bits == 0 {
                    64
                } else {
                    significant_bits
                };
                writer.write_bits((sig_bits - 1) as u64, 6);
                writer.write_bits(xor >> trailing, sig_bits);
                prev_leading = leading;
                prev_trailing = trailing;
            }
        }
        proof {
            let (c, pl2, pt2) = xor_chunk(vals[i - 1], vals[i as int], pl0, pt0);
            assert(writer@ =~= before + c);
            assert(pl2 == prev_leading && pt2 == prev_trailing);
            assert(xor_enc_from(vals, i as nat, vals[i - 1], pl0, pt0) == c + xor_enc_from(
                vals,
                (i + 1) as nat,
                vals[i as int],
                pl2,
                pt2,
            ));
            assert(writer@ + xor_enc_from(vals, (i + 1) as nat, cur_bits, pl2, pt2) =~= before
                + xor_enc_from(vals, i as nat, vals[i - 1], pl0, pt0));
        }
        prev_bits = cur_bits;
        i = i + 1;
    }
    proof {
        assert(writer@ =~= full);
    }
    writer.into_bytes()
}

/// One decoding step at `pos` with the current window: the position after it,
/// the value, and the window carried on. `None` when the stream ends too early
/// or names an impossible window.
pub open spec fn xor_dec_step(bits: Seq<bool>, pos: nat, prev: u64, pl: nat, pt: nat) -> Option<
    (nat, u64, nat, nat),
> {
    if pos >= bits.len() {
        None
    } else if !bits[pos as int] {
        Some((pos + 1, prev, pl, pt))
    } else if pos + 1 >= bits.len() {
        None
    } else if !bits[pos + 1int] {
        if pl + pt > 64 || pt >= 64 {
            None
        } else {
            match read_field(bits, pos + 2, (64 - pl - pt) as nat) {
                None => None,
                Some(s) => Some((pos + 2 + (64 - pl - pt) as nat, prev ^ (s << (pt as u64)), pl, pt)),
            }
        }
    } else {
        match read_field(bits, pos + 2, 6) {
            None => None,
            Some(l) => match read_field(bits, pos + 8, 6) {
                None => None,
                Some(s1) => {
                    let sig = (s1 + 1) as nat;
                    if l + sig > 64 {
                        None
                    } else {
                        let t = (64 - l - sig) as nat;
                        match read_field(bits, pos + 14, sig) {
                            None => None,
                            Some(s) => Some((pos + 14 + sig, prev ^ (s << (t as u64)), l as nat, t)),
                        }
                    }
                },
            },
        }
    }
}

/// `k` more decoding steps, appending each value to `acc`.
pub open spec fn xor_dec_loop(
    bits: Seq<bool>,
    pos: nat,
    prev: u64,
    pl: nat,
    pt: nat,
    k: nat,
    acc: Seq<u64>,
) -> Option<Seq<u64>>
    decreases k,
{
    if k == 0 {
        Some(acc)
    } else {
        match xor_dec_step(bits, pos, prev, pl, pt) {
            None => None,
            Some((pos2, v, pl2, pt2)) => xor_dec_loop(bits, pos2, v, pl2, pt2, (k - 1) as nat, acc.push(v)),
        }
    }
}

/// The first `count` values decoded from the bit stream `bits`; empty when
/// `count` is zero or the stream is empty, `None` when it cannot be decoded.
pub open spec fn float_decode_spec(bits: Seq<bool>, count: nat) -> Option<Seq<u64>> {
    if count == 0 || bits.len() == 0 {
        Some(Seq::empty())
    } else {
        match read_field(bits, 0, 64) {
            None => None,
            Some(f) => xor_dec_loop(bits, 64, f, 64, 64, (count - 1) as nat, seq![f]),
        }
    }
}

/// Decodes `count` float patterns, or `None` when `data` is too short for them
/// or names an impossible window.
pub fn try_decode_floats(data: &[u8], count: usize) -> (r: Option<Vec<u64>>)
    ensures
        match r {
            Some(v) => float_decode_spec(bits_of(data@), count as nat) == Some(v@),
            None => float_decode_spec(bits_of(data@), count as nat) is None,
        },
{
    let ghost bits = bits_of(data@);
    if count == 0 || data.len() == 0 {
        return Some(Vec::new());
    }
    let mut reader = BitReader::new(data);
    let mut result: Vec<u64> = Vec::new();
    let first_bits = match reader.read_bits(64) {
        Some(f) => f,
        None => return None,
    };
    result.push(first_bits);
    let mut prev_bits = first_bits;
    let mut prev_leading: u8 = 64;
    let mut prev_trailing: u8 = 64;
    let mut i: usize = 1;
    proof {
        assert(result@ =~= seq![first_bits]);
    }
    while i < count
        invariant
            1 <= i <= count,
            reader.data() == data@,
            bits == bits_of(data@),
            prev_leading <= 64,
            prev_trailing <= 64,
            xor_dec_loop(
                bits,
                reader.pos(),
                prev_bits,
                prev_leading as nat,
                prev_trailing as nat,
                (count - i) as nat,
                result@,
            ) == float_decode_spec(bits, count as nat),
        decreases count - i,
    {
        let nonzero = match reader.read_bit() {
            Some(b) => b,
            None => return None,
        };
        if !nonzero {
            result.push(prev_bits);
        } else {
            let new_window = match reader.read_bit() {
                Some(b) => b,
                None => return None,
            };
            if !new_window {
                if prev_leading + prev_trailing > 64 || prev_trailing >= 64 {
                    return None;
                }
                let significant_bits: u8 = 64 - prev_leading - prev_trailing;
                let significant = match reader.read_bits(significant_bits) {
                    Some(v) => v,
                    None => return None,
                };
                let xor = significant << (prev_trailing as u64);
                let cur_bits = prev_bits ^ xor;
                result.push(cur_bits);
                prev_bits = cur_bits;
            } else {
                let leading = match reader.read_bits(6) {
                    Some(v) => v,
                    None => return None,
                };
                let sig_field = match reader.read_bits(6) {
                    Some(v) => v,
                    None => return None,
                };
                proof {
                    let ghost p = reader.pos();
                    assert(leading < 64 && sig_field < 64) by {
                        lemma_six_bits_small(bits, (p - 12) as nat);
                        lemma_six_bits_small(bits, (p - 6) as nat);
                    }
                }
                let sig_bits: u64 = sig_field + 1;
                if leading + sig_bits > 64 {
                    return None;
                }
                let trailing: u64 = 64 - leading - sig_bits;
                let significant = match reader.read_bits(sig_bits as u8) {
                    Some(v) => v,
                    None => return None,
                };
                let xor = significant << trailing;
                let cur_bits = prev_bits ^ xor;
                result.push(cur_bits);
                prev_bits = cur_bits;
                prev_leading = leading as u8;
                prev_trailing = trailing as u8;
            }
        }
        i = i + 1;
    }
    Some(result)
}

proof fn lemma_six_bits_small(bits: Seq<bool>, pos: nat)
    requires
        pos + 6 <= bits.len(),
    ensures
        bits_to_u64(bits.subrange(pos as int, pos + 6int)) < 64,
{
    let s = bits.subrange(pos as int, pos + 6int);
    lemma_bits_small(s);
    let v = bits_to_u64(s);
    assert(v >> 6u64 == 0 ==> v < 64) by (bit_vector);
}

proof fn lemma_bits_small(s: Seq<bool>)
    requires
        s.len() < 64,
    ensures
        (bits_to_u64(s) >> (s.len() as u64)) == 0,
    decreases s.len(),
{
    if s.len() > 0 {
        lemma_bits_small(s.drop_last());
        let v = bits_to_u64(s.drop_last());
        let n: u64 = (s.len() - 1) as u64;
        let b: u64 = if s.last() {
            1
        } else {
            0
        };
        assert(((v << 1u64) | b) >> ((n + 1) as u64) == 0) by (bit_vector)
            requires
                n < 63,
                v >> n == 0,
                b <= 1,
        ;
    } else {
        assert(0u64 >> 0u64 == 0) by (bit_vector);
    }
}

proof fn lemma_head(bits: Seq<bool>, pos: int, h: Seq<bool>, c: Seq<bool>)
    requires
        0 <= pos,
        pos + h.len() + c.len() <= bits.len(),
        bits.subrange(pos, pos + h.len() + c.len()) == h + c,
    ensures
        bits.subrange(pos, pos + h.len()) == h,
{
    assert forall|k: int| 0 <= k < h.len() implies bits.subrange(pos, pos + h.len())[k] == h[k] by {
        assert(bits.subrange(pos, pos + h.len() + c.len())[k] == (h + c)[k]);
    }
    assert(bits.subrange(pos, pos + h.len()) =~= h);
}

proof fn lemma_xor_step(bits: Seq<bool>, pos: nat, prev: u64, cur: u64, pl: nat, pt: nat)
    requires
        pl <= 64,
        pt <= 64,
        pos + xor_chunk(prev, cur, pl, pt).0.len() <= bits.len(),
        bits.subrange(pos as int, (pos + xor_chunk(prev, cur, pl, pt).0.len()) as int)
            == xor_chunk(prev, cur, pl, pt).0,
    ensures
        ({
            let (c, pl2, pt2) = xor_chunk(prev, cur, pl, pt);
            xor_dec_step(bits, pos, prev, pl, pt) == Some((pos + c.len(), cur, pl2, pt2))
        }),
{
    let (c, pl2, pt2) = xor_chunk(prev, cur, pl, pt);
    let x = prev ^ cur;
    assert(bits[pos as int] == c[0]) by {
        assert(bits.subrange(pos as int, (pos + c.len()) as int)[0] == c[0]);
    }
    if x == 0 {
        assert(prev == cur) by (bit_vector)
            requires
                prev ^ cur == 0,
        ;
    } else {
        let l = u64_leading_zeros(x) as nat;
        let t = u64_trailing_zeros(x) as nat;
        axiom_u64_leading_zeros(x);
        axiom_u64_trailing_zeros(x);
        lemma_window_facts(x, l as u64, t as u64);
        assert(bits[pos + 1int] == c[1]) by {
            assert(bits.subrange(pos as int, (pos + c.len()) as int)[1] == c[1]);
        }
        if l >= pl && t >= pt && pl + pt < 64 {
            let w = (64 - pl - pt) as nat;
            let h = seq![true, false];
            let body = bits_msb(x >> (pt as u64), w);
            lemma_reuse_facts(x, l as u64, t as u64, pl as u64, pt as u64);
            lemma_tail(bits, pos as int, h, body);
            lemma_read_code(bits, pos + 2, x >> (pt as u64), w);
            let sh = pt as u64;
            assert(prev ^ ((x >> sh) << sh) == cur) by (bit_vector)
                requires
                    x == prev ^ cur,
                    (x >> sh) << sh == x,
            ;
        } else {
            let sig = (64 - l - t) as nat;
            let h = seq![true, true];
            let a = bits_msb(l as u64, 6);
            let b = bits_msb((sig - 1) as u64, 6);
            let d = bits_msb(x >> (t as u64), sig);
            assert(c == h + a + b + d);
            let lu = l as u64;
            let su = (sig - 1) as u64;
            assert(fits_bits(lu, 6) && fits_bits(su, 6)) by {
                assert(lu < 64 ==> lu >> 6u64 == 0) by (bit_vector);
                assert(su < 64 ==> su >> 6u64 == 0) by (bit_vector);
            }
            lemma_tail(bits, pos as int, h + a + b, d);
            lemma_head(bits, pos as int, h + a + b, d);
            lemma_tail(bits, pos as int, h + a, b);
            lemma_head(bits, pos as int, h + a, b);
            lemma_tail(bits, pos as int, h, a);
            lemma_read_code(bits, pos + 2, lu, 6);
            lemma_read_code(bits, pos + 8, su, 6);
            lemma_read_code(bits, pos + 14, x >> (t as u64), sig);
            let sh = t as u64;
            assert(prev ^ ((x >> sh) << sh) == cur) by (bit_vector)
                requires
                    x == prev ^ cur,
                    (x >> sh) << sh == x,
            ;
        }
    }
}

proof fn lemma_xor_loop(vals: Seq<u64>, bits: Seq<bool>, pos: nat, i: nat, pl: nat, pt: nat, k: nat)
    requires
        1 <= i <= k <= vals.len(),
        pl <= 64,
        pt <= 64,
        pos + xor_enc_from(vals, i, vals[i - 1], pl, pt).len() <= bits.len(),
        bits.subrange(pos as int, (pos + xor_enc_from(vals, i, vals[i - 1], pl, pt).len()) as int)
            == xor_enc_from(vals, i, vals[i - 1], pl, pt),
    ensures
        xor_dec_loop(bits, pos, vals[i - 1], pl, pt, (k - i) as nat, vals.take(i as int))
            == Some(vals.take(k as int)),
    decreases k - i,
{
    if i == k {
    } else {
        let (c, pl2, pt2) = xor_chunk(vals[i - 1], vals[i as int], pl, pt);
        let rest = xor_enc_from(vals, i + 1, vals[i as int], pl2, pt2);
        assert(xor_enc_from(vals, i, vals[i - 1], pl, pt) == c + rest);
        lemma_head(bits, pos as int, c, rest);
        lemma_tail(bits, pos as int, c, rest);
        lemma_xor_step(bits, pos, vals[i - 1], vals[i as int], pl, pt);
        assert(pl2 <= 64 && pt2 <= 64) by {
            let x = vals[i - 1] ^ vals[i as int];
            if x != 0 {
                axiom_u64_leading_zeros(x);
                axiom_u64_trailing_zeros(x);
            }
        }
        assert(vals.take(i as int).push(vals[i as int]) =~= vals.take(i + 1int));
        lemma_xor_loop(vals, bits, pos + c.len(), i + 1, pl2, pt2, k);
    }
}

/// Decoding undoes encoding: the bytes that `encode_floats` writes for a
/// column decode, with the column's length as count, to the same column.
pub proof fn lemma_floats_roundtrip(vals: Seq<u64>, bytes: Seq<u8>)
    requires
        packs(bytes, float_bits(vals)),
    ensures
        float_decode_spec(bits_of(bytes), vals.len()) == Some(vals),
{
    lemma_floats_prefix(vals, bytes, vals.len() as int);
    assert(vals.take(vals.len() as int) =~= vals);
}

/// Decoding a shorter count gives the start of the column: for every `k` up to
/// its length, the bytes that `encode_floats` writes for a column decode, with
/// `k` as count, to its first `k` bit patterns, bit for bit.
pub proof fn lemma_floats_prefix(vals: Seq<u64>, bytes: Seq<u8>, k: int)
    requires
        packs(bytes, float_bits(vals)),
        0 <= k <= vals.len(),
    ensures
        float_decode_spec(bits_of(bytes), k as nat) == Some(vals.take(k)),
{
    let bits = bits_of(bytes);
    let fb = float_bits(vals);
    assert(fb.is_prefix_of(bits)) by {
        assert(bits.subrange(0, fb.len() as int) =~= fb) by {
            assert forall|k: int| 0 <= k < fb.len() implies bits.subrange(0, fb.len() as int)[k]
                == fb[k] by {
                assert(bit_at(bytes, k) == fb[k]);
            }
        }
    }
    if k == 0 {
        assert(vals.take(k) =~= Seq::<u64>::empty());
    } else {
        let b0 = bits_msb(vals[0], 64);
        let rest = xor_enc_from(vals, 1, vals[0], 64, 64);
        lemma_prefix_subrange(fb, bits, 0, fb.len() as int);
        assert(fb.subrange(0, fb.len() as int) =~= fb);
        lemma_head(bits, 0, b0, rest);
        lemma_tail(bits, 0, b0, rest);
        lemma_read_code(bits, 0, vals[0], 64);
        assert(vals.take(1) =~= seq![vals[0]]);
        lemma_xor_loop(vals, bits, 64, 1, 64, 64, k as nat);
    }
}

/// Decodes `count` float patterns from a column that `encode_floats` wrote.
pub fn decode_floats(data: &[u8], count: usize) -> (r: Vec<u64>)
    requires
        float_decode_spec(bits_of(data@), count as nat) is Some,
    ensures
        float_decode_spec(bits_of(data@), count as nat) == Some(r@),
{
    match try_decode_floats(data, count) {
        Some(v) => v,
        None => Vec::new(),
    }
}

} // verus!
