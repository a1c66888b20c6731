use vstd::prelude::*;
use super::bits::{bit_at, bits_of, bits_msb, packs};

verus! {

/// Accumulates a bit string, most significant bit of each byte first.
pub struct BitWriter {
    bytes: Vec<u8>,
    current: u8,
    filled: u8,
}

impl View for BitWriter {
    type V = Seq<bool>;

    /// The bits written so far.
    closed spec fn view(&self) -> Seq<bool> {
        bits_of(self.bytes@) + bits_msb(self.current as u64, self.filled as nat)
    }
}

impl BitWriter {
    #[verifier::type_invariant]
    closed spec fn inv(&self) -> bool {
        &&& self.filled < 8
        &&& (self.current >> self.filled) == 0
    }

    /// An empty writer.
    pub fn new() -> (w: Self)
        ensures
            w@ == Seq::<bool>::empty(),
    {
        assert(0u8 >> 0u8 == 0u8) by (bit_vector);
        let w = BitWriter { bytes: Vec::new(), current: 0, filled: 0 };
        assert(w@ =~= Seq::<bool>::empty());
        w
    }

    /// Appends one bit.
    pub fn write_bit(&mut self, bit: bool)
        ensures
            final(self)@ == old(self)@.push(bit),
    {
        proof {
            use_type_invariant(&*self);
        }
        let ghost old_view = self@;
        let c = self.current;
        let f = self.filled;
        let b: u8 = if bit {
            1
        } else {
            0
        };
        assert(c < 128) by (bit_vector)
            requires
                f < 8,
                c >> f == 0,
        ;
        let c2: u8 = (c << 1u8) | b;
        let f2: u8 = f + 1;
        proof {
            assert(bits_msb(c2 as u64, f2 as nat) =~= bits_msb(c as u64, f as nat).push(bit)) by {
                assert forall|j: int| 0 <= j < f2 implies #[trigger] bits_msb(
                    c2 as u64,
                    f2 as nat,
                )[j] == bits_msb(c as u64, f as nat).push(bit)[j] by {
                    if j < f {
                        let a: u64 = (f - 1 - j) as u64;
                        assert(((c2 as u64) >> ((a + 1) as u64)) & 1u64 == ((c as u64) >> a)
                            & 1u64) by (bit_vector)
                            requires
                                a < 7,
                                c < 128,
                                b <= 1,
                                c2 == (c << 1u8) | b,
                        ;
                    } else {
                        assert(((c2 as u64) >> 0u64) & 1u64 == 1u64 <==> b == 1) by (bit_vector)
                            requires
                                c < 128,
                                b <= 1,
                                c2 == (c << 1u8) | b,
                        ;
                    }
                }
            }
            assert(c2 >> f2 == 0) by (bit_vector)
                requires
                    f < 8,
                    c >> f == 0,
                    b <= 1,
                    c2 == (c << 1u8) | b,
                    f2 == f + 1,
            ;
        }
        if f2 == 8 {
            let ghost old_bytes = self.bytes@;
            let mut bytes: Vec<u8> = Vec::new();
            std::mem::swap(&mut bytes, &mut self.bytes);
            bytes.push(c2);
            assert(0u8 >> 0u8 == 0u8) by (bit_vector);
            *self = BitWriter { bytes, current: 0, filled: 0 };
            proof {
                assert(bits_of(self.bytes@) =~= bits_of(old_bytes) + bits_msb(c2 as u64, 8)) by {
                    let n = old_bytes.len();
                    assert forall|k: int| 0 <= k < 8 * (n + 1) implies #[trigger] bits_of(
                        self.bytes@,
                    )[k] == (bits_of(old_bytes) + bits_msb(c2 as u64, 8))[k] by {
                        if k < 8 * n {
                            assert(k / 8 < n);
                        } else {
                            let j = k - 8 * n;
                            assert(k / 8 == n && k % 8 == j);
                            let sh: u8 = (7 - j) as u8;
                            assert((c2 >> sh) & 1u8 == 1u8 <==> ((c2 as u64) >> (sh as u64))
                                & 1u64 == 1u64) by (bit_vector);
                        }
                    }
                }
                assert(bits_msb(0u64, 0) =~= Seq::<bool>::empty());
                assert(self@ =~= old_view.push(bit));
            }
        } else {
            let mut bytes: Vec<u8> = Vec::new();
            std::mem::swap(&mut bytes, &mut self.bytes);
            *self = BitWriter { bytes, current: c2, filled: f2 };
            proof {
                assert(self@ =~= old_view.push(bit));
            }
        }
    }

    /// Appends the `num_bits` low bits of `value`, most significant first.
    pub fn write_bits(&mut self, value: u64, num_bits: u8)
        requires
            num_bits <= 64,
        ensures
            final(self)@ == old(self)@ + bits_msb(value, num_bits as nat),
    {
        let ghost start = self@;
        let mut i: u8 = num_bits;
        while i > 0
            invariant
                i <= num_bits <= 64,
                self@ == start + bits_msb(value, num_bits as nat).take(num_bits - i),
            decreases i,
        {
            i = i - 1;
            let bit = (value >> (i as u64)) & 1u64 == 1u64;
            self.write_bit(bit);
            proof {
                assert(bits_msb(value, num_bits as nat).take(num_bits - i) =~= bits_msb(
                    value,
                    num_bits as nat,
                ).take(num_bits - i - 1).push(bit));
            }
        }
        assert(bits_msb(value, num_bits as nat).take(num_bits as int) =~= bits_msb(
            value,
            num_bits as nat,
        ));
    }

    /// The bytes holding everything written, the last byte padded with zero bits.
    pub fn into_bytes(self) -> (r: Vec<u8>)
        ensures
            packs(r@, self@),
    {
        proof {
            use_type_invariant(&self);
        }
        let ghost view = self@;
        let ghost n = self.bytes@.len();
        let c = self.current;
        let f = self.filled;
        let mut bytes = self.bytes;
        if f > 0 {
            let last: u8 = c << ((8 - f) as u8);
            bytes.push(last);
            proof {
                assert forall|k: int| 0 <= k < view.len() implies #[trigger] bit_at(bytes@, k)
                    == view[k] by {
                    if k < 8 * n {
                        assert(k / 8 < n);
                        assert(bit_at(bytes@, k) == bits_of(self.bytes@)[k]);
                    } else {
                        let j = k - 8 * n;
                        assert(k / 8 == n && k % 8 == j);
                        let sh: u8 = (7 - j) as u8;
                        let a: u64 = (f - 1 - j) as u64;
                        assert((last >> sh) & 1u8 == 1u8 <==> ((c as u64) >> a) & 1u64 == 1u64)
                            by (bit_vector)
                            requires
                                0 < f < 8,
                                c >> f == 0,
                                last == c << ((8 - f) as u8),
                                sh + f == 8 + a,
                                a < f,
                        ;
                    }
                }
                assert forall|k: int| view.len() <= k < 8 * bytes@.len() implies !#[trigger] bit_at(
                    bytes@,
                    k,
                ) by {
                    let j = k - 8 * n;
                    assert(k / 8 == n && k % 8 == j);
                    let sh: u8 = (7 - j) as u8;
                    assert((last >> sh) & 1u8 == 0u8) by (bit_vector)
                        requires
                            0 < f < 8,
                            c >> f == 0,
                            last == c << ((8 - f) as u8),
                            sh + f < 8,
                    ;
                }
            }
        } else {
            proof {
                assert forall|k: int| 0 <= k < view.len() implies #[trigger] bit_at(bytes@, k)
                    == view[k] by {
                    assert(bit_at(bytes@, k) == bits_of(bytes@)[k]);
                }
            }
        }
        bytes
    }
}

} // verus!
