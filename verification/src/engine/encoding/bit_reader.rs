use vstd::prelude::*;
use super::bits::{bit_at, bits_of, bits_to_u64};

verus! {

/// Reads a byte string bit by bit, the most significant bit of each byte first.
pub struct BitReader<'a> {
    buffer: &'a [u8],
    byte_pos: usize,
    bit_pos: u8,
}

impl<'a> BitReader<'a> {
    #[verifier::type_invariant]
    closed spec fn inv(&self) -> bool {
        &&& self.bit_pos < 8
        &&& self.byte_pos <= self.buffer@.len()
        &&& self.byte_pos == self.buffer@.len() ==> self.bit_pos == 0
    }

    /// The bytes being read.
    pub closed spec fn data(&self) -> Seq<u8> {
        self.buffer@
    }

    /// The index of the next bit to be read.
    pub closed spec fn pos(&self) -> nat {
        (8 * self.byte_pos + self.bit_pos) as nat
    }

    /// A reader at the first bit of `buffer`.
    pub fn new(buffer: &'a [u8]) -> (r: Self)
        ensures
            r.data() == buffer@,
            r.pos() == 0,
    {
        BitReader { buffer, byte_pos: 0, bit_pos: 0 }
    }

    /// The next bit, or `None` when every bit has been read.
    pub fn read_bit(&mut self) -> (r: Option<bool>)
        ensures
            final(self).data() == old(self).data(),
            old(self).pos() <= 8 * old(self).data().len(),
            old(self).pos() < 8 * old(self).data().len() ==> r == Some(
                bit_at(old(self).data(), old(self).pos() as int),
            ) && final(self).pos() == old(self).pos() + 1,
            old(self).pos() >= 8 * old(self).data().len() ==> r is None && final(self).pos()
                == old(self).pos(),
    {
        proof {
            use_type_invariant(&*self);
        }
        if self.byte_pos >= self.buffer.len() {
            return None;
        }
        let byte = self.buffer[self.byte_pos];
        let bp = self.bit_pos;
        let bit = (byte >> (7 - bp)) & 1u8 == 1u8;
        proof {
            let k = 8 * self.byte_pos + bp;
            assert(k / 8 == self.byte_pos && k % 8 == bp);
        }
        if bp == 7 {
            *self = BitReader { buffer: self.buffer, byte_pos: self.byte_pos + 1, bit_pos: 0 };
        } else {
            *self = BitReader { buffer: self.buffer, byte_pos: self.byte_pos, bit_pos: bp + 1 };
        }
        Some(bit)
    }

    /// The next `num_bits` bits as a number, the first bit read the most
    /// significant; `None` when fewer bits are left (the reader then stands at
    /// the end).
    pub fn read_bits(&mut self, num_bits: u8) -> (r: Option<u64>)
        ensures
            final(self).data() == old(self).data(),
            old(self).pos() + num_bits <= 8 * old(self).data().len() ==> r == Some(
                bits_to_u64(
                    bits_of(old(self).data()).subrange(
                        old(self).pos() as int,
                        old(self).pos() + num_bits,
                    ),
                ),
            ) && final(self).pos() == old(self).pos() + num_bits,
            old(self).pos() + num_bits > 8 * old(self).data().len() ==> r is None
                && final(self).pos() == 8 * old(self).data().len(),
    {
        proof {
            use_type_invariant(&*self);
        }
        let ghost bits = bits_of(self.data());
        let ghost start = self.pos();
        let mut value: u64 = 0;
        let mut i: u8 = 0;
        while i < num_bits
            invariant
                i <= num_bits,
                self.data() == old(self).data(),
                bits == bits_of(self.data()),
                start == old(self).pos(),
                self.pos() == start + i,
                self.pos() <= 8 * self.data().len(),
                value == bits_to_u64(bits.subrange(start as int, start + i)),
            decreases num_bits - i,
        {
            let b = self.read_bit();
            match b {
                None => {
                    return None;
                },
                Some(bit) => {
                    proof {
                        let s0 = bits.subrange(start as int, start + i);
                        let s1 = bits.subrange(start as int, start + i + 1);
                        assert(s1.drop_last() =~= s0);
                        assert(s1.last() == bit);
                    }
                    value = (value << 1u64) | (if bit {
                        1u64
                    } else {
                        0u64
                    });
                    i = i + 1;
                },
            }
        }
        Some(value)
    }

    /// Whether a whole unread byte, or part of one, is left.
    pub fn has_more(&self) -> (r: bool)
        ensures
            r == (self.pos() < 8 * self.data().len()),
    {
        proof {
            use_type_invariant(self);
        }
        self.byte_pos < self.buffer.len()
    }
}

} // verus!
