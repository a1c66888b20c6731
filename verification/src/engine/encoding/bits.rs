use vstd::prelude::*;

verus! {

/// Bit `k` of a byte string, the most significant bit of each byte first.
pub open spec fn bit_at(bytes: Seq<u8>, k: int) -> bool {
    (bytes[k / 8] >> ((7 - k % 8) as u8)) & 1u8 == 1u8
}

/// All bits of a byte string, in reading order.
pub open spec fn bits_of(bytes: Seq<u8>) -> Seq<bool> {
    Seq::new(8 * bytes.len(), |k: int| bit_at(bytes, k))
}

/// `bytes` holds exactly the bit string `bits`, followed by zero bits up to the
/// next byte boundary.
pub open spec fn packs(bytes: Seq<u8>, bits: Seq<bool>) -> bool {
    &&& bytes.len() == (bits.len() + 7) / 8
    &&& forall|k: int| 0 <= k < bits.len() ==> #[trigger] bit_at(bytes, k) == bits[k]
    &&& forall|k: int| bits.len() <= k < 8 * bytes.len() ==> !#[trigger] bit_at(bytes, k)
}

/// The `n` low bits of `v`, most significant first.
pub open spec fn bits_msb(v: u64, n: nat) -> Seq<bool> {
    Seq::new(n, |j: int| (v >> ((n - 1 - j) as u64)) & 1u64 == 1u64)
}

/// The number that a reader builds from `bits`, shifting each bit in at the
/// bottom of a 64-bit word.
pub open spec fn bits_to_u64(bits: Seq<bool>) -> u64
    decreases bits.len(),
{
    if bits.len() == 0 {
        0
    } else {
        ((bits_to_u64(bits.drop_last()) << 1u64) | (if bits.last() {
            1u64
        } else {
            0u64
        })) as u64
    }
}

/// `v` fits in `n` bits.
pub open spec fn fits_bits(v: u64, n: nat) -> bool {
    n <= 64 && (n < 64 ==> v >> (n as u64) == 0)
}

/// Writing the `n` low bits of `v` and reading them back gives `v`, when `v`
/// fits in `n` bits.
pub proof fn lemma_bits_roundtrip(v: u64, n: nat)
    requires
        fits_bits(v, n),
    ensures
        bits_to_u64(bits_msb(v, n)) == v,
    decreases n,
{
    if n == 0 {
        assert(v >> 0u64 == 0 ==> v == 0) by (bit_vector);
    } else {
        let w = v >> 1u64;
        let m: u64 = (n - 1) as u64;
        assert(m < 64 ==> w >> m == 0) by (bit_vector)
            requires
                m + 1 <= 64,
                m + 1 < 64 ==> v >> ((m + 1) as u64) == 0,
                w == v >> 1u64,
        ;
        lemma_bits_roundtrip(w, (n - 1) as nat);
        assert(bits_msb(v, n).drop_last() =~= bits_msb(w, (n - 1) as nat)) by {
            assert forall|j: int| 0 <= j < n - 1 implies #[trigger] bits_msb(v, n)[j] == bits_msb(
                w,
                (n - 1) as nat,
            )[j] by {
                let a: u64 = (n - 2 - j) as u64;
                assert(v >> ((a + 1) as u64) == w >> a) by (bit_vector)
                    requires
                        a < 63,
                        w == v >> 1u64,
                ;
            }
        }
        assert(v >> 0u64 == v) by (bit_vector);
        assert(bits_msb(v, n)[n - 1] == ((v >> 0u64) & 1u64 == 1u64));
        assert(bits_msb(v, n).last() == (v & 1u64 == 1u64));
        assert(((w << 1u64) | (if v & 1u64 == 1u64 {
            1u64
        } else {
            0u64
        })) == v) by (bit_vector)
            requires
                w == v >> 1u64,
        ;
    }
}

} // verus!
