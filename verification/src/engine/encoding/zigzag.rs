use vstd::prelude::*;

verus! {

/// The zigzag image of a signed integer: non-negative values go to even
/// numbers, negative values to odd numbers (0, -1, 1, -2, 2, ... map to
/// 0, 1, 2, 3, 4, ...).
pub open spec fn zigzag_spec(n: int) -> int {
    if n >= 0 {
        2 * n
    } else {
        -2 * n - 1
    }
}

/// The inverse of `zigzag_spec` on naturals.
pub open spec fn unzigzag_spec(u: int) -> int {
    if u % 2 == 0 {
        u / 2
    } else {
        -((u + 1) / 2)
    }
}

/// Maps a signed 64-bit integer to its zigzag code.
pub fn encode(n: i64) -> (r: u64)
    ensures
        r == zigzag_spec(n as int),
{
    let r = ((n as u64) << 1u64) ^ ((n >> 63u64) as u64);
    assert(r == zigzag_spec(n as int)) by (bit_vector)
        requires
            r == ((n as u64) << 1u64) ^ ((n >> 63u64) as u64),
    ;
    r
}

/// Maps a zigzag code back to the signed integer it stands for.
pub fn decode(n: u64) -> (r: i64)
    ensures
        r == unzigzag_spec(n as int),
{
    assert(n & 1u64 <= 1) by (bit_vector);
    let low: i64 = (n & 1u64) as i64;
    let mask: i64 = -low;
    let r = ((n >> 1u64) as i64) ^ mask;
    assert(r == unzigzag_spec(n as int)) by (bit_vector)
        requires
            low == (n & 1u64) as i64,
            low == 0 ==> mask == 0i64,
            low == 1 ==> mask == -1i64,
            r == ((n >> 1u64) as i64) ^ mask,
    ;
    r
}

/// Decoding undoes encoding: every `i64` survives the zigzag round trip.
pub proof fn lemma_zigzag_roundtrip(n: i64)
    ensures
        0 <= zigzag_spec(n as int) <= u64::MAX,
        unzigzag_spec(zigzag_spec(n as int)) == n,
{
}

} // verus!
