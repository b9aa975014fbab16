//! Facts about the bits of 64-bit words.
use vstd::prelude::*;

verus! {

/// Whether place `j` of `w` holds a 1.
pub open spec fn bit(w: u64, j: nat) -> bool {
    (w >> (j as u64)) & 1 == 1
}

/// The places of `w` below `k`.
pub open spec fn low_places(w: u64, k: nat) -> u64 {
    if k < 64 {
        w & ((1u64 << (k as u64)) - 1) as u64
    } else {
        w
    }
}

/// Exclusive or is associative and commutative, 0 is neutral, and every word
/// cancels itself.
pub proof fn lemma_xor(a: u64, b: u64, c: u64)
    by (bit_vector)
    ensures
        a ^ b == b ^ a,
        (a ^ b) ^ c == a ^ (b ^ c),
        a ^ 0 == a,
        0 ^ a == a,
        a ^ a == 0,
{
}

/// A masked word is at most the mask.
pub proof fn lemma_mask_bound(a: u64, mask: u64)
    by (bit_vector)
    ensures
        a & mask <= mask,
{
}

/// Reading the bits of a word as a signed number loses nothing.
pub proof fn lemma_signed_round_trip(w: u64)
    by (bit_vector)
    ensures
        w as i64 as u64 == w,
{
}

/// Reading a signed number as its bits loses nothing.
pub proof fn lemma_unsigned_round_trip(r: i64)
    by (bit_vector)
    ensures
        r as u64 as i64 == r,
{
}

/// The places of a sum, of a word moved up by one, and of two small words.
pub proof fn lemma_bit(a: u64, b: u64, j: nat)
    requires
        j < 64,
    ensures
        bit(a ^ b, j) == (bit(a, j) != bit(b, j)),
        bit(a << 1, j) == (j > 0 && bit(a, (j - 1) as nat)),
        !bit(0, j),
        bit(1, j) == (j == 0),
        bit(7, j) == (j <= 2),
{
    let i = j as u64;
    assert(((((a ^ b) >> i) & 1 == 1) == (((a >> i) & 1 == 1) != ((b >> i) & 1 == 1))) && ((((a
        << 1) >> i) & 1 == 1) == (i > 0 && (a >> ((i - 1) as u64)) & 1 == 1)) && (0u64 >> i) & 1
        != 1 && (((1u64 >> i) & 1 == 1) == (i == 0)) && (((7u64 >> i) & 1 == 1) == (i <= 2)))
        by (bit_vector)
        requires
            i < 64,
    ;
}

/// A word cut off one place higher has that place added.
pub proof fn lemma_low_places(w: u64, j: nat)
    requires
        j < 64,
    ensures
        low_places(w, 0) == 0,
        low_places(w, j + 1) == low_places(w, j) ^ (if bit(w, j) {
            1u64 << (j as u64)
        } else {
            0u64
        }),
{
    let i = j as u64;
    let low = low_places(w, j);
    let one = if bit(w, j) {
        1u64 << i
    } else {
        0u64
    };
    assert((i < 63 ==> w & ((1u64 << ((i + 1) as u64)) - 1) as u64 == low ^ one) && (i == 63 ==> w
        == low ^ one) && w & ((1u64 << 0u64) - 1) as u64 == 0)
        by (bit_vector)
        requires
            i < 64,
            low == w & ((1u64 << i) - 1) as u64,
            one == if (w >> i) & 1 == 1 { 1u64 << i } else { 0u64 },
    ;
}

} // verus!
