//! The zigzag transform: a bijection between signed and unsigned integers
//! of one width that sends values of small magnitude to small values.
//!
//! The order it induces is 0, -1, 1, -2, 2, ...

use vstd::prelude::*;

verus! {

/// The zigzag image of a signed integer: twice the value for a non-negative
/// one, and one less than twice the magnitude for a negative one.
pub open spec fn zigzag(v: int) -> nat {
    if v >= 0 {
        (2 * v) as nat
    } else {
        (-2 * v - 1) as nat
    }
}

/// The signed integer whose zigzag image is `u`.
pub open spec fn unzigzag(u: nat) -> int {
    if u % 2 == 0 {
        (u / 2) as int
    } else {
        -((u / 2) as int) - 1
    }
}

/// Maps a 32-bit signed integer to its zigzag image.
pub fn zigzag_encode_32(src: i32) -> (out: u32)
    ensures
        out == zigzag(src as int),
{
    if src >= 0 {
        let half: u32 = src as u32;
        assert(half << 1 == 2 * half) by (bit_vector)
            requires
                half < 0x8000_0000u32,
        ;
        half << 1
    } else {
        // -(src + 1) is the magnitude less one; it never overflows, not even
        // for the smallest value, whose magnitude has no signed counterpart.
        let below: u32 = (-(src + 1)) as u32;
        assert(below << 1 == 2 * below) by (bit_vector)
            requires
                below < 0x8000_0000u32,
        ;
        (below << 1) + 1
    }
}

/// Maps a 32-bit zigzag image back to the signed integer it stands for.
pub fn zigzag_decode_32(src: u32) -> (out: i32)
    ensures
        out == unzigzag(src as nat),
{
    let half: u32 = src >> 1;
    assert(half == src / 2 && (src & 1) == src % 2) by (bit_vector)
        requires
            half == src >> 1,
    ;
    if src & 1 != 0 {
        -(half as i32) - 1
    } else {
        half as i32
    }
}

/// Maps a 64-bit signed integer to its zigzag image.
pub fn zigzag_encode_64(src: i64) -> (out: u64)
    ensures
        out == zigzag(src as int),
{
    if src >= 0 {
        let half: u64 = src as u64;
        assert(half << 1 == 2 * half) by (bit_vector)
            requires
                half < 0x8000_0000_0000_0000u64,
        ;
        half << 1
    } else {
        let below: u64 = (-(src + 1)) as u64;
        assert(below << 1 == 2 * below) by (bit_vector)
            requires
                below < 0x8000_0000_0000_0000u64,
        ;
        (below << 1) + 1
    }
}

/// Maps a 64-bit zigzag image back to the signed integer it stands for.
pub fn zigzag_decode_64(src: u64) -> (out: i64)
    ensures
        out == unzigzag(src as nat),
{
    let half: u64 = src >> 1;
    assert(half == src / 2 && (src & 1) == src % 2) by (bit_vector)
        requires
            half == src >> 1,
    ;
    if src & 1 != 0 {
        -(half as i64) - 1
    } else {
        half as i64
    }
}

/// Decoding undoes encoding: every signed integer is recovered from its
/// zigzag image.
pub proof fn lemma_unzigzag_zigzag(v: int)
    ensures
        unzigzag(zigzag(v)) == v,
{
}

/// Encoding undoes decoding: every natural number is the zigzag image of
/// the signed integer it decodes to.
pub proof fn lemma_zigzag_unzigzag(u: nat)
    ensures
        zigzag(unzigzag(u)) == u,
{
}

/// Distinct signed integers have distinct zigzag images.
pub proof fn lemma_zigzag_injective(a: int, b: int)
    requires
        zigzag(a) == zigzag(b),
    ensures
        a == b,
{
    lemma_unzigzag_zigzag(a);
    lemma_unzigzag_zigzag(b);
}

/// The zigzag image of a `w`-bit signed integer fits in `w` unsigned bits,
/// and every `w`-bit unsigned integer decodes to a `w`-bit signed one.
pub proof fn lemma_zigzag_range(v: int, bound: int)
    requires
        bound > 0,
    ensures
        -bound <= v < bound <==> zigzag(v) < 2 * bound,
{
}

} // verus!
