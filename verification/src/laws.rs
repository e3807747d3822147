//! What holds between writing and reading.
//!
//! Each law speaks of a frame followed by arbitrary further bytes, so it
//! covers a value read from the middle of a stream as well as one read
//! alone.

use crate::format::{
    lemma_parse_encoding, lemma_parse_truncated, weight, MAX_LEN_32, MAX_LEN_64,
};
use crate::read::{decoded_i32, decoded_i64, decoded_u32, decoded_u64};
use crate::write::{encoded_i32, encoded_i64, encoded_u32, encoded_u64};
use crate::zigzag::{lemma_unzigzag_zigzag, zigzag};
use vstd::arithmetic::div_mod::lemma_small_mod;
use vstd::prelude::*;

verus! {

/// Five groups hold 35 bits and nine hold 63.
proof fn lemma_weights()
    ensures
        weight(MAX_LEN_32 as nat) == 0x8_0000_0000,
        weight(MAX_LEN_64 as nat) == 0x8000_0000_0000_0000,
{
    reveal_with_fuel(weight, 10);
}

/// Reading the frame of an unsigned 32-bit value gives the value back and
/// leaves what followed the frame.
pub proof fn lemma_round_trip_u32(v: u32, rest: Seq<u8>)
    ensures
        decoded_u32(encoded_u32(v) + rest) == Some((v, rest)),
{
    lemma_weights();
    lemma_parse_encoding(v as nat, MAX_LEN_32 as nat, rest);
    lemma_small_mod(v as nat, weight(MAX_LEN_32 as nat));
}

/// Reading the frame of an unsigned 64-bit value gives the value without
/// its top bit, for which nine groups have no room, and leaves what followed
/// the frame.
pub proof fn lemma_decoded_encoded_u64(v: u64, rest: Seq<u8>)
    ensures
        decoded_u64(encoded_u64(v) + rest) == Some(
            ((v % 0x8000_0000_0000_0000) as u64, rest),
        ),
{
    lemma_weights();
    lemma_parse_encoding(v as nat, MAX_LEN_64 as nat, rest);
}

/// Reading the frame of an unsigned 64-bit value below 2 to the power 63
/// gives the value back and leaves what followed the frame.
pub proof fn lemma_round_trip_u64(v: u64, rest: Seq<u8>)
    requires
        v < 0x8000_0000_0000_0000,
    ensures
        decoded_u64(encoded_u64(v) + rest) == Some((v, rest)),
{
    lemma_decoded_encoded_u64(v, rest);
}

/// Reading the frame of a signed 32-bit value gives the value back and
/// leaves what followed the frame.
pub proof fn lemma_round_trip_i32(v: i32, rest: Seq<u8>)
    ensures
        decoded_i32(encoded_i32(v) + rest) == Some((v, rest)),
{
    lemma_weights();
    lemma_parse_encoding(zigzag(v as int), MAX_LEN_32 as nat, rest);
    lemma_small_mod(zigzag(v as int), weight(MAX_LEN_32 as nat));
    lemma_unzigzag_zigzag(v as int);
}

/// Reading the frame of a signed 64-bit value whose zigzag image lies below
/// 2 to the power 63 gives the value back and leaves what followed the
/// frame.
pub proof fn lemma_round_trip_i64(v: i64, rest: Seq<u8>)
    requires
        -0x4000_0000_0000_0000 <= v < 0x4000_0000_0000_0000,
    ensures
        decoded_i64(encoded_i64(v) + rest) == Some((v, rest)),
{
    lemma_weights();
    lemma_parse_encoding(zigzag(v as int), MAX_LEN_64 as nat, rest);
    lemma_small_mod(zigzag(v as int), weight(MAX_LEN_64 as nat));
    lemma_unzigzag_zigzag(v as int);
}

/// Two unsigned 32-bit values written back to back are read back in order:
/// the first read leaves the frame of the second, the second leaves what
/// followed both.
pub proof fn lemma_concatenated_u32(a: u32, b: u32, rest: Seq<u8>)
    ensures
        decoded_u32(encoded_u32(a) + encoded_u32(b) + rest) == Some((a, encoded_u32(b) + rest)),
        decoded_u32(encoded_u32(b) + rest) == Some((b, rest)),
{
    assert(encoded_u32(a) + encoded_u32(b) + rest =~= encoded_u32(a) + (encoded_u32(b) + rest));
    lemma_round_trip_u32(a, encoded_u32(b) + rest);
    lemma_round_trip_u32(b, rest);
}

/// Two unsigned 64-bit values below 2 to the power 63, written back to
/// back, are read back in order.
pub proof fn lemma_concatenated_u64(a: u64, b: u64, rest: Seq<u8>)
    requires
        a < 0x8000_0000_0000_0000,
        b < 0x8000_0000_0000_0000,
    ensures
        decoded_u64(encoded_u64(a) + encoded_u64(b) + rest) == Some((a, encoded_u64(b) + rest)),
        decoded_u64(encoded_u64(b) + rest) == Some((b, rest)),
{
    assert(encoded_u64(a) + encoded_u64(b) + rest =~= encoded_u64(a) + (encoded_u64(b) + rest));
    lemma_round_trip_u64(a, encoded_u64(b) + rest);
    lemma_round_trip_u64(b, rest);
}

/// Two signed 32-bit values written back to back are read back in order.
pub proof fn lemma_concatenated_i32(a: i32, b: i32, rest: Seq<u8>)
    ensures
        decoded_i32(encoded_i32(a) + encoded_i32(b) + rest) == Some((a, encoded_i32(b) + rest)),
        decoded_i32(encoded_i32(b) + rest) == Some((b, rest)),
{
    assert(encoded_i32(a) + encoded_i32(b) + rest =~= encoded_i32(a) + (encoded_i32(b) + rest));
    lemma_round_trip_i32(a, encoded_i32(b) + rest);
    lemma_round_trip_i32(b, rest);
}

/// Two signed 64-bit values whose zigzag images lie below 2 to the power
/// 63, written back to back, are read back in order.
pub proof fn lemma_concatenated_i64(a: i64, b: i64, rest: Seq<u8>)
    requires
        -0x4000_0000_0000_0000 <= a < 0x4000_0000_0000_0000,
        -0x4000_0000_0000_0000 <= b < 0x4000_0000_0000_0000,
    ensures
        decoded_i64(encoded_i64(a) + encoded_i64(b) + rest) == Some((a, encoded_i64(b) + rest)),
        decoded_i64(encoded_i64(b) + rest) == Some((b, rest)),
{
    assert(encoded_i64(a) + encoded_i64(b) + rest =~= encoded_i64(a) + (encoded_i64(b) + rest));
    lemma_round_trip_i64(a, encoded_i64(b) + rest);
    lemma_round_trip_i64(b, rest);
}

/// Whatever the values, a 64-bit frame is consumed whole: the read that
/// follows starts at the next frame even where the first value lost its top
/// bit.
pub proof fn lemma_frames_stay_aligned_u64(a: u64, b: u64, rest: Seq<u8>)
    ensures
        decoded_u64(encoded_u64(a) + encoded_u64(b) + rest) matches Some((_, after))
            && after == encoded_u64(b) + rest,
{
    assert(encoded_u64(a) + encoded_u64(b) + rest =~= encoded_u64(a) + (encoded_u64(b) + rest));
    lemma_decoded_encoded_u64(a, encoded_u64(b) + rest);
}

/// A frame of an unsigned 32-bit value that was cut short decodes to
/// nothing, so a read of it fails.
pub proof fn lemma_truncated_u32(v: u32, k: nat)
    requires
        k < encoded_u32(v).len(),
    ensures
        decoded_u32(encoded_u32(v).take(k as int)) is None,
{
    lemma_parse_truncated(v as nat, MAX_LEN_32 as nat, k);
}

/// A frame of an unsigned 64-bit value that was cut short decodes to
/// nothing, so a read of it fails.
pub proof fn lemma_truncated_u64(v: u64, k: nat)
    requires
        k < encoded_u64(v).len(),
    ensures
        decoded_u64(encoded_u64(v).take(k as int)) is None,
{
    lemma_parse_truncated(v as nat, MAX_LEN_64 as nat, k);
}

/// A frame of a signed 32-bit value that was cut short decodes to nothing,
/// so a read of it fails.
pub proof fn lemma_truncated_i32(v: i32, k: nat)
    requires
        k < encoded_i32(v).len(),
    ensures
        decoded_i32(encoded_i32(v).take(k as int)) is None,
{
    lemma_parse_truncated(zigzag(v as int), MAX_LEN_32 as nat, k);
}

/// A frame of a signed 64-bit value that was cut short decodes to nothing,
/// so a read of it fails.
pub proof fn lemma_truncated_i64(v: i64, k: nat)
    requires
        k < encoded_i64(v).len(),
    ensures
        decoded_i64(encoded_i64(v).take(k as int)) is None,
{
    lemma_parse_truncated(zigzag(v as int), MAX_LEN_64 as nat, k);
}

} // verus!
