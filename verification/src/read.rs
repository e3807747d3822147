//! Reading variable-length integers from a byte source.

use crate::channel::ByteSource;
use crate::format::{
    frame_len, groups_value, is_final, lemma_frame_len_complete, lemma_frame_len_truncated,
    lemma_groups_value_bound, lemma_groups_value_push, parse, payload, weight, MAX_LEN_32,
    MAX_LEN_64,
};
use crate::zigzag::{unzigzag, zigzag_decode_32, zigzag_decode_64};
use vstd::prelude::*;

verus! {

/// The unsigned 32-bit value of the frame at the head of `s`, and the bytes
/// after the frame. Of the 35 bits that five groups hold, the low 32 count.
pub open spec fn decoded_u32(s: Seq<u8>) -> Option<(u32, Seq<u8>)> {
    match parse(s, MAX_LEN_32 as nat) {
        Some((v, rest)) => Some(((v % 0x1_0000_0000) as u32, rest)),
        None => None,
    }
}

/// The unsigned 64-bit value of the frame at the head of `s`, and the bytes
/// after the frame. Nine groups hold 63 bits, so the top bit is never set.
pub open spec fn decoded_u64(s: Seq<u8>) -> Option<(u64, Seq<u8>)> {
    match parse(s, MAX_LEN_64 as nat) {
        Some((v, rest)) => Some(((v % 0x1_0000_0000_0000_0000) as u64, rest)),
        None => None,
    }
}

/// The signed 32-bit value of the frame at the head of `s`, and the bytes
/// after the frame.
pub open spec fn decoded_i32(s: Seq<u8>) -> Option<(i32, Seq<u8>)> {
    match decoded_u32(s) {
        Some((u, rest)) => Some((unzigzag(u as nat) as i32, rest)),
        None => None,
    }
}

/// The signed 64-bit value of the frame at the head of `s`, and the bytes
/// after the frame.
pub open spec fn decoded_i64(s: Seq<u8>) -> Option<(i64, Seq<u8>)> {
    match decoded_u64(s) {
        Some((u, rest)) => Some((unzigzag(u as nat) as i64, rest)),
        None => None,
    }
}

/// What a read returns from the source `before`, given what its pending
/// bytes decode to: the value where they hold a whole frame, and the
/// source's failure where they end before the frame does.
pub open spec fn read_outcome<R: ByteSource, T>(before: R, decoded: Option<(T, Seq<u8>)>) -> Result<
    T,
    R::Error,
> {
    match decoded {
        Some((value, _)) => Ok(value),
        None => Err(before.failure()),
    }
}

/// What a source has pending after a read, given what its pending bytes
/// decoded to: the bytes after the frame, or nothing where the read used up
/// the source without finding the end of a frame.
pub open spec fn after_read<T>(decoded: Option<(T, Seq<u8>)>) -> Seq<u8> {
    match decoded {
        Some((_, rest)) => rest,
        None => Seq::empty(),
    }
}

/// The codec's reading half, for every byte source.
pub trait VarIntRead: ByteSource + Sized {
    /// Reads one frame and returns the signed 64-bit value it holds.
    fn read_var_i64(&mut self) -> (r: Result<i64, Self::Error>)
        ensures
            r == read_outcome(*old(self), decoded_i64(old(self).pending())),
            final(self).pending() == after_read(decoded_i64(old(self).pending())),
            final(self).failure() == old(self).failure(),
    {
        match self.read_var_u64() {
            Ok(x) => Ok(zigzag_decode_64(x)),
            Err(e) => Err(e),
        }
    }

    /// Reads one frame and returns the signed 32-bit value it holds.
    fn read_var_i32(&mut self) -> (r: Result<i32, Self::Error>)
        ensures
            r == read_outcome(*old(self), decoded_i32(old(self).pending())),
            final(self).pending() == after_read(decoded_i32(old(self).pending())),
            final(self).failure() == old(self).failure(),
    {
        match self.read_var_u32() {
            Ok(x) => Ok(zigzag_decode_32(x)),
            Err(e) => Err(e),
        }
    }

    /// Reads one frame, a byte at a time, and returns the unsigned 64-bit
    /// value it holds. Stops at the first byte whose continuation flag is
    /// clear, and at the ninth byte in any case.
    fn read_var_u64(&mut self) -> (r: Result<u64, Self::Error>)
        ensures
            r == read_outcome(*old(self), decoded_u64(old(self).pending())),
            final(self).pending() == after_read(decoded_u64(old(self).pending())),
            final(self).failure() == old(self).failure(),
    ;

    /// Reads one frame, a byte at a time, and returns the unsigned 32-bit
    /// value it holds. Stops at the first byte whose continuation flag is
    /// clear, and at the fifth byte in any case.
    fn read_var_u32(&mut self) -> (r: Result<u32, Self::Error>)
        ensures
            r == read_outcome(*old(self), decoded_u32(old(self).pending())),
            final(self).pending() == after_read(decoded_u32(old(self).pending())),
            final(self).failure() == old(self).failure(),
    ;
}

/// Masking a byte leaves its payload, and the mask of the high bit tells
/// whether the byte ends a frame.
proof fn lemma_byte_parts(b: u8)
    ensures
        (b & 0x7f) == payload(b),
        (b & 0x80 == 0) == is_final(b),
{
    assert((b & 0x7f) == b % 0x80 && ((b & 0x80 == 0) <==> b < 0x80)) by (bit_vector);
}

/// Placing a group above an accumulator that lies wholly below it adds the
/// group at its weight; of the fifth group only the bits below bit 32 stay.
proof fn lemma_merge_32(acc: u32, g: u32, i: usize)
    requires
        i < MAX_LEN_32,
        acc < weight(i as nat),
        g < 0x80,
    ensures
        (acc | (g << (7 * i) as u32)) == (acc + g * weight(i as nat)) % 0x1_0000_0000,
{
    reveal_with_fuel(weight, 6);
    if i == 0 {
        assert((acc | (g << 0u32)) == (acc + g * 1) % 0x1_0000_0000) by (bit_vector)
            requires
                acc < 1,
                g < 0x80,
        ;
    } else if i == 1 {
        assert((acc | (g << 7u32)) == (acc + g * 0x80) % 0x1_0000_0000) by (bit_vector)
            requires
                acc < 0x80,
                g < 0x80,
        ;
    } else if i == 2 {
        assert((acc | (g << 14u32)) == (acc + g * 0x4000) % 0x1_0000_0000) by (bit_vector)
            requires
                acc < 0x4000,
                g < 0x80,
        ;
    } else if i == 3 {
        assert((acc | (g << 21u32)) == (acc + g * 0x20_0000) % 0x1_0000_0000) by (bit_vector)
            requires
                acc < 0x20_0000,
                g < 0x80,
        ;
    } else {
        assert((acc | (g << 28u32)) == (acc + g * 0x1000_0000) % 0x1_0000_0000) by (bit_vector)
            requires
                acc < 0x1000_0000,
                g < 0x80,
        ;
    }
}

/// Placing a group above an accumulator that lies wholly below it adds the
/// group at its weight: nine groups fit in 64 bits with one bit to spare.
proof fn lemma_merge_64(acc: u64, g: u64, i: usize)
    requires
        i < MAX_LEN_64,
        acc < weight(i as nat),
        g < 0x80,
    ensures
        (acc | (g << (7 * i) as u64)) == acc + g * weight(i as nat),
{
    reveal_with_fuel(weight, 10);
    if i == 0 {
        assert((acc | (g << 0u64)) == acc + g * 0x1) by (bit_vector)
            requires
                acc < 0x1u64,
                g < 0x80u64,
        ;
    } else if i == 1 {
        assert((acc | (g << 7u64)) == acc + g * 0x80) by (bit_vector)
            requires
                acc < 0x80u64,
                g < 0x80u64,
        ;
    } else if i == 2 {
        assert((acc | (g << 14u64)) == acc + g * 0x4000) by (bit_vector)
            requires
                acc < 0x4000u64,
                g < 0x80u64,
        ;
    } else if i == 3 {
        assert((acc | (g << 21u64)) == acc + g * 0x200000) by (bit_vector)
            requires
                acc < 0x200000u64,
                g < 0x80u64,
        ;
    } else if i == 4 {
        assert((acc | (g << 28u64)) == acc + g * 0x10000000) by (bit_vector)
            requires
                acc < 0x10000000u64,
                g < 0x80u64,
        ;
    } else if i == 5 {
        assert((acc | (g << 35u64)) == acc + g * 0x800000000) by (bit_vector)
            requires
                acc < 0x800000000u64,
                g < 0x80u64,
        ;
    } else if i == 6 {
        assert((acc | (g << 42u64)) == acc + g * 0x40000000000) by (bit_vector)
            requires
                acc < 0x40000000000u64,
                g < 0x80u64,
        ;
    } else if i == 7 {
        assert((acc | (g << 49u64)) == acc + g * 0x2000000000000) by (bit_vector)
            requires
                acc < 0x2000000000000u64,
                g < 0x80u64,
        ;
    } else {
        assert((acc | (g << 56u64)) == acc + g * 0x100000000000000) by (bit_vector)
            requires
                acc < 0x100000000000000u64,
                g < 0x80u64,
        ;
    }
}

impl<R: ByteSource> VarIntRead for R {
    fn read_var_u64(&mut self) -> (r: Result<u64, Self::Error>) {
        let ghost s = self.pending();
        let mut ans: u64 = 0;
        let mut i: usize = 0;
        proof {
            assert(s.skip(0) =~= s);
            assert(groups_value(s.take(0)) == 0);
        }
        while i < MAX_LEN_64
            invariant_except_break
                i <= MAX_LEN_64,
                forall|j: int| 0 <= j < i ==> !is_final(#[trigger] s[j]),
                i == MAX_LEN_64 ==> frame_len(s, MAX_LEN_64 as nat) == Some(MAX_LEN_64 as nat),
            invariant
                s == old(self).pending(),
                i <= s.len(),
                self.pending() == s.skip(i as int),
                self.failure() == old(self).failure(),
                ans == groups_value(s.take(i as int)),
            ensures
                frame_len(s, MAX_LEN_64 as nat) == Some(i as nat),
                i <= MAX_LEN_64,
            decreases MAX_LEN_64 - i,
        {
            let b = match self.read_byte() {
                Ok(b) => b,
                Err(e) => {
                    proof {
                        lemma_frame_len_truncated(s, MAX_LEN_64 as nat);
                        assert(s.skip(i as int) =~= Seq::<u8>::empty());
                    }
                    return Err(e);
                },
            };
            assert(b == s[i as int]);
            proof {
                lemma_byte_parts(b);
                lemma_groups_value_bound(s.take(i as int));
                lemma_merge_64(ans, (b & 0x7f) as u64, i);
                lemma_groups_value_push(s.take(i as int), b);
                assert(s.take(i as int).push(b) =~= s.take(i + 1));
                assert(s.skip(i as int).drop_first() =~= s.skip(i + 1));
            }
            ans = ans | (((b & 0x7f) as u64) << ((7 * i) as u64));
            i = i + 1;
            if b & 0x80 == 0 {
                proof {
                    lemma_frame_len_complete(s, MAX_LEN_64 as nat, i as nat);
                }
                break ;
            }
            proof {
                if i == MAX_LEN_64 {
                    lemma_frame_len_complete(s, MAX_LEN_64 as nat, MAX_LEN_64 as nat);
                }
            }
        }
        proof {
            lemma_groups_value_bound(s.take(i as int));
            reveal_with_fuel(weight, 10);
        }
        Ok(ans)
    }

    fn read_var_u32(&mut self) -> (r: Result<u32, Self::Error>) {
        let ghost s = self.pending();
        let mut ans: u32 = 0;
        let mut i: usize = 0;
        proof {
            assert(s.skip(0) =~= s);
            assert(groups_value(s.take(0)) == 0);
        }
        while i < MAX_LEN_32
            invariant_except_break
                i <= MAX_LEN_32,
                forall|j: int| 0 <= j < i ==> !is_final(#[trigger] s[j]),
                i < MAX_LEN_32 ==> ans == groups_value(s.take(i as int)),
                i == MAX_LEN_32 ==> frame_len(s, MAX_LEN_32 as nat) == Some(MAX_LEN_32 as nat),
                i == MAX_LEN_32 ==> ans == groups_value(s.take(i as int)) % 0x1_0000_0000,
            invariant
                s == old(self).pending(),
                i <= s.len(),
                self.pending() == s.skip(i as int),
                self.failure() == old(self).failure(),
            ensures
                frame_len(s, MAX_LEN_32 as nat) == Some(i as nat),
                ans == groups_value(s.take(i as int)) % 0x1_0000_0000,
            decreases MAX_LEN_32 - i,
        {
            let b = match self.read_byte() {
                Ok(b) => b,
                Err(e) => {
                    proof {
                        lemma_frame_len_truncated(s, MAX_LEN_32 as nat);
                        assert(s.skip(i as int) =~= Seq::<u8>::empty());
                    }
                    return Err(e);
                },
            };
            assert(b == s[i as int]);
            proof {
                lemma_byte_parts(b);
                lemma_groups_value_bound(s.take(i as int));
                lemma_merge_32(ans, (b & 0x7f) as u32, i);
                lemma_groups_value_push(s.take(i as int), b);
                assert(s.take(i as int).push(b) =~= s.take(i + 1));
                assert(s.skip(i as int).drop_first() =~= s.skip(i + 1));
                lemma_groups_value_bound(s.take(i + 1));
                reveal_with_fuel(weight, 6);
            }
            ans = ans | (((b & 0x7f) as u32) << ((7 * i) as u32));
            i = i + 1;
            if b & 0x80 == 0 {
                proof {
                    lemma_frame_len_complete(s, MAX_LEN_32 as nat, i as nat);
                }
                break ;
            }
            proof {
                if i == MAX_LEN_32 {
                    lemma_frame_len_complete(s, MAX_LEN_32 as nat, MAX_LEN_32 as nat);
                }
            }
        }
        Ok(ans)
    }
}

} // verus!
