//! Writing variable-length integers to a byte sink.

use crate::channel::{fitting, room_after, ByteSink};
use crate::format::{
    encoding, lemma_weight_increases, weight, wire_byte, MAX_LEN_32, MAX_LEN_64,
};
use crate::zigzag::{zigzag, zigzag_encode_32, zigzag_encode_64};
use vstd::prelude::*;

verus! {

/// The frame of an unsigned 32-bit value.
pub open spec fn encoded_u32(value: u32) -> Seq<u8> {
    encoding(value as nat, MAX_LEN_32 as nat)
}

/// The frame of an unsigned 64-bit value.
pub open spec fn encoded_u64(value: u64) -> Seq<u8> {
    encoding(value as nat, MAX_LEN_64 as nat)
}

/// The frame of a signed 32-bit value: that of its zigzag image.
pub open spec fn encoded_i32(value: i32) -> Seq<u8> {
    encoding(zigzag(value as int), MAX_LEN_32 as nat)
}

/// The frame of a signed 64-bit value: that of its zigzag image.
pub open spec fn encoded_i64(value: i64) -> Seq<u8> {
    encoding(zigzag(value as int), MAX_LEN_64 as nat)
}

/// What a sink holds after it was asked to take `frame`: what it held
/// before, and as much of the frame as it had room for.
pub open spec fn after_write<W: ByteSink>(before: W, frame: Seq<u8>) -> Seq<u8> {
    before.written() + frame.take(fitting(before.room(), frame.len()) as int)
}

/// What a write of `frame` to the sink `before` returns: the length of the
/// frame where the sink has room for all of it, and the sink's failure
/// otherwise.
pub open spec fn write_outcome<W: ByteSink>(before: W, frame: Seq<u8>) -> Result<usize, W::Error> {
    if fitting(before.room(), frame.len()) == frame.len() {
        Ok(frame.len() as usize)
    } else {
        Err(before.failure())
    }
}

/// The codec's writing half, for every byte sink.
pub trait VarIntWrite: ByteSink + Sized {
    /// Writes the frame of a signed 32-bit value and returns its length.
    fn write_var_i32(&mut self, value: i32) -> (r: Result<usize, Self::Error>)
        ensures
            r == write_outcome(*old(self), encoded_i32(value)),
            final(self).written() == after_write(*old(self), encoded_i32(value)),
            final(self).room() == room_after(old(self).room(), encoded_i32(value).len()),
            final(self).failure() == old(self).failure(),
            r matches Ok(n) ==> 1 <= n <= MAX_LEN_32,
    {
        self.write_var_u32(zigzag_encode_32(value))
    }

    /// Writes the frame of a signed 64-bit value and returns its length.
    fn write_var_i64(&mut self, value: i64) -> (r: Result<usize, Self::Error>)
        ensures
            r == write_outcome(*old(self), encoded_i64(value)),
            final(self).written() == after_write(*old(self), encoded_i64(value)),
            final(self).room() == room_after(old(self).room(), encoded_i64(value).len()),
            final(self).failure() == old(self).failure(),
            r matches Ok(n) ==> 1 <= n <= MAX_LEN_64,
    {
        self.write_var_u64(zigzag_encode_64(value))
    }

    /// Writes the frame of an unsigned 32-bit value, in one write, and
    /// returns its length.
    fn write_var_u32(&mut self, value: u32) -> (r: Result<usize, Self::Error>)
        ensures
            r == write_outcome(*old(self), encoded_u32(value)),
            final(self).written() == after_write(*old(self), encoded_u32(value)),
            final(self).room() == room_after(old(self).room(), encoded_u32(value).len()),
            final(self).failure() == old(self).failure(),
            r matches Ok(n) ==> 1 <= n <= MAX_LEN_32,
    ;

    /// Writes the frame of an unsigned 64-bit value, in one write, and
    /// returns its length.
    fn write_var_u64(&mut self, value: u64) -> (r: Result<usize, Self::Error>)
        ensures
            r == write_outcome(*old(self), encoded_u64(value)),
            final(self).written() == after_write(*old(self), encoded_u64(value)),
            final(self).room() == room_after(old(self).room(), encoded_u64(value).len()),
            final(self).failure() == old(self).failure(),
            r matches Ok(n) ==> 1 <= n <= MAX_LEN_64,
    ;
}

/// The low seven bits of a value are its remainder by 128, and shifting them
/// out divides it by 128.
proof fn lemma_group_32(v: u32)
    ensures
        (v & 0x7f) == v % 0x80,
        (v >> 7) == v / 0x80,
{
    assert((v & 0x7f) == v % 0x80 && (v >> 7) == v / 0x80) by (bit_vector);
}

/// The same for 64 bits.
proof fn lemma_group_64(v: u64)
    ensures
        (v & 0x7f) == v % 0x80,
        (v >> 7) == v / 0x80,
{
    assert((v & 0x7f) == v % 0x80 && (v >> 7) == v / 0x80) by (bit_vector);
}

/// Setting the continuation flag of a bare group adds 128 to it.
proof fn lemma_flag(b: u8)
    requires
        b < 0x80,
    ensures
        (b | 0x80) == b + 0x80,
{
    assert((b | 0x80) == b + 0x80) by (bit_vector)
        requires
            b < 0x80,
    ;
}

/// One turn of the writing loop: a frame starts with the byte of its lowest
/// group, and goes on with the frame of what is left unless nothing is left
/// or the limit is reached.
proof fn lemma_encoding_step(done: Seq<u8>, v: nat, limit: nat)
    ensures
        done + encoding(v, limit) == if v < 0x80 || limit <= 1 {
            done.push(wire_byte(v))
        } else {
            done.push(wire_byte(v)) + encoding(v / 0x80, (limit - 1) as nat)
        },
{
    if v < 0x80 || limit <= 1 {
        assert(done + encoding(v, limit) =~= done.push(wire_byte(v)));
    } else {
        assert(done + encoding(v, limit) =~= done.push(wire_byte(v)) + encoding(
            v / 0x80,
            (limit - 1) as nat,
        ));
    }
}

/// What is left of a 32-bit value after `i` groups were taken has no bits
/// above bit `32 - 7 * i`, so nothing is left after five groups.
proof fn lemma_rest_32(rest: u32, i: nat)
    requires
        rest as nat * weight(i) <= u32::MAX,
        rest >= 0x80,
    ensures
        (rest / 0x80) as nat * weight(i + 1) <= u32::MAX,
        i + 1 < MAX_LEN_32,
{
    let w = weight(i);
    let q = (rest / 0x80) as nat;
    assert(q * (0x80 * w) <= rest as nat * w) by (nonlinear_arith)
        requires
            q * 0x80 <= rest,
    ;
    assert(q * weight(i + 1) >= weight(i + 1)) by (nonlinear_arith)
        requires
            q >= 1,
    ;
    if i + 1 >= MAX_LEN_32 {
        lemma_weight_increases(MAX_LEN_32 as nat, i + 1);
        assert(weight(MAX_LEN_32 as nat) == 0x8_0000_0000) by {
            reveal_with_fuel(weight, 6);
        }
    }
}

impl<W: ByteSink> VarIntWrite for W {
    fn write_var_u32(&mut self, value: u32) -> (r: Result<usize, Self::Error>) {
        let mut buf: [u8; 5] = [0; 5];
        let mut rest: u32 = value;
        let mut i: usize = 0;
        proof {
            assert(weight(0) == 1);
            assert(buf@.take(0) + encoded_u32(value) =~= encoded_u32(value));
        }
        loop
            invariant_except_break
                i < MAX_LEN_32,
                rest as nat * weight(i as nat) <= u32::MAX,
                buf@.take(i as int) + encoding(rest as nat, (MAX_LEN_32 - i) as nat)
                    == encoded_u32(value),
            ensures
                1 <= i <= MAX_LEN_32,
                buf@.take(i as int) == encoded_u32(value),
            decreases MAX_LEN_32 - i,
        {
            proof {
                lemma_group_32(rest);
                lemma_encoding_step(buf@.take(i as int), rest as nat, (MAX_LEN_32 - i) as nat);
                if rest >= 0x80 {
                    lemma_rest_32(rest, i as nat);
                }
            }
            let ghost done = buf@.take(i as int);
            let mut byte: u8 = (rest & 0x7f) as u8;
            rest = rest >> 7;
            if rest != 0 {
                proof {
                    lemma_flag(byte);
                }
                byte = byte | 0x80;
            }
            buf[i] = byte;
            i = i + 1;
            assert(buf@.take(i as int) =~= done.push(byte));
            if rest == 0 {
                break ;
            }
        }
        let frame = vstd::slice::slice_subrange(buf.as_slice(), 0, i);
        assert(frame@ =~= encoded_u32(value));
        match self.write_all(frame) {
            Ok(_) => Ok(i),
            Err(e) => Err(e),
        }
    }

    fn write_var_u64(&mut self, value: u64) -> (r: Result<usize, Self::Error>) {
        let mut buf: [u8; 9] = [0; 9];
        let mut rest: u64 = value;
        let mut i: usize = 0;
        proof {
            assert(buf@.take(0) + encoded_u64(value) =~= encoded_u64(value));
        }
        loop
            invariant_except_break
                i < MAX_LEN_64,
                buf@.take(i as int) + encoding(rest as nat, (MAX_LEN_64 - i) as nat)
                    == encoded_u64(value),
            ensures
                1 <= i <= MAX_LEN_64,
                buf@.take(i as int) == encoded_u64(value),
            decreases MAX_LEN_64 - i,
        {
            proof {
                lemma_group_64(rest);
                lemma_encoding_step(buf@.take(i as int), rest as nat, (MAX_LEN_64 - i) as nat);
            }
            let ghost done = buf@.take(i as int);
            let mut byte: u8 = (rest & 0x7f) as u8;
            rest = rest >> 7;
            if rest != 0 {
                proof {
                    lemma_flag(byte);
                }
                byte = byte | 0x80;
            }
            buf[i] = byte;
            i = i + 1;
            assert(buf@.take(i as int) =~= done.push(byte));
            // Nine groups hold 63 bits. Where the value has a 64th, it stands
            // in the flag of the ninth byte, and the frame ends all the same.
            if rest == 0 || i == MAX_LEN_64 {
                break ;
            }
        }
        let frame = vstd::slice::slice_subrange(buf.as_slice(), 0, i);
        assert(frame@ =~= encoded_u64(value));
        match self.write_all(frame) {
            Ok(_) => Ok(i),
            Err(e) => Err(e),
        }
    }
}

} // verus!
