//! The wire format, as mathematics.
//!
//! A value is written as groups of seven bits, least significant group
//! first, one group per byte. The high bit of a byte says that another byte
//! follows. A frame is never longer than a fixed number of bytes, its
//! limit: the byte at the limit ends the frame whatever its high bit says.

use vstd::arithmetic::div_mod::{lemma_mod_breakdown, lemma_small_mod};
use vstd::prelude::*;

verus! {

/// The longest frame of a 32-bit value, in bytes.
pub const MAX_LEN_32: usize = 5;

/// The longest frame of a 64-bit value, in bytes.
pub const MAX_LEN_64: usize = 9;

/// Whether the continuation flag of `b` is clear, so that `b` ends a frame.
pub open spec fn is_final(b: u8) -> bool {
    b < 0x80
}

/// The seven payload bits of `b`.
pub open spec fn payload(b: u8) -> nat {
    (b % 0x80) as nat
}

/// The byte that carries the lowest group of `v`: its seven low bits, with
/// the continuation flag set when `v` has more bits than these.
pub open spec fn wire_byte(v: nat) -> u8 {
    if v < 0x80 {
        v as u8
    } else {
        (v % 0x80 + 0x80) as u8
    }
}

/// The frame of `v`: one byte per group, ending with the first group above
/// which `v` has no bits left, or with the byte at the limit.
pub open spec fn encoding(v: nat, limit: nat) -> Seq<u8>
    decreases limit,
{
    if v < 0x80 || limit <= 1 {
        seq![wire_byte(v)]
    } else {
        seq![wire_byte(v)] + encoding(v / 0x80, (limit - 1) as nat)
    }
}

/// 128 to the power `n`: the weight of the group at index `n`.
pub open spec fn weight(n: nat) -> nat
    decreases n,
{
    if n == 0 {
        1
    } else {
        0x80 * weight((n - 1) as nat)
    }
}

/// Every weight is positive.
pub proof fn lemma_weight_positive(n: nat)
    ensures
        weight(n) > 0,
    decreases n,
{
    if n > 0 {
        lemma_weight_positive((n - 1) as nat);
    }
}

/// Weights grow with the index.
pub proof fn lemma_weight_increases(m: nat, n: nat)
    requires
        m <= n,
    ensures
        weight(m) <= weight(n),
    decreases n,
{
    if m < n {
        lemma_weight_increases(m, (n - 1) as nat);
        lemma_weight_positive((n - 1) as nat);
    }
}

/// The number that the payloads of `s` spell, least significant group first.
pub open spec fn groups_value(s: Seq<u8>) -> nat
    decreases s.len(),
{
    if s.len() == 0 {
        0
    } else {
        payload(s[0]) + 0x80 * groups_value(s.drop_first())
    }
}

/// The length of the frame at the head of `s`: up to and including the first
/// byte whose continuation flag is clear, or `limit` bytes where none of the
/// first `limit` is. `None` where `s` ends before its frame does.
pub open spec fn frame_len(s: Seq<u8>, limit: nat) -> Option<nat>
    decreases limit,
{
    if limit == 0 {
        Some(0)
    } else if s.len() == 0 {
        None
    } else if is_final(s[0]) || limit == 1 {
        Some(1)
    } else {
        match frame_len(s.drop_first(), (limit - 1) as nat) {
            Some(n) => Some(n + 1),
            None => None,
        }
    }
}

/// The value of the frame at the head of `s` and the bytes that follow the
/// frame. `None` where `s` ends before its frame does.
pub open spec fn parse(s: Seq<u8>, limit: nat) -> Option<(nat, Seq<u8>)> {
    match frame_len(s, limit) {
        Some(n) => Some((groups_value(s.take(n as int)), s.skip(n as int))),
        None => None,
    }
}

/// A frame has at least one byte and at most `limit`.
pub proof fn lemma_encoding_len(v: nat, limit: nat)
    requires
        limit >= 1,
    ensures
        1 <= encoding(v, limit).len() <= limit,
        v < 0x80 ==> encoding(v, limit).len() == 1,
    decreases limit,
{
    if !(v < 0x80 || limit <= 1) {
        lemma_encoding_len(v / 0x80, (limit - 1) as nat);
    }
}

/// A frame is as short as the value allows: below the limit, a frame of `n`
/// bytes holds a value that needs `n` groups and no fewer.
pub proof fn lemma_encoding_len_least(v: nat, limit: nat)
    requires
        limit >= 1,
    ensures
        encoding(v, limit).len() < limit ==> v < weight(encoding(v, limit).len()),
        encoding(v, limit).len() > 1 ==> v >= weight((encoding(v, limit).len() - 1) as nat),
    decreases limit,
{
    reveal_with_fuel(weight, 2);
    if !(v < 0x80 || limit <= 1) {
        lemma_encoding_len(v / 0x80, (limit - 1) as nat);
        lemma_encoding_len_least(v / 0x80, (limit - 1) as nat);
    }
}

/// Every byte of a frame but its last has the continuation flag set, and the
/// last has it clear unless the frame is as long as the limit allows.
pub proof fn lemma_encoding_flags(v: nat, limit: nat)
    requires
        limit >= 1,
    ensures
        forall|i: int|
            0 <= i < encoding(v, limit).len() - 1 ==> !is_final(#[trigger] encoding(v, limit)[i]),
        is_final(encoding(v, limit).last()) || encoding(v, limit).len() == limit,
    decreases limit,
{
    let e = encoding(v, limit);
    if !(v < 0x80 || limit <= 1) {
        let tail = encoding(v / 0x80, (limit - 1) as nat);
        lemma_encoding_len(v / 0x80, (limit - 1) as nat);
        lemma_encoding_flags(v / 0x80, (limit - 1) as nat);
        assert forall|i: int| 0 <= i < e.len() - 1 implies !is_final(#[trigger] e[i]) by {
            if i > 0 {
                assert(e[i] == tail[i - 1]);
            }
        }
        assert(e.last() == tail.last());
    }
}

/// The frame at the head of `s` ends at index `n - 1` when the bytes before
/// that index all ask for more and the byte there either ends the frame or
/// stands at the limit.
pub proof fn lemma_frame_len_complete(s: Seq<u8>, limit: nat, n: nat)
    requires
        1 <= n <= limit,
        n <= s.len(),
        forall|i: int| 0 <= i < n - 1 ==> !is_final(#[trigger] s[i]),
        is_final(s[n - 1]) || n == limit,
    ensures
        frame_len(s, limit) == Some(n),
    decreases limit,
{
    if !(is_final(s[0]) || limit == 1) {
        let t = s.drop_first();
        assert forall|i: int| 0 <= i < n - 2 implies !is_final(#[trigger] t[i]) by {
            assert(t[i] == s[i + 1]);
        }
        assert(t[n - 2] == s[n - 1]);
        lemma_frame_len_complete(t, (limit - 1) as nat, (n - 1) as nat);
    }
}

/// No frame stands at the head of `s` when `s` is shorter than the limit and
/// every byte of it asks for more.
pub proof fn lemma_frame_len_truncated(s: Seq<u8>, limit: nat)
    requires
        s.len() < limit,
        forall|i: int| 0 <= i < s.len() ==> !is_final(#[trigger] s[i]),
    ensures
        frame_len(s, limit) is None,
    decreases limit,
{
    if s.len() > 0 {
        let t = s.drop_first();
        assert forall|i: int| 0 <= i < t.len() implies !is_final(#[trigger] t[i]) by {
            assert(t[i] == s[i + 1]);
        }
        lemma_frame_len_truncated(t, (limit - 1) as nat);
    }
}

/// Appending a group adds its payload at the weight of its index.
pub proof fn lemma_groups_value_push(s: Seq<u8>, b: u8)
    ensures
        groups_value(s.push(b)) == groups_value(s) + payload(b) * weight(s.len()),
    decreases s.len(),
{
    if s.len() == 0 {
        assert(s.push(b).drop_first() =~= Seq::<u8>::empty());
        assert(groups_value(s.push(b).drop_first()) == 0);
        assert(weight(0) == 1);
    } else {
        let t = s.drop_first();
        assert(s.push(b).drop_first() =~= t.push(b));
        assert(s.push(b)[0] == s[0]);
        lemma_groups_value_push(t, b);
        assert(weight(s.len()) == 0x80 * weight(t.len()));
        assert(0x80 * (payload(b) * weight(t.len())) == payload(b) * (0x80 * weight(t.len())))
            by (nonlinear_arith);
    }
}

/// The groups of `n` bytes spell a number below 128 to the power `n`.
pub proof fn lemma_groups_value_bound(s: Seq<u8>)
    ensures
        groups_value(s) < weight(s.len()),
    decreases s.len(),
{
    if s.len() > 0 {
        lemma_groups_value_bound(s.drop_first());
    }
}

/// The frame of `v`, followed by anything, parses as `v` without the bits
/// that the limit leaves no room for, and leaves what followed.
pub proof fn lemma_parse_encoding(v: nat, limit: nat, rest: Seq<u8>)
    requires
        limit >= 1,
    ensures
        parse(encoding(v, limit) + rest, limit) == Some((v % weight(limit), rest)),
        frame_len(encoding(v, limit) + rest, limit) == Some(encoding(v, limit).len()),
    decreases limit,
{
    let e = encoding(v, limit);
    let s = e + rest;
    assert(s[0] == wire_byte(v));
    assert(weight(1) == 0x80) by {
        reveal_with_fuel(weight, 2);
    }
    if v < 0x80 || limit <= 1 {
        assert(s.take(1) =~= seq![wire_byte(v)]);
        assert(s.take(1).drop_first() =~= Seq::<u8>::empty());
        assert(s.skip(1) =~= rest);
        assert(groups_value(s.take(1).drop_first()) == 0);
        assert(groups_value(s.take(1)) == payload(wire_byte(v)));
        if v < 0x80 {
            assert(weight(limit) >= 0x80) by {
                lemma_weight_positive((limit - 1) as nat);
            }
            lemma_small_mod(v, weight(limit));
        }
    } else {
        let w = weight((limit - 1) as nat);
        let tail = encoding(v / 0x80, (limit - 1) as nat);
        assert(s.drop_first() =~= tail + rest);
        lemma_parse_encoding(v / 0x80, (limit - 1) as nat, rest);
        let n = tail.len() as int;
        assert(frame_len(s, limit) == Some((n + 1) as nat));
        assert(s.take(n + 1).drop_first() =~= s.drop_first().take(n));
        assert(s.skip(n + 1) =~= s.drop_first().skip(n));
        assert(w > 0) by {
            lemma_weight_positive((limit - 1) as nat);
        }
        assert(groups_value(s.take(n + 1)) == payload(wire_byte(v)) + 0x80 * groups_value(
            s.drop_first().take(n),
        )) by {
            assert(s.take(n + 1)[0] == s[0]);
        }
        assert(groups_value(s.drop_first().take(n)) == (v / 0x80) % w);
        lemma_mod_breakdown(v as int, 0x80, w as int);
        assert(weight(limit) == 0x80 * w);
    }
}

/// A frame cut short parses as nothing: no proper prefix of a frame holds a
/// frame.
pub proof fn lemma_parse_truncated(v: nat, limit: nat, k: nat)
    requires
        limit >= 1,
        k < encoding(v, limit).len(),
    ensures
        parse(encoding(v, limit).take(k as int), limit) is None,
{
    let e = encoding(v, limit);
    lemma_encoding_len(v, limit);
    lemma_encoding_flags(v, limit);
    lemma_frame_len_truncated(e.take(k as int), limit);
}

} // verus!
