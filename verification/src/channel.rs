//! Byte channels: where the codec takes its bytes from and hands them to.
//!
//! The codec asks little of a channel. A source yields its bytes one at a
//! time, in order, and fails once it has none to give; a sink takes a run of
//! bytes, all of it or, failing for want of room, a leading part. A source
//! is described by the bytes it has yet to deliver, a sink by the bytes it
//! has taken and the room it has left.
//!
//! The channels defined here live in memory and are verified against that
//! description: a byte slice as a source, a vector and a bounded buffer as
//! sinks. A channel written outside verified code gives only the executable
//! method. It is then taken on trust to behave as the method's contract
//! says of some pending bytes, or of some room.

use std::convert::Infallible;
use vstd::prelude::*;

verus! {

/// A sequential source of bytes.
pub trait ByteSource {
    /// What a failed read reports.
    type Error;

    /// The bytes this source has yet to deliver, in order. A source that
    /// breaks off early is one whose pending bytes end there.
    ///
    /// A verified source says what they are. The body given here says
    /// nothing of them, and no contract can be proved with it.
    open spec fn pending(&self) -> Seq<u8> {
        arbitrary()
    }

    /// The error with which this source answers a read when nothing is
    /// pending.
    open spec fn failure(&self) -> Self::Error {
        arbitrary()
    }

    /// Takes the next byte out of the source. Fails, and leaves the source
    /// as it was, exactly when nothing is pending.
    fn read_byte(&mut self) -> (r: Result<u8, Self::Error>)
        ensures
            final(self).failure() == old(self).failure(),
            match r {
                Ok(b) => {
                    &&& old(self).pending().len() > 0
                    &&& b == old(self).pending()[0]
                    &&& final(self).pending() == old(self).pending().drop_first()
                },
                Err(e) => {
                    &&& old(self).pending().len() == 0
                    &&& e == old(self).failure()
                    &&& final(self).pending() == old(self).pending()
                },
            },
    ;
}

/// How many of `n` bytes a sink with the given room takes: all of them
/// where it has room for them, and as many as it has room for otherwise.
pub open spec fn fitting(room: Option<nat>, n: nat) -> nat {
    match room {
        Some(k) => if k < n {
            k
        } else {
            n
        },
        None => n,
    }
}

/// The room a sink has left once it was asked to take `n` bytes.
pub open spec fn room_after(room: Option<nat>, n: nat) -> Option<nat> {
    match room {
        Some(k) => Some((k - fitting(room, n)) as nat),
        None => None,
    }
}

/// A sequential sink of bytes.
pub trait ByteSink {
    /// What a failed write reports.
    type Error;

    /// The bytes this sink has taken so far, in order.
    ///
    /// A verified sink says what they are. The body given here says
    /// nothing of them, and no contract can be proved with it.
    open spec fn written(&self) -> Seq<u8> {
        arbitrary()
    }

    /// How many more bytes this sink will take, or `None` where it takes any
    /// number. A sink that breaks down is one whose room ends there.
    open spec fn room(&self) -> Option<nat> {
        arbitrary()
    }

    /// The error with which this sink answers a write that it has no room
    /// for.
    open spec fn failure(&self) -> Self::Error {
        arbitrary()
    }

    /// Writes all of `bytes`, in order. Fails exactly when the sink has no
    /// room for all of them; the leading part that it had room for stays
    /// written.
    fn write_all(&mut self, bytes: &[u8]) -> (r: Result<(), Self::Error>)
        ensures
            final(self).written() == old(self).written() + bytes@.take(
                fitting(old(self).room(), bytes@.len()) as int,
            ),
            final(self).room() == room_after(old(self).room(), bytes@.len()),
            final(self).failure() == old(self).failure(),
            match r {
                Ok(_) => fitting(old(self).room(), bytes@.len()) == bytes@.len(),
                Err(e) => {
                    &&& fitting(old(self).room(), bytes@.len()) < bytes@.len()
                    &&& e == old(self).failure()
                },
            },
    ;
}

/// The error of a read from a byte slice that has been read to its end.
#[derive(Clone, Copy, Debug, PartialEq, Eq)]
pub struct EndOfData;

/// The error of a write that a sink of bounded capacity had no room for.
#[derive(Clone, Copy, Debug, PartialEq, Eq)]
pub struct SinkFull;

/// A byte slice is a source of its own bytes: each read takes the first byte
/// off the slice.
impl<'a> ByteSource for &'a [u8] {
    type Error = EndOfData;

    open spec fn pending(&self) -> Seq<u8> {
        self@
    }

    open spec fn failure(&self) -> EndOfData {
        EndOfData
    }

    fn read_byte(&mut self) -> (r: Result<u8, EndOfData>) {
        let s: &'a [u8] = *self;
        if s.len() == 0 {
            Err(EndOfData)
        } else {
            let b = s[0];
            *self = &s[1..s.len()];
            assert(s@.subrange(1, s@.len() as int) =~= s@.drop_first());
            Ok(b)
        }
    }
}

/// A vector is a sink that takes every byte: each write appends to it.
impl ByteSink for Vec<u8> {
    type Error = Infallible;

    open spec fn written(&self) -> Seq<u8> {
        self@
    }

    open spec fn room(&self) -> Option<nat> {
        None
    }

    open spec fn failure(&self) -> Infallible {
        arbitrary()
    }

    fn write_all(&mut self, bytes: &[u8]) -> (r: Result<(), Infallible>) {
        self.extend_from_slice(bytes);
        assert(self@ =~= old(self)@ + bytes@.take(bytes@.len() as int));
        Ok(())
    }
}

/// A sink that takes bytes until it holds as many as its capacity, and
/// refuses what would go beyond it.
pub struct BoundedSink {
    bytes: Vec<u8>,
    capacity: usize,
}

impl BoundedSink {
    /// An empty sink with room for `capacity` bytes.
    pub fn new(capacity: usize) -> (sink: Self)
        ensures
            sink.written() == Seq::<u8>::empty(),
            sink.room() == Some(capacity as nat),
    {
        BoundedSink { bytes: Vec::new(), capacity }
    }

    /// The bytes taken so far.
    pub fn as_slice(&self) -> (out: &[u8])
        ensures
            out@ == self.written(),
    {
        self.bytes.as_slice()
    }

    /// How many more bytes the sink has room for.
    pub fn remaining(&self) -> (n: usize)
        ensures
            self.room() == Some(n as nat),
    {
        let held = self.bytes.len();
        if held <= self.capacity {
            self.capacity - held
        } else {
            0
        }
    }
}

impl ByteSink for BoundedSink {
    type Error = SinkFull;

    closed spec fn written(&self) -> Seq<u8> {
        self.bytes@
    }

    closed spec fn room(&self) -> Option<nat> {
        if self.bytes@.len() <= self.capacity {
            Some((self.capacity - self.bytes@.len()) as nat)
        } else {
            Some(0)
        }
    }

    open spec fn failure(&self) -> SinkFull {
        SinkFull
    }

    fn write_all(&mut self, bytes: &[u8]) -> (r: Result<(), SinkFull>) {
        let room = self.remaining();
        if bytes.len() <= room {
            self.bytes.extend_from_slice(bytes);
            assert(self.bytes@ =~= old(self).bytes@ + bytes@.take(bytes@.len() as int));
            Ok(())
        } else {
            self.bytes.extend_from_slice(vstd::slice::slice_subrange(bytes, 0, room));
            assert(self.bytes@ =~= old(self).bytes@ + bytes@.take(room as int));
            Err(SinkFull)
        }
    }
}

} // verus!
