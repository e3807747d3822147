//! Variable-length integer codec.
//!
//! Unsigned integers of 32 and 64 bits are written as little-endian groups
//! of seven bits, each byte carrying a continuation flag in its high bit.
//! Signed integers are first folded onto the unsigned range by the zigzag
//! transform, so that values close to zero take few bytes.
//!
//! - `zigzag`: the transform between signed and unsigned integers.
//! - `format`: frames as sequences of bytes, and what they decode to.
//! - `channel`: byte sources and sinks, and the ones that live in memory.
//! - `write`, `read`: the codec over any sink and any source.
//! - `laws`: reading gives back what writing wrote.

pub mod channel;
pub mod format;
pub mod laws;
pub mod read;
pub mod write;
pub mod zigzag;

pub use channel::{BoundedSink, ByteSink, ByteSource, EndOfData, SinkFull};
pub use format::{MAX_LEN_32, MAX_LEN_64};
pub use read::VarIntRead;
pub use write::VarIntWrite;
pub use zigzag::{zigzag_decode_32, zigzag_decode_64, zigzag_encode_32, zigzag_encode_64};
