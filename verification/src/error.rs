//! The error kinds surfaced by the codec layers and the multiplexer.

use vstd::prelude::*;

verus! {

/// Every failure of the library falls under one of these kinds.
///
/// The codec layers report `UnexpectedEof`, `InvalidData` and
/// `InvalidInput`; the multiplexer additionally reports `TimedOut` for a
/// serial exchange that outlived its wait, `BrokenPipe` for an internal
/// routing fault, and `SocketClosed` for a queue exchange whose peer went
/// away mid-stream.
#[derive(Clone, Copy, Debug, PartialEq, Eq, Structural)]
pub enum ErrorKind {
    /// The input ended before the value it should hold was complete.
    UnexpectedEof,
    /// The input is long enough but malformed: an over-long varint, an
    /// unrecognised optionality tag, an impossible length.
    InvalidData,
    /// The caller asked to encode a value that cannot be encoded.
    InvalidInput,
    /// A serial exchange exceeded the configured wait.
    TimedOut,
    /// An internal locking or routing invariant was violated.
    BrokenPipe,
    /// The peer closed the connection while a queue exchange was open.
    SocketClosed,
}

} // verus!
