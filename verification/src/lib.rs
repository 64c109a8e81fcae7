//! Core of a streaming dataplane: the record/batch wire codec and the
//! connection-multiplexer state machine.
//!
//! The codec layers (fixed-width integers, zig-zag varints, records,
//! batches, record-sets and the request/response envelope) are written
//! directly over byte vectors, with their encodings stated as spec-level
//! functions and every encoder and decoder proved against them.  The
//! multiplexer is the state machine that routes response frames to the
//! callers of a shared duplex transport; the asynchronous plumbing around
//! it lives outside the verified library.

pub mod error;
pub mod fixint;
pub mod varint;
pub mod record;
pub mod batch;
pub mod record_set;
pub mod envelope;
pub mod mux;
pub mod content;
