//! Client-side core of a text-based, frame-oriented messaging protocol.
//!
//! The crate turns byte streams into typed protocol messages and back:
//! an incremental frame parser that distinguishes "need more bytes" from
//! "malformed input", a bidirectional mapping between wire frames and
//! typed messages, a buffered decode state machine, and the CONNECT
//! handshake decision logic. Actual I/O lives outside this crate; the
//! core only consumes and produces plain byte values.

pub mod client;
pub mod codec_laws;
pub mod escape;
pub mod frame;
pub mod message;
pub mod message_laws;
pub mod transport;
pub mod num;
