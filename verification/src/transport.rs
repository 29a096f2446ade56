//! The buffered decode state machine and the error taxonomy of the
//! read/write contract.
//!
//! A transport implementation performs the actual reads and writes
//! outside this crate; the core consumes plain values. One read hands
//! back either protocol bytes or one opaque side-channel value. The
//! decode buffer accumulates protocol bytes, drives the frame parser,
//! and yields exactly one message per complete frame, in stream order; a
//! side-channel value is relayed at once without disturbing the
//! accumulated bytes.

use crate::frame::{parse_frame, parse_frame_spec, FrameParse, ParseSpecResult};
use crate::frame::{copy_range, push_all};
use crate::message::{from_frame_from_server_spec, FromServer, Message, MessageError};
use vstd::prelude::*;

verus! {

/// What one transport read hands back: protocol bytes, or one
/// side-channel value (a transport-native signal, never protocol bytes)
/// that the core relays without inspecting.
#[derive(Debug)]
pub enum ReadResponse<T> {
    Binary(Vec<u8>),
    Custom(T),
}

/// A decoded reply: a protocol message, or a relayed side-channel value.
#[derive(Debug, PartialEq, Eq)]
pub enum Response<T> {
    Message(Message<FromServer>),
    Custom(T),
}

/// Why decoding failed: the bytes do not form a frame, or the frame does
/// not form a message of the expected direction.
#[derive(Clone, Copy, PartialEq, Eq, Structural, Debug)]
pub enum DecodeFailure {
    MalformedFrame,
    BadMessage(MessageError),
}

/// Failure on the write side: a text-encoding failure in outgoing data,
/// or an opaque transport failure, wrapped without interpretation.
#[derive(Debug, PartialEq, Eq)]
pub enum WriteError {
    Utf8Error,
    Other(String),
}

/// Failure on the read side.
#[derive(Debug, PartialEq, Eq)]
pub enum ReadError {
    /// Transport end of stream; never retried, propagated verbatim.
    ConnectionClosed,
    /// A well-formed frame arrived in a state where it is not
    /// semantically valid.
    UnexpectedMessage,
    /// Malformed bytes: the connection is unusable from here on.
    Parser(DecodeFailure),
    /// Any transport-specific failure that fits nothing above.
    Other(String),
}

/// The accumulation buffer of a buffered transport. Its head is always
/// byte-aligned to the start of the next undecoded frame: bytes are
/// appended at the tail, and dropped from the head only when a full
/// frame has been consumed.
pub struct DecodeBuffer {
    buf: Vec<u8>,
}

impl View for DecodeBuffer {
    type V = Seq<u8>;

    closed spec fn view(&self) -> Seq<u8> {
        self.buf@
    }
}

/// What one decode attempt does to the buffer and returns: on an
/// incomplete frame nothing moves and no message appears; on malformed
/// bytes nothing moves and the failure is terminal; on a complete frame
/// exactly the consumed bytes leave the head and the frame becomes a
/// message or a terminal failure.
pub open spec fn decode_post(
    pre: Seq<u8>,
    post: Seq<u8>,
    r: Result<Option<Message<FromServer>>, DecodeFailure>,
) -> bool {
    match parse_frame_spec(pre) {
        ParseSpecResult::Incomplete => post == pre && (r matches Ok(o) && o is None),
        ParseSpecResult::Malformed => post == pre && (r matches Err(e) && e
            == DecodeFailure::MalformedFrame),
        ParseSpecResult::Done { frame, used } => post == pre.skip(used) && (match
            from_frame_from_server_spec(frame) {
            Ok(mv) => r matches Ok(o) && o matches Some(msg) && msg@ == mv,
            Err(me) => r matches Err(e) && e == DecodeFailure::BadMessage(me),
        }),
    }
}

/// What one loop step does: a side-channel value is yielded untouched
/// and the buffer is undisturbed; protocol bytes are appended and one
/// decode attempt is made on the grown buffer.
pub open spec fn on_read_post<T>(
    pre: Seq<u8>,
    r: ReadResponse<T>,
    post: Seq<u8>,
    s: LoopStep<T>,
) -> bool {
    match r {
        ReadResponse::Custom(t) => post == pre && (s matches LoopStep::Yield(resp) && resp matches
            Response::Custom(c) && c == t),
        ReadResponse::Binary(data) => {
            let grown = pre + data@;
            match parse_frame_spec(grown) {
                ParseSpecResult::Incomplete => post == grown && s is NeedMore,
                ParseSpecResult::Malformed => post == grown && (s matches LoopStep::Fail(e) && e
                    matches ReadError::Parser(d) && d == DecodeFailure::MalformedFrame),
                ParseSpecResult::Done { frame, used } => post == grown.skip(used) && (match
                    from_frame_from_server_spec(frame) {
                    Ok(mv) => s matches LoopStep::Yield(resp) && resp matches Response::Message(
                        msg,
                    ) && msg@ == mv,
                    Err(me) => s matches LoopStep::Fail(e) && e matches ReadError::Parser(d) && d
                        == DecodeFailure::BadMessage(me),
                }),
            }
        },
    }
}

/// The decision of one decode-loop iteration: yield a result to the
/// caller, read more bytes, or stop on a terminal failure.
#[derive(Debug, PartialEq, Eq)]
pub enum LoopStep<T> {
    Yield(Response<T>),
    NeedMore,
    Fail(ReadError),
}

impl DecodeBuffer {
    /// An empty buffer.
    pub fn new() -> (r: DecodeBuffer)
        ensures
            r@ == Seq::<u8>::empty(),
    {
        let v: Vec<u8> = Vec::new();
        proof {
            assert(v@ =~= Seq::<u8>::empty());
        }
        DecodeBuffer { buf: v }
    }

    /// Appends protocol bytes at the tail.
    pub fn append(&mut self, data: &Vec<u8>)
        ensures
            final (self)@ == old(self)@ + data@,
    {
        push_all(&mut self.buf, data);
    }

    /// Attempts to decode exactly one message from the head of the
    /// buffer. Over- or under-consuming is impossible: on success the
    /// buffer loses exactly the parsed frame's bytes; on "incomplete"
    /// the buffer is untouched so the same bytes are re-parsed, from
    /// offset 0, once more data arrives.
    pub fn decode(&mut self) -> (r: Result<Option<Message<FromServer>>, DecodeFailure>)
        ensures
            decode_post(old(self)@, final (self)@, r),
    {
        match parse_frame(&self.buf) {
            FrameParse::Incomplete => Ok(None),
            FrameParse::Malformed => Err(DecodeFailure::MalformedFrame),
            FrameParse::Complete { frame, used } => {
                let rest = copy_range(&self.buf, used, self.buf.len());
                proof {
                    assert(rest@ =~= self.buf@.skip(used as int));
                }
                self.buf = rest;
                match Message::<FromServer>::from_frame(&frame) {
                    Ok(m) => Ok(Some(m)),
                    Err(e) => Err(DecodeFailure::BadMessage(e)),
                }
            },
        }
    }

    /// One step of the decode loop, fed the outcome of one transport
    /// read. Frames come out strictly in stream order; a side-channel
    /// value observed mid-buffer does not disturb the partially
    /// accumulated frame, which persists across calls.
    pub fn on_read<T>(&mut self, r: ReadResponse<T>) -> (s: LoopStep<T>)
        ensures
            on_read_post(old(self)@, r, final (self)@, s),
    {
        match r {
            ReadResponse::Custom(t) => LoopStep::Yield(Response::Custom(t)),
            ReadResponse::Binary(data) => {
                self.append(&data);
                match self.decode() {
                    Ok(None) => LoopStep::NeedMore,
                    Ok(Some(m)) => LoopStep::Yield(Response::Message(m)),
                    Err(f) => LoopStep::Fail(ReadError::Parser(f)),
                }
            },
        }
    }
}

} // verus!
