//! The public client surface: message builders and the one handshake
//! decision.
//!
//! The handshake sends a CONNECT message built from the caller's
//! virtualhost, optional credentials and custom headers, then reads one
//! reply. Only a protocol message whose variant is CONNECTED completes
//! it; any other protocol message, and any side-channel event, fails it,
//! carrying the received value for diagnostics. Driving the actual reads
//! and writes is the transport implementation's concern.

use crate::frame::hdrs_view;
use crate::message::{FromServer, Message, ToServer, ToServerView};
use crate::transport::Response;
use vstd::prelude::*;
use vstd::string::StrSliceExecFns;

verus! {

/// The bytes of a character string on the wire.
pub open spec fn str_view_bytes(s: Seq<char>) -> Seq<u8> {
    vstd::utf8::encode_utf8(s)
}

/// Caller-supplied string headers, as wire header pairs in caller order.
pub open spec fn str_headers_view(h: Seq<(String, String)>) -> Seq<(Seq<u8>, Seq<u8>)> {
    h.map_values(|p: (String, String)| (str_view_bytes(p.0@), str_view_bytes(p.1@)))
}

/// Converts caller-supplied string headers to wire header pairs.
fn convert_headers(h: &Vec<(String, String)>) -> (r: Vec<(Vec<u8>, Vec<u8>)>)
    ensures
        hdrs_view(r@) == str_headers_view(h@),
{
    let mut out: Vec<(Vec<u8>, Vec<u8>)> = Vec::new();
    let mut j: usize = 0;
    proof {
        assert(hdrs_view(out@) =~= str_headers_view(h@).take(0));
    }
    while j < h.len()
        invariant
            j <= h@.len(),
            hdrs_view(out@) == str_headers_view(h@).take(j as int),
        decreases h@.len() - j,
    {
        let p = &h[j];
        let ghost prev = hdrs_view(out@);
        out.push((p.0.as_str().as_bytes_vec(), p.1.as_str().as_bytes_vec()));
        proof {
            assert(hdrs_view(out@) =~= prev + seq![(str_headers_view(h@)[j as int])]);
            assert(str_headers_view(h@).take(j as int + 1) =~= str_headers_view(h@).take(j as int)
                + seq![(str_headers_view(h@)[j as int])]);
        }
        j = j + 1;
    }
    proof {
        assert(str_headers_view(h@).take(h@.len() as int) =~= str_headers_view(h@));
    }
    out
}

/// A SUBSCRIBE message that starts a subscription: destination and id as
/// given, no ack mode, and the caller's custom headers, in caller order,
/// as extra headers.
pub fn subscribe_message(destination: String, id: String, headers: Option<Vec<(String, String)>>)
    -> (r: Message<ToServer>)
    ensures
        r@.content == (ToServerView::Subscribe {
            destination: str_view_bytes(destination@),
            id: str_view_bytes(id@),
            ack: None,
        }),
        r@.extra_headers == (match headers {
            Some(h) => str_headers_view(h@),
            None => Seq::<(Seq<u8>, Seq<u8>)>::empty(),
        }),
{
    let extra_headers = match &headers {
        Some(h) => convert_headers(h),
        None => {
            let v: Vec<(Vec<u8>, Vec<u8>)> = Vec::new();
            proof {
                assert(hdrs_view(v@) =~= Seq::<(Seq<u8>, Seq<u8>)>::empty());
            }
            v
        },
    };
    Message {
        content: ToServer::Subscribe {
            destination: destination.as_str().as_bytes_vec(),
            id: id.as_str().as_bytes_vec(),
            ack: None,
        },
        extra_headers,
    }
}

/// The CONNECT message the handshake sends: protocol version 1.2, the
/// caller's virtualhost, optional credentials, no heartbeat, and the
/// caller's custom headers, in caller order, after the required ones.
pub fn connect_message(
    virtualhost: String,
    login: Option<String>,
    passcode: Option<String>,
    headers: Vec<(String, String)>,
) -> (r: Message<ToServer>)
    ensures
        r@.content == (ToServerView::Connect {
            accept_version: seq![49u8, 46, 50],
            host: str_view_bytes(virtualhost@),
            login: match login {
                Some(l) => Some(str_view_bytes(l@)),
                None => None,
            },
            passcode: match passcode {
                Some(p) => Some(str_view_bytes(p@)),
                None => None,
            },
            heartbeat: None,
        }),
        r@.extra_headers == str_headers_view(headers@),
{
    let mut av: Vec<u8> = Vec::new();
    av.push(49);
    av.push(46);
    av.push(50);
    proof {
        assert(av@ =~= seq![49u8, 46, 50]);
    }
    let lo = match &login {
        Some(l) => Some(l.as_str().as_bytes_vec()),
        None => None,
    };
    let pc = match &passcode {
        Some(p) => Some(p.as_str().as_bytes_vec()),
        None => None,
    };
    Message {
        content: ToServer::Connect {
            accept_version: av,
            host: virtualhost.as_str().as_bytes_vec(),
            login: lo,
            passcode: pc,
            heartbeat: None,
        },
        extra_headers: convert_headers(&headers),
    }
}

/// Why the handshake failed, carrying the received value.
#[derive(Debug, PartialEq, Eq)]
pub enum HandshakeError<T> {
    /// A well-formed protocol message arrived that is not CONNECTED.
    UnexpectedReply(Message<FromServer>),
    /// A side-channel event arrived before any CONNECTED reply; the
    /// handshake tolerates none (documented policy, not silently
    /// ignored).
    UnexpectedSideChannel(T),
}

/// The handshake's single decision on the one reply it reads: exactly a
/// CONNECTED message succeeds; everything else fails, carrying the
/// received value.
pub fn check_handshake_reply<T>(r: Response<T>) -> (res: Result<(), HandshakeError<T>>)
    ensures
        match r {
            Response::Message(m) => if m.content is Connected {
                res is Ok
            } else {
                res matches Err(HandshakeError::UnexpectedReply(m2)) && m2 == m
            },
            Response::Custom(t) => res matches Err(HandshakeError::UnexpectedSideChannel(t2)) && t2
                == t,
        },
{
    match r {
        Response::Message(m) => match m.content {
            FromServer::Connected => Ok(()),
            _ => Err(HandshakeError::UnexpectedReply(m)),
        },
        Response::Custom(t) => Err(HandshakeError::UnexpectedSideChannel(t)),
    }
}

} // verus!
