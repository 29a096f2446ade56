//! Typed protocol messages and their total, order-preserving conversion
//! to and from wire frames.
//!
//! Each variant carries its modeled fields as typed values; every header
//! not consumed by a modeled field is kept, in original order, in
//! `extra_headers`, never interpreted. Extraction is case-sensitive and
//! exact-match on key bytes; of duplicate keys the first occurrence is
//! authoritative, and later duplicates stay in `extra_headers`.

use crate::frame::{copy_range, hdrs_view, key_find, key_idx, Command, Frame, FrameView};
use crate::frame::{find_byte, parse_digits};
use crate::num::{all_digits, dec_seq, digits_val, u64_to_dec};
use vstd::prelude::*;

verus! {

/// ASCII comma: separates the two halves of a `heart-beat` value.
pub const COMMA: u8 = 44;

/// Acknowledgement modes of a subscription.
#[derive(Clone, Copy, PartialEq, Eq, Structural, Debug)]
pub enum AckMode {
    Auto,
    Client,
    ClientIndividual,
}

/// Messages a client sends to the server.
#[derive(Debug, PartialEq, Eq)]
pub enum ToServer {
    Connect {
        accept_version: Vec<u8>,
        host: Vec<u8>,
        login: Option<Vec<u8>>,
        passcode: Option<Vec<u8>>,
        heartbeat: Option<(u32, u32)>,
    },
    Send { destination: Vec<u8>, transaction: Option<Vec<u8>>, body: Option<Vec<u8>> },
    Subscribe { destination: Vec<u8>, id: Vec<u8>, ack: Option<AckMode> },
    Unsubscribe { id: Vec<u8> },
    Begin { transaction: Vec<u8> },
    Commit { transaction: Vec<u8> },
    Abort { transaction: Vec<u8> },
    Ack { id: Vec<u8>, transaction: Option<Vec<u8>> },
    Nack { id: Vec<u8>, transaction: Option<Vec<u8>> },
    Disconnect { receipt: Option<Vec<u8>> },
}

/// Messages the server sends to a client. A CONNECTED reply is
/// recognized solely by its command token; all its headers pass through.
#[derive(Debug, PartialEq, Eq)]
pub enum FromServer {
    Connected,
    Message { destination: Vec<u8>, body: Option<Vec<u8>> },
    Receipt { receipt_id: Vec<u8> },
    Error { message: Option<Vec<u8>>, body: Option<Vec<u8>> },
}

/// The model of [`ToServer`].
#[verifier::ext_equal]
pub enum ToServerView {
    Connect {
        accept_version: Seq<u8>,
        host: Seq<u8>,
        login: Option<Seq<u8>>,
        passcode: Option<Seq<u8>>,
        heartbeat: Option<(u32, u32)>,
    },
    Send { destination: Seq<u8>, transaction: Option<Seq<u8>>, body: Option<Seq<u8>> },
    Subscribe { destination: Seq<u8>, id: Seq<u8>, ack: Option<AckMode> },
    Unsubscribe { id: Seq<u8> },
    Begin { transaction: Seq<u8> },
    Commit { transaction: Seq<u8> },
    Abort { transaction: Seq<u8> },
    Ack { id: Seq<u8>, transaction: Option<Seq<u8>> },
    Nack { id: Seq<u8>, transaction: Option<Seq<u8>> },
    Disconnect { receipt: Option<Seq<u8>> },
}

/// The model of [`FromServer`].
#[verifier::ext_equal]
pub enum FromServerView {
    Connected,
    Message { destination: Seq<u8>, body: Option<Seq<u8>> },
    Receipt { receipt_id: Seq<u8> },
    Error { message: Option<Seq<u8>>, body: Option<Seq<u8>> },
}

pub open spec fn opt_view(o: Option<Vec<u8>>) -> Option<Seq<u8>> {
    match o {
        Some(v) => Some(v@),
        None => None,
    }
}

impl View for ToServer {
    type V = ToServerView;

    open spec fn view(&self) -> ToServerView {
        match self {
            ToServer::Connect { accept_version, host, login, passcode, heartbeat } => {
                ToServerView::Connect {
                    accept_version: accept_version@,
                    host: host@,
                    login: opt_view(*login),
                    passcode: opt_view(*passcode),
                    heartbeat: *heartbeat,
                }
            },
            ToServer::Send { destination, transaction, body } => ToServerView::Send {
                destination: destination@,
                transaction: opt_view(*transaction),
                body: opt_view(*body),
            },
            ToServer::Subscribe { destination, id, ack } => ToServerView::Subscribe {
                destination: destination@,
                id: id@,
                ack: *ack,
            },
            ToServer::Unsubscribe { id } => ToServerView::Unsubscribe { id: id@ },
            ToServer::Begin { transaction } => ToServerView::Begin { transaction: transaction@ },
            ToServer::Commit { transaction } => ToServerView::Commit { transaction: transaction@ },
            ToServer::Abort { transaction } => ToServerView::Abort { transaction: transaction@ },
            ToServer::Ack { id, transaction } => ToServerView::Ack {
                id: id@,
                transaction: opt_view(*transaction),
            },
            ToServer::Nack { id, transaction } => ToServerView::Nack {
                id: id@,
                transaction: opt_view(*transaction),
            },
            ToServer::Disconnect { receipt } => ToServerView::Disconnect {
                receipt: opt_view(*receipt),
            },
        }
    }
}

impl View for FromServer {
    type V = FromServerView;

    open spec fn view(&self) -> FromServerView {
        match self {
            FromServer::Connected => FromServerView::Connected,
            FromServer::Message { destination, body } => FromServerView::Message {
                destination: destination@,
                body: opt_view(*body),
            },
            FromServer::Receipt { receipt_id } => FromServerView::Receipt {
                receipt_id: receipt_id@,
            },
            FromServer::Error { message, body } => FromServerView::Error {
                message: opt_view(*message),
                body: opt_view(*body),
            },
        }
    }
}

/// A typed message together with its pass-through headers.
#[derive(Debug, PartialEq, Eq)]
pub struct Message<C> {
    pub content: C,
    pub extra_headers: Vec<(Vec<u8>, Vec<u8>)>,
}

/// The model of a [`Message`].
#[verifier::ext_equal]
pub struct MessageView<CV> {
    pub content: CV,
    pub extra_headers: Seq<(Seq<u8>, Seq<u8>)>,
}

impl<C: View> View for Message<C> {
    type V = MessageView<<C as View>::V>;

    open spec fn view(&self) -> MessageView<<C as View>::V> {
        MessageView { content: self.content@, extra_headers: hdrs_view(self.extra_headers@) }
    }
}

/// Why a well-formed frame could not become a typed message.
#[derive(Clone, Copy, PartialEq, Eq, Structural, Debug)]
pub enum MessageError {
    /// The command token is not in the closed set for this direction.
    WrongCommand,
    /// A required header of the variant is missing.
    MissingHeader,
    /// A modeled header value (ack mode, heart-beat) does not parse.
    BadValue,
}

// Modeled header keys, as byte sequences.
pub open spec fn k_accept_version() -> Seq<u8> {
    seq![97u8, 99, 99, 101, 112, 116, 45, 118, 101, 114, 115, 105, 111, 110]
}

pub open spec fn k_host() -> Seq<u8> {
    seq![104u8, 111, 115, 116]
}

pub open spec fn k_login() -> Seq<u8> {
    seq![108u8, 111, 103, 105, 110]
}

pub open spec fn k_passcode() -> Seq<u8> {
    seq![112u8, 97, 115, 115, 99, 111, 100, 101]
}

pub open spec fn k_heart_beat() -> Seq<u8> {
    seq![104u8, 101, 97, 114, 116, 45, 98, 101, 97, 116]
}

pub open spec fn k_destination() -> Seq<u8> {
    seq![100u8, 101, 115, 116, 105, 110, 97, 116, 105, 111, 110]
}

pub open spec fn k_transaction() -> Seq<u8> {
    seq![116u8, 114, 97, 110, 115, 97, 99, 116, 105, 111, 110]
}

pub open spec fn k_id() -> Seq<u8> {
    seq![105u8, 100]
}

pub open spec fn k_ack() -> Seq<u8> {
    seq![97u8, 99, 107]
}

pub open spec fn k_receipt() -> Seq<u8> {
    seq![114u8, 101, 99, 101, 105, 112, 116]
}

pub open spec fn k_receipt_id() -> Seq<u8> {
    seq![114u8, 101, 99, 101, 105, 112, 116, 45, 105, 100]
}

pub open spec fn k_message() -> Seq<u8> {
    seq![109u8, 101, 115, 115, 97, 103, 101]
}

/// The wire value of an acknowledgement mode.
pub open spec fn ack_value(m: AckMode) -> Seq<u8> {
    match m {
        AckMode::Auto => seq![97u8, 117, 116, 111],
        AckMode::Client => seq![99u8, 108, 105, 101, 110, 116],
        AckMode::ClientIndividual => seq![
            99u8,
            108,
            105,
            101,
            110,
            116,
            45,
            105,
            110,
            100,
            105,
            118,
            105,
            100,
            117,
            97,
            108,
        ],
    }
}

/// The acknowledgement mode named by a header value.
pub open spec fn parse_ack(v: Seq<u8>) -> Option<AckMode> {
    if v == ack_value(AckMode::Auto) {
        Some(AckMode::Auto)
    } else if v == ack_value(AckMode::Client) {
        Some(AckMode::Client)
    } else if v == ack_value(AckMode::ClientIndividual) {
        Some(AckMode::ClientIndividual)
    } else {
        None
    }
}

/// A decimal header value fitting a `u32`.
pub open spec fn parse_u32(v: Seq<u8>) -> Option<u32> {
    if 1 <= v.len() <= 20 && all_digits(v) && digits_val(v, 0) <= u32::MAX {
        Some(digits_val(v, 0) as u32)
    } else {
        None
    }
}

/// The wire value of a `heart-beat` header.
pub open spec fn heartbeat_value(a: u32, b: u32) -> Seq<u8> {
    dec_seq(a as nat) + seq![COMMA] + dec_seq(b as nat)
}

/// The two halves of a `heart-beat` value.
pub open spec fn parse_heartbeat(v: Seq<u8>) -> Option<(u32, u32)> {
    match crate::frame::seq_find(v, 0, COMMA) {
        None => None,
        Some(c) => match (parse_u32(v.take(c)), parse_u32(v.skip(c + 1))) {
            (Some(a), Some(b)) => Some((a, b)),
            _ => None,
        },
    }
}

/// One header pair when the optional value is present, nothing otherwise.
pub open spec fn opt_hdr(k: Seq<u8>, o: Option<Seq<u8>>) -> Seq<(Seq<u8>, Seq<u8>)> {
    match o {
        Some(v) => seq![(k, v)],
        None => Seq::empty(),
    }
}

/// The headers a client-bound variant writes for its modeled fields, in
/// their fixed order, before any extra headers.
pub open spec fn to_server_modeled(c: ToServerView) -> Seq<(Seq<u8>, Seq<u8>)> {
    match c {
        ToServerView::Connect { accept_version, host, login, passcode, heartbeat } => {
            seq![(k_accept_version(), accept_version), (k_host(), host)] + opt_hdr(
                k_login(),
                login,
            ) + opt_hdr(k_passcode(), passcode) + (match heartbeat {
                Some(hb) => seq![(k_heart_beat(), heartbeat_value(hb.0, hb.1))],
                None => Seq::empty(),
            })
        },
        ToServerView::Send { destination, transaction, body } => seq![(k_destination(), destination)]
            + opt_hdr(k_transaction(), transaction),
        ToServerView::Subscribe { destination, id, ack } => seq![
            (k_destination(), destination),
            (k_id(), id),
        ] + (match ack {
            Some(m) => seq![(k_ack(), ack_value(m))],
            None => Seq::empty(),
        }),
        ToServerView::Unsubscribe { id } => seq![(k_id(), id)],
        ToServerView::Begin { transaction } => seq![(k_transaction(), transaction)],
        ToServerView::Commit { transaction } => seq![(k_transaction(), transaction)],
        ToServerView::Abort { transaction } => seq![(k_transaction(), transaction)],
        ToServerView::Ack { id, transaction } => seq![(k_id(), id)] + opt_hdr(
            k_transaction(),
            transaction,
        ),
        ToServerView::Nack { id, transaction } => seq![(k_id(), id)] + opt_hdr(
            k_transaction(),
            transaction,
        ),
        ToServerView::Disconnect { receipt } => opt_hdr(k_receipt(), receipt),
    }
}

pub open spec fn to_server_cmd(c: ToServerView) -> Command {
    match c {
        ToServerView::Connect { .. } => Command::Connect,
        ToServerView::Send { .. } => Command::Send,
        ToServerView::Subscribe { .. } => Command::Subscribe,
        ToServerView::Unsubscribe { .. } => Command::Unsubscribe,
        ToServerView::Begin { .. } => Command::Begin,
        ToServerView::Commit { .. } => Command::Commit,
        ToServerView::Abort { .. } => Command::Abort,
        ToServerView::Ack { .. } => Command::Ack,
        ToServerView::Nack { .. } => Command::Nack,
        ToServerView::Disconnect { .. } => Command::Disconnect,
    }
}

pub open spec fn to_server_body(c: ToServerView) -> Option<Seq<u8>> {
    match c {
        ToServerView::Send { body, .. } => body,
        _ => None,
    }
}

pub open spec fn from_server_modeled(c: FromServerView) -> Seq<(Seq<u8>, Seq<u8>)> {
    match c {
        FromServerView::Connected => Seq::empty(),
        FromServerView::Message { destination, body } => seq![(k_destination(), destination)],
        FromServerView::Receipt { receipt_id } => seq![(k_receipt_id(), receipt_id)],
        FromServerView::Error { message, body } => opt_hdr(k_message(), message),
    }
}

pub open spec fn from_server_cmd(c: FromServerView) -> Command {
    match c {
        FromServerView::Connected => Command::Connected,
        FromServerView::Message { .. } => Command::Message,
        FromServerView::Receipt { .. } => Command::Receipt,
        FromServerView::Error { .. } => Command::Error,
    }
}

pub open spec fn from_server_body(c: FromServerView) -> Option<Seq<u8>> {
    match c {
        FromServerView::Message { body, .. } => body,
        FromServerView::Error { body, .. } => body,
        _ => None,
    }
}

/// The frame a client-bound message serializes to: its command, the
/// modeled headers, then the extra headers in caller order, then the body.
pub open spec fn to_frame_to_server_spec(m: MessageView<ToServerView>) -> FrameView {
    FrameView {
        command: to_server_cmd(m.content),
        headers: to_server_modeled(m.content) + m.extra_headers,
        body: to_server_body(m.content),
    }
}

/// The frame a server-bound message serializes to.
pub open spec fn to_frame_from_server_spec(m: MessageView<FromServerView>) -> FrameView {
    FrameView {
        command: from_server_cmd(m.content),
        headers: from_server_modeled(m.content) + m.extra_headers,
        body: from_server_body(m.content),
    }
}

/// The header pairs that survive into `extra_headers`: every index not
/// consumed by a modeled field.
pub open spec fn drop_used(hs: Seq<(Seq<u8>, Seq<u8>)>, used: Seq<int>) -> Seq<(Seq<u8>, Seq<u8>)>
    decreases hs.len(),
{
    if hs.len() == 0 {
        Seq::empty()
    } else {
        let prev = drop_used(hs.drop_last(), used);
        if used.contains(hs.len() - 1) {
            prev
        } else {
            prev + seq![hs.last()]
        }
    }
}

/// A usize index list as mathematical integers.
pub open spec fn used_ints(u: Seq<usize>) -> Seq<int> {
    u.map_values(|x: usize| x as int)
}

/// What a client-bound frame means: fails when the command is not a
/// client-bound one or a required header is missing; the first
/// occurrence of each modeled key is consumed, everything else passes
/// through in order.
pub open spec fn from_frame_to_server_spec(f: FrameView) -> Result<
    MessageView<ToServerView>,
    MessageError,
> {
    let hs = f.headers;
    match f.command {
        Command::Connect => {
            let avi = key_idx(hs, k_accept_version());
            let hoi = key_idx(hs, k_host());
            let li = key_idx(hs, k_login());
            let pi = key_idx(hs, k_passcode());
            let hbi = key_idx(hs, k_heart_beat());
            if avi == hs.len() || hoi == hs.len() {
                Err(MessageError::MissingHeader)
            } else {
                let hbr: Result<Option<(u32, u32)>, MessageError> = if hbi < hs.len() {
                    match parse_heartbeat(hs[hbi].1) {
                        Some(p) => Ok(Some(p)),
                        None => Err(MessageError::BadValue),
                    }
                } else {
                    Ok(None)
                };
                match hbr {
                    Err(e) => Err(e),
                    Ok(heartbeat) => Ok(
                        MessageView {
                            content: ToServerView::Connect {
                                accept_version: hs[avi].1,
                                host: hs[hoi].1,
                                login: if li < hs.len() {
                                    Some(hs[li].1)
                                } else {
                                    None
                                },
                                passcode: if pi < hs.len() {
                                    Some(hs[pi].1)
                                } else {
                                    None
                                },
                                heartbeat,
                            },
                            extra_headers: drop_used(hs, seq![avi, hoi, li, pi, hbi]),
                        },
                    ),
                }
            }
        },
        Command::Send => {
            let di = key_idx(hs, k_destination());
            let ti = key_idx(hs, k_transaction());
            if di == hs.len() {
                Err(MessageError::MissingHeader)
            } else {
                Ok(
                    MessageView {
                        content: ToServerView::Send {
                            destination: hs[di].1,
                            transaction: if ti < hs.len() {
                                Some(hs[ti].1)
                            } else {
                                None
                            },
                            body: f.body,
                        },
                        extra_headers: drop_used(hs, seq![di, ti]),
                    },
                )
            }
        },
        Command::Subscribe => {
            let di = key_idx(hs, k_destination());
            let ii = key_idx(hs, k_id());
            let ai = key_idx(hs, k_ack());
            if di == hs.len() || ii == hs.len() {
                Err(MessageError::MissingHeader)
            } else {
                let ar: Result<Option<AckMode>, MessageError> = if ai < hs.len() {
                    match parse_ack(hs[ai].1) {
                        Some(m) => Ok(Some(m)),
                        None => Err(MessageError::BadValue),
                    }
                } else {
                    Ok(None)
                };
                match ar {
                    Err(e) => Err(e),
                    Ok(ack) => Ok(
                        MessageView {
                            content: ToServerView::Subscribe {
                                destination: hs[di].1,
                                id: hs[ii].1,
                                ack,
                            },
                            extra_headers: drop_used(hs, seq![di, ii, ai]),
                        },
                    ),
                }
            }
        },
        Command::Unsubscribe => {
            let ii = key_idx(hs, k_id());
            if ii == hs.len() {
                Err(MessageError::MissingHeader)
            } else {
                Ok(
                    MessageView {
                        content: ToServerView::Unsubscribe { id: hs[ii].1 },
                        extra_headers: drop_used(hs, seq![ii]),
                    },
                )
            }
        },
        Command::Begin => {
            let ti = key_idx(hs, k_transaction());
            if ti == hs.len() {
                Err(MessageError::MissingHeader)
            } else {
                Ok(
                    MessageView {
                        content: ToServerView::Begin { transaction: hs[ti].1 },
                        extra_headers: drop_used(hs, seq![ti]),
                    },
                )
            }
        },
        Command::Commit => {
            let ti = key_idx(hs, k_transaction());
            if ti == hs.len() {
                Err(MessageError::MissingHeader)
            } else {
                Ok(
                    MessageView {
                        content: ToServerView::Commit { transaction: hs[ti].1 },
                        extra_headers: drop_used(hs, seq![ti]),
                    },
                )
            }
        },
        Command::Abort => {
            let ti = key_idx(hs, k_transaction());
            if ti == hs.len() {
                Err(MessageError::MissingHeader)
            } else {
                Ok(
                    MessageView {
                        content: ToServerView::Abort { transaction: hs[ti].1 },
                        extra_headers: drop_used(hs, seq![ti]),
                    },
                )
            }
        },
        Command::Ack => {
            let ii = key_idx(hs, k_id());
            let ti = key_idx(hs, k_transaction());
            if ii == hs.len() {
                Err(MessageError::MissingHeader)
            } else {
                Ok(
                    MessageView {
                        content: ToServerView::Ack {
                            id: hs[ii].1,
                            transaction: if ti < hs.len() {
                                Some(hs[ti].1)
                            } else {
                                None
                            },
                        },
                        extra_headers: drop_used(hs, seq![ii, ti]),
                    },
                )
            }
        },
        Command::Nack => {
            let ii = key_idx(hs, k_id());
            let ti = key_idx(hs, k_transaction());
            if ii == hs.len() {
                Err(MessageError::MissingHeader)
            } else {
                Ok(
                    MessageView {
                        content: ToServerView::Nack {
                            id: hs[ii].1,
                            transaction: if ti < hs.len() {
                                Some(hs[ti].1)
                            } else {
                                None
                            },
                        },
                        extra_headers: drop_used(hs, seq![ii, ti]),
                    },
                )
            }
        },
        Command::Disconnect => {
            let ri = key_idx(hs, k_receipt());
            Ok(
                MessageView {
                    content: ToServerView::Disconnect {
                        receipt: if ri < hs.len() {
                            Some(hs[ri].1)
                        } else {
                            None
                        },
                    },
                    extra_headers: drop_used(hs, seq![ri]),
                },
            )
        },
        _ => Err(MessageError::WrongCommand),
    }
}

/// What a server-bound frame means.
pub open spec fn from_frame_from_server_spec(f: FrameView) -> Result<
    MessageView<FromServerView>,
    MessageError,
> {
    let hs = f.headers;
    match f.command {
        Command::Connected => Ok(
            MessageView { content: FromServerView::Connected, extra_headers: hs },
        ),
        Command::Message => {
            let di = key_idx(hs, k_destination());
            if di == hs.len() {
                Err(MessageError::MissingHeader)
            } else {
                Ok(
                    MessageView {
                        content: FromServerView::Message { destination: hs[di].1, body: f.body },
                        extra_headers: drop_used(hs, seq![di]),
                    },
                )
            }
        },
        Command::Receipt => {
            let ri = key_idx(hs, k_receipt_id());
            if ri == hs.len() {
                Err(MessageError::MissingHeader)
            } else {
                Ok(
                    MessageView {
                        content: FromServerView::Receipt { receipt_id: hs[ri].1 },
                        extra_headers: drop_used(hs, seq![ri]),
                    },
                )
            }
        },
        Command::Error => {
            let mi = key_idx(hs, k_message());
            Ok(
                MessageView {
                    content: FromServerView::Error {
                        message: if mi < hs.len() {
                            Some(hs[mi].1)
                        } else {
                            None
                        },
                        body: f.body,
                    },
                    extra_headers: drop_used(hs, seq![mi]),
                },
            )
        },
        _ => Err(MessageError::WrongCommand),
    }
}

/// Copies a byte vector.
pub fn copy_vec(v: &Vec<u8>) -> (r: Vec<u8>)
    ensures
        r@ == v@,
{
    let r = copy_range(v, 0, v.len());
    proof {
        assert(v@.subrange(0, v@.len() as int) =~= v@);
    }
    r
}

/// Copies a header list.
pub fn copy_headers(hs: &Vec<(Vec<u8>, Vec<u8>)>) -> (r: Vec<(Vec<u8>, Vec<u8>)>)
    ensures
        hdrs_view(r@) == hdrs_view(hs@),
{
    let mut out: Vec<(Vec<u8>, Vec<u8>)> = Vec::new();
    let mut j: usize = 0;
    proof {
        assert(hdrs_view(out@) =~= hdrs_view(hs@).take(0));
    }
    while j < hs.len()
        invariant
            j <= hs@.len(),
            hdrs_view(out@) == hdrs_view(hs@).take(j as int),
        decreases hs@.len() - j,
    {
        let p = &hs[j];
        let ghost prev = hdrs_view(out@);
        out.push((copy_vec(&p.0), copy_vec(&p.1)));
        proof {
            assert(hdrs_view(out@) =~= prev + seq![(hdrs_view(hs@)[j as int])]);
            assert(hdrs_view(hs@).take(j as int + 1) =~= hdrs_view(hs@).take(j as int) + seq![
                (hdrs_view(hs@)[j as int]),
            ]);
        }
        j = j + 1;
    }
    proof {
        assert(hdrs_view(hs@).take(hs@.len() as int) =~= hdrs_view(hs@));
    }
    out
}

/// Whether `j` is one of the consumed indices.
pub fn contains_idx(used: &Vec<usize>, j: usize) -> (r: bool)
    ensures
        r == used_ints(used@).contains(j as int),
{
    let mut t: usize = 0;
    while t < used.len()
        invariant
            t <= used@.len(),
            forall|x: int| 0 <= x < t ==> used@[x] != j,
        decreases used@.len() - t,
    {
        if used[t] == j {
            proof {
                assert(used_ints(used@)[t as int] == j as int);
            }
            return true;
        }
        t = t + 1;
    }
    proof {
        assert(!used_ints(used@).contains(j as int)) by {
            assert forall|i: int| 0 <= i < used_ints(used@).len() implies used_ints(used@)[i] != (
            j as int) by {
                assert(used@[i] != j);
            }
        }
    }
    false
}

/// Copies the header pairs whose index was not consumed by a modeled
/// field, in original order.
pub fn drop_used_exec(hs: &Vec<(Vec<u8>, Vec<u8>)>, used: &Vec<usize>) -> (r: Vec<
    (Vec<u8>, Vec<u8>),
>)
    ensures
        hdrs_view(r@) == drop_used(hdrs_view(hs@), used_ints(used@)),
{
    let ghost uset = used_ints(used@);
    let ghost hv = hdrs_view(hs@);
    let mut out: Vec<(Vec<u8>, Vec<u8>)> = Vec::new();
    let mut j: usize = 0;
    proof {
        assert(hv.take(0) =~= Seq::<(Seq<u8>, Seq<u8>)>::empty());
        assert(hdrs_view(out@) =~= drop_used(hv.take(0), uset));
    }
    while j < hs.len()
        invariant
            j <= hs@.len(),
            hv == hdrs_view(hs@),
            uset == used_ints(used@),
            hdrs_view(out@) == drop_used(hv.take(j as int), uset),
        decreases hs@.len() - j,
    {
        let ghost prev = hdrs_view(out@);
        let hit = contains_idx(used, j);
        if !hit {
            let p = &hs[j];
            out.push((copy_vec(&p.0), copy_vec(&p.1)));
            proof {
                assert(hdrs_view(out@) =~= prev + seq![(hv[j as int])]);
            }
        }
        proof {
            assert(hv.take(j as int + 1).drop_last() =~= hv.take(j as int));
            assert(hv.take(j as int + 1).last() == hv[j as int]);
            assert(hv.take(j as int + 1).len() - 1 == j as int);
        }
        j = j + 1;
    }
    proof {
        assert(hv.take(hs@.len() as int) =~= hv);
    }
    out
}

pub fn k_accept_version_vec() -> (r: Vec<u8>)
    ensures
        r@ == k_accept_version(),
{
    let mut v: Vec<u8> = Vec::new();
    v.push(97);
    v.push(99);
    v.push(99);
    v.push(101);
    v.push(112);
    v.push(116);
    v.push(45);
    v.push(118);
    v.push(101);
    v.push(114);
    v.push(115);
    v.push(105);
    v.push(111);
    v.push(110);
    proof {
        assert(v@ =~= k_accept_version());
    }
    v
}

pub fn k_host_vec() -> (r: Vec<u8>)
    ensures
        r@ == k_host(),
{
    let mut v: Vec<u8> = Vec::new();
    v.push(104);
    v.push(111);
    v.push(115);
    v.push(116);
    proof {
        assert(v@ =~= k_host());
    }
    v
}

pub fn k_login_vec() -> (r: Vec<u8>)
    ensures
        r@ == k_login(),
{
    let mut v: Vec<u8> = Vec::new();
    v.push(108);
    v.push(111);
    v.push(103);
    v.push(105);
    v.push(110);
    proof {
        assert(v@ =~= k_login());
    }
    v
}

pub fn k_passcode_vec() -> (r: Vec<u8>)
    ensures
        r@ == k_passcode(),
{
    let mut v: Vec<u8> = Vec::new();
    v.push(112);
    v.push(97);
    v.push(115);
    v.push(115);
    v.push(99);
    v.push(111);
    v.push(100);
    v.push(101);
    proof {
        assert(v@ =~= k_passcode());
    }
    v
}

pub fn k_heart_beat_vec() -> (r: Vec<u8>)
    ensures
        r@ == k_heart_beat(),
{
    let mut v: Vec<u8> = Vec::new();
    v.push(104);
    v.push(101);
    v.push(97);
    v.push(114);
    v.push(116);
    v.push(45);
    v.push(98);
    v.push(101);
    v.push(97);
    v.push(116);
    proof {
        assert(v@ =~= k_heart_beat());
    }
    v
}

pub fn k_destination_vec() -> (r: Vec<u8>)
    ensures
        r@ == k_destination(),
{
    let mut v: Vec<u8> = Vec::new();
    v.push(100);
    v.push(101);
    v.push(115);
    v.push(116);
    v.push(105);
    v.push(110);
    v.push(97);
    v.push(116);
    v.push(105);
    v.push(111);
    v.push(110);
    proof {
        assert(v@ =~= k_destination());
    }
    v
}

pub fn k_transaction_vec() -> (r: Vec<u8>)
    ensures
        r@ == k_transaction(),
{
    let mut v: Vec<u8> = Vec::new();
    v.push(116);
    v.push(114);
    v.push(97);
    v.push(110);
    v.push(115);
    v.push(97);
    v.push(99);
    v.push(116);
    v.push(105);
    v.push(111);
    v.push(110);
    proof {
        assert(v@ =~= k_transaction());
    }
    v
}

pub fn k_id_vec() -> (r: Vec<u8>)
    ensures
        r@ == k_id(),
{
    let mut v: Vec<u8> = Vec::new();
    v.push(105);
    v.push(100);
    proof {
        assert(v@ =~= k_id());
    }
    v
}

pub fn k_ack_vec() -> (r: Vec<u8>)
    ensures
        r@ == k_ack(),
{
    let mut v: Vec<u8> = Vec::new();
    v.push(97);
    v.push(99);
    v.push(107);
    proof {
        assert(v@ =~= k_ack());
    }
    v
}

pub fn k_receipt_vec() -> (r: Vec<u8>)
    ensures
        r@ == k_receipt(),
{
    let mut v: Vec<u8> = Vec::new();
    v.push(114);
    v.push(101);
    v.push(99);
    v.push(101);
    v.push(105);
    v.push(112);
    v.push(116);
    proof {
        assert(v@ =~= k_receipt());
    }
    v
}

pub fn k_receipt_id_vec() -> (r: Vec<u8>)
    ensures
        r@ == k_receipt_id(),
{
    let mut v: Vec<u8> = Vec::new();
    v.push(114);
    v.push(101);
    v.push(99);
    v.push(101);
    v.push(105);
    v.push(112);
    v.push(116);
    v.push(45);
    v.push(105);
    v.push(100);
    proof {
        assert(v@ =~= k_receipt_id());
    }
    v
}

pub fn k_message_vec() -> (r: Vec<u8>)
    ensures
        r@ == k_message(),
{
    let mut v: Vec<u8> = Vec::new();
    v.push(109);
    v.push(101);
    v.push(115);
    v.push(115);
    v.push(97);
    v.push(103);
    v.push(101);
    proof {
        assert(v@ =~= k_message());
    }
    v
}

pub fn ack_value_vec(m: AckMode) -> (r: Vec<u8>)
    ensures
        r@ == ack_value(m),
{
    let mut v: Vec<u8> = Vec::new();
    match m {
        AckMode::Auto => {
            v.push(97);
            v.push(117);
            v.push(116);
            v.push(111);
        },
        AckMode::Client => {
            v.push(99);
            v.push(108);
            v.push(105);
            v.push(101);
            v.push(110);
            v.push(116);
        },
        AckMode::ClientIndividual => {
            v.push(99);
            v.push(108);
            v.push(105);
            v.push(101);
            v.push(110);
            v.push(116);
            v.push(45);
            v.push(105);
            v.push(110);
            v.push(100);
            v.push(105);
            v.push(118);
            v.push(105);
            v.push(100);
            v.push(117);
            v.push(97);
            v.push(108);
        },
    }
    proof {
        assert(v@ =~= ack_value(m));
    }
    v
}

/// The acknowledgement mode named by a header value.
pub fn ack_of_bytes(v: &Vec<u8>) -> (r: Option<AckMode>)
    ensures
        r == parse_ack(v@),
{
    if crate::frame::bytes_eq(v, &ack_value_vec(AckMode::Auto)) {
        Some(AckMode::Auto)
    } else if crate::frame::bytes_eq(v, &ack_value_vec(AckMode::Client)) {
        Some(AckMode::Client)
    } else if crate::frame::bytes_eq(v, &ack_value_vec(AckMode::ClientIndividual)) {
        Some(AckMode::ClientIndividual)
    } else {
        None
    }
}

/// Writes a `heart-beat` value.
pub fn heartbeat_bytes(a: u32, b: u32) -> (r: Vec<u8>)
    ensures
        r@ == heartbeat_value(a, b),
{
    let mut v = u64_to_dec(a as u64);
    v.push(COMMA);
    let d2 = u64_to_dec(b as u64);
    crate::frame::push_all(&mut v, &d2);
    proof {
        assert(v@ =~= heartbeat_value(a, b));
    }
    v
}

/// Reads a `heart-beat` value.
pub fn heartbeat_of_bytes(v: &Vec<u8>) -> (r: Option<(u32, u32)>)
    ensures
        r == parse_heartbeat(v@),
{
    let c = match find_byte(v, 0, COMMA) {
        None => {
            return None;
        },
        Some(c) => c,
    };
    let vl = v.len();
    let left = copy_range(v, 0, c);
    let right = copy_range(v, c + 1, vl);
    proof {
        assert(left@ =~= v@.take(c as int));
        assert(right@ =~= v@.skip(c as int + 1));
    }
    let a: u32 = match parse_digits(&left) {
        None => {
            return None;
        },
        Some(n) => {
            if n > u32::MAX as u128 {
                return None;
            }
            n as u32
        },
    };
    let b: u32 = match parse_digits(&right) {
        None => {
            return None;
        },
        Some(n) => {
            if n > u32::MAX as u128 {
                return None;
            }
            n as u32
        },
    };
    Some((a, b))
}

/// Appends one modeled header.
pub fn push_one(headers: &mut Vec<(Vec<u8>, Vec<u8>)>, k: Vec<u8>, v: &Vec<u8>)
    ensures
        hdrs_view(final (headers)@) == hdrs_view(old(headers)@) + seq![(k@, v@)],
{
    let ghost h0 = hdrs_view(headers@);
    headers.push((k, copy_vec(v)));
    proof {
        assert(hdrs_view(headers@) =~= h0 + seq![(k@, v@)]);
    }
}

/// Appends one optional modeled header.
pub fn push_opt(headers: &mut Vec<(Vec<u8>, Vec<u8>)>, k: Vec<u8>, o: &Option<Vec<u8>>)
    ensures
        hdrs_view(final (headers)@) == hdrs_view(old(headers)@) + opt_hdr(k@, opt_view(*o)),
{
    let ghost h0 = hdrs_view(headers@);
    match o {
        Some(v) => {
            headers.push((k, copy_vec(v)));
            proof {
                assert(hdrs_view(headers@) =~= h0 + opt_hdr(k@, opt_view(*o)));
            }
        },
        None => {
            proof {
                assert(h0 + opt_hdr(k@, opt_view(*o)) =~= h0);
            }
        },
    }
}

/// Copies an optional body.
pub fn copy_opt(o: &Option<Vec<u8>>) -> (r: Option<Vec<u8>>)
    ensures
        opt_view(r) == opt_view(*o),
{
    match o {
        Some(v) => Some(copy_vec(v)),
        None => None,
    }
}

impl Message<ToServer> {
    /// The wire frame of this message: the variant's command, its modeled
    /// fields as headers in a fixed order, then the extra headers in
    /// caller order; a `Send` body becomes the frame body.
    pub fn to_frame(&self) -> (r: Frame)
        ensures
            r@ == to_frame_to_server_spec(self@),
    {
        let mut headers: Vec<(Vec<u8>, Vec<u8>)> = Vec::new();
        let mut body: Option<Vec<u8>> = None;
        let command: Command;
        match &self.content {
            ToServer::Connect { accept_version, host, login, passcode, heartbeat } => {
                command = Command::Connect;
                push_one(&mut headers, k_accept_version_vec(), accept_version);
                push_one(&mut headers, k_host_vec(), host);
                push_opt(&mut headers, k_login_vec(), login);
                push_opt(&mut headers, k_passcode_vec(), passcode);
                let ghost h0 = hdrs_view(headers@);
                match heartbeat {
                    Some(hb) => {
                        headers.push((k_heart_beat_vec(), heartbeat_bytes(hb.0, hb.1)));
                        proof {
                            assert(hdrs_view(headers@) =~= h0 + seq![
                                (k_heart_beat(), heartbeat_value(hb.0, hb.1)),
                            ]);
                            assert(hdrs_view(headers@) =~= to_server_modeled(self@.content));
                        }
                    },
                    None => {
                        proof {
                            assert(hdrs_view(headers@) =~= to_server_modeled(self@.content));
                        }
                    },
                }
            },
            ToServer::Send { destination, transaction, body: b } => {
                command = Command::Send;
                push_one(&mut headers, k_destination_vec(), destination);
                push_opt(&mut headers, k_transaction_vec(), transaction);
                body = copy_opt(b);
                proof {
                    assert(hdrs_view(headers@) =~= to_server_modeled(self@.content));
                }
            },
            ToServer::Subscribe { destination, id, ack } => {
                command = Command::Subscribe;
                push_one(&mut headers, k_destination_vec(), destination);
                push_one(&mut headers, k_id_vec(), id);
                let ghost h0 = hdrs_view(headers@);
                match ack {
                    Some(m) => {
                        headers.push((k_ack_vec(), ack_value_vec(*m)));
                        proof {
                            assert(hdrs_view(headers@) =~= h0 + seq![(k_ack(), ack_value(*m))]);
                            assert(hdrs_view(headers@) =~= to_server_modeled(self@.content));
                        }
                    },
                    None => {
                        proof {
                            assert(hdrs_view(headers@) =~= to_server_modeled(self@.content));
                        }
                    },
                }
            },
            ToServer::Unsubscribe { id } => {
                command = Command::Unsubscribe;
                push_one(&mut headers, k_id_vec(), id);
                proof {
                    assert(hdrs_view(headers@) =~= to_server_modeled(self@.content));
                }
            },
            ToServer::Begin { transaction } => {
                command = Command::Begin;
                push_one(&mut headers, k_transaction_vec(), transaction);
                proof {
                    assert(hdrs_view(headers@) =~= to_server_modeled(self@.content));
                }
            },
            ToServer::Commit { transaction } => {
                command = Command::Commit;
                push_one(&mut headers, k_transaction_vec(), transaction);
                proof {
                    assert(hdrs_view(headers@) =~= to_server_modeled(self@.content));
                }
            },
            ToServer::Abort { transaction } => {
                command = Command::Abort;
                push_one(&mut headers, k_transaction_vec(), transaction);
                proof {
                    assert(hdrs_view(headers@) =~= to_server_modeled(self@.content));
                }
            },
            ToServer::Ack { id, transaction } => {
                command = Command::Ack;
                push_one(&mut headers, k_id_vec(), id);
                push_opt(&mut headers, k_transaction_vec(), transaction);
                proof {
                    assert(hdrs_view(headers@) =~= to_server_modeled(self@.content));
                }
            },
            ToServer::Nack { id, transaction } => {
                command = Command::Nack;
                push_one(&mut headers, k_id_vec(), id);
                push_opt(&mut headers, k_transaction_vec(), transaction);
                proof {
                    assert(hdrs_view(headers@) =~= to_server_modeled(self@.content));
                }
            },
            ToServer::Disconnect { receipt } => {
                command = Command::Disconnect;
                push_opt(&mut headers, k_receipt_vec(), receipt);
                proof {
                    assert(hdrs_view(headers@) =~= to_server_modeled(self@.content));
                }
            },
        }
        let mut j: usize = 0;
        proof {
            assert(hdrs_view(headers@) + hdrs_view(self.extra_headers@).take(0) =~= hdrs_view(
                headers@,
            ));
        }
        while j < self.extra_headers.len()
            invariant
                j <= self.extra_headers@.len(),
                hdrs_view(headers@) == to_server_modeled(self@.content) + hdrs_view(
                    self.extra_headers@,
                ).take(j as int),
            decreases self.extra_headers@.len() - j,
        {
            let p = &self.extra_headers[j];
            push_one(&mut headers, copy_vec(&p.0), &p.1);
            proof {
                let ev = hdrs_view(self.extra_headers@);
                assert(ev.take(j as int + 1) =~= ev.take(j as int) + seq![(ev[j as int])]);
                assert(hdrs_view(headers@) =~= to_server_modeled(self@.content) + ev.take(
                    j as int + 1,
                ));
            }
            j = j + 1;
        }
        proof {
            let ev = hdrs_view(self.extra_headers@);
            assert(ev.take(self.extra_headers@.len() as int) =~= ev);
        }
        let r = Frame { command, headers, body };
        proof {
            assert(r@ =~= to_frame_to_server_spec(self@));
        }
        r
    }

    /// The typed message of a client-bound frame: fails when the command
    /// is not client-bound, a required header is missing, or a modeled
    /// value does not parse; the first occurrence of each modeled key is
    /// consumed and everything else passes through in order.
    pub fn from_frame(f: &Frame) -> (r: Result<Message<ToServer>, MessageError>)
        ensures
            match r {
                Ok(m) => from_frame_to_server_spec(f@) == Ok::<
                    MessageView<ToServerView>,
                    MessageError,
                >(m@),
                Err(e) => from_frame_to_server_spec(f@) == Err::<
                    MessageView<ToServerView>,
                    MessageError,
                >(e),
            },
    {
        let hs = &f.headers;
        let hl = hs.len();
        match f.command {
            Command::Connect => {
                let avi = key_find(hs, &k_accept_version_vec());
                let hoi = key_find(hs, &k_host_vec());
                let li = key_find(hs, &k_login_vec());
                let pi = key_find(hs, &k_passcode_vec());
                let hbi = key_find(hs, &k_heart_beat_vec());
                if avi >= hl || hoi >= hl {
                    return Err(MessageError::MissingHeader);
                }
                let heartbeat: Option<(u32, u32)> = if hbi < hl {
                    let p = &hs[hbi];
                    match heartbeat_of_bytes(&p.1) {
                        Some(q) => Some(q),
                        None => {
                            return Err(MessageError::BadValue);
                        },
                    }
                } else {
                    None
                };
                let login = if li < hl {
                    let p = &hs[li];
                    Some(copy_vec(&p.1))
                } else {
                    None
                };
                let passcode = if pi < hl {
                    let p = &hs[pi];
                    Some(copy_vec(&p.1))
                } else {
                    None
                };
                let pa = &hs[avi];
                let accept_version = copy_vec(&pa.1);
                let ph = &hs[hoi];
                let host = copy_vec(&ph.1);
                let mut used: Vec<usize> = Vec::new();
                used.push(avi);
                used.push(hoi);
                used.push(li);
                used.push(pi);
                used.push(hbi);
                let extra = drop_used_exec(hs, &used);
                let m = Message {
                    content: ToServer::Connect { accept_version, host, login, passcode, heartbeat },
                    extra_headers: extra,
                };
                proof {
                    assert(used_ints(used@) =~= seq![
                        avi as int,
                        hoi as int,
                        li as int,
                        pi as int,
                        hbi as int,
                    ]);
                    assert(from_frame_to_server_spec(f@) == Ok::<
                        MessageView<ToServerView>,
                        MessageError,
                    >(m@)) by {
                        assert(from_frame_to_server_spec(f@) matches Ok(v) && v =~= m@);
                    }
                }
                Ok(m)
            },
            Command::Send => {
                let di = key_find(hs, &k_destination_vec());
                let ti = key_find(hs, &k_transaction_vec());
                if di >= hl {
                    return Err(MessageError::MissingHeader);
                }
                let transaction = if ti < hl {
                    let p = &hs[ti];
                    Some(copy_vec(&p.1))
                } else {
                    None
                };
                let pd = &hs[di];
                let destination = copy_vec(&pd.1);
                let body = copy_opt(&f.body);
                let mut used: Vec<usize> = Vec::new();
                used.push(di);
                used.push(ti);
                let extra = drop_used_exec(hs, &used);
                let m = Message {
                    content: ToServer::Send { destination, transaction, body },
                    extra_headers: extra,
                };
                proof {
                    assert(used_ints(used@) =~= seq![di as int, ti as int]);
                    assert(from_frame_to_server_spec(f@) == Ok::<
                        MessageView<ToServerView>,
                        MessageError,
                    >(m@)) by {
                        assert(from_frame_to_server_spec(f@) matches Ok(v) && v =~= m@);
                    }
                }
                Ok(m)
            },
            Command::Subscribe => {
                let di = key_find(hs, &k_destination_vec());
                let ii = key_find(hs, &k_id_vec());
                let ai = key_find(hs, &k_ack_vec());
                if di >= hl || ii >= hl {
                    return Err(MessageError::MissingHeader);
                }
                let ack: Option<AckMode> = if ai < hl {
                    let p = &hs[ai];
                    match ack_of_bytes(&p.1) {
                        Some(m) => Some(m),
                        None => {
                            return Err(MessageError::BadValue);
                        },
                    }
                } else {
                    None
                };
                let pd = &hs[di];
                let destination = copy_vec(&pd.1);
                let pi2 = &hs[ii];
                let id = copy_vec(&pi2.1);
                let mut used: Vec<usize> = Vec::new();
                used.push(di);
                used.push(ii);
                used.push(ai);
                let extra = drop_used_exec(hs, &used);
                let m = Message {
                    content: ToServer::Subscribe { destination, id, ack },
                    extra_headers: extra,
                };
                proof {
                    assert(used_ints(used@) =~= seq![di as int, ii as int, ai as int]);
                    assert(from_frame_to_server_spec(f@) == Ok::<
                        MessageView<ToServerView>,
                        MessageError,
                    >(m@)) by {
                        assert(from_frame_to_server_spec(f@) matches Ok(v) && v =~= m@);
                    }
                }
                Ok(m)
            },
            Command::Unsubscribe => {
                let ii = key_find(hs, &k_id_vec());
                if ii >= hl {
                    return Err(MessageError::MissingHeader);
                }
                let p = &hs[ii];
                let id = copy_vec(&p.1);
                let mut used: Vec<usize> = Vec::new();
                used.push(ii);
                let extra = drop_used_exec(hs, &used);
                let m = Message { content: ToServer::Unsubscribe { id }, extra_headers: extra };
                proof {
                    assert(used_ints(used@) =~= seq![ii as int]);
                    assert(from_frame_to_server_spec(f@) == Ok::<
                        MessageView<ToServerView>,
                        MessageError,
                    >(m@)) by {
                        assert(from_frame_to_server_spec(f@) matches Ok(v) && v =~= m@);
                    }
                }
                Ok(m)
            },
            Command::Begin => {
                let ti = key_find(hs, &k_transaction_vec());
                if ti >= hl {
                    return Err(MessageError::MissingHeader);
                }
                let p = &hs[ti];
                let transaction = copy_vec(&p.1);
                let mut used: Vec<usize> = Vec::new();
                used.push(ti);
                let extra = drop_used_exec(hs, &used);
                let m = Message { content: ToServer::Begin { transaction }, extra_headers: extra };
                proof {
                    assert(used_ints(used@) =~= seq![ti as int]);
                    assert(from_frame_to_server_spec(f@) == Ok::<
                        MessageView<ToServerView>,
                        MessageError,
                    >(m@)) by {
                        assert(from_frame_to_server_spec(f@) matches Ok(v) && v =~= m@);
                    }
                }
                Ok(m)
            },
            Command::Commit => {
                let ti = key_find(hs, &k_transaction_vec());
                if ti >= hl {
                    return Err(MessageError::MissingHeader);
                }
                let p = &hs[ti];
                let transaction = copy_vec(&p.1);
                let mut used: Vec<usize> = Vec::new();
                used.push(ti);
                let extra = drop_used_exec(hs, &used);
                let m = Message { content: ToServer::Commit { transaction }, extra_headers: extra };
                proof {
                    assert(used_ints(used@) =~= seq![ti as int]);
                    assert(from_frame_to_server_spec(f@) == Ok::<
                        MessageView<ToServerView>,
                        MessageError,
                    >(m@)) by {
                        assert(from_frame_to_server_spec(f@) matches Ok(v) && v =~= m@);
                    }
                }
                Ok(m)
            },
            Command::Abort => {
                let ti = key_find(hs, &k_transaction_vec());
                if ti >= hl {
                    return Err(MessageError::MissingHeader);
                }
                let p = &hs[ti];
                let transaction = copy_vec(&p.1);
                let mut used: Vec<usize> = Vec::new();
                used.push(ti);
                let extra = drop_used_exec(hs, &used);
                let m = Message { content: ToServer::Abort { transaction }, extra_headers: extra };
                proof {
                    assert(used_ints(used@) =~= seq![ti as int]);
                    assert(from_frame_to_server_spec(f@) == Ok::<
                        MessageView<ToServerView>,
                        MessageError,
                    >(m@)) by {
                        assert(from_frame_to_server_spec(f@) matches Ok(v) && v =~= m@);
                    }
                }
                Ok(m)
            },
            Command::Ack => {
                let ii = key_find(hs, &k_id_vec());
                let ti = key_find(hs, &k_transaction_vec());
                if ii >= hl {
                    return Err(MessageError::MissingHeader);
                }
                let transaction = if ti < hl {
                    let p = &hs[ti];
                    Some(copy_vec(&p.1))
                } else {
                    None
                };
                let p = &hs[ii];
                let id = copy_vec(&p.1);
                let mut used: Vec<usize> = Vec::new();
                used.push(ii);
                used.push(ti);
                let extra = drop_used_exec(hs, &used);
                let m = Message {
                    content: ToServer::Ack { id, transaction },
                    extra_headers: extra,
                };
                proof {
                    assert(used_ints(used@) =~= seq![ii as int, ti as int]);
                    assert(from_frame_to_server_spec(f@) == Ok::<
                        MessageView<ToServerView>,
                        MessageError,
                    >(m@)) by {
                        assert(from_frame_to_server_spec(f@) matches Ok(v) && v =~= m@);
                    }
                }
                Ok(m)
            },
            Command::Nack => {
                let ii = key_find(hs, &k_id_vec());
                let ti = key_find(hs, &k_transaction_vec());
                if ii >= hl {
                    return Err(MessageError::MissingHeader);
                }
                let transaction = if ti < hl {
                    let p = &hs[ti];
                    Some(copy_vec(&p.1))
                } else {
                    None
                };
                let p = &hs[ii];
                let id = copy_vec(&p.1);
                let mut used: Vec<usize> = Vec::new();
                used.push(ii);
                used.push(ti);
                let extra = drop_used_exec(hs, &used);
                let m = Message {
                    content: ToServer::Nack { id, transaction },
                    extra_headers: extra,
                };
                proof {
                    assert(used_ints(used@) =~= seq![ii as int, ti as int]);
                    assert(from_frame_to_server_spec(f@) == Ok::<
                        MessageView<ToServerView>,
                        MessageError,
                    >(m@)) by {
                        assert(from_frame_to_server_spec(f@) matches Ok(v) && v =~= m@);
                    }
                }
                Ok(m)
            },
            Command::Disconnect => {
                let ri = key_find(hs, &k_receipt_vec());
                let receipt = if ri < hl {
                    let p = &hs[ri];
                    Some(copy_vec(&p.1))
                } else {
                    None
                };
                let mut used: Vec<usize> = Vec::new();
                used.push(ri);
                let extra = drop_used_exec(hs, &used);
                let m = Message {
                    content: ToServer::Disconnect { receipt },
                    extra_headers: extra,
                };
                proof {
                    assert(used_ints(used@) =~= seq![ri as int]);
                    assert(from_frame_to_server_spec(f@) == Ok::<
                        MessageView<ToServerView>,
                        MessageError,
                    >(m@)) by {
                        assert(from_frame_to_server_spec(f@) matches Ok(v) && v =~= m@);
                    }
                }
                Ok(m)
            },
            _ => Err(MessageError::WrongCommand),
        }
    }
}

impl Message<FromServer> {
    /// The wire frame of this message.
    pub fn to_frame(&self) -> (r: Frame)
        ensures
            r@ == to_frame_from_server_spec(self@),
    {
        let mut headers: Vec<(Vec<u8>, Vec<u8>)> = Vec::new();
        let mut body: Option<Vec<u8>> = None;
        let command: Command;
        match &self.content {
            FromServer::Connected => {
                command = Command::Connected;
                proof {
                    assert(hdrs_view(headers@) =~= from_server_modeled(self@.content));
                }
            },
            FromServer::Message { destination, body: b } => {
                command = Command::Message;
                push_one(&mut headers, k_destination_vec(), destination);
                body = copy_opt(b);
                proof {
                    assert(hdrs_view(headers@) =~= from_server_modeled(self@.content));
                }
            },
            FromServer::Receipt { receipt_id } => {
                command = Command::Receipt;
                push_one(&mut headers, k_receipt_id_vec(), receipt_id);
                proof {
                    assert(hdrs_view(headers@) =~= from_server_modeled(self@.content));
                }
            },
            FromServer::Error { message, body: b } => {
                command = Command::Error;
                push_opt(&mut headers, k_message_vec(), message);
                body = copy_opt(b);
                proof {
                    assert(hdrs_view(headers@) =~= from_server_modeled(self@.content));
                }
            },
        }
        let mut j: usize = 0;
        proof {
            assert(hdrs_view(headers@) + hdrs_view(self.extra_headers@).take(0) =~= hdrs_view(
                headers@,
            ));
        }
        while j < self.extra_headers.len()
            invariant
                j <= self.extra_headers@.len(),
                hdrs_view(headers@) == from_server_modeled(self@.content) + hdrs_view(
                    self.extra_headers@,
                ).take(j as int),
            decreases self.extra_headers@.len() - j,
        {
            let p = &self.extra_headers[j];
            push_one(&mut headers, copy_vec(&p.0), &p.1);
            proof {
                let ev = hdrs_view(self.extra_headers@);
                assert(ev.take(j as int + 1) =~= ev.take(j as int) + seq![(ev[j as int])]);
                assert(hdrs_view(headers@) =~= from_server_modeled(self@.content) + ev.take(
                    j as int + 1,
                ));
            }
            j = j + 1;
        }
        proof {
            let ev = hdrs_view(self.extra_headers@);
            assert(ev.take(self.extra_headers@.len() as int) =~= ev);
        }
        let r = Frame { command, headers, body };
        proof {
            assert(r@ =~= to_frame_from_server_spec(self@));
        }
        r
    }

    /// The typed message of a server-bound frame. A CONNECTED reply is
    /// recognized by its command token alone; all its headers pass
    /// through as extra headers.
    pub fn from_frame(f: &Frame) -> (r: Result<Message<FromServer>, MessageError>)
        ensures
            match r {
                Ok(m) => from_frame_from_server_spec(f@) == Ok::<
                    MessageView<FromServerView>,
                    MessageError,
                >(m@),
                Err(e) => from_frame_from_server_spec(f@) == Err::<
                    MessageView<FromServerView>,
                    MessageError,
                >(e),
            },
    {
        let hs = &f.headers;
        let hl = hs.len();
        match f.command {
            Command::Connected => {
                let extra = copy_headers(hs);
                let m = Message { content: FromServer::Connected, extra_headers: extra };
                proof {
                    assert(from_frame_from_server_spec(f@) == Ok::<
                        MessageView<FromServerView>,
                        MessageError,
                    >(m@)) by {
                        assert(from_frame_from_server_spec(f@) matches Ok(v) && v =~= m@);
                    }
                }
                Ok(m)
            },
            Command::Message => {
                let di = key_find(hs, &k_destination_vec());
                if di >= hl {
                    return Err(MessageError::MissingHeader);
                }
                let p = &hs[di];
                let destination = copy_vec(&p.1);
                let body = copy_opt(&f.body);
                let mut used: Vec<usize> = Vec::new();
                used.push(di);
                let extra = drop_used_exec(hs, &used);
                let m = Message {
                    content: FromServer::Message { destination, body },
                    extra_headers: extra,
                };
                proof {
                    assert(used_ints(used@) =~= seq![di as int]);
                    assert(from_frame_from_server_spec(f@) == Ok::<
                        MessageView<FromServerView>,
                        MessageError,
                    >(m@)) by {
                        assert(from_frame_from_server_spec(f@) matches Ok(v) && v =~= m@);
                    }
                }
                Ok(m)
            },
            Command::Receipt => {
                let ri = key_find(hs, &k_receipt_id_vec());
                if ri >= hl {
                    return Err(MessageError::MissingHeader);
                }
                let p = &hs[ri];
                let receipt_id = copy_vec(&p.1);
                let mut used: Vec<usize> = Vec::new();
                used.push(ri);
                let extra = drop_used_exec(hs, &used);
                let m = Message {
                    content: FromServer::Receipt { receipt_id },
                    extra_headers: extra,
                };
                proof {
                    assert(used_ints(used@) =~= seq![ri as int]);
                    assert(from_frame_from_server_spec(f@) == Ok::<
                        MessageView<FromServerView>,
                        MessageError,
                    >(m@)) by {
                        assert(from_frame_from_server_spec(f@) matches Ok(v) && v =~= m@);
                    }
                }
                Ok(m)
            },
            Command::Error => {
                let mi = key_find(hs, &k_message_vec());
                let message = if mi < hl {
                    let p = &hs[mi];
                    Some(copy_vec(&p.1))
                } else {
                    None
                };
                let body = copy_opt(&f.body);
                let mut used: Vec<usize> = Vec::new();
                used.push(mi);
                let extra = drop_used_exec(hs, &used);
                let m = Message {
                    content: FromServer::Error { message, body },
                    extra_headers: extra,
                };
                proof {
                    assert(used_ints(used@) =~= seq![mi as int]);
                    assert(from_frame_from_server_spec(f@) == Ok::<
                        MessageView<FromServerView>,
                        MessageError,
                    >(m@)) by {
                        assert(from_frame_from_server_spec(f@) matches Ok(v) && v =~= m@);
                    }
                }
                Ok(m)
            },
            _ => Err(MessageError::WrongCommand),
        }
    }
}

} // verus!
