use stomp_core::client::{check_handshake_reply, connect_message, subscribe_message, HandshakeError};
use stomp_core::frame::{serialize_frame, Command, Frame};
use stomp_core::message::{AckMode, FromServer, Message, MessageError, ToServer};
use stomp_core::transport::{DecodeBuffer, LoopStep, ReadError, ReadResponse, Response};

fn hdr(k: &[u8], v: &[u8]) -> (Vec<u8>, Vec<u8>) {
    (k.to_vec(), v.to_vec())
}

#[test]
fn message_round_trip_subscribe_with_extras() {
    let m = Message {
        content: ToServer::Subscribe {
            destination: b"/queue/a".to_vec(),
            id: b"sub-0".to_vec(),
            ack: Some(AckMode::ClientIndividual),
        },
        extra_headers: vec![hdr(b"x-custom", b"1"), hdr(b"x-custom", b"2")],
    };
    let f = m.to_frame();
    let back = Message::<ToServer>::from_frame(&f).expect("round trip");
    assert_eq!(back, m);
}

#[test]
fn message_round_trip_connect_with_heartbeat() {
    let m = Message {
        content: ToServer::Connect {
            accept_version: b"1.2".to_vec(),
            host: b"example".to_vec(),
            login: Some(b"user".to_vec()),
            passcode: None,
            heartbeat: Some((10, 20)),
        },
        extra_headers: vec![],
    };
    let f = m.to_frame();
    assert_eq!(
        f.headers,
        vec![
            hdr(b"accept-version", b"1.2"),
            hdr(b"host", b"example"),
            hdr(b"login", b"user"),
            hdr(b"heart-beat", b"10,20"),
        ]
    );
    let back = Message::<ToServer>::from_frame(&f).expect("round trip");
    assert_eq!(back, m);
}

#[test]
fn message_round_trip_error_with_body() {
    let m = Message {
        content: FromServer::Error {
            message: Some(b"boom".to_vec()),
            body: Some(b"details".to_vec()),
        },
        extra_headers: vec![hdr(b"receipt-id", b"9")],
    };
    let f = m.to_frame();
    let back = Message::<FromServer>::from_frame(&f).expect("round trip");
    assert_eq!(back, m);
}

#[test]
fn from_frame_missing_required_header_fails() {
    let f = Frame { command: Command::Subscribe, headers: vec![hdr(b"id", b"0")], body: None };
    assert_eq!(
        Message::<ToServer>::from_frame(&f),
        Err(MessageError::MissingHeader)
    );
}

#[test]
fn from_frame_wrong_direction_fails() {
    let f = Frame { command: Command::Connected, headers: vec![], body: None };
    assert_eq!(
        Message::<ToServer>::from_frame(&f),
        Err(MessageError::WrongCommand)
    );
    let g = Frame { command: Command::Send, headers: vec![hdr(b"destination", b"/q")], body: None };
    assert_eq!(
        Message::<FromServer>::from_frame(&g),
        Err(MessageError::WrongCommand)
    );
}

#[test]
fn from_frame_bad_ack_value_fails() {
    let f = Frame {
        command: Command::Subscribe,
        headers: vec![hdr(b"destination", b"/q"), hdr(b"id", b"0"), hdr(b"ack", b"maybe")],
        body: None,
    };
    assert_eq!(Message::<ToServer>::from_frame(&f), Err(MessageError::BadValue));
}

#[test]
fn duplicate_header_first_occurrence_wins_rest_pass_through() {
    let f = Frame {
        command: Command::Message,
        headers: vec![hdr(b"destination", b"/first"), hdr(b"destination", b"/second")],
        body: None,
    };
    let m = Message::<FromServer>::from_frame(&f).expect("parses");
    assert_eq!(
        m.content,
        FromServer::Message { destination: b"/first".to_vec(), body: None }
    );
    assert_eq!(m.extra_headers, vec![hdr(b"destination", b"/second")]);
}

#[test]
fn split_feed_yields_one_message_only_after_the_last_byte() {
    let f = Frame {
        command: Command::Message,
        headers: vec![hdr(b"destination", b"/q")],
        body: Some(b"pay\x00load".to_vec()),
    };
    let wire = serialize_frame(&f);
    for k in 0..=wire.len() {
        let mut buf = DecodeBuffer::new();
        let first: Vec<u8> = wire[..k].to_vec();
        let second: Vec<u8> = wire[k..].to_vec();
        let step1 = buf.on_read::<u32>(ReadResponse::Binary(first));
        if k < wire.len() {
            assert_eq!(step1, LoopStep::NeedMore, "no message before byte {}", wire.len());
            match buf.on_read::<u32>(ReadResponse::Binary(second)) {
                LoopStep::Yield(Response::Message(m)) => {
                    assert_eq!(
                        m.content,
                        FromServer::Message {
                            destination: b"/q".to_vec(),
                            body: Some(b"pay\x00load".to_vec()),
                        }
                    );
                },
                other => panic!("expected a message, got {:?}", other),
            }
        } else {
            assert!(matches!(step1, LoopStep::Yield(Response::Message(_))));
        }
    }
}

#[test]
fn header_section_without_terminator_never_completes() {
    let mut buf = DecodeBuffer::new();
    let step = buf.on_read::<u32>(ReadResponse::Binary(b"MESSAGE\ndestination:/q\n\n".to_vec()));
    assert_eq!(step, LoopStep::NeedMore);
    let step = buf.on_read::<u32>(ReadResponse::Binary(b"more body bytes".to_vec()));
    assert_eq!(step, LoopStep::NeedMore);
    let step = buf.on_read::<u32>(ReadResponse::Binary(b"and still more".to_vec()));
    assert_eq!(step, LoopStep::NeedMore);
    match buf.on_read::<u32>(ReadResponse::Binary(b"\x00".to_vec())) {
        LoopStep::Yield(Response::Message(m)) => {
            assert_eq!(
                m.content,
                FromServer::Message {
                    destination: b"/q".to_vec(),
                    body: Some(b"more body bytesand still more".to_vec()),
                }
            );
        },
        other => panic!("expected a message, got {:?}", other),
    }
}

#[test]
fn side_channel_event_does_not_disturb_accumulation() {
    let mut buf = DecodeBuffer::new();
    assert_eq!(
        buf.on_read::<u32>(ReadResponse::Binary(b"RECEIPT\nreceipt-id:7".to_vec())),
        LoopStep::NeedMore
    );
    assert_eq!(
        buf.on_read::<u32>(ReadResponse::Custom(99)),
        LoopStep::Yield(Response::Custom(99))
    );
    match buf.on_read::<u32>(ReadResponse::Binary(b"\n\n\x00".to_vec())) {
        LoopStep::Yield(Response::Message(m)) => {
            assert_eq!(m.content, FromServer::Receipt { receipt_id: b"7".to_vec() });
        },
        other => panic!("expected a message, got {:?}", other),
    }
}

#[test]
fn malformed_bytes_stop_the_decode_loop() {
    let mut buf = DecodeBuffer::new();
    match buf.on_read::<u32>(ReadResponse::Binary(b"JUNK\n\n\x00".to_vec())) {
        LoopStep::Fail(ReadError::Parser(_)) => {},
        other => panic!("expected a parser failure, got {:?}", other),
    }
}

#[test]
fn two_frames_in_one_chunk_come_out_in_stream_order() {
    let mut buf = DecodeBuffer::new();
    let chunk = b"RECEIPT\nreceipt-id:1\n\n\x00RECEIPT\nreceipt-id:2\n\n\x00".to_vec();
    match buf.on_read::<u32>(ReadResponse::Binary(chunk)) {
        LoopStep::Yield(Response::Message(m)) => {
            assert_eq!(m.content, FromServer::Receipt { receipt_id: b"1".to_vec() });
        },
        other => panic!("expected the first receipt, got {:?}", other),
    }
    match buf.on_read::<u32>(ReadResponse::Binary(Vec::new())) {
        LoopStep::Yield(Response::Message(m)) => {
            assert_eq!(m.content, FromServer::Receipt { receipt_id: b"2".to_vec() });
        },
        other => panic!("expected the second receipt, got {:?}", other),
    }
}

#[test]
fn handshake_wire_exchange_succeeds() {
    let connect = connect_message("myhost".to_string(), None, None, vec![]);
    let wire = serialize_frame(&connect.to_frame());
    assert_eq!(wire, b"CONNECT\naccept-version:1.2\nhost:myhost\n\n\x00".to_vec());
    let mut buf = DecodeBuffer::new();
    match buf.on_read::<u32>(ReadResponse::Binary(b"CONNECTED\nversion:1.2\n\n\x00".to_vec())) {
        LoopStep::Yield(reply) => {
            assert!(check_handshake_reply(reply).is_ok());
        },
        other => panic!("expected a decoded reply, got {:?}", other),
    }
}

#[test]
fn handshake_rejects_non_connected_reply_carrying_it() {
    let mut buf = DecodeBuffer::new();
    match buf.on_read::<u32>(ReadResponse::Binary(b"MESSAGE\ndestination:/q\n\nbody\x00".to_vec()))
    {
        LoopStep::Yield(reply) => match check_handshake_reply(reply) {
            Err(HandshakeError::UnexpectedReply(m)) => {
                assert_eq!(
                    m.content,
                    FromServer::Message {
                        destination: b"/q".to_vec(),
                        body: Some(b"body".to_vec()),
                    }
                );
            },
            other => panic!("expected an unexpected-reply failure, got {:?}", other),
        },
        other => panic!("expected a decoded reply, got {:?}", other),
    }
}

#[test]
fn handshake_rejects_side_channel_event() {
    let reply: Response<u32> = Response::Custom(7);
    assert_eq!(
        check_handshake_reply(reply),
        Err(HandshakeError::UnexpectedSideChannel(7))
    );
}

#[test]
fn subscribe_message_builds_fields_and_extras() {
    let m = subscribe_message(
        "/queue/a".to_string(),
        "sub-1".to_string(),
        Some(vec![("x-a".to_string(), "1".to_string()), ("x-b".to_string(), "2".to_string())]),
    );
    assert_eq!(
        m.content,
        ToServer::Subscribe { destination: b"/queue/a".to_vec(), id: b"sub-1".to_vec(), ack: None }
    );
    assert_eq!(m.extra_headers, vec![hdr(b"x-a", b"1"), hdr(b"x-b", b"2")]);
    let none = subscribe_message("/q".to_string(), "s".to_string(), None);
    assert!(none.extra_headers.is_empty());
}

#[test]
fn connect_message_with_credentials() {
    let m = connect_message(
        "vh".to_string(),
        Some("user".to_string()),
        Some("pass".to_string()),
        vec![("x-h".to_string(), "v".to_string())],
    );
    assert_eq!(
        m.content,
        ToServer::Connect {
            accept_version: b"1.2".to_vec(),
            host: b"vh".to_vec(),
            login: Some(b"user".to_vec()),
            passcode: Some(b"pass".to_vec()),
            heartbeat: None,
        }
    );
    assert_eq!(m.extra_headers, vec![hdr(b"x-h", b"v")]);
}
