use stomp_core::escape::{escape_bytes, unescape_bytes};
use stomp_core::frame::{parse_frame, serialize_frame, Command, Frame, FrameParse};

fn hdr(k: &[u8], v: &[u8]) -> (Vec<u8>, Vec<u8>) {
    (k.to_vec(), v.to_vec())
}

#[test]
fn escape_round_trips_special_bytes() {
    let raw = b"a:b\nc\\d".to_vec();
    let enc = escape_bytes(&raw);
    assert_eq!(enc, b"a\\cb\\nc\\\\d".to_vec());
    let dec = unescape_bytes(&enc).expect("valid escape");
    assert_eq!(dec, raw);
}

#[test]
fn unescape_rejects_unknown_escape() {
    assert!(unescape_bytes(&b"a\\xb".to_vec()).is_none());
}

#[test]
fn unescape_rejects_trailing_backslash() {
    assert!(unescape_bytes(&b"abc\\".to_vec()).is_none());
}

#[test]
fn serialize_then_parse_is_identity() {
    let f = Frame {
        command: Command::Subscribe,
        headers: vec![hdr(b"destination", b"/queue/a"), hdr(b"id", b"0")],
        body: None,
    };
    let wire = serialize_frame(&f);
    assert_eq!(wire, b"SUBSCRIBE\ndestination:/queue/a\nid:0\n\n\x00".to_vec());
    match parse_frame(&wire) {
        FrameParse::Complete { frame, used } => {
            assert_eq!(used, wire.len());
            assert_eq!(frame, f);
        },
        _ => panic!("expected a complete frame"),
    }
}

#[test]
fn serialize_writes_content_length_and_parse_consumes_it() {
    let f = Frame {
        command: Command::Send,
        headers: vec![hdr(b"destination", b"/queue/a")],
        body: Some(b"ab\x00cd".to_vec()),
    };
    let wire = serialize_frame(&f);
    assert_eq!(
        wire,
        b"SEND\ncontent-length:5\ndestination:/queue/a\n\nab\x00cd\x00".to_vec()
    );
    match parse_frame(&wire) {
        FrameParse::Complete { frame, used } => {
            assert_eq!(used, wire.len());
            assert_eq!(frame, f);
        },
        _ => panic!("expected a complete frame"),
    }
}

#[test]
fn body_with_embedded_terminators_is_preserved_exactly() {
    let wire = b"MESSAGE\ndestination:/q\ncontent-length:5\n\nab\x00cd\x00".to_vec();
    match parse_frame(&wire) {
        FrameParse::Complete { frame, used } => {
            assert_eq!(used, wire.len());
            assert_eq!(frame.body, Some(b"ab\x00cd".to_vec()));
            assert_eq!(frame.headers, vec![hdr(b"destination", b"/q")]);
        },
        _ => panic!("expected a complete frame"),
    }
}

#[test]
fn every_strict_prefix_is_incomplete() {
    let f = Frame {
        command: Command::Send,
        headers: vec![hdr(b"destination", b"/queue/a"), hdr(b"k:e\ny", b"v\\al")],
        body: Some(b"pay\x00load".to_vec()),
    };
    let wire = serialize_frame(&f);
    for k in 0..wire.len() {
        let prefix = wire[..k].to_vec();
        assert!(
            matches!(parse_frame(&prefix), FrameParse::Incomplete),
            "prefix of length {} must be incomplete",
            k
        );
    }
    assert!(matches!(parse_frame(&wire), FrameParse::Complete { .. }));
}

#[test]
fn escaped_header_round_trips_on_the_wire() {
    let f = Frame {
        command: Command::Send,
        headers: vec![hdr(b"key:with\nspecials\\", b"value:with\nspecials\\")],
        body: None,
    };
    let wire = serialize_frame(&f);
    match parse_frame(&wire) {
        FrameParse::Complete { frame, used } => {
            assert_eq!(used, wire.len());
            assert_eq!(frame, f);
        },
        _ => panic!("expected a complete frame"),
    }
}

#[test]
fn heartbeat_newlines_alone_never_complete() {
    assert!(matches!(parse_frame(&b"\n".to_vec()), FrameParse::Incomplete));
    assert!(matches!(parse_frame(&b"\n\n\n".to_vec()), FrameParse::Incomplete));
}

#[test]
fn heartbeat_newlines_are_consumed_with_the_next_frame() {
    let wire = b"\n\nRECEIPT\nreceipt-id:42\n\n\x00".to_vec();
    match parse_frame(&wire) {
        FrameParse::Complete { frame, used } => {
            assert_eq!(used, wire.len());
            assert_eq!(frame.command, Command::Receipt);
        },
        _ => panic!("expected a complete frame"),
    }
}

#[test]
fn unknown_command_is_malformed() {
    assert!(matches!(parse_frame(&b"JUNK\n\n\x00".to_vec()), FrameParse::Malformed));
}

#[test]
fn header_line_without_colon_is_malformed() {
    assert!(matches!(
        parse_frame(&b"MESSAGE\nnocolon\n\n\x00".to_vec()),
        FrameParse::Malformed
    ));
}

#[test]
fn invalid_escape_in_header_is_malformed() {
    assert!(matches!(
        parse_frame(&b"MESSAGE\na\\qb:v\n\n\x00".to_vec()),
        FrameParse::Malformed
    ));
}

#[test]
fn non_numeric_content_length_is_malformed() {
    assert!(matches!(
        parse_frame(&b"MESSAGE\ncontent-length:abc\n\nx\x00".to_vec()),
        FrameParse::Malformed
    ));
}

#[test]
fn oversized_content_length_is_malformed() {
    assert!(matches!(
        parse_frame(&b"MESSAGE\ncontent-length:123456789012345678901\n\nx\x00".to_vec()),
        FrameParse::Malformed
    ));
}

#[test]
fn missing_terminator_after_counted_body_is_malformed() {
    assert!(matches!(
        parse_frame(&b"MESSAGE\ncontent-length:2\n\nabX".to_vec()),
        FrameParse::Malformed
    ));
}

#[test]
fn counted_body_waits_for_all_bytes() {
    assert!(matches!(
        parse_frame(&b"MESSAGE\ncontent-length:5\n\nab".to_vec()),
        FrameParse::Incomplete
    ));
}

#[test]
fn empty_body_without_content_length_parses_as_no_body() {
    let wire = b"CONNECTED\nversion:1.2\n\n\x00".to_vec();
    match parse_frame(&wire) {
        FrameParse::Complete { frame, used } => {
            assert_eq!(used, wire.len());
            assert_eq!(frame.command, Command::Connected);
            assert_eq!(frame.body, None);
        },
        _ => panic!("expected a complete frame"),
    }
}
