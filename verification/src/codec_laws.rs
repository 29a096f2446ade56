//! Laws of the frame codec.
//!
//! The central statements: a serialized frame parses back to an equal
//! frame consuming exactly its own length; no strict prefix of a
//! serialized frame ever parses to a frame; and a buffer whose header
//! section is complete but that names no `content-length` and holds no
//! terminator byte stays incomplete however much terminator-free data is
//! appended.

use crate::escape::{escape_seq, BSLASH, COLON, NL, TERM};
use crate::escape::{lemma_escape_clean, lemma_unescape_escape};
use crate::frame::{
    cl_key, cmd_token, frame_wf, hdrs_view, key_idx, parse_body_spec, parse_frame_spec,
    parse_headers_spec, seq_find, ser_frame, ser_headers, skip_nl, token_to_cmd, Command,
    FrameView, HeadersSpecResult, ParseSpecResult,
};
use crate::frame::{
    lemma_cmd_token_clean, lemma_key_idx_is, lemma_key_idx_none, lemma_seq_find,
    lemma_seq_find_is, lemma_seq_find_none, lemma_ser_headers_concat, lemma_skip_nl,
    lemma_token_to_cmd,
};
use crate::num::{all_digits, dec_seq, is_digit};
use crate::num::{lemma_dec_seq_digits, lemma_dec_seq_len, lemma_digits_val_dec_seq};
use vstd::prelude::*;

verus! {

/// Escaping is the identity on sequences without special bytes.
pub proof fn lemma_escape_id(s: Seq<u8>)
    requires
        forall|i: int| 0 <= i < s.len() ==> s[i] != BSLASH && s[i] != NL && s[i] != COLON,
    ensures
        escape_seq(s) == s,
    decreases s.len(),
{
    if s.len() == 0 {
        assert(escape_seq(s) =~= s);
    } else {
        assert(forall|i: int|
            0 <= i < s.skip(1).len() ==> s.skip(1)[i] == s[i + 1] && s[i + 1] != BSLASH && s[i + 1]
                != NL && s[i + 1] != COLON);
        lemma_escape_id(s.skip(1));
        assert(escape_seq(s) =~= seq![s[0]] + s.skip(1));
        assert(seq![s[0]] + s.skip(1) =~= s);
    }
}

/// The `content-length` key needs no escaping.
pub proof fn lemma_cl_key_plain()
    ensures
        escape_seq(cl_key()) == cl_key(),
        forall|i: int| 0 <= i < cl_key().len() ==> cl_key()[i] != NL && cl_key()[i] != COLON,
{
    lemma_escape_id(cl_key());
    lemma_escape_clean(cl_key());
}

/// Digit strings need no escaping.
pub proof fn lemma_digits_plain(s: Seq<u8>)
    requires
        all_digits(s),
    ensures
        escape_seq(s) == s,
        forall|i: int| 0 <= i < s.len() ==> s[i] != NL && s[i] != COLON,
{
    assert(forall|i: int| 0 <= i < s.len() ==> is_digit(s[i]));
    lemma_escape_id(s);
    lemma_escape_clean(s);
}

/// Parsing the header section over its own serialization: when the bytes
/// from `i` on are the serialized lines of `hs` followed by the blank
/// line and anything after it, parsing from `i` decodes exactly `hs` and
/// stops right after the blank line.
pub proof fn lemma_parse_headers_ser(s: Seq<u8>, i: int, hs: Seq<(Seq<u8>, Seq<u8>)>, tail: Seq<u8>)
    requires
        0 <= i <= s.len(),
        s.skip(i) == ser_headers(hs) + seq![NL] + tail,
    ensures
        parse_headers_spec(s, i) == (HeadersSpecResult::Done {
            headers: hs,
            next: i + ser_headers(hs).len() + 1,
        }),
    decreases hs.len(),
{
    let rest = s.skip(i);
    assert(rest.len() == s.len() - i);
    assert(forall|x: int| 0 <= x < rest.len() ==> rest[x] == s[i + x]);
    if hs.len() == 0 {
        assert(hs =~= Seq::<(Seq<u8>, Seq<u8>)>::empty());
        assert(ser_headers(hs) =~= Seq::<u8>::empty());
        assert(rest[0] == NL);
        assert(s[i] == NL);
        assert(i < s.len());
    } else {
        let k0 = hs[0].0;
        let v0 = hs[0].1;
        let ek = escape_seq(k0);
        let ev = escape_seq(v0);
        let line = ek + seq![COLON] + ev;
        let lrest = ser_headers(hs.skip(1));
        assert(ser_headers(hs) == ek + seq![COLON] + ev + seq![NL] + lrest);
        lemma_escape_clean(k0);
        lemma_escape_clean(v0);
        // the bytes of the first line, relative to i
        assert(forall|x: int| 0 <= x < line.len() ==> rest[x] == line[x]);
        assert(forall|x: int| 0 <= x < line.len() ==> line[x] != NL);
        assert(rest[line.len() as int] == NL);
        assert(s[i + line.len()] == NL);
        assert(i < s.len());
        assert(s[i] == line[0] && line[0] != NL);
        let e = i + line.len();
        assert forall|k: int| i <= k < e implies s[k] != NL by {
            assert(s[k] == rest[k - i]);
            assert(rest[k - i] == line[k - i]);
        }
        lemma_seq_find_is(s, i, NL, e);
        assert(i < e < s.len());
        let sub = s.subrange(i, e);
        assert(sub =~= line);
        // the colon that splits the line is the first one
        assert(forall|x: int| 0 <= x < ek.len() ==> line[x] == ek[x] && line[x] != COLON);
        assert(line[ek.len() as int] == COLON);
        lemma_seq_find_is(line, 0, COLON, ek.len() as int);
        assert(line.take(ek.len() as int) =~= ek);
        assert(line.skip(ek.len() as int + 1) =~= ev);
        lemma_unescape_escape(k0);
        lemma_unescape_escape(v0);
        // the remainder of the section, relative to e + 1
        assert(s.skip(e + 1).len() == (lrest + seq![NL] + tail).len());
        assert forall|x: int|
            0 <= x < s.skip(e + 1).len() implies s.skip(e + 1)[x] == (lrest + seq![NL]
            + tail)[x] by {
            assert(s.skip(e + 1)[x] == s[e + 1 + x]);
            assert(s[e + 1 + x] == rest[line.len() + 1 + x]);
            assert(rest[line.len() + 1 + x] == (ser_headers(hs) + seq![NL] + tail)[line.len() + 1
                + x]);
        }
        assert(s.skip(e + 1) =~= lrest + seq![NL] + tail);
        lemma_parse_headers_ser(s, e + 1, hs.skip(1), tail);
        assert(seq![(k0, v0)] + hs.skip(1) =~= hs);
        assert(parse_headers_spec(s, i) == (HeadersSpecResult::Done {
            headers: seq![(k0, v0)] + hs.skip(1),
            next: e + 1 + lrest.len() + 1,
        }));
    }
}

/// The header list as it stands on the wire: the synthesized
/// `content-length` line first when a body is present, then the frame's
/// own headers.
pub open spec fn wire_headers(f: FrameView) -> Seq<(Seq<u8>, Seq<u8>)> {
    match f.body {
        Some(b) => seq![(cl_key(), dec_seq(b.len()))] + f.headers,
        None => f.headers,
    }
}

/// A serialized frame parses back to an equal frame, consuming exactly
/// the serialized length. In particular a body is preserved byte for
/// byte, embedded terminator bytes included, because the serializer
/// names its exact length in `content-length`.
pub proof fn lemma_parse_serialize(f: FrameView)
    requires
        frame_wf(f),
    ensures
        parse_frame_spec(ser_frame(f)) == (ParseSpecResult::Done {
            frame: f,
            used: ser_frame(f).len() as int,
        }),
{
    let s = ser_frame(f);
    let tok = cmd_token(f.command);
    let clpart: Seq<u8> = match f.body {
        Some(b) => cl_key() + seq![COLON] + dec_seq(b.len()) + seq![NL],
        None => Seq::empty(),
    };
    let bodyp: Seq<u8> = match f.body {
        Some(b) => b,
        None => Seq::empty(),
    };
    let hw = wire_headers(f);
    lemma_cmd_token_clean(f.command);
    // command line
    assert(s[0] == tok[0] && tok[0] != NL);
    assert(skip_nl(s, 0) == 0);
    assert(forall|x: int| 0 <= x < tok.len() ==> s[x] == tok[x] && s[x] != NL);
    assert(s[tok.len() as int] == NL);
    lemma_seq_find_is(s, 0, NL, tok.len() as int);
    assert(s.subrange(0, tok.len() as int) =~= tok);
    lemma_token_to_cmd(f.command);
    // the wire header section equals the serialization of wire_headers(f)
    assert(clpart + ser_headers(f.headers) == ser_headers(hw)) by {
        match f.body {
            Some(b) => {
                let clp = (cl_key(), dec_seq(b.len()));
                lemma_cl_key_plain();
                lemma_dec_seq_digits(b.len());
                lemma_digits_plain(dec_seq(b.len()));
                lemma_ser_headers_concat(seq![clp], f.headers);
                assert(seq![clp].skip(1) =~= Seq::<(Seq<u8>, Seq<u8>)>::empty());
                assert(ser_headers(Seq::<(Seq<u8>, Seq<u8>)>::empty()) =~= Seq::<u8>::empty());
                assert(ser_headers(seq![clp]) =~= clpart);
                assert(seq![clp] + f.headers =~= hw);
            },
            None => {
                assert(clpart + ser_headers(f.headers) =~= ser_headers(f.headers));
            },
        }
    }
    let hstart = tok.len() as int + 1;
    let tail = bodyp + seq![TERM];
    assert(s.skip(hstart) =~= ser_headers(hw) + seq![NL] + tail) by {
        assert(s == tok + seq![NL] + clpart + ser_headers(f.headers) + seq![NL] + bodyp
            + seq![TERM]);
        assert(forall|x: int| 0 <= x < s.skip(hstart).len() ==> s.skip(hstart)[x] == s[hstart + x]);
    }
    lemma_parse_headers_ser(s, hstart, hw, tail);
    let bstart = hstart + ser_headers(hw).len() + 1;
    assert(s.skip(bstart) =~= tail) by {
        assert(forall|x: int| 0 <= x < s.skip(bstart).len() ==> s.skip(bstart)[x] == s[bstart + x]);
        assert(forall|x: int|
            0 <= x < s.skip(hstart).len() ==> s.skip(hstart)[x] == (ser_headers(hw) + seq![NL]
                + tail)[x]);
    }
    assert(s.len() == bstart + tail.len());
    // body
    match f.body {
        Some(b) => {
            assert(hw[0].0 == cl_key());
            lemma_key_idx_is(hw, cl_key(), 0);
            let v = dec_seq(b.len());
            lemma_dec_seq_digits(b.len());
            crate::num::lemma_pow10_20();
            lemma_dec_seq_len(b.len(), 20);
            lemma_digits_val_dec_seq(b.len());
            let n = b.len() as int;
            assert(forall|x: int| 0 <= x < tail.len() ==> s[bstart + x] == tail[x]);
            assert(s[bstart + n] == TERM);
            assert(bstart + n + 1 == s.len());
            assert(s.subrange(bstart, bstart + n) =~= b);
            assert(hw.take(0) + hw.skip(1) =~= f.headers);
            let pf = parse_body_spec(s, bstart, f.command, hw);
            assert(pf == (ParseSpecResult::Done { frame: f, used: s.len() as int })) by {
                assert(FrameView {
                    command: f.command,
                    headers: hw.take(0) + hw.skip(1),
                    body: Some(s.subrange(bstart, bstart + n)),
                } =~= f);
            }
        },
        None => {
            lemma_key_idx_none(hw, cl_key());
            assert(tail =~= seq![TERM]);
            assert(s[bstart] == TERM);
            lemma_seq_find_is(s, bstart, TERM, bstart);
            assert(bstart + 1 == s.len());
            let pf = parse_body_spec(s, bstart, f.command, hw);
            assert(pf == (ParseSpecResult::Done { frame: f, used: s.len() as int })) by {
                assert(FrameView { command: f.command, headers: hw, body: None } =~= f);
            }
        },
    }
}

/// A run of leading newlines followed by something else determines
/// `skip_nl`.
pub proof fn lemma_skip_nl_is(s: Seq<u8>, from: int, r: int)
    requires
        0 <= from <= r <= s.len(),
        forall|x: int| from <= x < r ==> s[x] == NL,
        r < s.len() ==> s[r] != NL,
    ensures
        skip_nl(s, from) == r,
    decreases r - from,
{
    if from < r {
        lemma_skip_nl_is(s, from + 1, r);
    }
}

/// `seq_find` over a prefix of the buffer.
pub proof fn lemma_seq_find_take(s: Seq<u8>, k: int, from: int, b: u8)
    requires
        0 <= from <= k <= s.len(),
    ensures
        match seq_find(s, from, b) {
            Some(j) => if j < k {
                seq_find(s.take(k), from, b) == Some(j)
            } else {
                seq_find(s.take(k), from, b) is None
            },
            None => seq_find(s.take(k), from, b) is None,
        },
{
    lemma_seq_find(s, from, b);
    let t = s.take(k);
    match seq_find(s, from, b) {
        Some(j) => {
            if j < k {
                lemma_seq_find_is(t, from, b, j);
            } else {
                lemma_seq_find_none(t, from, b);
            }
        },
        None => {
            lemma_seq_find_none(t, from, b);
        },
    }
}

/// `seq_find` over an extended buffer: a hit stays where it was, and a
/// miss stays a miss when the appended bytes avoid `b` too.
pub proof fn lemma_seq_find_ext(s: Seq<u8>, more: Seq<u8>, from: int, b: u8)
    requires
        0 <= from <= s.len(),
    ensures
        match seq_find(s, from, b) {
            Some(j) => seq_find(s + more, from, b) == Some(j),
            None => (forall|x: int| 0 <= x < more.len() ==> more[x] != b) ==> seq_find(
                s + more,
                from,
                b,
            ) is None,
        },
{
    lemma_seq_find(s, from, b);
    let w = s + more;
    match seq_find(s, from, b) {
        Some(j) => {
            lemma_seq_find_is(w, from, b, j);
        },
        None => {
            if forall|x: int| 0 <= x < more.len() ==> more[x] != b {
                assert forall|x: int| from <= x < w.len() implies w[x] != b by {
                    if x < s.len() {
                        assert(w[x] == s[x]);
                    } else {
                        assert(w[x] == more[x - s.len()]);
                    }
                }
                lemma_seq_find_none(w, from, b);
            }
        },
    }
}

/// A completed header section ends strictly after where it started and
/// within the buffer.
pub proof fn lemma_parse_headers_next(s: Seq<u8>, i: int)
    requires
        parse_headers_spec(s, i) is Done,
    ensures
        match parse_headers_spec(s, i) {
            HeadersSpecResult::Done { headers, next } => i < next <= s.len(),
            _ => true,
        },
    decreases s.len() - i,
{
    if 0 <= i < s.len() && s[i] != NL {
        match seq_find(s, i, NL) {
            Some(e) => {
                if i < e < s.len() {
                    if parse_headers_spec(s, e + 1) is Done {
                        lemma_parse_headers_next(s, e + 1);
                    }
                }
            },
            None => {},
        }
    }
}

/// Parsing the header section over a prefix of the buffer: a section
/// that completed within the prefix parses the same; one cut by the
/// prefix is incomplete.
pub proof fn lemma_parse_headers_take(s: Seq<u8>, i: int, k: int)
    requires
        0 <= i <= k <= s.len(),
        parse_headers_spec(s, i) is Done,
    ensures
        match parse_headers_spec(s, i) {
            HeadersSpecResult::Done { headers, next } => if next <= k {
                parse_headers_spec(s.take(k), i) == parse_headers_spec(s, i)
            } else {
                parse_headers_spec(s.take(k), i) is Incomplete
            },
            _ => true,
        },
    decreases s.len() - i,
{
    let t = s.take(k);
    let r = parse_headers_spec(s, i);
    lemma_parse_headers_next(s, i);
    assert(i < s.len());
    if i == k {
    } else {
        assert(t[i] == s[i]);
        if s[i] == NL {
        } else {
            match seq_find(s, i, NL) {
                Some(e) => {
                    assert(i < e < s.len());
                    lemma_seq_find(s, i, NL);
                    lemma_seq_find_take(s, k, i, NL);
                    if e < k {
                        assert(t.subrange(i, e) =~= s.subrange(i, e));
                        let rec = parse_headers_spec(s, e + 1);
                        assert(rec is Done);
                        lemma_parse_headers_take(s, e + 1, k);
                    } else {
                        lemma_parse_headers_next(s, e + 1);
                    }
                },
                None => {
                    assert(false);
                },
            }
        }
    }
}

/// Parsing the header section is stable under appending bytes once the
/// section has completed.
pub proof fn lemma_parse_headers_ext(s: Seq<u8>, i: int, more: Seq<u8>)
    requires
        0 <= i <= s.len(),
        parse_headers_spec(s, i) is Done,
    ensures
        parse_headers_spec(s + more, i) == parse_headers_spec(s, i),
    decreases s.len() - i,
{
    let w = s + more;
    lemma_parse_headers_next(s, i);
    assert(i < s.len());
    assert(w[i] == s[i]);
    if s[i] == NL {
    } else {
        match seq_find(s, i, NL) {
            Some(e) => {
                assert(i < e < s.len());
                lemma_seq_find_ext(s, more, i, NL);
                assert(w.subrange(i, e) =~= s.subrange(i, e));
                lemma_parse_headers_ext(s, e + 1, more);
            },
            None => {
                assert(false);
            },
        }
    }
}

/// No strict prefix of a parseable buffer yields a frame: until the
/// byte at which the parse completes has been supplied, every attempt
/// reports that more input is needed.
pub proof fn lemma_parse_take_incomplete(s: Seq<u8>, k: int)
    requires
        parse_frame_spec(s) is Done,
        0 <= k,
        match parse_frame_spec(s) {
            ParseSpecResult::Done { frame, used } => k < used,
            _ => false,
        },
        k <= s.len(),
    ensures
        parse_frame_spec(s.take(k)) is Incomplete,
{
    let t = s.take(k);
    let start = skip_nl(s, 0);
    lemma_skip_nl(s, 0);
    assert(start < s.len());
    if k <= start {
        lemma_skip_nl_is(t, 0, k);
    } else {
        lemma_skip_nl_is(t, 0, start);
        match seq_find(s, start, NL) {
            Some(e) => {
                lemma_seq_find(s, start, NL);
                lemma_seq_find_take(s, k, start, NL);
                if e < k {
                    assert(t.subrange(start, e) =~= s.subrange(start, e));
                    match parse_headers_spec(s, e + 1) {
                        HeadersSpecResult::Done { headers, next } => {
                            lemma_parse_headers_next(s, e + 1);
                            lemma_parse_headers_take(s, e + 1, k);
                            if next <= k {
                                let ci = key_idx(headers, cl_key());
                                if ci < headers.len() {
                                } else {
                                    match seq_find(s, next, TERM) {
                                        Some(tm) => {
                                            lemma_seq_find(s, next, TERM);
                                            lemma_seq_find_take(s, k, next, TERM);
                                        },
                                        None => {
                                            assert(false);
                                        },
                                    }
                                }
                            }
                        },
                        _ => {
                            assert(false);
                        },
                    }
                } else {
                    match parse_headers_spec(s, e + 1) {
                        HeadersSpecResult::Done { headers, next } => {
                            lemma_parse_headers_next(s, e + 1);
                        },
                        _ => {
                            assert(false);
                        },
                    }
                }
            },
            None => {
                assert(false);
            },
        }
    }
}

/// Feeding a serialized frame in two chunks, split anywhere, behaves as
/// feeding it whole: the parse attempt on the first chunk alone asks for
/// more bytes and produces nothing, and once the buffer holds the whole
/// frame the parse yields exactly that frame, consuming its full length —
/// so the decode loop hands out the same message either way, and no
/// message before the last byte arrived.
pub proof fn lemma_split_feed(f: FrameView, k: int)
    requires
        frame_wf(f),
        0 <= k < ser_frame(f).len(),
    ensures
        parse_frame_spec(ser_frame(f).take(k)) is Incomplete,
        parse_frame_spec(ser_frame(f)) == (ParseSpecResult::Done {
            frame: f,
            used: ser_frame(f).len() as int,
        }),
{
    lemma_parse_serialize(f);
    lemma_parse_take_incomplete(ser_frame(f), k);
}

/// The buffer holds a complete command line and header section, names no
/// `content-length`, and holds no terminator byte after the blank line.
pub open spec fn awaiting_terminator(s: Seq<u8>) -> bool {
    let start = skip_nl(s, 0);
    &&& 0 <= start < s.len()
    &&& match seq_find(s, start, NL) {
        Some(e) => token_to_cmd(s.subrange(start, e)) is Some && match parse_headers_spec(
            s,
            e + 1,
        ) {
            HeadersSpecResult::Done { headers, next } => key_idx(headers, cl_key())
                == headers.len() && seq_find(s, next, TERM) is None,
            _ => false,
        },
        None => false,
    }
}

/// A buffer whose header section is complete, with no `content-length`
/// header and no terminator byte, never completes — not on retry with the
/// same bytes, and not after appending any amount of terminator-free
/// data — until a terminator byte arrives.
pub proof fn lemma_awaiting_terminator_incomplete(s: Seq<u8>, more: Seq<u8>)
    requires
        awaiting_terminator(s),
        forall|x: int| 0 <= x < more.len() ==> more[x] != TERM,
    ensures
        parse_frame_spec(s) is Incomplete,
        parse_frame_spec(s + more) is Incomplete,
        awaiting_terminator(s + more),
{
    let w = s + more;
    let start = skip_nl(s, 0);
    lemma_skip_nl(s, 0);
    assert forall|x: int| 0 <= x < start implies w[x] == NL by {
        assert(w[x] == s[x]);
    }
    assert(w[start] == s[start]);
    lemma_skip_nl_is(w, 0, start);
    match seq_find(s, start, NL) {
        Some(e) => {
            lemma_seq_find(s, start, NL);
            lemma_seq_find_ext(s, more, start, NL);
            assert(w.subrange(start, e) =~= s.subrange(start, e));
            match parse_headers_spec(s, e + 1) {
                HeadersSpecResult::Done { headers, next } => {
                    lemma_parse_headers_next(s, e + 1);
                    lemma_parse_headers_ext(s, e + 1, more);
                    lemma_seq_find_ext(s, more, next, TERM);
                },
                _ => {
                    assert(false);
                },
            }
        },
        None => {
            assert(false);
        },
    }
}

} // verus!
