//! Wire-level frames and their codec.
//!
//! One frame on the wire is `COMMAND-LINE NL (HEADER-LINE NL)* NL BODY TERM`.
//! Header keys and values use the escape encoding of [`crate::escape`].
//! When a `content-length` header is present the body is exactly that many
//! raw bytes (any values, including the terminator byte) followed by one
//! mandatory terminator; otherwise the body runs to the first terminator
//! byte. The serializer writes a `content-length` header itself whenever a
//! body is present, and the parser consumes that header for framing and
//! drops it from the parsed header list, so that a serialized frame parses
//! back to an equal frame.

use crate::escape::{escape_bytes, escape_seq, unescape_bytes, unescape_seq, COLON, NL, TERM};
use crate::num::{all_digits, dec_seq, digits_val, pow10, u64_to_dec};
use crate::num::{lemma_digits_val_concat, lemma_pow10_mono};
use vstd::prelude::*;

verus! {

/// The closed set of wire command tokens, both directions.
#[derive(Clone, Copy, PartialEq, Eq, Structural, Debug)]
pub enum Command {
    Connect,
    Send,
    Subscribe,
    Unsubscribe,
    Begin,
    Commit,
    Abort,
    Ack,
    Nack,
    Disconnect,
    Connected,
    Message,
    Receipt,
    Error,
}

/// One wire-level record: command, ordered header pairs (duplicates
/// permitted, first occurrence authoritative), and an optional body.
#[derive(Debug, PartialEq, Eq)]
pub struct Frame {
    pub command: Command,
    pub headers: Vec<(Vec<u8>, Vec<u8>)>,
    pub body: Option<Vec<u8>>,
}

/// The mathematical model of a [`Frame`].
#[verifier::ext_equal]
pub struct FrameView {
    pub command: Command,
    pub headers: Seq<(Seq<u8>, Seq<u8>)>,
    pub body: Option<Seq<u8>>,
}

/// The model of an ordered header list.
pub open spec fn hdrs_view(h: Seq<(Vec<u8>, Vec<u8>)>) -> Seq<(Seq<u8>, Seq<u8>)> {
    h.map_values(|p: (Vec<u8>, Vec<u8>)| (p.0@, p.1@))
}

impl View for Frame {
    type V = FrameView;

    open spec fn view(&self) -> FrameView {
        FrameView {
            command: self.command,
            headers: hdrs_view(self.headers@),
            body: match self.body {
                Some(b) => Some(b@),
                None => None,
            },
        }
    }
}

/// The wire token of each command.
pub open spec fn cmd_token(c: Command) -> Seq<u8> {
    match c {
        Command::Connect => seq![67u8, 79, 78, 78, 69, 67, 84],
        Command::Send => seq![83u8, 69, 78, 68],
        Command::Subscribe => seq![83u8, 85, 66, 83, 67, 82, 73, 66, 69],
        Command::Unsubscribe => seq![85u8, 78, 83, 85, 66, 83, 67, 82, 73, 66, 69],
        Command::Begin => seq![66u8, 69, 71, 73, 78],
        Command::Commit => seq![67u8, 79, 77, 77, 73, 84],
        Command::Abort => seq![65u8, 66, 79, 82, 84],
        Command::Ack => seq![65u8, 67, 75],
        Command::Nack => seq![78u8, 65, 67, 75],
        Command::Disconnect => seq![68u8, 73, 83, 67, 79, 78, 78, 69, 67, 84],
        Command::Connected => seq![67u8, 79, 78, 78, 69, 67, 84, 69, 68],
        Command::Message => seq![77u8, 69, 83, 83, 65, 71, 69],
        Command::Receipt => seq![82u8, 69, 67, 69, 73, 80, 84],
        Command::Error => seq![69u8, 82, 82, 79, 82],
    }
}

/// The command encoded by a command-line token, if it is in the closed set.
pub open spec fn token_to_cmd(t: Seq<u8>) -> Option<Command> {
    if t == cmd_token(Command::Connect) {
        Some(Command::Connect)
    } else if t == cmd_token(Command::Send) {
        Some(Command::Send)
    } else if t == cmd_token(Command::Subscribe) {
        Some(Command::Subscribe)
    } else if t == cmd_token(Command::Unsubscribe) {
        Some(Command::Unsubscribe)
    } else if t == cmd_token(Command::Begin) {
        Some(Command::Begin)
    } else if t == cmd_token(Command::Commit) {
        Some(Command::Commit)
    } else if t == cmd_token(Command::Abort) {
        Some(Command::Abort)
    } else if t == cmd_token(Command::Ack) {
        Some(Command::Ack)
    } else if t == cmd_token(Command::Nack) {
        Some(Command::Nack)
    } else if t == cmd_token(Command::Disconnect) {
        Some(Command::Disconnect)
    } else if t == cmd_token(Command::Connected) {
        Some(Command::Connected)
    } else if t == cmd_token(Command::Message) {
        Some(Command::Message)
    } else if t == cmd_token(Command::Receipt) {
        Some(Command::Receipt)
    } else if t == cmd_token(Command::Error) {
        Some(Command::Error)
    } else {
        None
    }
}

/// Command tokens are non-empty and contain no newline, so the
/// command-line framing cannot be disturbed.
pub proof fn lemma_cmd_token_clean(c: Command)
    ensures
        cmd_token(c).len() >= 3,
        forall|i: int| 0 <= i < cmd_token(c).len() ==> cmd_token(c)[i] != NL,
{
}

/// Reading back the token of a command yields that command.
pub proof fn lemma_token_to_cmd(c: Command)
    ensures
        token_to_cmd(cmd_token(c)) == Some(c),
{
    assert(cmd_token(Command::Connect).len() == 7);
    assert(cmd_token(Command::Send).len() == 4);
    assert(cmd_token(Command::Subscribe).len() == 9);
    assert(cmd_token(Command::Unsubscribe).len() == 11);
    assert(cmd_token(Command::Begin).len() == 5);
    assert(cmd_token(Command::Commit).len() == 6);
    assert(cmd_token(Command::Abort).len() == 5);
    assert(cmd_token(Command::Ack).len() == 3);
    assert(cmd_token(Command::Nack).len() == 4);
    assert(cmd_token(Command::Disconnect).len() == 10);
    assert(cmd_token(Command::Connected).len() == 9);
    assert(cmd_token(Command::Message).len() == 7);
    assert(cmd_token(Command::Receipt).len() == 7);
    assert(cmd_token(Command::Error).len() == 5);
    match c {
        Command::Nack => {
            assert(cmd_token(Command::Nack)[0] != cmd_token(Command::Send)[0]);
        },
        Command::Connected => {
            assert(cmd_token(Command::Connected)[0] != cmd_token(Command::Subscribe)[0]);
        },
        Command::Abort => {
            assert(cmd_token(Command::Abort)[0] != cmd_token(Command::Begin)[0]);
        },
        Command::Message => {
            assert(cmd_token(Command::Message)[0] != cmd_token(Command::Connect)[0]);
        },
        Command::Receipt => {
            assert(cmd_token(Command::Receipt)[0] != cmd_token(Command::Connect)[0]);
            assert(cmd_token(Command::Receipt)[0] != cmd_token(Command::Message)[0]);
        },
        Command::Error => {
            assert(cmd_token(Command::Error)[0] != cmd_token(Command::Begin)[0]);
            assert(cmd_token(Command::Error)[0] != cmd_token(Command::Abort)[0]);
        },
        _ => {},
    }
}

/// The smallest index `j >= from` with `s[j] == b`, if any.
pub open spec fn seq_find(s: Seq<u8>, from: int, b: u8) -> Option<int>
    decreases s.len() - from,
{
    if from < 0 || from >= s.len() {
        None
    } else if s[from] == b {
        Some(from)
    } else {
        seq_find(s, from + 1, b)
    }
}

/// What `seq_find` returns: the first occurrence, or proof of absence.
pub proof fn lemma_seq_find(s: Seq<u8>, from: int, b: u8)
    requires
        0 <= from <= s.len(),
    ensures
        match seq_find(s, from, b) {
            Some(j) => from <= j < s.len() && s[j] == b && (forall|k: int|
                from <= k < j ==> s[k] != b),
            None => forall|k: int| from <= k < s.len() ==> s[k] != b,
        },
    decreases s.len() - from,
{
    if from < s.len() && s[from] != b {
        lemma_seq_find(s, from + 1, b);
    }
}

/// A first occurrence determines `seq_find`.
pub proof fn lemma_seq_find_is(s: Seq<u8>, from: int, b: u8, j: int)
    requires
        0 <= from <= j < s.len(),
        s[j] == b,
        forall|k: int| from <= k < j ==> s[k] != b,
    ensures
        seq_find(s, from, b) == Some(j),
    decreases j - from,
{
    if from < j {
        lemma_seq_find_is(s, from + 1, b, j);
    }
}

/// Absence determines `seq_find`.
pub proof fn lemma_seq_find_none(s: Seq<u8>, from: int, b: u8)
    requires
        0 <= from <= s.len(),
        forall|k: int| from <= k < s.len() ==> s[k] != b,
    ensures
        seq_find(s, from, b) is None,
    decreases s.len() - from,
{
    if from < s.len() {
        lemma_seq_find_none(s, from + 1, b);
    }
}

/// The first index `>= from` holding a byte other than a newline, or the
/// length when none exists. Leading newlines are heartbeat bytes: they
/// carry no frame and are skipped.
pub open spec fn skip_nl(s: Seq<u8>, from: int) -> int
    decreases s.len() - from,
{
    if from < 0 || from >= s.len() {
        s.len() as int
    } else if s[from] != NL {
        from
    } else {
        skip_nl(s, from + 1)
    }
}

pub proof fn lemma_skip_nl(s: Seq<u8>, from: int)
    requires
        0 <= from <= s.len(),
    ensures
        from <= skip_nl(s, from) <= s.len(),
        skip_nl(s, from) < s.len() ==> s[skip_nl(s, from)] != NL,
        forall|k: int| from <= k < skip_nl(s, from) ==> s[k] == NL,
    decreases s.len() - from,
{
    if from < s.len() && s[from] == NL {
        lemma_skip_nl(s, from + 1);
    }
}

/// The index of the first header pair whose key is `k`, or the length of
/// the list when no key matches.
pub open spec fn key_idx(hs: Seq<(Seq<u8>, Seq<u8>)>, k: Seq<u8>) -> int
    decreases hs.len(),
{
    if hs.len() == 0 {
        0
    } else if hs[0].0 == k {
        0
    } else {
        1 + key_idx(hs.skip(1), k)
    }
}

pub proof fn lemma_key_idx(hs: Seq<(Seq<u8>, Seq<u8>)>, k: Seq<u8>)
    ensures
        0 <= key_idx(hs, k) <= hs.len(),
        key_idx(hs, k) < hs.len() ==> hs[key_idx(hs, k)].0 == k,
        forall|i: int| 0 <= i < key_idx(hs, k) ==> hs[i].0 != k,
    decreases hs.len(),
{
    if hs.len() > 0 && hs[0].0 != k {
        lemma_key_idx(hs.skip(1), k);
        assert(forall|i: int| 1 <= i < key_idx(hs, k) ==> hs[i].0 == hs.skip(1)[i - 1].0);
    }
}

/// A first match determines `key_idx`.
pub proof fn lemma_key_idx_is(hs: Seq<(Seq<u8>, Seq<u8>)>, k: Seq<u8>, j: int)
    requires
        0 <= j < hs.len(),
        hs[j].0 == k,
        forall|i: int| 0 <= i < j ==> hs[i].0 != k,
    ensures
        key_idx(hs, k) == j,
    decreases j,
{
    if j > 0 {
        lemma_key_idx_is(hs.skip(1), k, j - 1);
    }
}

/// Absence of the key determines `key_idx`.
pub proof fn lemma_key_idx_none(hs: Seq<(Seq<u8>, Seq<u8>)>, k: Seq<u8>)
    requires
        forall|i: int| 0 <= i < hs.len() ==> hs[i].0 != k,
    ensures
        key_idx(hs, k) == hs.len(),
    decreases hs.len(),
{
    if hs.len() > 0 {
        assert(forall|i: int| 0 <= i < hs.skip(1).len() ==> hs.skip(1)[i].0 == hs[i + 1].0);
        lemma_key_idx_none(hs.skip(1), k);
    }
}

/// The `content-length` header key.
pub open spec fn cl_key() -> Seq<u8> {
    seq![99u8, 111, 110, 116, 101, 110, 116, 45, 108, 101, 110, 103, 116, 104]
}

/// What parsing the header section from offset `i` yields.
pub enum HeadersSpecResult {
    Incomplete,
    Malformed,
    Done { headers: Seq<(Seq<u8>, Seq<u8>)>, next: int },
}

/// What parsing one frame from offset 0 yields.
pub enum ParseSpecResult {
    Incomplete,
    Malformed,
    Done { frame: FrameView, used: int },
}

/// Parses header lines starting at `i` until the blank line that ends the
/// header section. Keys and values are unescaped; a line without a colon,
/// or with an invalid escape, is malformed; a line without a final
/// newline means more bytes are needed.
pub open spec fn parse_headers_spec(s: Seq<u8>, i: int) -> HeadersSpecResult
    decreases s.len() - i,
{
    if i < 0 || i > s.len() {
        HeadersSpecResult::Malformed
    } else if i == s.len() {
        HeadersSpecResult::Incomplete
    } else if s[i] == NL {
        HeadersSpecResult::Done { headers: Seq::empty(), next: i + 1 }
    } else {
        match seq_find(s, i, NL) {
            None => HeadersSpecResult::Incomplete,
            Some(e) => {
                if !(i < e < s.len()) {
                    // cannot arise: the first occurrence of a byte lies in range
                    HeadersSpecResult::Malformed
                } else {
                    let line = s.subrange(i, e);
                    match seq_find(line, 0, COLON) {
                        None => HeadersSpecResult::Malformed,
                        Some(c) => match (
                            unescape_seq(line.take(c)),
                            unescape_seq(line.skip(c + 1)),
                        ) {
                            (Some(k), Some(v)) => match parse_headers_spec(s, e + 1) {
                                HeadersSpecResult::Done { headers, next } => {
                                    HeadersSpecResult::Done {
                                        headers: seq![(k, v)] + headers,
                                        next,
                                    }
                                },
                                r => r,
                            },
                            _ => HeadersSpecResult::Malformed,
                        },
                    }
                }
            },
        }
    }
}

/// Parses the body that starts at `bstart`, given the parsed headers.
/// With a `content-length` header the body is that many raw bytes plus a
/// mandatory terminator, and that header is dropped from the frame;
/// without one the body runs to the first terminator byte, and an empty
/// extent means no body.
pub open spec fn parse_body_spec(
    s: Seq<u8>,
    bstart: int,
    cmd: Command,
    headers: Seq<(Seq<u8>, Seq<u8>)>,
) -> ParseSpecResult {
    let ci = key_idx(headers, cl_key());
    if ci < headers.len() {
        let v = headers[ci].1;
        if !(1 <= v.len() <= 20 && all_digits(v)) {
            ParseSpecResult::Malformed
        } else {
            let n = digits_val(v, 0) as int;
            if bstart + n + 1 > s.len() {
                ParseSpecResult::Incomplete
            } else if s[bstart + n] != TERM {
                ParseSpecResult::Malformed
            } else {
                ParseSpecResult::Done {
                    frame: FrameView {
                        command: cmd,
                        headers: headers.take(ci) + headers.skip(ci + 1),
                        body: Some(s.subrange(bstart, bstart + n)),
                    },
                    used: bstart + n + 1,
                }
            }
        }
    } else {
        match seq_find(s, bstart, TERM) {
            None => ParseSpecResult::Incomplete,
            Some(t) => ParseSpecResult::Done {
                frame: FrameView {
                    command: cmd,
                    headers,
                    body: if t == bstart {
                        None
                    } else {
                        Some(s.subrange(bstart, t))
                    },
                },
                used: t + 1,
            },
        }
    }
}

/// Parses exactly one frame from offset 0 of the buffer: the exact
/// number of bytes consumed on success, a distinguishable "need more
/// bytes" outcome on partial input, and a terminal failure on malformed
/// input. A buffer of heartbeat newlines alone never completes.
pub open spec fn parse_frame_spec(s: Seq<u8>) -> ParseSpecResult {
    let start = skip_nl(s, 0);
    if start >= s.len() {
        ParseSpecResult::Incomplete
    } else {
        match seq_find(s, start, NL) {
            None => ParseSpecResult::Incomplete,
            Some(e) => match token_to_cmd(s.subrange(start, e)) {
                None => ParseSpecResult::Malformed,
                Some(cmd) => match parse_headers_spec(s, e + 1) {
                    HeadersSpecResult::Incomplete => ParseSpecResult::Incomplete,
                    HeadersSpecResult::Malformed => ParseSpecResult::Malformed,
                    HeadersSpecResult::Done { headers, next } => parse_body_spec(
                        s,
                        next,
                        cmd,
                        headers,
                    ),
                },
            },
        }
    }
}

/// The serialized form of the header list: one escaped line per pair.
pub open spec fn ser_headers(hs: Seq<(Seq<u8>, Seq<u8>)>) -> Seq<u8>
    decreases hs.len(),
{
    if hs.len() == 0 {
        Seq::empty()
    } else {
        escape_seq(hs[0].0) + seq![COLON] + escape_seq(hs[0].1) + seq![NL] + ser_headers(
            hs.skip(1),
        )
    }
}

/// The serialized form of a frame. A `content-length` header with the
/// exact body length is written whenever a body is present, so that
/// bodies may hold any byte, the terminator included.
pub open spec fn ser_frame(f: FrameView) -> Seq<u8> {
    cmd_token(f.command) + seq![NL] + (match f.body {
        Some(b) => cl_key() + seq![COLON] + dec_seq(b.len()) + seq![NL],
        None => Seq::empty(),
    }) + ser_headers(f.headers) + seq![NL] + (match f.body {
        Some(b) => b,
        None => Seq::empty(),
    }) + seq![TERM]
}

/// A frame the serializer owns completely: no caller-supplied
/// `content-length` header (the codec synthesizes and consumes that key
/// itself), and a body short enough for its length to be written.
pub open spec fn frame_wf(f: FrameView) -> bool {
    &&& forall|i: int| 0 <= i < f.headers.len() ==> f.headers[i].0 != cl_key()
    &&& match f.body {
        Some(b) => b.len() < pow10(20),
        None => true,
    }
}

/// Serialization distributes over concatenation of header lists.
pub proof fn lemma_ser_headers_concat(a: Seq<(Seq<u8>, Seq<u8>)>, b: Seq<(Seq<u8>, Seq<u8>)>)
    ensures
        ser_headers(a + b) == ser_headers(a) + ser_headers(b),
    decreases a.len(),
{
    if a.len() == 0 {
        assert(a + b =~= b);
        assert(ser_headers(a) + ser_headers(b) =~= ser_headers(b));
    } else {
        assert((a + b).skip(1) =~= a.skip(1) + b);
        assert((a + b)[0] == a[0]);
        lemma_ser_headers_concat(a.skip(1), b);
        let line = escape_seq(a[0].0) + seq![COLON] + escape_seq(a[0].1) + seq![NL];
        assert(line + (ser_headers(a.skip(1)) + ser_headers(b)) =~= (line + ser_headers(a.skip(1)))
            + ser_headers(b));
    }
}

/// Finds the first occurrence of `b` at or after `from`.
pub fn find_byte(s: &Vec<u8>, from: usize, b: u8) -> (r: Option<usize>)
    requires
        from <= s@.len(),
    ensures
        match r {
            Some(j) => from <= j < s@.len() && seq_find(s@, from as int, b) == Some(j as int),
            None => seq_find(s@, from as int, b) is None,
        },
{
    let mut i = from;
    while i < s.len()
        invariant
            from <= i <= s@.len(),
            seq_find(s@, from as int, b) == seq_find(s@, i as int, b),
        decreases s@.len() - i,
    {
        if s[i] == b {
            return Some(i);
        }
        i = i + 1;
    }
    None
}

/// Skips leading heartbeat newlines.
pub fn skip_newlines(s: &Vec<u8>, from: usize) -> (r: usize)
    requires
        from <= s@.len(),
    ensures
        r as int == skip_nl(s@, from as int),
        from <= r <= s@.len(),
{
    let mut i = from;
    while i < s.len()
        invariant
            from <= i <= s@.len(),
            skip_nl(s@, from as int) == skip_nl(s@, i as int),
        decreases s@.len() - i,
    {
        if s[i] != NL {
            return i;
        }
        i = i + 1;
    }
    i
}

/// Copies the byte range `[from, to)`.
pub fn copy_range(s: &Vec<u8>, from: usize, to: usize) -> (r: Vec<u8>)
    requires
        from <= to <= s@.len(),
    ensures
        r@ == s@.subrange(from as int, to as int),
{
    let mut out: Vec<u8> = Vec::new();
    let mut i = from;
    while i < to
        invariant
            from <= i <= to <= s@.len(),
            out@ == s@.subrange(from as int, i as int),
        decreases to - i,
    {
        out.push(s[i]);
        proof {
            assert(s@.subrange(from as int, i as int + 1) =~= s@.subrange(from as int, i as int)
                + seq![s@[i as int]]);
            assert(out@ =~= s@.subrange(from as int, i as int) + seq![s@[i as int]]);
        }
        i = i + 1;
    }
    out
}

/// Byte-wise equality of two byte vectors.
pub fn bytes_eq(a: &Vec<u8>, b: &Vec<u8>) -> (r: bool)
    ensures
        r == (a@ == b@),
{
    if a.len() != b.len() {
        proof {
            assert(a@ != b@) by {
                if a@ == b@ {
                    assert(a@.len() == b@.len());
                }
            }
        }
        return false;
    }
    let mut i: usize = 0;
    while i < a.len()
        invariant
            i <= a@.len(),
            a@.len() == b@.len(),
            forall|k: int| 0 <= k < i ==> a@[k] == b@[k],
        decreases a@.len() - i,
    {
        if a[i] != b[i] {
            proof {
                assert(a@ != b@) by {
                    if a@ == b@ {
                        assert(a@[i as int] == b@[i as int]);
                    }
                }
            }
            return false;
        }
        i = i + 1;
    }
    proof {
        assert(a@ =~= b@);
    }
    true
}

/// Appends all of `s` to `out`.
pub fn push_all(out: &mut Vec<u8>, s: &Vec<u8>)
    ensures
        final (out)@ == old(out)@ + s@,
{
    let mut i: usize = 0;
    proof {
        assert(out@ =~= old(out)@ + s@.subrange(0, 0));
    }
    while i < s.len()
        invariant
            i <= s@.len(),
            out@ == old(out)@ + s@.subrange(0, i as int),
        decreases s@.len() - i,
    {
        out.push(s[i]);
        proof {
            assert(s@.subrange(0, i as int + 1) =~= s@.subrange(0, i as int) + seq![s@[i as int]]);
            assert(out@ =~= old(out)@ + s@.subrange(0, i as int + 1));
        }
        i = i + 1;
    }
    proof {
        assert(s@.subrange(0, s@.len() as int) =~= s@);
    }
}

/// The wire token of a command, as bytes.
pub fn cmd_token_vec(c: Command) -> (r: Vec<u8>)
    ensures
        r@ == cmd_token(c),
{
    let mut v: Vec<u8> = Vec::new();
    match c {
        Command::Connect => {
            v.push(67);
            v.push(79);
            v.push(78);
            v.push(78);
            v.push(69);
            v.push(67);
            v.push(84);
        },
        Command::Send => {
            v.push(83);
            v.push(69);
            v.push(78);
            v.push(68);
        },
        Command::Subscribe => {
            v.push(83);
            v.push(85);
            v.push(66);
            v.push(83);
            v.push(67);
            v.push(82);
            v.push(73);
            v.push(66);
            v.push(69);
        },
        Command::Unsubscribe => {
            v.push(85);
            v.push(78);
            v.push(83);
            v.push(85);
            v.push(66);
            v.push(83);
            v.push(67);
            v.push(82);
            v.push(73);
            v.push(66);
            v.push(69);
        },
        Command::Begin => {
            v.push(66);
            v.push(69);
            v.push(71);
            v.push(73);
            v.push(78);
        },
        Command::Commit => {
            v.push(67);
            v.push(79);
            v.push(77);
            v.push(77);
            v.push(73);
            v.push(84);
        },
        Command::Abort => {
            v.push(65);
            v.push(66);
            v.push(79);
            v.push(82);
            v.push(84);
        },
        Command::Ack => {
            v.push(65);
            v.push(67);
            v.push(75);
        },
        Command::Nack => {
            v.push(78);
            v.push(65);
            v.push(67);
            v.push(75);
        },
        Command::Disconnect => {
            v.push(68);
            v.push(73);
            v.push(83);
            v.push(67);
            v.push(79);
            v.push(78);
            v.push(78);
            v.push(69);
            v.push(67);
            v.push(84);
        },
        Command::Connected => {
            v.push(67);
            v.push(79);
            v.push(78);
            v.push(78);
            v.push(69);
            v.push(67);
            v.push(84);
            v.push(69);
            v.push(68);
        },
        Command::Message => {
            v.push(77);
            v.push(69);
            v.push(83);
            v.push(83);
            v.push(65);
            v.push(71);
            v.push(69);
        },
        Command::Receipt => {
            v.push(82);
            v.push(69);
            v.push(67);
            v.push(69);
            v.push(73);
            v.push(80);
            v.push(84);
        },
        Command::Error => {
            v.push(69);
            v.push(82);
            v.push(82);
            v.push(79);
            v.push(82);
        },
    }
    proof {
        assert(v@ =~= cmd_token(c));
    }
    v
}

/// The command named by a token, if it is in the closed set.
pub fn cmd_of_token(t: &Vec<u8>) -> (r: Option<Command>)
    ensures
        r == token_to_cmd(t@),
{
    if bytes_eq(t, &cmd_token_vec(Command::Connect)) {
        Some(Command::Connect)
    } else if bytes_eq(t, &cmd_token_vec(Command::Send)) {
        Some(Command::Send)
    } else if bytes_eq(t, &cmd_token_vec(Command::Subscribe)) {
        Some(Command::Subscribe)
    } else if bytes_eq(t, &cmd_token_vec(Command::Unsubscribe)) {
        Some(Command::Unsubscribe)
    } else if bytes_eq(t, &cmd_token_vec(Command::Begin)) {
        Some(Command::Begin)
    } else if bytes_eq(t, &cmd_token_vec(Command::Commit)) {
        Some(Command::Commit)
    } else if bytes_eq(t, &cmd_token_vec(Command::Abort)) {
        Some(Command::Abort)
    } else if bytes_eq(t, &cmd_token_vec(Command::Ack)) {
        Some(Command::Ack)
    } else if bytes_eq(t, &cmd_token_vec(Command::Nack)) {
        Some(Command::Nack)
    } else if bytes_eq(t, &cmd_token_vec(Command::Disconnect)) {
        Some(Command::Disconnect)
    } else if bytes_eq(t, &cmd_token_vec(Command::Connected)) {
        Some(Command::Connected)
    } else if bytes_eq(t, &cmd_token_vec(Command::Message)) {
        Some(Command::Message)
    } else if bytes_eq(t, &cmd_token_vec(Command::Receipt)) {
        Some(Command::Receipt)
    } else if bytes_eq(t, &cmd_token_vec(Command::Error)) {
        Some(Command::Error)
    } else {
        None
    }
}

/// The `content-length` key, as bytes.
pub fn cl_key_vec() -> (r: Vec<u8>)
    ensures
        r@ == cl_key(),
{
    let mut v: Vec<u8> = Vec::new();
    v.push(99);
    v.push(111);
    v.push(110);
    v.push(116);
    v.push(101);
    v.push(110);
    v.push(116);
    v.push(45);
    v.push(108);
    v.push(101);
    v.push(110);
    v.push(103);
    v.push(116);
    v.push(104);
    proof {
        assert(v@ =~= cl_key());
    }
    v
}

/// Writes one frame, command line first, then the synthesized
/// `content-length` header when a body is present, then the header lines,
/// the blank line, the body, and the terminator.
pub fn serialize_frame(f: &Frame) -> (r: Vec<u8>)
    ensures
        r@ == ser_frame(f@),
{
    let mut out: Vec<u8> = Vec::new();
    let tok = cmd_token_vec(f.command);
    push_all(&mut out, &tok);
    out.push(NL);
    match &f.body {
        Some(b) => {
            let ck = cl_key_vec();
            push_all(&mut out, &ck);
            out.push(COLON);
            let dec = u64_to_dec(b.len() as u64);
            push_all(&mut out, &dec);
            out.push(NL);
        },
        None => {},
    }
    let ghost pre = out@;
    proof {
        assert(hdrs_view(f.headers@).take(0) =~= Seq::<(Seq<u8>, Seq<u8>)>::empty());
    }
    let mut j: usize = 0;
    while j < f.headers.len()
        invariant
            j <= f.headers@.len(),
            out@ == pre + ser_headers(hdrs_view(f.headers@).take(j as int)),
        decreases f.headers@.len() - j,
    {
        let p = &f.headers[j];
        let ek = escape_bytes(&p.0);
        push_all(&mut out, &ek);
        out.push(COLON);
        let ev = escape_bytes(&p.1);
        push_all(&mut out, &ev);
        out.push(NL);
        proof {
            let hv = hdrs_view(f.headers@);
            let line = escape_seq(hv[j as int].0) + seq![COLON] + escape_seq(hv[j as int].1)
                + seq![NL];
            assert(hv.take(j as int + 1) =~= hv.take(j as int) + seq![hv[j as int]]);
            lemma_ser_headers_concat(hv.take(j as int), seq![hv[j as int]]);
            assert(seq![hv[j as int]].skip(1) =~= Seq::<(Seq<u8>, Seq<u8>)>::empty());
            assert(ser_headers(Seq::<(Seq<u8>, Seq<u8>)>::empty()) =~= Seq::<u8>::empty());
            assert(ser_headers(seq![hv[j as int]]) =~= line);
            assert(out@ =~= pre + ser_headers(hv.take(j as int + 1)));
        }
        j = j + 1;
    }
    proof {
        assert(hdrs_view(f.headers@).take(f.headers@.len() as int) =~= hdrs_view(f.headers@));
    }
    out.push(NL);
    match &f.body {
        Some(b) => {
            push_all(&mut out, b);
        },
        None => {},
    }
    out.push(TERM);
    proof {
        assert(out@ =~= ser_frame(f@));
    }
    out
}

/// Finds the first header pair whose key is `k`; the list length means
/// that no key matches.
pub fn key_find(hs: &Vec<(Vec<u8>, Vec<u8>)>, k: &Vec<u8>) -> (j: usize)
    ensures
        j as int == key_idx(hdrs_view(hs@), k@),
        j <= hs@.len(),
{
    let mut i: usize = 0;
    while i < hs.len()
        invariant
            i <= hs@.len(),
            forall|t: int| 0 <= t < i ==> hdrs_view(hs@)[t].0 != k@,
        decreases hs@.len() - i,
    {
        let p = &hs[i];
        if bytes_eq(&p.0, k) {
            proof {
                lemma_key_idx_is(hdrs_view(hs@), k@, i as int);
            }
            return i;
        }
        i = i + 1;
    }
    proof {
        lemma_key_idx_none(hdrs_view(hs@), k@);
    }
    hs.len()
}

/// Reads a decimal header value of at most 20 digits.
pub fn parse_digits(v: &Vec<u8>) -> (r: Option<u128>)
    ensures
        match r {
            Some(n) => 1 <= v@.len() <= 20 && all_digits(v@) && n as nat == digits_val(v@, 0) && (
            n as nat) < pow10(20),
            None => !(1 <= v@.len() <= 20 && all_digits(v@)),
        },
{
    if v.len() < 1 || v.len() > 20 {
        return None;
    }
    let mut val: u128 = 0;
    let mut i: usize = 0;
    proof {
        crate::num::lemma_pow10_20();
        assert(v@.take(0) =~= Seq::<u8>::empty());
    }
    while i < v.len()
        invariant
            i <= v@.len(),
            1 <= v@.len() <= 20,
            forall|t: int| 0 <= t < i ==> crate::num::is_digit(v@[t]),
            val as nat == digits_val(v@.take(i as int), 0),
            (val as nat) < pow10(i as nat),
            pow10(20) == 100000000000000000000nat,
        decreases v@.len() - i,
    {
        let d = v[i];
        if d < 48 || d > 57 {
            proof {
                assert(!crate::num::is_digit(v@[i as int]));
                assert(!all_digits(v@));
            }
            return None;
        }
        proof {
            lemma_pow10_mono(i as nat + 1, 20);
            assert((val as nat) * 10 + 9 < pow10(i as nat + 1)) by (nonlinear_arith)
                requires
                    (val as nat) < pow10(i as nat),
                    pow10(i as nat + 1) == 10 * pow10(i as nat),
            ;
        }
        let dv: u128 = (d - 48) as u128;
        val = val * 10 + dv;
        proof {
            let pre = v@.take(i as int);
            let one = seq![v@[i as int]];
            assert(v@.take(i as int + 1) =~= pre + one);
            lemma_digits_val_concat(pre, one, 0);
            let m = digits_val(pre, 0);
            assert(one.skip(1) =~= Seq::<u8>::empty());
            assert(digits_val(one, m) == digits_val(one.skip(1), m * 10 + ((one[0] - 48) as nat)));
        }
        i = i + 1;
    }
    proof {
        assert(v@.take(v@.len() as int) =~= v@);
        lemma_pow10_mono(v@.len() as nat, 20);
    }
    Some(val)
}

/// Copies a header list, leaving out the pair at `ci`.
pub fn remove_at(hs: &Vec<(Vec<u8>, Vec<u8>)>, ci: usize) -> (r: Vec<(Vec<u8>, Vec<u8>)>)
    requires
        ci < hs@.len(),
    ensures
        hdrs_view(r@) == hdrs_view(hs@).take(ci as int) + hdrs_view(hs@).skip(ci as int + 1),
{
    let mut out: Vec<(Vec<u8>, Vec<u8>)> = Vec::new();
    let mut j: usize = 0;
    let ghost hv = hdrs_view(hs@);
    while j < hs.len()
        invariant
            j <= hs@.len(),
            ci < hs@.len(),
            hv == hdrs_view(hs@),
            hdrs_view(out@) == if j <= ci {
                hv.take(j as int)
            } else {
                hv.take(ci as int) + hv.subrange(ci as int + 1, j as int)
            },
        decreases hs@.len() - j,
    {
        if j != ci {
            let p = &hs[j];
            let ck = copy_range(&p.0, 0, p.0.len());
            let cv = copy_range(&p.1, 0, p.1.len());
            proof {
                assert(p.0@.subrange(0, p.0@.len() as int) =~= p.0@);
                assert(p.1@.subrange(0, p.1@.len() as int) =~= p.1@);
            }
            let ghost prev = hdrs_view(out@);
            out.push((ck, cv));
            proof {
                assert(hdrs_view(out@) =~= prev + seq![(hv[j as int])]);
                if j < ci {
                    assert(hv.take(j as int + 1) =~= hv.take(j as int) + seq![(hv[j as int])]);
                    assert(hdrs_view(out@) =~= hv.take(j as int + 1));
                } else {
                    assert(hv.subrange(ci as int + 1, j as int + 1) =~= hv.subrange(
                        ci as int + 1,
                        j as int,
                    ) + seq![(hv[j as int])]);
                    assert(hdrs_view(out@) =~= hv.take(ci as int) + hv.subrange(
                        ci as int + 1,
                        j as int + 1,
                    ));
                }
            }
        } else {
            proof {
                assert(hv.take(ci as int) + hv.subrange(ci as int + 1, ci as int + 1) =~= hv.take(
                    ci as int,
                ));
            }
        }
        j = j + 1;
    }
    proof {
        assert(hv.subrange(ci as int + 1, hs@.len() as int) =~= hv.skip(ci as int + 1));
    }
    out
}

/// What parsing the header section yields, with decoded pairs.
pub enum HdrsParse {
    Incomplete,
    Malformed,
    Done { headers: Vec<(Vec<u8>, Vec<u8>)>, next: usize },
}

/// Prepending already-decoded pairs to a header-section outcome.
pub open spec fn h_prepend(acc: Seq<(Seq<u8>, Seq<u8>)>, r: HeadersSpecResult) -> HeadersSpecResult {
    match r {
        HeadersSpecResult::Done { headers, next } => HeadersSpecResult::Done {
            headers: acc + headers,
            next,
        },
        other => other,
    }
}

/// Parses header lines from `h0` to the blank line ending the section.
pub fn parse_headers(buf: &Vec<u8>, h0: usize) -> (r: HdrsParse)
    requires
        h0 <= buf@.len(),
    ensures
        match r {
            HdrsParse::Incomplete => parse_headers_spec(buf@, h0 as int) is Incomplete,
            HdrsParse::Malformed => parse_headers_spec(buf@, h0 as int) is Malformed,
            HdrsParse::Done { headers, next } => next <= buf@.len() && parse_headers_spec(
                buf@,
                h0 as int,
            ) == (HeadersSpecResult::Done { headers: hdrs_view(headers@), next: next as int }),
        },
{
    let mut acc: Vec<(Vec<u8>, Vec<u8>)> = Vec::new();
    let mut i: usize = h0;
    proof {
        assert(hdrs_view(acc@) =~= Seq::<(Seq<u8>, Seq<u8>)>::empty());
    }
    loop
        invariant
            h0 <= i <= buf@.len(),
            h_prepend(hdrs_view(acc@), parse_headers_spec(buf@, i as int)) == parse_headers_spec(
                buf@,
                h0 as int,
            ),
        decreases buf@.len() - i,
    {
        if i == buf.len() {
            return HdrsParse::Incomplete;
        }
        if buf[i] == NL {
            proof {
                let hv = hdrs_view(acc@);
                assert(hv + Seq::<(Seq<u8>, Seq<u8>)>::empty() =~= hv);
            }
            return HdrsParse::Done { headers: acc, next: i + 1 };
        }
        let e = match find_byte(buf, i, NL) {
            None => {
                return HdrsParse::Incomplete;
            },
            Some(e) => e,
        };
        proof {
            lemma_seq_find(buf@, i as int, NL);
        }
        let line = copy_range(buf, i, e);
        let c = match find_byte(&line, 0, COLON) {
            None => {
                return HdrsParse::Malformed;
            },
            Some(c) => c,
        };
        let kraw = copy_range(&line, 0, c);
        let vraw = copy_range(&line, c + 1, line.len());
        proof {
            assert(kraw@ =~= line@.take(c as int));
            assert(vraw@ =~= line@.skip(c as int + 1));
        }
        let k = match unescape_bytes(&kraw) {
            None => {
                return HdrsParse::Malformed;
            },
            Some(k) => k,
        };
        let v = match unescape_bytes(&vraw) {
            None => {
                return HdrsParse::Malformed;
            },
            Some(v) => v,
        };
        let ghost accv = hdrs_view(acc@);
        acc.push((k, v));
        proof {
            let hv = hdrs_view(acc@);
            assert(hv =~= accv + seq![(k@, v@)]);
            let rec = parse_headers_spec(buf@, e as int + 1);
            assert(parse_headers_spec(buf@, i as int) == h_prepend(seq![(k@, v@)], rec));
            match rec {
                HeadersSpecResult::Done { headers, next } => {
                    assert((accv + seq![(k@, v@)]) + headers =~= accv + (seq![(k@, v@)]
                        + headers));
                },
                _ => {},
            }
        }
        i = e + 1;
    }
}

/// The outcome of one incremental parse attempt over the buffer.
pub enum FrameParse {
    Incomplete,
    Malformed,
    Complete { frame: Frame, used: usize },
}

/// The exec outcome agrees with the parse specification.
pub open spec fn frame_parse_ok(r: FrameParse, s: ParseSpecResult) -> bool {
    match r {
        FrameParse::Incomplete => s is Incomplete,
        FrameParse::Malformed => s is Malformed,
        FrameParse::Complete { frame, used } => s == (ParseSpecResult::Done {
            frame: frame@,
            used: used as int,
        }),
    }
}

/// Attempts to parse exactly one frame starting at offset 0 of the
/// buffer. On success the returned count is the exact number of bytes
/// consumed; on "incomplete" the caller must append more bytes and retry;
/// "malformed" is terminal.
pub fn parse_frame(buf: &Vec<u8>) -> (r: FrameParse)
    ensures
        frame_parse_ok(r, parse_frame_spec(buf@)),
        match r {
            FrameParse::Complete { frame, used } => 0 < used <= buf@.len(),
            _ => true,
        },
{
    let start = skip_newlines(buf, 0);
    if start >= buf.len() {
        return FrameParse::Incomplete;
    }
    let e = match find_byte(buf, start, NL) {
        None => {
            return FrameParse::Incomplete;
        },
        Some(e) => e,
    };
    let tok = copy_range(buf, start, e);
    let cmd = match cmd_of_token(&tok) {
        None => {
            return FrameParse::Malformed;
        },
        Some(c) => c,
    };
    let (hdrs, next) = match parse_headers(buf, e + 1) {
        HdrsParse::Incomplete => {
            return FrameParse::Incomplete;
        },
        HdrsParse::Malformed => {
            return FrameParse::Malformed;
        },
        HdrsParse::Done { headers, next } => (headers, next),
    };
    let ghost hv = hdrs_view(hdrs@);
    let ck = cl_key_vec();
    let ci = key_find(&hdrs, &ck);
    if ci < hdrs.len() {
        let p = &hdrs[ci];
        let n = match parse_digits(&p.1) {
            None => {
                return FrameParse::Malformed;
            },
            Some(n) => n,
        };
        let remaining = buf.len() - next;
        proof {
            crate::num::lemma_pow10_20();
        }
        if (remaining as u128) < n + 1 {
            return FrameParse::Incomplete;
        }
        proof {
            assert(n <= usize::MAX as u128);
        }
        let nn = n as usize;
        if buf[next + nn] != TERM {
            return FrameParse::Malformed;
        }
        let body = copy_range(buf, next, next + nn);
        let outh = remove_at(&hdrs, ci);
        let frame = Frame { command: cmd, headers: outh, body: Some(body) };
        proof {
            let sp = parse_body_spec(buf@, next as int, cmd, hv);
            assert(sp == (ParseSpecResult::Done { frame: frame@, used: (next + nn + 1) as int }))
                by {
                assert(frame@ =~= FrameView {
                    command: cmd,
                    headers: hv.take(ci as int) + hv.skip(ci as int + 1),
                    body: Some(buf@.subrange(next as int, next as int + n as int)),
                });
            }
        }
        FrameParse::Complete { frame, used: next + nn + 1 }
    } else {
        match find_byte(buf, next, TERM) {
            None => FrameParse::Incomplete,
            Some(t) => {
                let body = if t == next {
                    None
                } else {
                    Some(copy_range(buf, next, t))
                };
                let frame = Frame { command: cmd, headers: hdrs, body };
                proof {
                    assert(frame@ =~= FrameView {
                        command: cmd,
                        headers: hv,
                        body: if t as int == next as int {
                            None
                        } else {
                            Some(buf@.subrange(next as int, t as int))
                        },
                    });
                }
                FrameParse::Complete { frame, used: t + 1 }
            },
        }
    }
}

} // verus!
