//! Escape encoding for header keys and values.
//!
//! A header line is `KEY ":" VALUE NEWLINE`; so that keys and values may
//! contain colons, newlines and backslashes, those three bytes are written
//! as the two-byte sequences `\c`, `\n` and `\\`. Any other byte after a
//! backslash, or a trailing lone backslash, is a decode error.

use vstd::prelude::*;

verus! {

/// Line feed: ends the command line and each header line.
pub const NL: u8 = 10;
/// Colon: separates a header key from its value.
pub const COLON: u8 = 58;
/// Backslash: starts every escape sequence.
pub const BSLASH: u8 = 92;
/// The frame terminator byte.
pub const TERM: u8 = 0;
/// ASCII `n`: second byte of the escape for a line feed.
pub const LETTER_N: u8 = 110;
/// ASCII `c`: second byte of the escape for a colon.
pub const LETTER_C: u8 = 99;

/// The one- or two-byte encoding of a single byte.
pub open spec fn escape_byte(b: u8) -> Seq<u8> {
    if b == BSLASH {
        seq![BSLASH, BSLASH]
    } else if b == NL {
        seq![BSLASH, LETTER_N]
    } else if b == COLON {
        seq![BSLASH, LETTER_C]
    } else {
        seq![b]
    }
}

/// The escaped form of a byte sequence.
pub open spec fn escape_seq(s: Seq<u8>) -> Seq<u8>
    decreases s.len(),
{
    if s.len() == 0 {
        Seq::empty()
    } else {
        escape_byte(s[0]) + escape_seq(s.skip(1))
    }
}

/// The byte encoded by the byte after a backslash, if the pair is a
/// valid escape sequence.
pub open spec fn unescape_byte(b: u8) -> Option<u8> {
    if b == BSLASH {
        Some(BSLASH)
    } else if b == LETTER_N {
        Some(NL)
    } else if b == LETTER_C {
        Some(COLON)
    } else {
        None
    }
}

/// The decoded form of an escaped byte sequence, or `None` when the
/// sequence holds an invalid escape or ends in a lone backslash.
pub open spec fn unescape_seq(s: Seq<u8>) -> Option<Seq<u8>>
    decreases s.len(),
{
    if s.len() == 0 {
        Some(Seq::empty())
    } else if s[0] == BSLASH {
        if s.len() == 1 {
            None
        } else {
            match (unescape_byte(s[1]), unescape_seq(s.skip(2))) {
                (Some(b), Some(rest)) => Some(seq![b] + rest),
                _ => None,
            }
        }
    } else {
        match unescape_seq(s.skip(1)) {
            Some(rest) => Some(seq![s[0]] + rest),
            None => None,
        }
    }
}

/// Escaping distributes over concatenation.
pub proof fn lemma_escape_concat(a: Seq<u8>, b: Seq<u8>)
    ensures
        escape_seq(a + b) == escape_seq(a) + escape_seq(b),
    decreases a.len(),
{
    if a.len() == 0 {
        assert(a + b =~= b);
        assert(escape_seq(a) + escape_seq(b) =~= escape_seq(b));
    } else {
        assert((a + b).skip(1) =~= a.skip(1) + b);
        lemma_escape_concat(a.skip(1), b);
        assert((a + b)[0] == a[0]);
        assert(escape_byte(a[0]) + (escape_seq(a.skip(1)) + escape_seq(b)) =~= (escape_byte(a[0])
            + escape_seq(a.skip(1))) + escape_seq(b));
    }
}

/// An escaped sequence contains no raw newline and no raw colon, so the
/// line and key/value framing of a header line cannot be disturbed by
/// its content.
pub proof fn lemma_escape_clean(s: Seq<u8>)
    ensures
        forall|i: int|
            0 <= i < escape_seq(s).len() ==> escape_seq(s)[i] != NL && escape_seq(s)[i] != COLON,
    decreases s.len(),
{
    if s.len() > 0 {
        lemma_escape_clean(s.skip(1));
        assert forall|i: int|
            0 <= i < escape_seq(s).len() implies escape_seq(s)[i] != NL && escape_seq(s)[i]
            != COLON by {
            let hb = escape_byte(s[0]);
            if i < hb.len() {
                assert(escape_seq(s)[i] == hb[i]);
            } else {
                assert(escape_seq(s)[i] == escape_seq(s.skip(1))[i - hb.len()]);
            }
        }
    }
}

/// Decoding inverts encoding: a header key or value containing colons,
/// newlines and backslashes round-trips exactly through escape/unescape.
pub proof fn lemma_unescape_escape(s: Seq<u8>)
    ensures
        unescape_seq(escape_seq(s)) == Some(s),
    decreases s.len(),
{
    if s.len() == 0 {
        assert(escape_seq(s).len() == 0);
    } else {
        lemma_unescape_escape(s.skip(1));
        let hb = escape_byte(s[0]);
        let e = escape_seq(s);
        assert(e == hb + escape_seq(s.skip(1)));
        if s[0] == BSLASH || s[0] == NL || s[0] == COLON {
            assert(e[0] == BSLASH);
            assert(e[1] == hb[1]);
            assert(unescape_byte(e[1]) == Some(s[0]));
            assert(e.skip(2) =~= escape_seq(s.skip(1)));
            assert(seq![s[0]] + s.skip(1) =~= s);
        } else {
            assert(e[0] == s[0] && e[0] != BSLASH);
            assert(e.skip(1) =~= escape_seq(s.skip(1)));
            assert(seq![s[0]] + s.skip(1) =~= s);
        }
    }
}

/// Encodes a byte sequence for use in a header line.
pub fn escape_bytes(s: &Vec<u8>) -> (r: Vec<u8>)
    ensures
        r@ == escape_seq(s@),
{
    let mut out: Vec<u8> = Vec::new();
    let mut i: usize = 0;
    while i < s.len()
        invariant
            i <= s.len(),
            out@ == escape_seq(s@.take(i as int)),
        decreases s.len() - i,
    {
        let b = s[i];
        if b == BSLASH {
            out.push(BSLASH);
            out.push(BSLASH);
        } else if b == NL {
            out.push(BSLASH);
            out.push(LETTER_N);
        } else if b == COLON {
            out.push(BSLASH);
            out.push(LETTER_C);
        } else {
            out.push(b);
        }
        proof {
            let pre = s@.take(i as int);
            let one = seq![s@[i as int]];
            assert(s@.take(i as int + 1) =~= pre + one);
            lemma_escape_concat(pre, one);
            assert(one.skip(1) =~= Seq::<u8>::empty());
            assert(escape_seq(Seq::<u8>::empty()) =~= Seq::<u8>::empty());
            assert(escape_seq(one) =~= escape_byte(s@[i as int]));
            assert(out@ =~= escape_seq(pre) + escape_byte(s@[i as int]));
        }
        i = i + 1;
    }
    proof {
        assert(s@.take(s@.len() as int) =~= s@);
    }
    out
}

/// Decodes an escaped byte sequence, or reports the invalid escape.
pub fn unescape_bytes(s: &Vec<u8>) -> (r: Option<Vec<u8>>)
    ensures
        match r {
            Some(v) => unescape_seq(s@) == Some(v@),
            None => unescape_seq(s@) is None,
        },
{
    let mut out: Vec<u8> = Vec::new();
    let mut i: usize = 0;
    proof {
        assert(s@.skip(0) =~= s@);
    }
    while i < s.len()
        invariant
            i <= s.len(),
            unescape_seq(s@) == (match unescape_seq(s@.skip(i as int)) {
                Some(rest) => Some(out@ + rest),
                None => None::<Seq<u8>>,
            }),
        decreases s.len() - i,
    {
        let ghost tail = s@.skip(i as int);
        let b = s[i];
        assert(tail[0] == b);
        if b == BSLASH {
            if i + 1 >= s.len() {
                proof {
                    assert(tail.len() == 1);
                }
                return None;
            }
            let c = s[i + 1];
            assert(tail[1] == c);
            let dec: u8 = if c == BSLASH {
                BSLASH
            } else if c == LETTER_N {
                NL
            } else if c == LETTER_C {
                COLON
            } else {
                proof {
                    assert(unescape_byte(tail[1]) is None);
                }
                return None;
            };
            assert(unescape_byte(tail[1]) == Some(dec));
            out.push(dec);
            proof {
                assert(tail.skip(2) =~= s@.skip(i as int + 2));
                if unescape_seq(s@.skip(i as int + 2)) is Some {
                    let rest = unescape_seq(s@.skip(i as int + 2)).unwrap();
                    assert(unescape_seq(tail) == Some(seq![dec] + rest));
                    assert(out@ + rest =~= (out@.drop_last() + seq![dec]) + rest);
                    assert(out@.drop_last() + (seq![dec] + rest) =~= (out@.drop_last() + seq![dec])
                        + rest);
                }
            }
            i = i + 2;
        } else {
            out.push(b);
            proof {
                assert(tail.skip(1) =~= s@.skip(i as int + 1));
                if unescape_seq(s@.skip(i as int + 1)) is Some {
                    let rest = unescape_seq(s@.skip(i as int + 1)).unwrap();
                    assert(unescape_seq(tail) == Some(seq![b] + rest));
                    assert(out@.drop_last() + (seq![b] + rest) =~= (out@.drop_last() + seq![b])
                        + rest);
                    assert(out@ + rest =~= (out@.drop_last() + seq![b]) + rest);
                }
            }
            i = i + 1;
        }
    }
    proof {
        assert(s@.skip(s@.len() as int) =~= Seq::<u8>::empty());
        assert(out@ + Seq::<u8>::empty() =~= out@);
    }
    Some(out)
}

} // verus!
