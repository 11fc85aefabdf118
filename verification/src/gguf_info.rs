//! SentencePiece vocabulary pieces as GGUF stores them: byte-fallback
//! tokens `<0xNN>` and the `\u{2581}` word-boundary marker.

use vstd::prelude::*;
use vstd::string::*;
use vstd::utf8::{decode_utf8, encode_utf8, valid_utf8};
use crate::msgpack::utf8_string;
use crate::text::{chars_of, push_char};
use crate::zip::{lossy_string, lossy_utf8};

verus! {

/// Value of an ASCII hexadecimal digit.
pub open spec fn hex_value(b: u8) -> Option<int> {
    if 0x30 <= b <= 0x39 {
        Some(b - 0x30)
    } else if 0x41 <= b <= 0x46 {
        Some(b - 0x41 + 10)
    } else if 0x61 <= b <= 0x66 {
        Some(b - 0x61 + 10)
    } else {
        None
    }
}

/// What `u8::from_str_radix(.., 16)` makes of two bytes: an optional `+`
/// and one digit, or two digits.
pub open spec fn hex_pair(b0: u8, b1: u8) -> Option<int> {
    if b0 == 0x2b {
        hex_value(b1)
    } else {
        match (hex_value(b0), hex_value(b1)) {
            (Some(h), Some(l)) => Some(16 * h + l),
            _ => None,
        }
    }
}

/// The byte a `<0xNN>` fallback token stands for.
pub open spec fn byte_token(b: Seq<u8>) -> Option<u8> {
    if b.len() == 6 && b[0] == 0x3c && b[1] == 0x30 && b[2] == 0x78 && b[5] == 0x3e {
        match hex_pair(b[3], b[4]) {
            Some(v) => Some(v as u8),
            None => None,
        }
    } else {
        None
    }
}

/// Every UTF-8 `\u{2581}` (bytes E2 96 81), left to right, turned into a space.
pub open spec fn spaces_for_markers(b: Seq<u8>) -> Seq<u8>
    decreases b.len(),
{
    if b.len() == 0 {
        b
    } else if b.len() >= 3 && b[0] == 0xe2 && b[1] == 0x96 && b[2] == 0x81 {
        seq![0x20u8] + spaces_for_markers(b.subrange(3, b.len() as int))
    } else {
        seq![b[0]] + spaces_for_markers(b.subrange(1, b.len() as int))
    }
}

/// The raw bytes a SentencePiece token stands for.
pub open spec fn spec_token_bytes(token: Seq<char>) -> Seq<u8> {
    let b = encode_utf8(token);
    match byte_token(b) {
        Some(v) => seq![v],
        None => spaces_for_markers(b),
    }
}

fn hex_value_of(b: u8) -> (r: Option<u8>)
    ensures
        match hex_value(b) {
            Some(v) => r == Some(v as u8),
            None => r is None,
        },
{
    if 0x30 <= b && b <= 0x39 {
        Some(b - 0x30)
    } else if 0x41 <= b && b <= 0x46 {
        Some(b - 0x41 + 10)
    } else if 0x61 <= b && b <= 0x66 {
        Some(b - 0x61 + 10)
    } else {
        None
    }
}

/// Raw bytes of a SentencePiece token: `<0xNN>` byte fallbacks decode to
/// their byte; otherwise `\u{2581}` becomes a space.
pub fn sentencepiece_token_bytes(token: &str) -> (out: Vec<u8>)
    ensures
        out@ == spec_token_bytes(token@),
{
    let b = token.as_bytes();
    if b.len() == 6 && b[0] == 0x3C && b[1] == 0x30 && b[2] == 0x78 && b[5] == 0x3E {
        let v = if b[3] == 0x2B {
            hex_value_of(b[4])
        } else {
            match (hex_value_of(b[3]), hex_value_of(b[4])) {
                (Some(h), Some(l)) => Some(16 * h + l),
                _ => None,
            }
        };
        match v {
            Some(byte) => {
                let mut out: Vec<u8> = Vec::new();
                out.push(byte);
                return out;
            },
            None => {},
        }
    }
    assert(b@ == encode_utf8(token@));
    assert(byte_token(b@) is None);
    let n = b.len();
    let mut out: Vec<u8> = Vec::with_capacity(n);
    let mut i: usize = 0;
    proof {
        assert(b@.subrange(0, n as int) =~= b@);
        assert(out@ + spaces_for_markers(b@) =~= spaces_for_markers(b@));
    }
    while i < n
        invariant
            n == b@.len(),
            b@ == encode_utf8(token@),
            byte_token(b@) is None,
            i <= n,
            spaces_for_markers(b@) == out@ + spaces_for_markers(b@.subrange(i as int, n as int)),
        decreases n - i,
    {
        let ghost rest = b@.subrange(i as int, n as int);
        if n - i >= 3 && b[i] == 0xE2 && b[i + 1] == 0x96 && b[i + 2] == 0x81 {
            proof {
                assert(rest.subrange(3, rest.len() as int) =~= b@.subrange(i + 3, n as int));
                assert(out@ + spaces_for_markers(rest) =~= out@.push(0x20) + spaces_for_markers(b@.subrange(i + 3, n as int)));
            }
            out.push(0x20);
            i = i + 3;
        } else {
            proof {
                assert(rest.subrange(1, rest.len() as int) =~= b@.subrange(i + 1, n as int));
                assert(out@ + spaces_for_markers(rest) =~= out@.push(b@[i as int]) + spaces_for_markers(b@.subrange(i + 1, n as int)));
            }
            out.push(b[i]);
            i = i + 1;
        }
    }
    proof {
        assert(out@ + spaces_for_markers(b@.subrange(n as int, n as int)) =~= out@);
    }
    out
}

/// An uppercase hexadecimal digit.
pub open spec fn hex_digit_char(d: int) -> char {
    if d < 10 { (48 + d) as char } else { (55 + d) as char }
}

/// The `<0xNN>` fallback token of a byte.
pub open spec fn byte_fallback(v: u8) -> Seq<char> {
    seq!['<', '0', 'x', hex_digit_char(v as int / 16), hex_digit_char(v as int % 16), '>']
}

/// Each space replaced by `\u{2581}`.
pub open spec fn markers_for_spaces(cs: Seq<char>) -> Seq<char> {
    Seq::new(cs.len(), |i: int| if cs[i] == ' ' { '\u{2581}' } else { cs[i] })
}

/// The SentencePiece token for raw piece bytes.
pub open spec fn spec_token_from_bytes(p: Seq<u8>) -> Seq<char> {
    if p.len() == 1 && (p[0] < 0x20 || p[0] >= 0x7f) {
        byte_fallback(p[0])
    } else if valid_utf8(p) {
        markers_for_spaces(decode_utf8(p))
    } else if p.len() == 1 {
        byte_fallback(p[0])
    } else {
        markers_for_spaces(lossy_utf8(p))
    }
}

fn hex_digit(d: u8) -> (c: char)
    requires
        d < 16,
    ensures
        c == hex_digit_char(d as int),
{
    if d < 10 { (48 + d) as char } else { (55 + d) as char }
}

fn fallback_token(v: u8) -> (s: String)
    ensures
        s@ == byte_fallback(v),
{
    let mut s = String::new();
    push_char(&mut s, '<');
    push_char(&mut s, '0');
    push_char(&mut s, 'x');
    push_char(&mut s, hex_digit(v / 16));
    push_char(&mut s, hex_digit(v % 16));
    push_char(&mut s, '>');
    assert(s@ =~= byte_fallback(v));
    s
}

fn with_markers(text: &str) -> (s: String)
    ensures
        s@ == markers_for_spaces(text@),
{
    let cs = chars_of(text);
    let mut s = String::new();
    let mut i: usize = 0;
    while i < cs.len()
        invariant
            cs@ == text@,
            i <= cs@.len(),
            s@ == markers_for_spaces(cs@).take(i as int),
        decreases cs@.len() - i,
    {
        let c = cs[i];
        if c == ' ' {
            push_char(&mut s, '\u{2581}');
        } else {
            push_char(&mut s, c);
        }
        i = i + 1;
        assert(s@ =~= markers_for_spaces(cs@).take(i as int));
    }
    assert(markers_for_spaces(cs@).take(cs@.len() as int) =~= markers_for_spaces(cs@));
    s
}

/// Encode raw piece bytes as a SentencePiece token string (inverse of
/// [`sentencepiece_token_bytes`]): spaces become `\u{2581}`, control and
/// non-ASCII single bytes become `<0xNN>` fallbacks.
pub fn sentencepiece_token_from_bytes(piece: &[u8]) -> (s: String)
    ensures
        s@ == spec_token_from_bytes(piece@),
{
    if piece.len() == 1 && (piece[0] < 0x20 || piece[0] >= 0x7F) {
        return fallback_token(piece[0]);
    }
    match utf8_string(crate::bytes::copy_range(piece, 0, piece.len())) {
        Some(text) => {
            proof {
                assert(piece@.subrange(0, piece@.len() as int) =~= piece@);
            }
            with_markers(text.as_str())
        },
        None => {
            proof {
                assert(piece@.subrange(0, piece@.len() as int) =~= piece@);
            }
            if piece.len() == 1 {
                fallback_token(piece[0])
            } else {
                let text = lossy_string(piece);
                with_markers(text.as_str())
            }
        },
    }
}

} // verus!
