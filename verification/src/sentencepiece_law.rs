//! SentencePiece token text read back as the bytes it was made from.

use vstd::prelude::*;
use vstd::utf8::*;
use crate::gguf_info::{byte_fallback, byte_token, hex_digit_char, hex_pair, hex_value, markers_for_spaces, spaces_for_markers, spec_token_bytes, spec_token_from_bytes};

verus! {

/// Bytes that hold no `0xE2`, the lead byte of the marker's encoding.
pub open spec fn no_e2(b: Seq<u8>) -> bool {
    forall|i: int| 0 <= i < b.len() ==> b[i] != 0xe2
}

proof fn lemma_spaces_pass_over(b: Seq<u8>, x: Seq<u8>)
    requires
        no_e2(b),
    ensures
        spaces_for_markers(b + x) == b + spaces_for_markers(x),
    decreases b.len(),
{
    if b.len() > 0 {
        assert((b + x).subrange(1, (b + x).len() as int) =~= b.drop_first() + x);
        lemma_spaces_pass_over(b.drop_first(), x);
        assert(b + spaces_for_markers(x) =~= seq![b[0]] + (b.drop_first() + spaces_for_markers(x)));
    } else {
        assert(b + x =~= x);
        assert(b + spaces_for_markers(x) =~= spaces_for_markers(x));
    }
}

/// The encoding of any character but the marker passes through
/// `spaces_for_markers` unchanged.
proof fn lemma_scalar_passes(c: char, x: Seq<u8>)
    requires
        c != '\u{2581}',
    ensures
        spaces_for_markers(encode_scalar(c as u32) + x) == encode_scalar(c as u32) + spaces_for_markers(x),
{
    let u = c as u32;
    char_is_scalar(c);
    let b = encode_scalar(u);
    if has_width_1_encoding(u) {
        assert(leading_byte_width_1(u) < 0x80) by (bit_vector)
            requires
                u <= 0x7f,
        ;
        lemma_spaces_pass_over(b, x);
    } else if has_width_2_encoding(u) {
        assert(0xc0 <= leading_byte_width_2(u) <= 0xdf && 0x80 <= last_continuation_byte(u) <= 0xbf) by (bit_vector);
        lemma_spaces_pass_over(b, x);
    } else if has_width_3_encoding(u) {
        assert(0x80 <= last_continuation_byte(u) <= 0xbf && 0x80 <= second_last_continuation_byte(u) <= 0xbf)
            by (bit_vector);
        if leading_byte_width_3(u) == 0xe2 {
            assert(u != 0x2581) by {
                assert(c as u32 != '\u{2581}' as u32);
            }
            assert(!(second_last_continuation_byte(u) == 0x96 && last_continuation_byte(u) == 0x81)) by (bit_vector)
                requires
                    0x800 <= u <= 0xffff,
                    u != 0x2581,
                    leading_byte_width_3(u) == 0xe2,
            ;
            let r = b.drop_first();
            lemma_spaces_pass_over(r, x);
            assert((b + x).subrange(1, (b + x).len() as int) =~= r + x);
            assert(b + spaces_for_markers(x) =~= seq![b[0]] + (r + spaces_for_markers(x)));
        } else {
            lemma_spaces_pass_over(b, x);
        }
    } else {
        assert(0xf0 <= leading_byte_width_4(u) <= 0xf7 && 0x80 <= last_continuation_byte(u) <= 0xbf && 0x80
            <= second_last_continuation_byte(u) <= 0xbf && 0x80 <= third_last_continuation_byte(u) <= 0xbf)
            by (bit_vector);
        lemma_spaces_pass_over(b, x);
    }
}

/// Turning spaces into markers and back gives the original encoding.
proof fn lemma_markers_back(cs: Seq<char>)
    requires
        forall|i: int| 0 <= i < cs.len() ==> cs[i] != '\u{2581}',
    ensures
        spaces_for_markers(encode_utf8(markers_for_spaces(cs))) == encode_utf8(cs),
    decreases cs.len(),
{
    let ms = markers_for_spaces(cs);
    if cs.len() > 0 {
        let rest = cs.drop_first();
        assert(ms.drop_first() =~= markers_for_spaces(rest));
        lemma_markers_back(rest);
        let y = encode_utf8(markers_for_spaces(rest));
        if cs[0] == ' ' {
            let m: u32 = 0x2581;
            assert(encode_scalar(m) == seq![0xe2u8, 0x96u8, 0x81u8]) by {
                assert(leading_byte_width_3(m) == 0xe2 && second_last_continuation_byte(m) == 0x96
                    && last_continuation_byte(m) == 0x81) by (bit_vector)
                    requires
                        m == 0x2581,
                ;
            }
            assert(ms[0] as u32 == m);
            let sp: u32 = 0x20;
            assert(leading_byte_width_1(sp) == 0x20) by (bit_vector)
                requires
                    sp == 0x20,
            ;
            assert(cs[0] as u32 == sp);
            let e = seq![0xe2u8, 0x96u8, 0x81u8] + y;
            assert(e.subrange(3, e.len() as int) =~= y);
            assert(encode_utf8(cs) =~= seq![0x20u8] + encode_utf8(rest));
        } else {
            assert(ms[0] == cs[0]);
            lemma_scalar_passes(cs[0], y);
        }
    } else {
        assert(ms =~= cs);
    }
}

proof fn lemma_encode_concat(a: Seq<char>, b: Seq<char>)
    ensures
        encode_utf8(a + b) == encode_utf8(a) + encode_utf8(b),
    decreases a.len(),
{
    if a.len() > 0 {
        assert((a + b).drop_first() =~= a.drop_first() + b);
        lemma_encode_concat(a.drop_first(), b);
        assert(encode_utf8(a) + encode_utf8(b) =~= encode_scalar(a[0] as u32) + (encode_utf8(a.drop_first()) + encode_utf8(b)));
    } else {
        assert(a + b =~= b);
        assert(encode_utf8(a) + encode_utf8(b) =~= encode_utf8(b));
    }
}

/// Text with a space becomes, once its spaces are markers, no byte-fallback
/// token.
proof fn lemma_marked_not_byte_token(cs: Seq<char>, i: int)
    requires
        0 <= i < cs.len(),
        cs[i] == ' ',
    ensures
        byte_token(encode_utf8(markers_for_spaces(cs))) is None,
{
    let ms = markers_for_spaces(cs);
    let a = ms.take(i);
    let rest = ms.skip(i + 1);
    assert(ms =~= a + (seq![ms[i]] + rest));
    lemma_encode_concat(a, seq![ms[i]] + rest);
    lemma_encode_concat(seq![ms[i]], rest);
    let m: u32 = 0x2581;
    assert(encode_scalar(m) == seq![0xe2u8, 0x96u8, 0x81u8]) by {
        assert(leading_byte_width_3(m) == 0xe2 && second_last_continuation_byte(m) == 0x96
            && last_continuation_byte(m) == 0x81) by (bit_vector)
            requires
                m == 0x2581,
        ;
    }
    assert(ms[i] as u32 == m);
    assert(encode_utf8(seq![ms[i]]) =~= seq![0xe2u8, 0x96u8, 0x81u8]) by {
        let one = seq![ms[i]];
        assert(one.drop_first() =~= Seq::<char>::empty());
        assert(one[0] == ms[i]);
        assert(encode_utf8(one.drop_first()) =~= Seq::<u8>::empty());
        assert(encode_utf8(one) == encode_scalar(one[0] as u32) + encode_utf8(one.drop_first()));
    }
    let b = encode_utf8(ms);
    let k = encode_utf8(a).len() as int;
    assert(b[k] == 0xe2 && b[k + 1] == 0x96 && b[k + 2] == 0x81);
}

proof fn lemma_hex_digit_back(d: int)
    requires
        0 <= d < 16,
    ensures
        hex_value(hex_digit_char(d) as u8) == Some(d),
{
}

/// The byte-fallback token of a byte reads back as that byte.
pub proof fn lemma_fallback_round_trip(v: u8)
    ensures
        spec_token_bytes(byte_fallback(v)) == seq![v],
{
    let t = byte_fallback(v);
    assert(is_ascii_chars(t)) by {
        assert forall|i: int| 0 <= i < t.len() implies '\0' <= #[trigger] t[i] <= '\u{7f}' by {}
    }
    is_ascii_chars_encode_utf8(t);
    let b = encode_utf8(t);
    assert(b[0] == 0x3c && b[1] == 0x30 && b[2] == 0x78 && b[5] == 0x3e) by {
        assert(t[0] as u8 == b[0]);
        assert(t[1] as u8 == b[1]);
        assert(t[2] as u8 == b[2]);
        assert(t[5] as u8 == b[5]);
    }
    assert(t[3] as u8 == b[3] && t[4] as u8 == b[4]);
    lemma_hex_digit_back(v as int / 16);
    lemma_hex_digit_back(v as int % 16);
    assert(b[3] != 0x2b);
    assert(hex_pair(b[3], b[4]) == Some(v as int));
}

/// SentencePiece text read back as bytes gives the piece it was made from,
/// for every piece of one byte, and for every valid UTF-8 piece that holds
/// no `\u{2581}` and is not itself a `<0xNN>` byte-fallback text.
pub proof fn lemma_token_round_trip(p: Seq<u8>)
    requires
        p.len() == 1 || (valid_utf8(p) && byte_token(p) is None && forall|i: int|
            0 <= i < decode_utf8(p).len() ==> decode_utf8(p)[i] != '\u{2581}'),
    ensures
        spec_token_bytes(spec_token_from_bytes(p)) == p,
{
    if p.len() == 1 && (p[0] < 0x20 || p[0] >= 0x7f) {
        lemma_fallback_round_trip(p[0]);
        assert(seq![p[0]] =~= p);
    } else if p.len() == 1 {
        let c = p[0] as char;
        let one = seq![c];
        assert(is_ascii_chars(one));
        is_ascii_chars_encode_utf8(one);
        assert(encode_utf8(one) =~= p);
        encode_utf8_valid_utf8(one);
        encode_utf8_decode_utf8(one);
        assert(decode_utf8(p) == one);
        lemma_token_round_trip_text(p);
    } else if valid_utf8(p) {
        lemma_token_round_trip_text(p);
    } else {
        lemma_fallback_round_trip(p[0]);
        assert(seq![p[0]] =~= p);
    }
}

proof fn lemma_token_round_trip_text(p: Seq<u8>)
    requires
        valid_utf8(p),
        !(p.len() == 1 && (p[0] < 0x20 || p[0] >= 0x7f)),
        byte_token(p) is None,
        forall|i: int| 0 <= i < decode_utf8(p).len() ==> decode_utf8(p)[i] != '\u{2581}',
    ensures
        spec_token_bytes(spec_token_from_bytes(p)) == p,
{
    {
        let cs = decode_utf8(p);
        decode_utf8_encode_utf8(p);
        lemma_markers_back(cs);
        if exists|i: int| 0 <= i < cs.len() && cs[i] == ' ' {
            let i = choose|i: int| 0 <= i < cs.len() && cs[i] == ' ';
            lemma_marked_not_byte_token(cs, i);
        } else {
            assert(markers_for_spaces(cs) =~= cs);
        }
    }
}

} // verus!
