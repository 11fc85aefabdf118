//! MessagePack codec: nil, bool, every integer width, f32/f64 (carried as
//! their IEEE-754 bit patterns), str, bin, array, map and ext.

use vstd::prelude::*;
use vstd::utf8::*;
use vstd::string::*;
use crate::bytes::{copy_range, push_all};
use crate::error::MmnError;

verus! {

/// One MessagePack value. Floats are held as their IEEE-754 bit patterns,
/// exactly as they travel on the wire.
#[derive(Debug, PartialEq)]
pub enum Value {
    Nil,
    Bool(bool),
    Int(i64),
    UInt(u64),
    F32(u32),
    F64(u64),
    Str(String),
    Bin(Vec<u8>),
    Array(Vec<Value>),
    /// Key/value pairs in wire order.
    Mapping(Vec<(Value, Value)>),
    Ext(i8, Vec<u8>),
}

/// The mathematical content of a [`Value`].
pub enum MsgValue {
    Nil,
    Bool(bool),
    Int(i64),
    UInt(u64),
    F32(u32),
    F64(u64),
    Str(Seq<char>),
    Bin(Seq<u8>),
    Array(Seq<MsgValue>),
    Mapping(Seq<(MsgValue, MsgValue)>),
    Ext(i8, Seq<u8>),
}

pub open spec fn value_view(v: Value) -> MsgValue
    decreases v,
{
    match v {
        Value::Nil => MsgValue::Nil,
        Value::Bool(b) => MsgValue::Bool(b),
        Value::Int(n) => MsgValue::Int(n),
        Value::UInt(n) => MsgValue::UInt(n),
        Value::F32(b) => MsgValue::F32(b),
        Value::F64(b) => MsgValue::F64(b),
        Value::Str(s) => MsgValue::Str(s@),
        Value::Bin(b) => MsgValue::Bin(b@),
        Value::Array(items) => MsgValue::Array(
            Seq::new(items@.len(), |i: int| if 0 <= i < items@.len() { value_view(items@[i]) } else { MsgValue::Nil }),
        ),
        Value::Mapping(pairs) => MsgValue::Mapping(
            Seq::new(pairs@.len(), |i: int| if 0 <= i < pairs@.len() {
                (value_view(pairs@[i].0), value_view(pairs@[i].1))
            } else {
                (MsgValue::Nil, MsgValue::Nil)
            }),
        ),
        Value::Ext(t, d) => MsgValue::Ext(t, d@),
    }
}

impl View for Value {
    type V = MsgValue;

    open spec fn view(&self) -> MsgValue {
        value_view(*self)
    }
}


/// The two big-endian bytes of `v`.
pub open spec fn be16(v: int) -> Seq<u8> {
    seq![((v / 256) % 256) as u8, (v % 256) as u8]
}

/// The four big-endian bytes of `v`.
pub open spec fn be32(v: int) -> Seq<u8> {
    be16((v / 0x1_0000) % 0x1_0000) + be16(v % 0x1_0000)
}

/// The eight big-endian bytes of `v`.
pub open spec fn be64(v: int) -> Seq<u8> {
    be32((v / 0x1_0000_0000) % 0x1_0000_0000) + be32(v % 0x1_0000_0000)
}

/// Shortest encoding of a non-negative integer.
pub open spec fn uint_bytes(n: int) -> Seq<u8> {
    if n <= 0x7f {
        seq![n as u8]
    } else if n <= 0xff {
        seq![0xccu8, n as u8]
    } else if n <= 0xffff {
        seq![0xcdu8] + be16(n)
    } else if n <= 0xffff_ffff {
        seq![0xceu8] + be32(n)
    } else {
        seq![0xcfu8] + be64(n)
    }
}

/// Shortest encoding of a signed integer (non-negative ones as unsigned).
pub open spec fn int_bytes(n: int) -> Seq<u8> {
    if n >= 0 {
        uint_bytes(n)
    } else if n >= -32 {
        seq![(n + 0x100) as u8]
    } else if n >= -0x80 {
        seq![0xd0u8, (n + 0x100) as u8]
    } else if n >= -0x8000 {
        seq![0xd1u8] + be16(n + 0x1_0000)
    } else if n >= -0x8000_0000 {
        seq![0xd2u8] + be32(n + 0x1_0000_0000)
    } else {
        seq![0xd3u8] + be64(n + 0x1_0000_0000_0000_0000)
    }
}

/// Header of a string whose UTF-8 form is `n` bytes long.
pub open spec fn str_header(n: int) -> Seq<u8> {
    if n <= 31 {
        seq![(0xa0 + n) as u8]
    } else if n <= 0xff {
        seq![0xd9u8, n as u8]
    } else if n <= 0xffff {
        seq![0xdau8] + be16(n)
    } else {
        seq![0xdbu8] + be32(n % 0x1_0000_0000)
    }
}

/// Header of a byte string of `n` bytes.
pub open spec fn bin_header(n: int) -> Seq<u8> {
    if n <= 0xff {
        seq![0xc4u8, n as u8]
    } else if n <= 0xffff {
        seq![0xc5u8] + be16(n)
    } else {
        seq![0xc6u8] + be32(n % 0x1_0000_0000)
    }
}

/// Header of an array of `n` items.
pub open spec fn array_header(n: int) -> Seq<u8> {
    if n <= 15 {
        seq![(0x90 + n) as u8]
    } else if n <= 0xffff {
        seq![0xdcu8] + be16(n)
    } else {
        seq![0xddu8] + be32(n % 0x1_0000_0000)
    }
}

/// Header of a map of `n` pairs.
pub open spec fn map_header(n: int) -> Seq<u8> {
    if n <= 15 {
        seq![(0x80 + n) as u8]
    } else if n <= 0xffff {
        seq![0xdeu8] + be16(n)
    } else {
        seq![0xdfu8] + be32(n % 0x1_0000_0000)
    }
}

/// Header of an extension payload of `n` bytes (the type byte follows it).
pub open spec fn ext_header(n: int) -> Seq<u8> {
    if n == 1 {
        seq![0xd4u8]
    } else if n == 2 {
        seq![0xd5u8]
    } else if n == 4 {
        seq![0xd6u8]
    } else if n == 8 {
        seq![0xd7u8]
    } else if n == 16 {
        seq![0xd8u8]
    } else if n <= 0xff {
        seq![0xc7u8, n as u8]
    } else if n <= 0xffff {
        seq![0xc8u8] + be16(n)
    } else {
        seq![0xc9u8] + be32(n % 0x1_0000_0000)
    }
}

/// The byte that carries an extension type.
pub open spec fn ext_type_byte(t: i8) -> u8 {
    if t < 0 { (t + 0x100) as u8 } else { t as u8 }
}

/// The canonical (shortest-form) encoding of a value.
pub open spec fn spec_encode(v: MsgValue) -> Seq<u8>
    decreases v,
{
    match v {
        MsgValue::Nil => seq![0xc0u8],
        MsgValue::Bool(b) => if b { seq![0xc3u8] } else { seq![0xc2u8] },
        MsgValue::Int(n) => int_bytes(n as int),
        MsgValue::UInt(n) => uint_bytes(n as int),
        MsgValue::F32(b) => seq![0xcau8] + be32(b as int),
        MsgValue::F64(b) => seq![0xcbu8] + be64(b as int),
        MsgValue::Str(cs) => str_header(encode_utf8(cs).len() as int) + encode_utf8(cs),
        MsgValue::Bin(b) => bin_header(b.len() as int) + b,
        MsgValue::Array(items) => array_header(items.len() as int) + encode_items(items),
        MsgValue::Mapping(ps) => map_header(ps.len() as int) + encode_pairs(ps),
        MsgValue::Ext(t, d) => ext_header(d.len() as int) + seq![ext_type_byte(t)] + d,
    }
}

/// The encodings of `items`, back to back.
pub open spec fn encode_items(items: Seq<MsgValue>) -> Seq<u8>
    decreases items,
{
    if items.len() == 0 {
        seq![]
    } else {
        encode_items(items.subrange(0, items.len() - 1)) + spec_encode(items[items.len() - 1])
    }
}

/// The encodings of each key followed by its value, pair after pair.
pub open spec fn encode_pairs(ps: Seq<(MsgValue, MsgValue)>) -> Seq<u8>
    decreases ps,
{
    if ps.len() == 0 {
        seq![]
    } else {
        let last = ps[ps.len() - 1];
        encode_pairs(ps.subrange(0, ps.len() - 1)) + spec_encode(last.0) + spec_encode(last.1)
    }
}

/// Big-endian value of the `w` bytes at `p` (`w` one of 1, 2, 4, 8).
pub open spec fn be_at(s: Seq<u8>, p: int, w: int) -> int
    decreases w,
{
    if w <= 1 {
        s[p] as int
    } else if w == 2 {
        s[p] * 0x100 + s[p + 1]
    } else if w == 4 {
        be_at(s, p, 2) * 0x1_0000 + be_at(s, p + 2, 2)
    } else if w == 8 {
        be_at(s, p, 4) * 0x1_0000_0000 + be_at(s, p + 4, 4)
    } else {
        0
    }
}

/// `2^(8w)`, the number of values a `w`-byte field can hold.
pub open spec fn field_range(w: int) -> int {
    if w == 1 {
        0x100
    } else if w == 2 {
        0x1_0000
    } else if w == 4 {
        0x1_0000_0000
    } else {
        0x1_0000_0000_0000_0000
    }
}

/// A `w`-byte field read as a two's-complement signed number.
pub open spec fn signed_field(u: int, w: int) -> int {
    if 2 * u >= field_range(w) { u - field_range(w) } else { u }
}

/// `2^k` for the small `k` that pick field widths out of tag bytes.
pub open spec fn width_of(k: int) -> int {
    if k == 0 {
        1
    } else if k == 1 {
        2
    } else if k == 2 {
        4
    } else if k == 3 {
        8
    } else {
        16
    }
}

/// The value that starts at `pos` and the position just past it, or `None`
/// when the bytes there are no well-formed value.
pub open spec fn parse_at(s: Seq<u8>, pos: int) -> Option<(MsgValue, int)>
    decreases 2 * (s.len() - pos),
{
    if pos < 0 || pos >= s.len() {
        None
    } else {
        let t = s[pos] as int;
        let p = pos + 1;
        if t <= 0x7f {
            Some((MsgValue::UInt(t as u64), p))
        } else if t >= 0xe0 {
            Some((MsgValue::Int((t - 0x100) as i64), p))
        } else if t <= 0x8f {
            match parse_pairs(s, p, (t - 0x80) as nat) {
                Some((ps, e)) => Some((MsgValue::Mapping(ps), e)),
                None => None,
            }
        } else if t <= 0x9f {
            match parse_items(s, p, (t - 0x90) as nat) {
                Some((items, e)) => Some((MsgValue::Array(items), e)),
                None => None,
            }
        } else if t <= 0xbf {
            str_body(s, p, t - 0xa0)
        } else if t == 0xc0 {
            Some((MsgValue::Nil, p))
        } else if t == 0xc1 {
            None
        } else if t == 0xc2 {
            Some((MsgValue::Bool(false), p))
        } else if t == 0xc3 {
            Some((MsgValue::Bool(true), p))
        } else if t <= 0xc6 {
            let w = width_of(t - 0xc4);
            if p + w > s.len() { None } else { bin_body(s, p + w, be_at(s, p, w)) }
        } else if t <= 0xc9 {
            let w = width_of(t - 0xc7);
            if p + w > s.len() { None } else { ext_body(s, p + w, be_at(s, p, w)) }
        } else if t <= 0xcb {
            let w = if t == 0xca { 4int } else { 8int };
            if p + w > s.len() {
                None
            } else if t == 0xca {
                Some((MsgValue::F32(be_at(s, p, 4) as u32), p + 4))
            } else {
                Some((MsgValue::F64(be_at(s, p, 8) as u64), p + 8))
            }
        } else if t <= 0xcf {
            let w = width_of(t - 0xcc);
            if p + w > s.len() { None } else { Some((MsgValue::UInt(be_at(s, p, w) as u64), p + w)) }
        } else if t <= 0xd3 {
            let w = width_of(t - 0xd0);
            if p + w > s.len() {
                None
            } else {
                Some((MsgValue::Int(signed_field(be_at(s, p, w), w) as i64), p + w))
            }
        } else if t <= 0xd8 {
            ext_body(s, p, width_of(t - 0xd4))
        } else if t <= 0xdb {
            let w = width_of(t - 0xd9);
            if p + w > s.len() { None } else { str_body(s, p + w, be_at(s, p, w)) }
        } else if t <= 0xdd {
            let w = width_of(t - 0xdb);
            if p + w > s.len() {
                None
            } else {
                match parse_items(s, p + w, be_at(s, p, w) as nat) {
                    Some((items, e)) => Some((MsgValue::Array(items), e)),
                    None => None,
                }
            }
        } else {
            let w = width_of(t - 0xdd);
            if p + w > s.len() {
                None
            } else {
                match parse_pairs(s, p + w, be_at(s, p, w) as nat) {
                    Some((ps, e)) => Some((MsgValue::Mapping(ps), e)),
                    None => None,
                }
            }
        }
    }
}

/// `n` values back to back from `p`.
pub open spec fn parse_items(s: Seq<u8>, p: int, n: nat) -> Option<(Seq<MsgValue>, int)>
    decreases 2 * (s.len() - p) + 1,
{
    if n == 0 {
        Some((seq![], p))
    } else if p < 0 || p > s.len() {
        None
    } else {
        match parse_at(s, p) {
            None => None,
            Some((v, e)) => if e <= p || e > s.len() {
                None
            } else {
                match parse_items(s, e, (n - 1) as nat) {
                    None => None,
                    Some((rest, e2)) => Some((seq![v] + rest, e2)),
                }
            },
        }
    }
}

/// `n` key/value pairs back to back from `p`.
pub open spec fn parse_pairs(s: Seq<u8>, p: int, n: nat) -> Option<(Seq<(MsgValue, MsgValue)>, int)>
    decreases 2 * (s.len() - p) + 1,
{
    if n == 0 {
        Some((seq![], p))
    } else if p < 0 || p > s.len() {
        None
    } else {
        match parse_at(s, p) {
            None => None,
            Some((k, e1)) => if e1 <= p || e1 > s.len() {
                None
            } else {
                match parse_at(s, e1) {
                    None => None,
                    Some((v, e2)) => if e2 <= e1 || e2 > s.len() {
                        None
                    } else {
                        match parse_pairs(s, e2, (n - 1) as nat) {
                            None => None,
                            Some((rest, e3)) => Some((seq![(k, v)] + rest, e3)),
                        }
                    },
                }
            },
        }
    }
}

/// A UTF-8 string of `n` bytes at `p`.
pub open spec fn str_body(s: Seq<u8>, p: int, n: int) -> Option<(MsgValue, int)> {
    if p + n > s.len() || !valid_utf8(s.subrange(p, p + n)) {
        None
    } else {
        Some((MsgValue::Str(decode_utf8(s.subrange(p, p + n))), p + n))
    }
}

/// A byte string of `n` bytes at `p`.
pub open spec fn bin_body(s: Seq<u8>, p: int, n: int) -> Option<(MsgValue, int)> {
    if p + n > s.len() {
        None
    } else {
        Some((MsgValue::Bin(s.subrange(p, p + n)), p + n))
    }
}

/// An extension: the type byte at `p`, then `n` payload bytes.
pub open spec fn ext_body(s: Seq<u8>, p: int, n: int) -> Option<(MsgValue, int)> {
    if p + 1 + n > s.len() {
        None
    } else {
        Some((MsgValue::Ext(signed_field(s[p] as int, 1) as i8, s.subrange(p + 1, p + 1 + n)), p + 1 + n))
    }
}

/// Decoding of a whole document: one value and nothing after it.
pub open spec fn spec_decode(s: Seq<u8>) -> Option<MsgValue> {
    match parse_at(s, 0) {
        Some((v, e)) => if e == s.len() { Some(v) } else { None },
        None => None,
    }
}

/// Append the big-endian bytes of a `u16`.
fn push_be16(out: &mut Vec<u8>, v: u16)
    ensures
        final(out)@ == old(out)@ + be16(v as int),
{
    out.push((v / 256) as u8);
    out.push((v % 256) as u8);
    assert(final(out)@ =~= old(out)@ + be16(v as int));
}

/// Append the big-endian bytes of a `u32`.
fn push_be32(out: &mut Vec<u8>, v: u32)
    ensures
        final(out)@ == old(out)@ + be32(v as int),
{
    push_be16(out, (v / 0x1_0000) as u16);
    push_be16(out, (v % 0x1_0000) as u16);
    assert(final(out)@ =~= old(out)@ + be32(v as int));
}

/// Append the big-endian bytes of a `u64`.
#[verifier::spinoff_prover]
fn push_be64(out: &mut Vec<u8>, v: u64)
    ensures
        final(out)@ == old(out)@ + be64(v as int),
{
    let hi: u32 = (v / 0x1_0000_0000) as u32;
    let lo: u32 = (v % 0x1_0000_0000) as u32;
    proof {
        lemma_be64_split(v as int, hi as int, lo as int);
    }
    push_be32(out, hi);
    push_be32(out, lo);
    assert(final(out)@ =~= old(out)@ + be64(v as int));
}

proof fn lemma_be64_split(v: int, hi: int, lo: int)
    requires
        0 <= v < 0x1_0000_0000_0000_0000,
        hi == v / 0x1_0000_0000,
        lo == v % 0x1_0000_0000,
    ensures
        be64(v) == be32(hi) + be32(lo),
{
    assert(hi % 0x1_0000_0000 == hi);
}

/// Append the shortest encoding of an unsigned integer.
fn write_uint(n: u64, out: &mut Vec<u8>)
    ensures
        final(out)@ == old(out)@ + uint_bytes(n as int),
{
    if n <= 0x7F {
        out.push(n as u8);
    } else if n <= 0xFF {
        out.push(0xCC);
        out.push(n as u8);
    } else if n <= 0xFFFF {
        out.push(0xCD);
        push_be16(out, n as u16);
    } else if n <= 0xFFFF_FFFF {
        out.push(0xCE);
        push_be32(out, n as u32);
    } else {
        out.push(0xCF);
        push_be64(out, n);
    }
    assert(final(out)@ =~= old(out)@ + uint_bytes(n as int));
}

/// Append the shortest encoding of a signed integer.
fn write_int(n: i64, out: &mut Vec<u8>)
    ensures
        final(out)@ == old(out)@ + int_bytes(n as int),
{
    if n >= 0 {
        write_uint(n as u64, out);
    } else if n >= -32 {
        out.push((n + 0x100) as u8);
    } else if n >= -0x80 {
        out.push(0xD0);
        out.push((n + 0x100) as u8);
    } else if n >= -0x8000 {
        out.push(0xD1);
        push_be16(out, (n + 0x1_0000) as u16);
    } else if n >= -0x8000_0000 {
        out.push(0xD2);
        push_be32(out, (n + 0x1_0000_0000) as u32);
    } else {
        out.push(0xD3);
        let m: u64 = (-(n + 1)) as u64;
        push_be64(out, u64::MAX - m);
    }
    assert(final(out)@ =~= old(out)@ + int_bytes(n as int));
}

/// Append the header of a string of `n` UTF-8 bytes.
fn write_str_header(n: usize, out: &mut Vec<u8>)
    ensures
        final(out)@ == old(out)@ + str_header(n as int),
{
    if n <= 31 {
        out.push(0xA0 + n as u8);
    } else if n <= 0xFF {
        out.push(0xD9);
        out.push(n as u8);
    } else if n <= 0xFFFF {
        out.push(0xDA);
        push_be16(out, n as u16);
    } else {
        out.push(0xDB);
        push_be32(out, (n as u64 % 0x1_0000_0000) as u32);
    }
    assert(final(out)@ =~= old(out)@ + str_header(n as int));
}

/// Append the header of a byte string of `n` bytes.
fn write_bin_header(n: usize, out: &mut Vec<u8>)
    ensures
        final(out)@ == old(out)@ + bin_header(n as int),
{
    if n <= 0xFF {
        out.push(0xC4);
        out.push(n as u8);
    } else if n <= 0xFFFF {
        out.push(0xC5);
        push_be16(out, n as u16);
    } else {
        out.push(0xC6);
        push_be32(out, (n as u64 % 0x1_0000_0000) as u32);
    }
    assert(final(out)@ =~= old(out)@ + bin_header(n as int));
}

/// Append the header of an array of `n` items.
fn write_array_header(n: usize, out: &mut Vec<u8>)
    ensures
        final(out)@ == old(out)@ + array_header(n as int),
{
    if n <= 15 {
        out.push(0x90 + n as u8);
    } else if n <= 0xFFFF {
        out.push(0xDC);
        push_be16(out, n as u16);
    } else {
        out.push(0xDD);
        push_be32(out, (n as u64 % 0x1_0000_0000) as u32);
    }
    assert(final(out)@ =~= old(out)@ + array_header(n as int));
}

/// Append the header of a map of `n` pairs.
fn write_map_header(n: usize, out: &mut Vec<u8>)
    ensures
        final(out)@ == old(out)@ + map_header(n as int),
{
    if n <= 15 {
        out.push(0x80 + n as u8);
    } else if n <= 0xFFFF {
        out.push(0xDE);
        push_be16(out, n as u16);
    } else {
        out.push(0xDF);
        push_be32(out, (n as u64 % 0x1_0000_0000) as u32);
    }
    assert(final(out)@ =~= old(out)@ + map_header(n as int));
}

/// Append the header of an extension payload of `n` bytes.
fn write_ext_header(n: usize, out: &mut Vec<u8>)
    ensures
        final(out)@ == old(out)@ + ext_header(n as int),
{
    if n == 1 {
        out.push(0xD4);
    } else if n == 2 {
        out.push(0xD5);
    } else if n == 4 {
        out.push(0xD6);
    } else if n == 8 {
        out.push(0xD7);
    } else if n == 16 {
        out.push(0xD8);
    } else if n <= 0xFF {
        out.push(0xC7);
        out.push(n as u8);
    } else if n <= 0xFFFF {
        out.push(0xC8);
        push_be16(out, n as u16);
    } else {
        out.push(0xC9);
        push_be32(out, (n as u64 % 0x1_0000_0000) as u32);
    }
    assert(final(out)@ =~= old(out)@ + ext_header(n as int));
}

/// Append the canonical encoding of `value`: shortest forms, strings as
/// str and byte strings as bin.
pub fn write_value(value: &Value, out: &mut Vec<u8>)
    ensures
        final(out)@ == old(out)@ + spec_encode(value@),
    decreases value,
{
    match value {
        Value::Nil => out.push(0xC0),
        Value::Bool(b) => {
            if *b {
                out.push(0xC3);
            } else {
                out.push(0xC2);
            }
        },
        Value::UInt(n) => write_uint(*n, out),
        Value::Int(n) => write_int(*n, out),
        Value::F32(b) => {
            out.push(0xCA);
            push_be32(out, *b);
        },
        Value::F64(b) => {
            out.push(0xCB);
            push_be64(out, *b);
        },
        Value::Str(s) => {
            let bytes = s.as_str().as_bytes();
            write_str_header(bytes.len(), out);
            push_all(out, bytes);
        },
        Value::Bin(bytes) => {
            write_bin_header(bytes.len(), out);
            push_all(out, bytes.as_slice());
        },
        Value::Array(items) => {
            write_array_header(items.len(), out);
            write_items(value, items, out);
        },
        Value::Mapping(pairs) => {
            write_map_header(pairs.len(), out);
            write_pairs(value, pairs, out);
        },
        Value::Ext(t, data) => {
            write_ext_header(data.len(), out);
            if *t < 0 {
                out.push((*t as i16 + 0x100) as u8);
            } else {
                out.push(*t as u8);
            }
            push_all(out, data.as_slice());
        },
    }
    assert(final(out)@ =~= old(out)@ + spec_encode(value@));
}

/// Append the encodings of the items of the array `whole`.
fn write_items(whole: &Value, items: &Vec<Value>, out: &mut Vec<u8>)
    requires
        *whole == Value::Array(*items),
    ensures
        final(out)@ == old(out)@ + encode_items(whole@->Array_0),
    decreases whole, 0nat,
{
    let ghost vs: Seq<MsgValue> = whole@->Array_0;
    let mut i: usize = 0;
    while i < items.len()
        invariant
            *whole == Value::Array(*items),
            vs == whole@->Array_0,
            vs.len() == items@.len(),
            i <= items@.len(),
            out@ == old(out)@ + encode_items(vs.take(i as int)),
        decreases items@.len() - i,
    {
        proof {
            assert(vs[i as int] == items@[i as int]@);
            assert(vs.take(i + 1).subrange(0, i as int) =~= vs.take(i as int));
        }
        write_value(&items[i], out);
        i = i + 1;
    }
    proof {
        assert(vs.take(i as int) =~= vs);
    }
}

/// Append the encodings of the pairs of the map `whole`.
fn write_pairs(whole: &Value, pairs: &Vec<(Value, Value)>, out: &mut Vec<u8>)
    requires
        *whole == Value::Mapping(*pairs),
    ensures
        final(out)@ == old(out)@ + encode_pairs(whole@->Mapping_0),
    decreases whole, 0nat,
{
    let ghost ps: Seq<(MsgValue, MsgValue)> = whole@->Mapping_0;
    let mut i: usize = 0;
    while i < pairs.len()
        invariant
            *whole == Value::Mapping(*pairs),
            ps == whole@->Mapping_0,
            ps.len() == pairs@.len(),
            i <= pairs@.len(),
            out@ == old(out)@ + encode_pairs(ps.take(i as int)),
        decreases pairs@.len() - i,
    {
        proof {
            assert(ps[i as int] == (pairs@[i as int].0@, pairs@[i as int].1@));
            assert(ps.take(i + 1).subrange(0, i as int) =~= ps.take(i as int));
        }
        let pair = &pairs[i];
        write_value(&pair.0, out);
        write_value(&pair.1, out);
        i = i + 1;
    }
    proof {
        assert(ps.take(i as int) =~= ps);
    }
}

/// The canonical encoding of `value` in a fresh buffer.
pub fn encode(value: &Value) -> (out: Vec<u8>)
    ensures
        out@ == spec_encode(value@),
{
    let mut out: Vec<u8> = Vec::new();
    write_value(value, &mut out);
    assert(out@ =~= spec_encode(value@));
    out
}

/// The views of a run of values.
pub open spec fn view_items(items: Seq<Value>) -> Seq<MsgValue> {
    Seq::new(items.len(), |i: int| items[i]@)
}

/// The views of a run of key/value pairs.
pub open spec fn view_pairs(ps: Seq<(Value, Value)>) -> Seq<(MsgValue, MsgValue)> {
    Seq::new(ps.len(), |i: int| (ps[i].0@, ps[i].1@))
}

proof fn lemma_be_bound(s: Seq<u8>, p: int, w: int)
    requires
        w == 1 || w == 2 || w == 4 || w == 8,
        0 <= p,
        p + w <= s.len(),
    ensures
        0 <= be_at(s, p, w) < field_range(w),
    decreases w,
{
    if w == 4 {
        lemma_be_bound(s, p, 2);
        lemma_be_bound(s, p + 2, 2);
        let a = be_at(s, p, 2);
        let b = be_at(s, p + 2, 2);
        assert(0 <= a * 0x1_0000 + b < 0x1_0000_0000) by (nonlinear_arith)
            requires 0 <= a < 0x1_0000, 0 <= b < 0x1_0000;
    } else if w == 8 {
        lemma_be_bound(s, p, 4);
        lemma_be_bound(s, p + 4, 4);
        let a = be_at(s, p, 4);
        let b = be_at(s, p + 4, 4);
        assert(0 <= a * 0x1_0000_0000 + b < 0x1_0000_0000_0000_0000) by (nonlinear_arith)
            requires 0 <= a < 0x1_0000_0000, 0 <= b < 0x1_0000_0000;
    }
}

/// Big-endian field of `w` bytes at `p`.
fn read_be(bytes: &[u8], p: usize, w: usize) -> (v: u64)
    requires
        w == 1 || w == 2 || w == 4 || w == 8,
        p + w <= bytes@.len(),
    ensures
        v as int == be_at(bytes@, p as int, w as int),
    decreases w,
{
    let _n = bytes.len();
    proof {
        lemma_be_bound(bytes@, p as int, w as int);
    }
    if w == 1 {
        bytes[p] as u64
    } else if w == 2 {
        (bytes[p] as u64) * 0x100 + bytes[p + 1] as u64
    } else if w == 4 {
        let hi = read_be(bytes, p, 2);
        let lo = read_be(bytes, p + 2, 2);
        proof {
            lemma_be_bound(bytes@, p as int, 2);
            lemma_be_bound(bytes@, p + 2, 2);
        }
        hi * 0x1_0000 + lo
    } else {
        let hi = read_be(bytes, p, 4);
        let lo = read_be(bytes, p + 4, 4);
        proof {
            lemma_be_bound(bytes@, p as int, 4);
            lemma_be_bound(bytes@, p + 4, 4);
        }
        hi * 0x1_0000_0000 + lo
    }
}

/// `2^k` for a width selector taken from a tag byte.
fn width_for(k: u8) -> (w: usize)
    requires
        k <= 4,
    ensures
        w as int == width_of(k as int),
{
    if k == 0 {
        1
    } else if k == 1 {
        2
    } else if k == 2 {
        4
    } else if k == 3 {
        8
    } else {
        16
    }
}

/// A `w`-byte field read as a two's-complement signed number.
fn signed_from(u: u64, w: usize) -> (n: i64)
    requires
        w == 1 || w == 2 || w == 4 || w == 8,
        (u as int) < field_range(w as int),
    ensures
        n as int == signed_field(u as int, w as int),
{
    if w == 1 {
        if u >= 0x80 { u as i64 - 0x100 } else { u as i64 }
    } else if w == 2 {
        if u >= 0x8000 { u as i64 - 0x1_0000 } else { u as i64 }
    } else if w == 4 {
        if u >= 0x8000_0000 { u as i64 - 0x1_0000_0000 } else { u as i64 }
    } else {
        if u >= 0x8000_0000_0000_0000 {
            -((u64::MAX - u) as i64) - 1
        } else {
            u as i64
        }
    }
}

/// `String::from_utf8`: the bytes as a string exactly when they are valid
/// UTF-8; the characters are the ones the bytes encode.
#[verifier::external_body]
pub(crate) fn utf8_string(bytes: Vec<u8>) -> (r: Option<String>)
    ensures
        r is Some <==> valid_utf8(bytes@),
        r matches Some(s) ==> s@ == decode_utf8(bytes@),
{
    match String::from_utf8(bytes) {
        Ok(s) => Some(s),
        Err(_) => None,
    }
}

fn truncated() -> (e: MmnError) {
    MmnError::new("msgpack truncated")
}

/// A string of `n` UTF-8 bytes at `p`.
fn read_str_body(bytes: &[u8], p: usize, n: u64) -> (r: Result<(Value, usize), MmnError>)
    requires
        p <= bytes@.len(),
    ensures
        match r {
            Ok((v, e)) => str_body(bytes@, p as int, n as int) == Some((v@, e as int)),
            Err(_) => str_body(bytes@, p as int, n as int) is None,
        },
{
    if n > (bytes.len() - p) as u64 {
        return Err(truncated());
    }
    let end = p + n as usize;
    let raw = copy_range(bytes, p, end);
    match utf8_string(raw) {
        Some(text) => Ok((Value::Str(text), end)),
        None => Err(MmnError::new("msgpack string not UTF-8")),
    }
}

/// A byte string of `n` bytes at `p`.
fn read_bin_body(bytes: &[u8], p: usize, n: u64) -> (r: Result<(Value, usize), MmnError>)
    requires
        p <= bytes@.len(),
    ensures
        match r {
            Ok((v, e)) => bin_body(bytes@, p as int, n as int) == Some((v@, e as int)),
            Err(_) => bin_body(bytes@, p as int, n as int) is None,
        },
{
    if n > (bytes.len() - p) as u64 {
        return Err(truncated());
    }
    let end = p + n as usize;
    Ok((Value::Bin(copy_range(bytes, p, end)), end))
}

/// An extension at `p`: its type byte and `n` payload bytes.
fn read_ext_body(bytes: &[u8], p: usize, n: u64) -> (r: Result<(Value, usize), MmnError>)
    requires
        p <= bytes@.len(),
    ensures
        match r {
            Ok((v, e)) => ext_body(bytes@, p as int, n as int) == Some((v@, e as int)),
            Err(_) => ext_body(bytes@, p as int, n as int) is None,
        },
{
    if p >= bytes.len() || n > (bytes.len() - p - 1) as u64 {
        return Err(truncated());
    }
    let b = bytes[p];
    let t: i8 = if b >= 0x80 { (b as i16 - 0x100) as i8 } else { b as i8 };
    let end = p + 1 + n as usize;
    Ok((Value::Ext(t, copy_range(bytes, p + 1, end)), end))
}

/// The values whose tag carries no nested value: every tag from 0xc0 to 0xdb
/// except the reserved 0xc1 and the array and map tags.
fn parse_scalar(bytes: &[u8], pos: usize) -> (r: Result<(Value, usize), MmnError>)
    requires
        pos < bytes@.len(),
        0xc0 <= bytes@[pos as int] <= 0xdb,
    ensures
        match r {
            Ok((v, e)) => parse_at(bytes@, pos as int) == Some((v@, e as int)) && pos < e <= bytes@.len(),
            Err(_) => parse_at(bytes@, pos as int) is None,
        },
{
    let t = bytes[pos];
    let p = pos + 1;
    let room = bytes.len() - p;
    if t == 0xC0 {
        Ok((Value::Nil, p))
    } else if t == 0xC1 {
        Err(MmnError::new("msgpack 0xC1 is reserved"))
    } else if t == 0xC2 {
        Ok((Value::Bool(false), p))
    } else if t == 0xC3 {
        Ok((Value::Bool(true), p))
    } else if t <= 0xC6 {
        let w = width_for(t - 0xC4);
        if w > room {
            return Err(truncated());
        }
        let n = read_be(bytes, p, w);
        read_bin_body(bytes, p + w, n)
    } else if t <= 0xC9 {
        let w = width_for(t - 0xC7);
        if w > room {
            return Err(truncated());
        }
        let n = read_be(bytes, p, w);
        read_ext_body(bytes, p + w, n)
    } else if t == 0xCA {
        if 4 > room {
            return Err(truncated());
        }
        let b = read_be(bytes, p, 4);
        Ok((Value::F32(b as u32), p + 4))
    } else if t == 0xCB {
        if 8 > room {
            return Err(truncated());
        }
        Ok((Value::F64(read_be(bytes, p, 8)), p + 8))
    } else if t <= 0xCF {
        let w = width_for(t - 0xCC);
        if w > room {
            return Err(truncated());
        }
        Ok((Value::UInt(read_be(bytes, p, w)), p + w))
    } else if t <= 0xD3 {
        let w = width_for(t - 0xD0);
        if w > room {
            return Err(truncated());
        }
        let u = read_be(bytes, p, w);
        proof {
            lemma_be_bound(bytes@, p as int, w as int);
        }
        Ok((Value::Int(signed_from(u, w)), p + w))
    } else if t <= 0xD8 {
        let w = width_for(t - 0xD4);
        read_ext_body(bytes, p, w as u64)
    } else {
        let w = width_for(t - 0xD9);
        if w > room {
            return Err(truncated());
        }
        let n = read_be(bytes, p, w);
        read_str_body(bytes, p + w, n)
    }
}

/// The value at `pos` and the position just past it.
fn parse_value(bytes: &[u8], pos: usize) -> (r: Result<(Value, usize), MmnError>)
    ensures
        match r {
            Ok((v, e)) => parse_at(bytes@, pos as int) == Some((v@, e as int)) && pos < e <= bytes@.len(),
            Err(_) => parse_at(bytes@, pos as int) is None,
        },
    decreases 2 * (bytes@.len() - pos),
{
    if pos >= bytes.len() {
        return Err(truncated());
    }
    let t = bytes[pos];
    let p = pos + 1;
    if t <= 0x7F {
        Ok((Value::UInt(t as u64), p))
    } else if t >= 0xE0 {
        Ok((Value::Int(t as i64 - 0x100), p))
    } else if t <= 0x9F || t >= 0xDC {
        let is_map = t <= 0x8F || t >= 0xDE;
        let mut q = p;
        let n: u64;
        if t <= 0x9F {
            n = if is_map { (t - 0x80) as u64 } else { (t - 0x90) as u64 };
        } else {
            let w = if t == 0xDC || t == 0xDE { 2usize } else { 4usize };
            proof {
                assert(w as int == width_of(t - 0xdb) || w as int == width_of(t - 0xdd));
            }
            if w > bytes.len() - p {
                return Err(truncated());
            }
            n = read_be(bytes, p, w);
            q = p + w;
        }
        if is_map {
            match parse_pairs_exec(bytes, q, n) {
                Ok((ps, e)) => {
                    let v = Value::Mapping(ps);
                    proof {
                        assert(v@ == MsgValue::Mapping(view_pairs(ps@))) by {
                            assert(v@->Mapping_0 =~= view_pairs(ps@));
                        }
                    }
                    Ok((v, e))
                },
                Err(e) => Err(e),
            }
        } else {
            match parse_items_exec(bytes, q, n) {
                Ok((items, e)) => {
                    let v = Value::Array(items);
                    proof {
                        assert(v@ == MsgValue::Array(view_items(items@))) by {
                            assert(v@->Array_0 =~= view_items(items@));
                        }
                    }
                    Ok((v, e))
                },
                Err(e) => Err(e),
            }
        }
    } else if t <= 0xBF {
        read_str_body(bytes, p, (t - 0xA0) as u64)
    } else {
        parse_scalar(bytes, pos)
    }
}

/// `n` values back to back from `p`.
fn parse_items_exec(bytes: &[u8], p: usize, n: u64) -> (r: Result<(Vec<Value>, usize), MmnError>)
    requires
        p <= bytes@.len(),
    ensures
        match r {
            Ok((items, e)) => parse_items(bytes@, p as int, n as nat) == Some((view_items(items@), e as int))
                && p <= e <= bytes@.len(),
            Err(_) => parse_items(bytes@, p as int, n as nat) is None,
        },
    decreases 2 * (bytes@.len() - p) + 1,
{
    let mut items: Vec<Value> = Vec::new();
    let mut q = p;
    let mut k = n;
    while k > 0
        invariant
            p <= q <= bytes@.len(),
            parse_items(bytes@, p as int, n as nat) == match parse_items(bytes@, q as int, k as nat) {
                Some((rest, e)) => Some((view_items(items@) + rest, e)),
                None => None,
            },
        decreases k,
    {
        match parse_value(bytes, q) {
            Err(e) => {
                return Err(e);
            },
            Ok((v, e)) => {
                proof {
                    let ghost old_view = view_items(items@);
                    assert(view_items(items@.push(v)) =~= old_view + seq![v@]);
                    match parse_items(bytes@, e as int, (k - 1) as nat) {
                        Some((rest, e2)) => {
                            assert(old_view + (seq![v@] + rest) =~= (old_view + seq![v@]) + rest);
                        },
                        None => {},
                    }
                }
                items.push(v);
                q = e;
                k = k - 1;
            },
        }
    }
    proof {
        assert(view_items(items@) + seq![] =~= view_items(items@));
    }
    Ok((items, q))
}

/// `n` key/value pairs back to back from `p`.
fn parse_pairs_exec(bytes: &[u8], p: usize, n: u64) -> (r: Result<(Vec<(Value, Value)>, usize), MmnError>)
    requires
        p <= bytes@.len(),
    ensures
        match r {
            Ok((ps, e)) => parse_pairs(bytes@, p as int, n as nat) == Some((view_pairs(ps@), e as int))
                && p <= e <= bytes@.len(),
            Err(_) => parse_pairs(bytes@, p as int, n as nat) is None,
        },
    decreases 2 * (bytes@.len() - p) + 1,
{
    let mut ps: Vec<(Value, Value)> = Vec::new();
    let mut q = p;
    let mut k = n;
    while k > 0
        invariant
            p <= q <= bytes@.len(),
            parse_pairs(bytes@, p as int, n as nat) == match parse_pairs(bytes@, q as int, k as nat) {
                Some((rest, e)) => Some((view_pairs(ps@) + rest, e)),
                None => None,
            },
        decreases k,
    {
        let (key, e1) = match parse_value(bytes, q) {
            Err(e) => {
                return Err(e);
            },
            Ok(found) => found,
        };
        let (val, e2) = match parse_value(bytes, e1) {
            Err(e) => {
                return Err(e);
            },
            Ok(found) => found,
        };
        proof {
            let ghost old_view = view_pairs(ps@);
            assert(view_pairs(ps@.push((key, val))) =~= old_view + seq![(key@, val@)]);
            match parse_pairs(bytes@, e2 as int, (k - 1) as nat) {
                Some((rest, e3)) => {
                    assert(old_view + (seq![(key@, val@)] + rest) =~= (old_view + seq![(key@, val@)]) + rest);
                },
                None => {},
            }
        }
        ps.push((key, val));
        q = e2;
        k = k - 1;
    }
    proof {
        assert(view_pairs(ps@) + seq![] =~= view_pairs(ps@));
    }
    Ok((ps, q))
}

/// A cursor over MessagePack bytes.
pub struct Reader<'a> {
    bytes: &'a [u8],
    pos: usize,
}

impl<'a> Reader<'a> {
    /// The bytes being read.
    pub closed spec fn data(&self) -> Seq<u8> {
        self.bytes@
    }

    /// Where the next value starts.
    pub closed spec fn position(&self) -> int {
        self.pos as int
    }

    /// A reader at the start of `bytes`.
    pub fn new(bytes: &'a [u8]) -> (r: Self)
        ensures
            r.data() == bytes@,
            r.position() == 0,
    {
        Reader { bytes, pos: 0 }
    }

    /// True when every byte has been consumed.
    pub fn done(&self) -> (b: bool)
        ensures
            b == (self.position() == self.data().len()),
    {
        self.pos == self.bytes.len()
    }

    /// Decode the next value and move past it.
    pub fn value(&mut self) -> (r: Result<Value, MmnError>)
        ensures
            final(self).data() == old(self).data(),
            match r {
                Ok(v) => parse_at(old(self).data(), old(self).position()) == Some((v@, final(self).position())),
                Err(_) => parse_at(old(self).data(), old(self).position()) is None,
            },
    {
        match parse_value(self.bytes, self.pos) {
            Ok((v, e)) => {
                self.pos = e;
                Ok(v)
            },
            Err(e) => Err(e),
        }
    }
}

/// Decode one complete document; trailing bytes are an error.
pub fn decode(bytes: &[u8]) -> (r: Result<Value, MmnError>)
    ensures
        match r {
            Ok(v) => spec_decode(bytes@) == Some(v@),
            Err(_) => spec_decode(bytes@) is None,
        },
{
    let mut reader = Reader::new(bytes);
    let value = reader.value()?;
    if !reader.done() {
        return Err(MmnError::new("msgpack document has trailing bytes"));
    }
    Ok(value)
}

/// Values that the canonical encoding gives back unchanged: no
/// non-negative `Int` (those are written in the unsigned forms, so they come
/// back as `UInt`), and no string, byte string, array, map or extension
/// longer than a 32-bit length field can state.
pub open spec fn encodable(v: MsgValue) -> bool
    decreases v,
{
    match v {
        MsgValue::Int(n) => n < 0,
        MsgValue::Str(cs) => encode_utf8(cs).len() <= 0xffff_ffff,
        MsgValue::Bin(b) => b.len() <= 0xffff_ffff,
        MsgValue::Array(items) => items.len() <= 0xffff_ffff && all_encodable(items),
        MsgValue::Mapping(ps) => ps.len() <= 0xffff_ffff && all_pairs_encodable(ps),
        MsgValue::Ext(_, d) => d.len() <= 0xffff_ffff,
        _ => true,
    }
}

/// Every item is [`encodable`].
pub open spec fn all_encodable(items: Seq<MsgValue>) -> bool
    decreases items,
{
    items.len() == 0 || (encodable(items[0]) && all_encodable(items.subrange(1, items.len() as int)))
}

/// Every key and every value is [`encodable`].
pub open spec fn all_pairs_encodable(ps: Seq<(MsgValue, MsgValue)>) -> bool
    decreases ps,
{
    ps.len() == 0 || (encodable(ps[0].0) && encodable(ps[0].1) && all_pairs_encodable(
        ps.subrange(1, ps.len() as int),
    ))
}

/// The `w` big-endian bytes of `x` (`w` one of 1, 2, 4, 8).
pub open spec fn be_bytes(x: int, w: int) -> Seq<u8> {
    if w == 1 {
        seq![x as u8]
    } else if w == 2 {
        be16(x)
    } else if w == 4 {
        be32(x)
    } else {
        be64(x)
    }
}

proof fn lemma_be_read(s: Seq<u8>, q: int, w: int, x: int)
    requires
        w == 1 || w == 2 || w == 4 || w == 8,
        0 <= x < field_range(w),
        0 <= q,
        q + w <= s.len(),
        s.subrange(q, q + w) == be_bytes(x, w),
    ensures
        be_at(s, q, w) == x,
    decreases w,
{
    let e = be_bytes(x, w);
    assert(forall|k: int| 0 <= k < w ==> s[q + k] == #[trigger] e[k]) by {
        assert forall|k: int| 0 <= k < w implies s[q + k] == #[trigger] e[k] by {
            assert(s.subrange(q, q + w)[k] == s[q + k]);
        }
    }
    if w == 1 {
        assert(s[q] == e[0]);
    } else if w == 2 {
        assert(s[q] == e[0]);
        assert(s[q + 1] == e[1]);
    } else if w == 4 {
        let hi = (x / 0x1_0000) % 0x1_0000;
        let lo = x % 0x1_0000;
        lemma_split(s, q, be16(hi), be16(lo));
        lemma_be_read(s, q, 2, hi);
        lemma_be_read(s, q + 2, 2, lo);
    } else {
        let hi = (x / 0x1_0000_0000) % 0x1_0000_0000;
        let lo = x % 0x1_0000_0000;
        lemma_split(s, q, be32(hi), be32(lo));
        lemma_be_read(s, q, 4, hi);
        lemma_be_read(s, q + 4, 4, lo);
    }
}

proof fn lemma_split(s: Seq<u8>, p: int, a: Seq<u8>, b: Seq<u8>)
    requires
        0 <= p,
        p + a.len() + b.len() <= s.len(),
        s.subrange(p, p + a.len() + b.len()) == a + b,
    ensures
        s.subrange(p, p + a.len()) == a,
        s.subrange(p + a.len(), p + a.len() + b.len()) == b,
{
    assert(s.subrange(p, p + a.len()) =~= (a + b).subrange(0, a.len() as int));
    assert(s.subrange(p + a.len(), p + a.len() + b.len()) =~= (a + b).subrange(a.len() as int, (a.len() + b.len()) as int));
}

proof fn lemma_parse_uint(s: Seq<u8>, p: int, n: u64)
    requires
        0 <= p,
        p + uint_bytes(n as int).len() <= s.len(),
        s.subrange(p, p + uint_bytes(n as int).len()) == uint_bytes(n as int),
    ensures
        parse_at(s, p) == Some((MsgValue::UInt(n), p + uint_bytes(n as int).len())),
{
    let e = uint_bytes(n as int);
    assert(s[p] == e[0]) by {
        assert(s.subrange(p, p + e.len())[0] == s[p]);
    }
    if n > 0xff {
        let w: int = if n <= 0xffff { 2 } else if n <= 0xffff_ffff { 4 } else { 8 };
        lemma_split(s, p, seq![e[0]], be_bytes(n as int, w));
        lemma_be_read(s, p + 1, w, n as int);
    } else if n > 0x7f {
        assert(s[p + 1] == e[1]) by {
            assert(s.subrange(p, p + e.len())[1] == s[p + 1]);
        }
    }
}

proof fn lemma_parse_int(s: Seq<u8>, p: int, n: i64)
    requires
        n < 0,
        0 <= p,
        p + int_bytes(n as int).len() <= s.len(),
        s.subrange(p, p + int_bytes(n as int).len()) == int_bytes(n as int),
    ensures
        parse_at(s, p) == Some((MsgValue::Int(n), p + int_bytes(n as int).len())),
{
    let e = int_bytes(n as int);
    assert(s[p] == e[0]) by {
        assert(s.subrange(p, p + e.len())[0] == s[p]);
    }
    if n < -0x80 {
        let w: int = if n >= -0x8000 { 2 } else if n >= -0x8000_0000 { 4 } else { 8 };
        let u = n + field_range(w);
        lemma_split(s, p, seq![e[0]], be_bytes(u, w));
        lemma_be_read(s, p + 1, w, u);
    } else if n < -32 {
        assert(s[p + 1] == e[1]) by {
            assert(s.subrange(p, p + e.len())[1] == s[p + 1]);
        }
    }
}

proof fn lemma_parse_str(s: Seq<u8>, p: int, cs: Seq<char>)
    requires
        encode_utf8(cs).len() <= 0xffff_ffff,
        0 <= p,
        p + spec_encode(MsgValue::Str(cs)).len() <= s.len(),
        s.subrange(p, p + spec_encode(MsgValue::Str(cs)).len()) == spec_encode(MsgValue::Str(cs)),
    ensures
        parse_at(s, p) == Some((MsgValue::Str(cs), p + spec_encode(MsgValue::Str(cs)).len())),
{
    let b = encode_utf8(cs);
    let n = b.len() as int;
    let h = str_header(n);
    lemma_split(s, p, h, b);
    let q = p + h.len();
    assert(s[p] == h[0]) by {
        assert(s.subrange(p, p + h.len())[0] == s[p]);
    }
    encode_utf8_valid_utf8(cs);
    encode_utf8_decode_utf8(cs);
    if n > 31 {
        let w: int = if n <= 0xff { 1 } else if n <= 0xffff { 2 } else { 4 };
        assert(h =~= seq![h[0]] + be_bytes(n, w));
        lemma_split(s, p, seq![h[0]], be_bytes(n, w));
        lemma_be_read(s, p + 1, w, n);
    }
    assert(s.subrange(q, q + n) == b);
}

proof fn lemma_parse_bin(s: Seq<u8>, p: int, b: Seq<u8>)
    requires
        b.len() <= 0xffff_ffff,
        0 <= p,
        p + spec_encode(MsgValue::Bin(b)).len() <= s.len(),
        s.subrange(p, p + spec_encode(MsgValue::Bin(b)).len()) == spec_encode(MsgValue::Bin(b)),
    ensures
        parse_at(s, p) == Some((MsgValue::Bin(b), p + spec_encode(MsgValue::Bin(b)).len())),
{
    let n = b.len() as int;
    let h = bin_header(n);
    lemma_split(s, p, h, b);
    assert(s[p] == h[0]) by {
        assert(s.subrange(p, p + h.len())[0] == s[p]);
    }
    let w: int = if n <= 0xff { 1 } else if n <= 0xffff { 2 } else { 4 };
    assert(h =~= seq![h[0]] + be_bytes(n, w));
    lemma_split(s, p, seq![h[0]], be_bytes(n, w));
    lemma_be_read(s, p + 1, w, n);
}

proof fn lemma_parse_ext(s: Seq<u8>, p: int, t: i8, d: Seq<u8>)
    requires
        d.len() <= 0xffff_ffff,
        0 <= p,
        p + spec_encode(MsgValue::Ext(t, d)).len() <= s.len(),
        s.subrange(p, p + spec_encode(MsgValue::Ext(t, d)).len()) == spec_encode(MsgValue::Ext(t, d)),
    ensures
        parse_at(s, p) == Some((MsgValue::Ext(t, d), p + spec_encode(MsgValue::Ext(t, d)).len())),
{
    let n = d.len() as int;
    let h = ext_header(n);
    let body = seq![ext_type_byte(t)] + d;
    assert(spec_encode(MsgValue::Ext(t, d)) =~= h + body);
    lemma_split(s, p, h, body);
    let q = p + h.len();
    lemma_split(s, q, seq![ext_type_byte(t)], d);
    assert(s[p] == h[0]) by {
        assert(s.subrange(p, p + h.len())[0] == s[p]);
    }
    assert(s[q] == ext_type_byte(t)) by {
        assert(s.subrange(q, q + 1)[0] == s[q]);
    }
    if !(n == 1 || n == 2 || n == 4 || n == 8 || n == 16) {
        let w: int = if n <= 0xff { 1 } else if n <= 0xffff { 2 } else { 4 };
        assert(h =~= seq![h[0]] + be_bytes(n, w));
        lemma_split(s, p, seq![h[0]], be_bytes(n, w));
        lemma_be_read(s, p + 1, w, n);
    }
}

proof fn lemma_parse_float(s: Seq<u8>, p: int, v: MsgValue)
    requires
        v is F32 || v is F64,
        0 <= p,
        p + spec_encode(v).len() <= s.len(),
        s.subrange(p, p + spec_encode(v).len()) == spec_encode(v),
    ensures
        parse_at(s, p) == Some((v, p + spec_encode(v).len())),
{
    let e = spec_encode(v);
    assert(s[p] == e[0]) by {
        assert(s.subrange(p, p + e.len())[0] == s[p]);
    }
    match v {
        MsgValue::F32(b) => {
            lemma_split(s, p, seq![0xcau8], be32(b as int));
            lemma_be_read(s, p + 1, 4, b as int);
        },
        MsgValue::F64(b) => {
            lemma_split(s, p, seq![0xcbu8], be64(b as int));
            lemma_be_read(s, p + 1, 8, b as int);
        },
        _ => {},
    }
}

proof fn lemma_encode_nonempty(v: MsgValue)
    ensures
        spec_encode(v).len() >= 1,
{
    match v {
        MsgValue::Str(cs) => assert(str_header(encode_utf8(cs).len() as int).len() >= 1),
        MsgValue::Bin(b) => assert(bin_header(b.len() as int).len() >= 1),
        MsgValue::Array(items) => assert(array_header(items.len() as int).len() >= 1),
        MsgValue::Mapping(ps) => assert(map_header(ps.len() as int).len() >= 1),
        MsgValue::Ext(t, d) => assert(ext_header(d.len() as int).len() >= 1),
        _ => {},
    }
}

proof fn lemma_encode_items_front(items: Seq<MsgValue>)
    requires
        items.len() >= 1,
    ensures
        encode_items(items) == spec_encode(items[0]) + encode_items(items.subrange(1, items.len() as int)),
    decreases items.len(),
{
    let n = items.len() as int;
    let tail = items.subrange(1, n);
    if n == 1 {
        assert(items.subrange(0, 0) =~= Seq::<MsgValue>::empty());
        assert(tail =~= Seq::<MsgValue>::empty());
        assert(encode_items(items) =~= spec_encode(items[0]) + encode_items(tail));
    } else {
        let init = items.subrange(0, n - 1);
        lemma_encode_items_front(init);
        assert(init.subrange(1, n - 1) =~= tail.subrange(0, n - 2));
        assert(tail[n - 2] == items[n - 1]);
        assert(encode_items(items) =~= spec_encode(items[0]) + encode_items(tail));
    }
}

proof fn lemma_encode_pairs_front(ps: Seq<(MsgValue, MsgValue)>)
    requires
        ps.len() >= 1,
    ensures
        encode_pairs(ps) == spec_encode(ps[0].0) + spec_encode(ps[0].1) + encode_pairs(ps.subrange(1, ps.len() as int)),
    decreases ps.len(),
{
    let n = ps.len() as int;
    let tail = ps.subrange(1, n);
    if n == 1 {
        assert(ps.subrange(0, 0) =~= Seq::<(MsgValue, MsgValue)>::empty());
        assert(tail =~= Seq::<(MsgValue, MsgValue)>::empty());
        assert(encode_pairs(ps) =~= spec_encode(ps[0].0) + spec_encode(ps[0].1) + encode_pairs(tail));
    } else {
        let init = ps.subrange(0, n - 1);
        lemma_encode_pairs_front(init);
        assert(init.subrange(1, n - 1) =~= tail.subrange(0, n - 2));
        assert(tail[n - 2] == ps[n - 1]);
        assert(encode_pairs(ps) =~= spec_encode(ps[0].0) + spec_encode(ps[0].1) + encode_pairs(tail));
    }
}

/// An encoded value sitting at `p` parses back to that value, ending just
/// past its encoding.
pub proof fn lemma_parse_encoded(s: Seq<u8>, p: int, v: MsgValue)
    requires
        encodable(v),
        0 <= p,
        p + spec_encode(v).len() <= s.len(),
        s.subrange(p, p + spec_encode(v).len()) == spec_encode(v),
    ensures
        parse_at(s, p) == Some((v, p + spec_encode(v).len())),
    decreases v, 0nat,
{
    let e = spec_encode(v);
    match v {
        MsgValue::Nil => {
            assert(s.subrange(p, p + e.len())[0] == s[p]);
        },
        MsgValue::Bool(b) => {
            assert(s.subrange(p, p + e.len())[0] == s[p]);
        },
        MsgValue::Int(n) => lemma_parse_int(s, p, n),
        MsgValue::UInt(n) => lemma_parse_uint(s, p, n),
        MsgValue::F32(_) => lemma_parse_float(s, p, v),
        MsgValue::F64(_) => lemma_parse_float(s, p, v),
        MsgValue::Str(cs) => lemma_parse_str(s, p, cs),
        MsgValue::Bin(b) => lemma_parse_bin(s, p, b),
        MsgValue::Ext(t, d) => lemma_parse_ext(s, p, t, d),
        MsgValue::Array(items) => lemma_parse_array(s, p, items),
        MsgValue::Mapping(ps) => lemma_parse_map(s, p, ps),
    }
}

proof fn lemma_parse_array(s: Seq<u8>, p: int, items: Seq<MsgValue>)
    requires
        encodable(MsgValue::Array(items)),
        0 <= p,
        p + spec_encode(MsgValue::Array(items)).len() <= s.len(),
        s.subrange(p, p + spec_encode(MsgValue::Array(items)).len()) == spec_encode(MsgValue::Array(items)),
    ensures
        parse_at(s, p) == Some((MsgValue::Array(items), p + spec_encode(MsgValue::Array(items)).len())),
    decreases items, 1nat,
{
    let n = items.len() as int;
    let h = array_header(n);
    let body = encode_items(items);
    lemma_split(s, p, h, body);
    assert(s[p] == h[0]) by {
        assert(s.subrange(p, p + h.len())[0] == s[p]);
    }
    if n > 15 {
        let w: int = if n <= 0xffff { 2 } else { 4 };
        assert(h =~= seq![h[0]] + be_bytes(n, w));
        lemma_split(s, p, seq![h[0]], be_bytes(n, w));
        lemma_be_read(s, p + 1, w, n);
    }
    lemma_parse_items_encoded(s, p + h.len(), items);
}

proof fn lemma_parse_map(s: Seq<u8>, p: int, ps: Seq<(MsgValue, MsgValue)>)
    requires
        encodable(MsgValue::Mapping(ps)),
        0 <= p,
        p + spec_encode(MsgValue::Mapping(ps)).len() <= s.len(),
        s.subrange(p, p + spec_encode(MsgValue::Mapping(ps)).len()) == spec_encode(MsgValue::Mapping(ps)),
    ensures
        parse_at(s, p) == Some((MsgValue::Mapping(ps), p + spec_encode(MsgValue::Mapping(ps)).len())),
    decreases ps, 1nat,
{
    let n = ps.len() as int;
    let h = map_header(n);
    let body = encode_pairs(ps);
    lemma_split(s, p, h, body);
    assert(s[p] == h[0]) by {
        assert(s.subrange(p, p + h.len())[0] == s[p]);
    }
    if n > 15 {
        let w: int = if n <= 0xffff { 2 } else { 4 };
        assert(h =~= seq![h[0]] + be_bytes(n, w));
        lemma_split(s, p, seq![h[0]], be_bytes(n, w));
        lemma_be_read(s, p + 1, w, n);
    }
    lemma_parse_pairs_encoded(s, p + h.len(), ps);
}

/// Encoded values back to back at `p` parse back to those values.
pub proof fn lemma_parse_items_encoded(s: Seq<u8>, p: int, items: Seq<MsgValue>)
    requires
        all_encodable(items),
        0 <= p,
        p + encode_items(items).len() <= s.len(),
        s.subrange(p, p + encode_items(items).len()) == encode_items(items),
    ensures
        parse_items(s, p, items.len()) == Some((items, p + encode_items(items).len())),
    decreases items, 0nat,
{
    if items.len() > 0 {
        let n = items.len() as int;
        let tail = items.subrange(1, n);
        lemma_encode_items_front(items);
        let e0 = spec_encode(items[0]);
        lemma_split(s, p, e0, encode_items(tail));
        lemma_encode_nonempty(items[0]);
        lemma_parse_encoded(s, p, items[0]);
        lemma_parse_items_encoded(s, p + e0.len(), tail);
        assert(seq![items[0]] + tail =~= items);
        assert((items.len() - 1) as nat == tail.len());
    }
}

/// Encoded key/value pairs back to back at `p` parse back to those pairs.
pub proof fn lemma_parse_pairs_encoded(s: Seq<u8>, p: int, ps: Seq<(MsgValue, MsgValue)>)
    requires
        all_pairs_encodable(ps),
        0 <= p,
        p + encode_pairs(ps).len() <= s.len(),
        s.subrange(p, p + encode_pairs(ps).len()) == encode_pairs(ps),
    ensures
        parse_pairs(s, p, ps.len()) == Some((ps, p + encode_pairs(ps).len())),
    decreases ps, 0nat,
{
    if ps.len() > 0 {
        let n = ps.len() as int;
        let tail = ps.subrange(1, n);
        lemma_encode_pairs_front(ps);
        let first = ps[0];
        let ek = spec_encode(first.0);
        let ev = spec_encode(first.1);
        lemma_split(s, p, ek + ev, encode_pairs(tail));
        lemma_split(s, p, ek, ev);
        lemma_encode_nonempty(first.0);
        lemma_encode_nonempty(first.1);
        lemma_parse_encoded(s, p, first.0);
        lemma_parse_encoded(s, p + ek.len(), first.1);
        lemma_parse_pairs_encoded(s, p + ek.len() + ev.len(), tail);
        assert(seq![(first.0, first.1)] + tail =~= ps);
        assert((ps.len() - 1) as nat == tail.len());
    }
}

/// Decoding the canonical encoding of a value gives the value back.
pub proof fn lemma_decode_encode(v: MsgValue)
    requires
        encodable(v),
    ensures
        spec_decode(spec_encode(v)) == Some(v),
{
    let e = spec_encode(v);
    assert(e.subrange(0, e.len() as int) =~= e);
    lemma_parse_encoded(e, 0, v);
}


/// What decoding gives back of an encoded value: every non-negative `Int`
/// becomes a `UInt` (the encoding writes both alike), recursively.
pub open spec fn normalized(v: MsgValue) -> MsgValue
    decreases v,
{
    match v {
        MsgValue::Int(n) => if n >= 0 { MsgValue::UInt(n as u64) } else { MsgValue::Int(n) },
        MsgValue::Array(items) => MsgValue::Array(
            Seq::new(items.len(), |i: int| if 0 <= i < items.len() { normalized(items[i]) } else { MsgValue::Nil }),
        ),
        MsgValue::Mapping(ps) => MsgValue::Mapping(
            Seq::new(ps.len(), |i: int| if 0 <= i < ps.len() {
                (normalized(ps[i].0), normalized(ps[i].1))
            } else {
                (MsgValue::Nil, MsgValue::Nil)
            }),
        ),
        _ => v,
    }
}

/// Values within the format's 32-bit length fields: no string, byte
/// string, array, map or extension longer than 2^32 - 1.
pub open spec fn sized(v: MsgValue) -> bool
    decreases v,
{
    match v {
        MsgValue::Str(cs) => encode_utf8(cs).len() <= 0xffff_ffff,
        MsgValue::Bin(b) => b.len() <= 0xffff_ffff,
        MsgValue::Array(items) => items.len() <= 0xffff_ffff
            && forall|i: int| 0 <= i < items.len() ==> sized(#[trigger] items[i]),
        MsgValue::Mapping(ps) => ps.len() <= 0xffff_ffff
            && forall|i: int| 0 <= i < ps.len() ==> sized(#[trigger] ps[i].0) && sized(ps[i].1),
        MsgValue::Ext(_, d) => d.len() <= 0xffff_ffff,
        _ => true,
    }
}

proof fn lemma_all_encodable_from(items: Seq<MsgValue>)
    requires
        forall|i: int| 0 <= i < items.len() ==> encodable(#[trigger] items[i]),
    ensures
        all_encodable(items),
    decreases items.len(),
{
    if items.len() > 0 {
        let t = items.subrange(1, items.len() as int);
        assert forall|i: int| 0 <= i < t.len() implies encodable(#[trigger] t[i]) by {
            assert(t[i] == items[i + 1]);
        }
        lemma_all_encodable_from(t);
    }
}

proof fn lemma_all_pairs_encodable_from(ps: Seq<(MsgValue, MsgValue)>)
    requires
        forall|i: int| 0 <= i < ps.len() ==> encodable(#[trigger] ps[i].0) && encodable(ps[i].1),
    ensures
        all_pairs_encodable(ps),
    decreases ps.len(),
{
    if ps.len() > 0 {
        let t = ps.subrange(1, ps.len() as int);
        assert forall|i: int| 0 <= i < t.len() implies encodable(#[trigger] t[i].0) && encodable(t[i].1) by {
            assert(t[i] == ps[i + 1]);
        }
        lemma_all_pairs_encodable_from(t);
    }
}

proof fn lemma_items_same_encoding(a: Seq<MsgValue>, b: Seq<MsgValue>)
    requires
        a.len() == b.len(),
        forall|i: int| 0 <= i < a.len() ==> spec_encode(#[trigger] a[i]) == spec_encode(b[i]),
    ensures
        encode_items(a) == encode_items(b),
    decreases a.len(),
{
    if a.len() > 0 {
        let n = a.len() as int;
        lemma_items_same_encoding(a.subrange(0, n - 1), b.subrange(0, n - 1));
        assert(spec_encode(a[n - 1]) == spec_encode(b[n - 1]));
    }
}

proof fn lemma_pairs_same_encoding(a: Seq<(MsgValue, MsgValue)>, b: Seq<(MsgValue, MsgValue)>)
    requires
        a.len() == b.len(),
        forall|i: int| 0 <= i < a.len() ==> spec_encode(#[trigger] a[i].0) == spec_encode(b[i].0)
            && spec_encode(a[i].1) == spec_encode(b[i].1),
    ensures
        encode_pairs(a) == encode_pairs(b),
    decreases a.len(),
{
    if a.len() > 0 {
        let n = a.len() as int;
        lemma_pairs_same_encoding(a.subrange(0, n - 1), b.subrange(0, n - 1));
        assert(spec_encode(a[n - 1].0) == spec_encode(b[n - 1].0));
    }
}

/// A value and its normal form have one encoding, and the normal form is
/// [`encodable`].
proof fn lemma_normalized(v: MsgValue)
    requires
        sized(v),
    ensures
        spec_encode(normalized(v)) == spec_encode(v),
        encodable(normalized(v)),
    decreases v,
{
    match v {
        MsgValue::Array(items) => {
            let ni = Seq::new(items.len(), |i: int| if 0 <= i < items.len() { normalized(items[i]) } else { MsgValue::Nil });
            assert(normalized(v)->Array_0 =~= ni);
            assert forall|i: int| 0 <= i < items.len() implies spec_encode(#[trigger] ni[i]) == spec_encode(items[i])
                && encodable(ni[i]) by {
                lemma_normalized(items[i]);
            }
            lemma_items_same_encoding(ni, items);
            lemma_all_encodable_from(ni);
        },
        MsgValue::Mapping(ps) => {
            let np = Seq::new(ps.len(), |i: int| if 0 <= i < ps.len() {
                (normalized(ps[i].0), normalized(ps[i].1))
            } else {
                (MsgValue::Nil, MsgValue::Nil)
            });
            assert(normalized(v)->Mapping_0 =~= np);
            assert forall|i: int| 0 <= i < ps.len() implies spec_encode(#[trigger] np[i].0) == spec_encode(ps[i].0)
                && spec_encode(np[i].1) == spec_encode(ps[i].1) && encodable(np[i].0) && encodable(np[i].1) by {
                lemma_normalized(ps[i].0);
                lemma_normalized(ps[i].1);
            }
            lemma_pairs_same_encoding(np, ps);
            lemma_all_pairs_encodable_from(np);
        },
        _ => {},
    }
}

/// Decoding the encoding of any value within the format's length fields
/// gives the value back with every non-negative `Int` as a `UInt`.
pub proof fn lemma_decode_encode_normalized(v: MsgValue)
    requires
        sized(v),
    ensures
        spec_decode(spec_encode(v)) == Some(normalized(v)),
{
    lemma_normalized(v);
    lemma_decode_encode(normalized(v));
}

/// A reader at the start of an encoded value followed by any bytes reads
/// exactly that value's encoding: [`Reader::value`] stops just past it, so
/// [`Reader::done`] then holds exactly when nothing followed.
pub proof fn lemma_value_consumes_encoding(v: MsgValue, rest: Seq<u8>)
    requires
        sized(v),
    ensures
        parse_at(spec_encode(v) + rest, 0) == Some((normalized(v), spec_encode(v).len() as int)),
        (spec_encode(v).len() == (spec_encode(v) + rest).len()) == (rest.len() == 0),
{
    lemma_normalized(v);
    let e = spec_encode(v);
    let s = e + rest;
    assert(s.subrange(0, e.len() as int) =~= e);
    lemma_parse_encoded(s, 0, normalized(v));
}

} // verus!
