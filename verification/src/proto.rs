//! Protocol-buffers wire-format reader (varint, fixed, length-delimited).

use vstd::prelude::*;
use crate::bytes::{le32_at, le64_at, read_le32, read_le64};
use crate::error::MmnError;

verus! {

/// Decoding of the base-128 varint whose `k`-th byte sits at `p + k`, with the
/// low groups already gathered in `acc`: `Some((value, bytes_used))`, or `None`
/// when the input ends first or the varint runs past `max` bytes.
pub open spec fn varint_from(buf: Seq<u8>, p: int, k: nat, acc: u64, max: nat) -> Option<(u64, nat)>
    decreases max - k,
{
    if k >= max || max > 10 || p < 0 || p + k >= buf.len() {
        None
    } else {
        let b = buf[p + k];
        let acc2 = acc | (((b & 0x7F) as u64) << ((7 * k) as u64));
        if b & 0x80 == 0 {
            Some((acc2, k + 1))
        } else if k + 1 >= max {
            None
        } else {
            varint_from(buf, p, k + 1, acc2, max)
        }
    }
}

/// The varint starting at `p`.
pub open spec fn spec_varint(buf: Seq<u8>, p: int) -> Option<(u64, nat)> {
    varint_from(buf, p, 0, 0, 10)
}

/// Every varint of a packed field starting at `p`, back to back to the end.
pub open spec fn spec_packed_varints(buf: Seq<u8>, p: int) -> Option<Seq<u64>>
    decreases buf.len() - p,
{
    if p >= buf.len() || p < 0 {
        Some(Seq::empty())
    } else {
        match spec_varint(buf, p) {
            None => None,
            Some((v, n)) => if n == 0 || p + n > buf.len() {
                None
            } else {
                match spec_packed_varints(buf, p + n) {
                    None => None,
                    Some(rest) => Some(seq![v] + rest),
                }
            },
        }
    }
}

/// One decoded field value.
pub enum ProtoValue<'a> {
    Varint(u64),
    Fixed64(u64),
    Fixed32(u32),
    Bytes(&'a [u8]),
}

/// The mathematical content of a field value.
pub enum SpecProtoValue {
    Varint(u64),
    Fixed64(u64),
    Fixed32(u32),
    Bytes(Seq<u8>),
}

impl<'a> View for ProtoValue<'a> {
    type V = SpecProtoValue;

    open spec fn view(&self) -> SpecProtoValue {
        match self {
            ProtoValue::Varint(v) => SpecProtoValue::Varint(*v),
            ProtoValue::Fixed64(v) => SpecProtoValue::Fixed64(*v),
            ProtoValue::Fixed32(v) => SpecProtoValue::Fixed32(*v),
            ProtoValue::Bytes(b) => SpecProtoValue::Bytes(b@),
        }
    }
}

/// The fields of the message body `buf[p..]`: `(field number, value)` pairs in order.
pub open spec fn spec_fields(buf: Seq<u8>, p: int) -> Option<Seq<(u64, SpecProtoValue)>>
    decreases buf.len() - p,
{
    if p >= buf.len() || p < 0 {
        Some(Seq::empty())
    } else {
        match spec_varint(buf, p) {
            None => None,
            Some((tag, n)) => {
                let q = p + n;
                let field = tag >> 3;
                let wire = tag & 7;
                let item: Option<(SpecProtoValue, int)> = if wire == 0 {
                    match spec_varint(buf, q) {
                        None => None,
                        Some((v, m)) => Some((SpecProtoValue::Varint(v), q + m)),
                    }
                } else if wire == 1 {
                    if q + 8 <= buf.len() {
                        Some((SpecProtoValue::Fixed64(le64_at(buf, q) as u64), q + 8))
                    } else {
                        None
                    }
                } else if wire == 2 {
                    match spec_varint(buf, q) {
                        None => None,
                        Some((len, m)) => if q + m + len <= buf.len() {
                            Some((SpecProtoValue::Bytes(buf.subrange(q + m, q + m + len)), q + m + len))
                        } else {
                            None
                        },
                    }
                } else if wire == 5 {
                    if q + 4 <= buf.len() {
                        Some((SpecProtoValue::Fixed32(le32_at(buf, q) as u32), q + 4))
                    } else {
                        None
                    }
                } else {
                    None
                };
                match item {
                    None => None,
                    Some((v, next)) => if p < next <= buf.len() {
                        match spec_fields(buf, next) {
                            None => None,
                            Some(rest) => Some(seq![(field, v)] + rest),
                        }
                    } else {
                        None
                    },
                }
            },
        }
    }
}

pub proof fn lemma_varint_from_bounds(buf: Seq<u8>, p: int, k: nat, acc: u64, max: nat)
    ensures
        varint_from(buf, p, k, acc, max) matches Some((v, n)) ==> k < n <= max && p + n <= buf.len(),
    decreases max - k,
{
    if !(k >= max || max > 10 || p < 0 || p + k >= buf.len()) {
        let b = buf[p + k];
        let acc2 = acc | (((b & 0x7F) as u64) << ((7 * k) as u64));
        if b & 0x80 != 0 && k + 1 < max {
            lemma_varint_from_bounds(buf, p, k + 1, acc2, max);
        }
    }
}

/// A varint, when it decodes, uses between one and ten bytes that lie inside the buffer.
pub proof fn lemma_varint_bounds(buf: Seq<u8>, p: int)
    ensures
        spec_varint(buf, p) matches Some((v, n)) ==> 0 < n <= 10 && p + n <= buf.len(),
{
    lemma_varint_from_bounds(buf, p, 0, 0, 10);
}

impl<'a> ProtoValue<'a> {
    /// The payload of a length-delimited field.
    pub fn as_bytes(&self) -> (r: Option<&'a [u8]>)
        ensures
            match self {
                ProtoValue::Bytes(b) => r == Some(*b),
                _ => r is None,
            },
    {
        match self {
            ProtoValue::Bytes(b) => Some(*b),
            _ => None,
        }
    }
}

/// Read the varint at `*pos`, advancing `*pos` past it.
pub fn read_varint(buf: &[u8], pos: &mut usize) -> (r: Result<u64, MmnError>)
    ensures
        match spec_varint(buf@, *old(pos) as int) {
            Some((v, n)) => r matches Ok(x) && x == v && *final(pos) == *old(pos) + n,
            None => r is Err,
        },
{
    let mut out: u64 = 0;
    let mut shift: u32 = 0;
    let ghost p0 = *pos as int;
    let mut k: usize = 0;
    loop
        invariant
            k < 10,
            shift == 7 * k,
            *pos == p0 + k,
            p0 == *old(pos) as int,
            spec_varint(buf@, p0) == varint_from(buf@, p0, k as nat, out, 10),
        decreases 10 - k,
    {
        if *pos >= buf.len() {
            return Err(MmnError::new("protobuf varint truncated"));
        }
        let byte = buf[*pos];
        *pos = *pos + 1;
        out = out | (((byte & 0x7F) as u64) << shift);
        if byte & 0x80 == 0 {
            return Ok(out);
        }
        shift = shift + 7;
        k = k + 1;
        if shift > 63 {
            return Err(MmnError::new("protobuf varint too long"));
        }
    }
}

/// Decode a packed repeated varint field (e.g. `repeated int64` dims).
pub fn packed_varints(buf: &[u8]) -> (r: Result<Vec<u64>, MmnError>)
    ensures
        match spec_packed_varints(buf@, 0) {
            Some(vs) => r matches Ok(out) && out@ == vs,
            None => r is Err,
        },
{
    let mut out: Vec<u64> = Vec::new();
    let mut pos: usize = 0;
    while pos < buf.len()
        invariant
            pos <= buf@.len(),
            spec_packed_varints(buf@, 0) == match spec_packed_varints(buf@, pos as int) {
                None => None,
                Some(rest) => Some(out@ + rest),
            },
        decreases buf@.len() - pos,
    {
        let ghost p = pos as int;
        proof {
            lemma_varint_bounds(buf@, p);
        }
        match read_varint(buf, &mut pos) {
            Ok(v) => {
                proof {
                    let rest = spec_packed_varints(buf@, pos as int);
                    if let Some(r) = rest {
                        assert(out@.push(v) + r =~= out@ + (seq![v] + r));
                    }
                }
                out.push(v);
            },
            Err(e) => {
                return Err(e);
            },
        }
    }
    proof {
        assert(out@ + Seq::<u64>::empty() =~= out@);
    }
    Ok(out)
}

/// Every field of a message, in order, as `(field number, value)` pairs.
pub fn walk_message<'a>(buf: &'a [u8]) -> (r: Result<Vec<(u64, ProtoValue<'a>)>, MmnError>)
    ensures
        match spec_fields(buf@, 0) {
            Some(fs) => r matches Ok(out) && out@.len() == fs.len() && forall|i: int|
                0 <= i < fs.len() ==> (#[trigger] out@[i]).0 == fs[i].0 && out@[i].1@ == fs[i].1,
            None => r is Err,
        },
{
    let mut out: Vec<(u64, ProtoValue<'a>)> = Vec::new();
    let mut pos: usize = 0;
    let ghost mut done: Seq<(u64, SpecProtoValue)> = Seq::empty();
    while pos < buf.len()
        invariant
            pos <= buf@.len(),
            out@.len() == done.len(),
            forall|i: int| 0 <= i < done.len() ==> (#[trigger] out@[i]).0 == done[i].0 && out@[i].1@ == done[i].1,
            spec_fields(buf@, 0) == match spec_fields(buf@, pos as int) {
                None => None,
                Some(rest) => Some(done + rest),
            },
        decreases buf@.len() - pos,
    {
        let ghost p = pos as int;
        proof {
            lemma_varint_bounds(buf@, p);
        }
        let tag = match read_varint(buf, &mut pos) {
            Ok(t) => t,
            Err(e) => return Err(e),
        };
        let field = tag >> 3;
        let wire = tag & 7;
        let ghost q = pos as int;
        proof {
            lemma_varint_bounds(buf@, q);
        }
        let value: ProtoValue<'a> = if wire == 0 {
            match read_varint(buf, &mut pos) {
                Ok(v) => ProtoValue::Varint(v),
                Err(e) => return Err(e),
            }
        } else if wire == 1 {
            if buf.len() - pos < 8 {
                return Err(MmnError::new("protobuf fixed64 truncated"));
            }
            let v = read_le64(buf, pos);
            pos = pos + 8;
            ProtoValue::Fixed64(v)
        } else if wire == 2 {
            let len = match read_varint(buf, &mut pos) {
                Ok(l) => l,
                Err(e) => return Err(e),
            };
            if len > (buf.len() - pos) as u64 {
                return Err(MmnError::new("protobuf length-delimited field truncated"));
            }
            let body = slice_range(buf, pos, pos + len as usize);
            pos = pos + len as usize;
            ProtoValue::Bytes(body)
        } else if wire == 5 {
            if buf.len() - pos < 4 {
                return Err(MmnError::new("protobuf fixed32 truncated"));
            }
            let v = read_le32(buf, pos);
            pos = pos + 4;
            ProtoValue::Fixed32(v)
        } else {
            return Err(MmnError::new("protobuf wire type unsupported"));
        };
        proof {
            let item = (field, value@);
            let rest = spec_fields(buf@, pos as int);
            if let Some(r) = rest {
                assert(done.push(item) + r =~= done + (seq![item] + r));
            }
            done = done.push(item);
        }
        out.push((field, value));
    }
    proof {
        assert(done + Seq::<(u64, SpecProtoValue)>::empty() =~= done);
    }
    Ok(out)
}

/// The sub-slice `buf[start..end]`.
pub fn slice_range<'a>(buf: &'a [u8], start: usize, end: usize) -> (s: &'a [u8])
    requires
        start <= end <= buf@.len(),
    ensures
        s@ == buf@.subrange(start as int, end as int),
{
    &buf[start..end]
}

} // verus!
