//! Snappy raw-block decoder (Blosc's other inner codec).

use vstd::prelude::*;
use crate::bytes::{back_copy, le16_at, le32_at, lemma_back_copy_len, push_all, push_back_copy, read_le16, read_le32};
use crate::error::MmnError;
use crate::proto::{lemma_varint_from_bounds, varint_from};

verus! {

/// `256^k`.
pub open spec fn pow256(k: nat) -> int
    decreases k,
{
    if k == 0 { 1 } else { 256 * pow256((k - 1) as nat) }
}

/// Little-endian value of the `n` bytes at `p`.
pub open spec fn le_n_at(s: Seq<u8>, p: int, n: nat) -> int
    decreases n,
{
    if n == 0 { 0 } else { le_n_at(s, p, (n - 1) as nat) + s[p + n - 1] * pow256((n - 1) as nat) }
}

/// The declared uncompressed length: a varint of at most six bytes.
pub open spec fn snappy_preamble(src: Seq<u8>) -> Option<(u64, nat)> {
    varint_from(src, 0, 0, 0, 6)
}

/// The element tagged at `ip` (with `out` decoded so far): the bytes it produces
/// and where the next element starts, or `None` when it is malformed.
pub open spec fn snappy_element(src: Seq<u8>, ip: int, out: Seq<u8>) -> Option<(Seq<u8>, int)> {
    let tag = src[ip];
    let ip1 = ip + 1;
    let kind = tag % 4;
    if kind == 0 {
        let len0 = tag / 4 + 1;
        let extra = if len0 > 60 { len0 - 60 } else { 0 };
        if ip1 + extra > src.len() {
            None
        } else {
            let len = if len0 > 60 { le_n_at(src, ip1, extra as nat) + 1 } else { len0 as int };
            let ip2 = ip1 + extra;
            if ip2 + len > src.len() {
                None
            } else {
                Some((out + src.subrange(ip2, ip2 + len), ip2 + len))
            }
        }
    } else {
        let copy: Option<(int, int, int)> = if kind == 1 {
            if ip1 + 1 > src.len() {
                None
            } else {
                Some((tag / 4 % 8 + 4, (tag / 32) * 256 + src[ip1], ip1 + 1))
            }
        } else if kind == 2 {
            if ip1 + 2 > src.len() {
                None
            } else {
                Some((tag / 4 + 1, le16_at(src, ip1), ip1 + 2))
            }
        } else {
            if ip1 + 4 > src.len() {
                None
            } else {
                Some((tag / 4 + 1, le32_at(src, ip1), ip1 + 4))
            }
        };
        match copy {
            None => None,
            Some((len, offset, next)) => if offset == 0 || offset > out.len() {
                None
            } else {
                Some((back_copy(out, offset, len as nat), next))
            },
        }
    }
}

/// A copy with a one-byte offset, encoded: the tag holds the offset's top
/// three bits (bits 5 to 7), the length minus 4 (bits 2 to 4) and the kind 1;
/// the next byte holds the offset's low eight bits.
pub open spec fn snappy_copy1(offset: int, len: int) -> Seq<u8> {
    seq![((offset / 256) * 32 + (len - 4) * 4 + 1) as u8, (offset % 256) as u8]
}

/// Decoding undoes the encoding of a one-byte-offset copy, for every offset
/// of its eleven bits (1 to 2047) and every length from 4 to 11: it copies
/// `len` bytes from `offset` bytes back and moves past the two bytes; an
/// offset reaching before the start of the output is refused. Every tag of
/// kind 1 is such an encoding.
pub proof fn lemma_snappy_copy1_round_trip(src: Seq<u8>, ip: int, offset: int, len: int, out: Seq<u8>)
    requires
        0 <= ip,
        ip + 2 <= src.len(),
        1 <= offset < 2048,
        4 <= len < 12,
        src.subrange(ip, ip + 2) == snappy_copy1(offset, len),
    ensures
        offset > out.len() ==> snappy_element(src, ip, out) is None,
        offset <= out.len() ==> snappy_element(src, ip, out) == Some((back_copy(out, offset, len as nat), ip + 2)),
{
    let enc = snappy_copy1(offset, len);
    assert(src[ip] == src.subrange(ip, ip + 2)[0]);
    assert(src[ip + 1] == src.subrange(ip, ip + 2)[1]);
    let t = (offset / 256) * 32 + (len - 4) * 4 + 1;
    assert(0 <= t < 256);
    assert(src[ip] == t);
    assert(src[ip + 1] == offset % 256);
    assert(t % 4 == 1);
    assert(t / 4 % 8 == len - 4);
    assert(t / 32 == offset / 256);
}

/// A copy with a two-byte offset (lengths 1 to 64), encoded: the tag holds
/// the length minus 1 above the kind 2, then the offset, little-endian.
pub open spec fn snappy_copy2(offset: int, len: int) -> Seq<u8> {
    seq![((len - 1) * 4 + 2) as u8, (offset % 256) as u8, (offset / 256) as u8]
}

/// A copy with a four-byte offset (lengths 1 to 64), encoded: the tag holds
/// the length minus 1 above the kind 3, then the offset, little-endian.
pub open spec fn snappy_copy4(offset: int, len: int) -> Seq<u8> {
    seq![
        ((len - 1) * 4 + 3) as u8,
        (offset % 256) as u8,
        (offset / 256 % 256) as u8,
        (offset / 65536 % 256) as u8,
        (offset / 16777216) as u8,
    ]
}

/// A literal run of 1 to 256 bytes, encoded: up to 60 bytes the tag holds
/// the length minus 1 above the kind 0; longer runs take the tag 60 << 2 and
/// one byte with the length minus 1. The bytes follow.
pub open spec fn snappy_literal(lits: Seq<u8>) -> Seq<u8> {
    if lits.len() <= 60 {
        seq![((lits.len() - 1) * 4) as u8] + lits
    } else {
        seq![240u8, (lits.len() - 1) as u8] + lits
    }
}

/// Decoding undoes the encoding of a two-byte-offset copy, for every offset
/// from 1 to 65535 and every length from 1 to 64; an offset reaching before
/// the start of the output is refused.
pub proof fn lemma_snappy_copy2_round_trip(src: Seq<u8>, ip: int, offset: int, len: int, out: Seq<u8>)
    requires
        0 <= ip,
        ip + 3 <= src.len(),
        1 <= offset < 65536,
        1 <= len <= 64,
        src.subrange(ip, ip + 3) == snappy_copy2(offset, len),
    ensures
        offset > out.len() ==> snappy_element(src, ip, out) is None,
        offset <= out.len() ==> snappy_element(src, ip, out) == Some((back_copy(out, offset, len as nat), ip + 3)),
{
    let w = src.subrange(ip, ip + 3);
    assert(src[ip] == w[0]);
    assert(src[ip + 1] == w[1]);
    assert(src[ip + 2] == w[2]);
    let t = (len - 1) * 4 + 2;
    assert(0 <= t < 256);
    assert(src[ip] == t);
    assert(t % 4 == 2);
    assert(t / 4 + 1 == len);
    assert(le16_at(src, ip + 1) == offset);
}

/// Decoding undoes the encoding of a four-byte-offset copy, for every offset
/// from 1 to 2^32 - 1 and every length from 1 to 64; an offset reaching
/// before the start of the output is refused.
pub proof fn lemma_snappy_copy4_round_trip(src: Seq<u8>, ip: int, offset: int, len: int, out: Seq<u8>)
    requires
        0 <= ip,
        ip + 5 <= src.len(),
        1 <= offset < 0x1_0000_0000,
        1 <= len <= 64,
        src.subrange(ip, ip + 5) == snappy_copy4(offset, len),
    ensures
        offset > out.len() ==> snappy_element(src, ip, out) is None,
        offset <= out.len() ==> snappy_element(src, ip, out) == Some((back_copy(out, offset, len as nat), ip + 5)),
{
    let w = src.subrange(ip, ip + 5);
    assert(src[ip] == w[0]);
    assert(src[ip + 1] == w[1]);
    assert(src[ip + 2] == w[2]);
    assert(src[ip + 3] == w[3]);
    assert(src[ip + 4] == w[4]);
    let t = (len - 1) * 4 + 3;
    assert(0 <= t < 256);
    assert(src[ip] == t);
    assert(t % 4 == 3);
    assert(t / 4 + 1 == len);
    assert(le16_at(src, ip + 1) == offset % 65536);
    assert(le16_at(src, ip + 3) == offset / 65536);
    assert(le32_at(src, ip + 1) == offset);
}

/// Decoding undoes the encoding of a literal run of 1 to 256 bytes: the
/// bytes are appended and decoding moves past them.
pub proof fn lemma_snappy_literal_round_trip(src: Seq<u8>, ip: int, lits: Seq<u8>, out: Seq<u8>)
    requires
        0 <= ip,
        1 <= lits.len() <= 256,
        ip + snappy_literal(lits).len() <= src.len(),
        src.subrange(ip, ip + snappy_literal(lits).len()) == snappy_literal(lits),
    ensures
        snappy_element(src, ip, out) == Some((out + lits, ip + snappy_literal(lits).len())),
{
    let enc = snappy_literal(lits);
    let w = src.subrange(ip, ip + enc.len());
    let h: int = if lits.len() <= 60 { 1 } else { 2 };
    assert(enc.len() == h + lits.len());
    assert(src[ip] == w[0]);
    if lits.len() > 60 {
        assert(src[ip + 1] == w[1]);
        assert(src[ip] == 240);
        assert(src[ip + 1] == lits.len() - 1);
        assert(le_n_at(src, ip + 1, 1) == src[ip + 1]) by {
            assert(le_n_at(src, ip + 1, 0) == 0);
            assert(pow256(0) == 1);
        }
    } else {
        assert(src[ip] == (lits.len() - 1) * 4);
    }
    assert(src.subrange(ip + h, ip + h + lits.len()) =~= lits) by {
        assert forall|k: int| 0 <= k < lits.len() implies #[trigger] src.subrange(ip + h, ip + h + lits.len())[k] == lits[k] by {
            assert(src[ip + h + k] == w[h + k]);
            assert(enc[h + k] == lits[k]);
        }
    }
}

/// Every tag of kind 1 is the encoding of a one-byte-offset copy: its offset
/// is `((tag >> 5) << 8) | byte` and its length `((tag >> 2) & 7) + 4`.
pub proof fn lemma_snappy_copy1_tags(tag: u8, byte: u8)
    requires
        tag & 3 == 1,
    ensures
        seq![tag, byte] == snappy_copy1(
            ((((tag >> 5u8) as u32) << 8u32) | byte as u32) as int,
            (((tag >> 2u8) & 7u8) + 4) as int,
        ),
        ((((tag >> 5u8) as u32) << 8u32) | (byte as u32)) < 2048,
{
    let off: u32 = (((tag >> 5u8) as u32) << 8u32) | byte as u32;
    let l: u8 = (tag >> 2u8) & 7u8;
    assert(off == (tag / 32) as u32 * 256 + byte as u32 && off < 2048) by (bit_vector)
        requires
            off == (((tag >> 5u8) as u32) << 8u32) | byte as u32,
    ;
    assert(l == tag / 4 % 8) by (bit_vector)
        requires
            l == (tag >> 2u8) & 7u8,
    ;
    assert(tag % 4 == 1) by (bit_vector)
        requires
            tag & 3 == 1,
    ;
    assert(tag == (tag / 32) * 32 + (tag / 4 % 8) * 4 + tag % 4);
    assert(off / 256 == tag / 32);
    assert(off % 256 == byte);
    assert(seq![tag, byte] =~= snappy_copy1(off as int, (l + 4) as int));
}

/// Decoding of the elements from `ip` on, with `out` produced so far.
pub open spec fn snappy_elements(src: Seq<u8>, ip: int, out: Seq<u8>, expected: int) -> Option<Seq<u8>>
    decreases src.len() - ip,
{
    if ip < 0 || ip >= src.len() {
        if out.len() == expected { Some(out) } else { None }
    } else {
        match snappy_element(src, ip, out) {
            None => None,
            Some((out2, next)) => if out2.len() > expected || next <= ip || next > src.len() {
                None
            } else {
                snappy_elements(src, next, out2, expected)
            },
        }
    }
}

/// The Snappy block `src` decoded (its length must match the preamble).
pub open spec fn spec_snappy(src: Seq<u8>) -> Option<Seq<u8>> {
    match snappy_preamble(src) {
        None => None,
        Some((expected, n)) => snappy_elements(src, n as int, Seq::empty(), expected as int),
    }
}

/// A declared length below 2^14 as a varint: seven bits per byte, low bits
/// first, the high bit set on every byte but the last.
pub open spec fn snappy_length_bytes(n: int) -> Seq<u8> {
    if n < 128 { seq![n as u8] } else { seq![(n % 128 + 128) as u8, (n / 128) as u8] }
}

/// A block that starts with its declared length decodes as its elements,
/// which must produce exactly that many bytes.
pub proof fn lemma_snappy_block_length(src: Seq<u8>, n: int)
    requires
        0 <= n < 16384,
        snappy_length_bytes(n).len() <= src.len(),
        src.subrange(0, snappy_length_bytes(n).len() as int) == snappy_length_bytes(n),
    ensures
        spec_snappy(src) == snappy_elements(src, snappy_length_bytes(n).len() as int, Seq::empty(), n),
{
    let enc = snappy_length_bytes(n);
    assert(src[0] == enc[0]);
    if n < 128 {
        let b: u8 = src[0];
        assert(b == n);
        assert(b & 0x80 == 0 && (0u64 | (((b & 0x7F) as u64) << 0u64)) == b as u64) by (bit_vector)
            requires
                b < 128,
        ;
        assert(varint_from(src, 0, 0, 0, 6) == Some((n as u64, 1nat)));
    } else {
        assert(src[1] == src.subrange(0, 2)[1]);
        let b0: u8 = src[0];
        let b1: u8 = src[1];
        let v: u64 = n as u64;
        assert(b0 == v % 128 + 128);
        assert(b1 == v / 128);
        let a1: u64 = 0u64 | (((b0 & 0x7F) as u64) << 0u64);
        assert(b0 & 0x80 != 0 && a1 == v % 128 && b1 & 0x80 == 0
            && (a1 | (((b1 & 0x7F) as u64) << 7u64)) == v) by (bit_vector)
            requires
                v < 16384,
                b0 == v % 128 + 128,
                b1 == v / 128,
                a1 == 0u64 | (((b0 & 0x7F) as u64) << 0u64),
        ;
        assert(varint_from(src, 0, 1, a1, 6) == Some((v, 2nat)));
        assert(varint_from(src, 0, 0, 0, 6) == Some((v, 2nat)));
    }
}

/// Decompress a raw Snappy block.
pub fn snappy_decompress(src: &[u8]) -> (r: Result<Vec<u8>, MmnError>)
    requires
        src@.len() <= isize::MAX,
        snappy_preamble(src@) matches Some((e, _)) ==> e <= isize::MAX,
    ensures
        match spec_snappy(src@) {
            Some(out) => r matches Ok(v) && v@ == out,
            None => r is Err,
        },
{
    let n = src.len();
    let mut ip: usize = 0;
    let mut expected: u64 = 0;
    let mut shift: u64 = 0;
    loop
        invariant_except_break
            n == src@.len(),
            ip < 6,
            shift == 7 * ip,
            snappy_preamble(src@) == varint_from(src@, 0, ip as nat, expected, 6),
            expected < pow2_7(ip as nat),
        ensures
            n == src@.len(),
            1 <= ip <= 6,
            ip <= n,
            snappy_preamble(src@) == Some((expected, ip as nat)),
            expected < pow2_7(ip as nat),
        decreases 6 - ip,
    {
        if ip >= n {
            return Err(MmnError::new("snappy length varint truncated"));
        }
        let byte = src[ip];
        proof {
            lemma_or_shift_bound(expected, byte, ip as nat);
        }
        expected = expected | (((byte & 0x7F) as u64) << shift);
        ip = ip + 1;
        if byte & 0x80 == 0 {
            break;
        }
        shift = shift + 7;
        if shift > 35 {
            return Err(MmnError::new("snappy length varint too long"));
        }
    }
    proof {
        lemma_varint_from_bounds(src@, 0, 0, 0, 6);
        reveal_with_fuel(pow2_7, 7);
        assert(pow2_7(6) == 0x400_0000_0000);
        assert(pow2_7(ip as nat) <= pow2_7(6)) by {
            lemma_pow2_7_mono(ip as nat, 6);
        }
    }
    if expected > isize::MAX as u64 {
        return Err(MmnError::new("snappy declared length too large"));
    }
    let expected = expected as usize;
    let mut out: Vec<u8> = Vec::with_capacity(expected);
    while ip < n
        invariant
            n == src@.len(),
            n <= isize::MAX,
            expected <= isize::MAX,
            ip <= n,
            out@.len() <= expected,
            spec_snappy(src@) == snappy_elements(src@, ip as int, out@, expected as int),
        decreases n - ip,
    {
        let tag = src[ip];
        let ip1 = ip + 1;
        let kind = tag % 4;
        let ghost before = out@;
        let next: usize;
        if kind == 0 {
            let len0 = (tag / 4) as usize + 1;
            let extra: usize = if len0 > 60 { len0 - 60 } else { 0 };
            if extra > n - ip1 {
                return Err(MmnError::new("snappy literal length truncated"));
            }
            let mut len: u64 = len0 as u64;
            if len0 > 60 {
                let mut value: u64 = 0;
                let mut mult: u64 = 1;
                let mut i: usize = 0;
                while i < extra
                    invariant
                        extra <= 4,
                        ip1 + extra <= n,
                        n == src@.len(),
                        i <= extra,
                        mult == pow256(i as nat),
                        value == le_n_at(src@, ip1 as int, i as nat),
                        value < mult,
                    decreases extra - i,
                {
                    let byte = src[ip1 + i];
                    proof {
                        assert(pow256(i as nat + 1) == 256 * pow256(i as nat));
                        reveal_with_fuel(pow256, 5);
                        assert(pow256(4) == 0x1_0000_0000);
                        lemma_pow256_mono(i as nat + 1, 4);
                        assert(value + byte * mult < 256 * mult) by (nonlinear_arith)
                            requires value < mult, byte < 256;
                    }
                    value = value + (byte as u64) * mult;
                    mult = mult * 256;
                    i = i + 1;
                }
                len = value + 1;
            }
            let ip2 = ip1 + extra;
            if len > (n - ip2) as u64 {
                return Err(MmnError::new("snappy literals truncated"));
            }
            let len = len as usize;
            push_all(&mut out, slice_of(src, ip2, ip2 + len));
            next = ip2 + len;
        } else {
            let len: usize;
            let offset: usize;
            if kind == 1 {
                if ip1 >= n {
                    return Err(MmnError::new("snappy copy offset truncated"));
                }
                len = (tag / 4 % 8) as usize + 4;
                offset = (tag / 32) as usize * 256 + src[ip1] as usize;
                next = ip1 + 1;
            } else if kind == 2 {
                if n - ip1 < 2 {
                    return Err(MmnError::new("snappy copy offset truncated"));
                }
                len = (tag / 4) as usize + 1;
                offset = read_le16(src, ip1) as usize;
                next = ip1 + 2;
            } else {
                if n - ip1 < 4 {
                    return Err(MmnError::new("snappy copy offset truncated"));
                }
                len = (tag / 4) as usize + 1;
                offset = read_le32(src, ip1) as usize;
                next = ip1 + 4;
            }
            if offset == 0 || offset > out.len() {
                return Err(MmnError::new("snappy copy offset invalid at its output position"));
            }
            push_back_copy(&mut out, offset, len);
            proof {
                lemma_back_copy_len(before, offset as int, len as nat);
            }
        }
        if out.len() > expected {
            return Err(MmnError::new("snappy output exceeds its declared length"));
        }
        ip = next;
    }
    if out.len() != expected {
        return Err(MmnError::new("snappy output length differs from the declared length"));
    }
    Ok(out)
}

/// `2^(7k)`.
pub open spec fn pow2_7(k: nat) -> int
    decreases k,
{
    if k == 0 { 1 } else { 128 * pow2_7((k - 1) as nat) }
}

proof fn lemma_pow2_7_mono(a: nat, b: nat)
    requires
        a <= b,
    ensures
        1 <= pow2_7(a) <= pow2_7(b),
    decreases b,
{
    if b > 0 {
        if a < b {
            lemma_pow2_7_mono(a, (b - 1) as nat);
        } else {
            lemma_pow2_7_mono((b - 1) as nat, (b - 1) as nat);
        }
    }
}

proof fn lemma_pow256_mono(a: nat, b: nat)
    requires
        a <= b,
    ensures
        1 <= pow256(a) <= pow256(b),
    decreases b,
{
    if b > 0 {
        if a < b {
            lemma_pow256_mono(a, (b - 1) as nat);
        } else {
            lemma_pow256_mono((b - 1) as nat, (b - 1) as nat);
        }
    }
}

proof fn lemma_or_shift_bound(acc: u64, byte: u8, k: nat)
    requires
        k < 6,
        acc < pow2_7(k),
    ensures
        (acc | (((byte & 0x7F) as u64) << ((7 * k) as u64))) < pow2_7(k + 1),
{
    reveal_with_fuel(pow2_7, 7);
    if k == 0 {
        assert((acc | (((byte & 0x7F) as u64) << 0u64)) < 0x80u64) by (bit_vector)
            requires acc < 0x1u64;
    } else if k == 1 {
        assert((acc | (((byte & 0x7F) as u64) << 7u64)) < 0x4000u64) by (bit_vector)
            requires acc < 0x80u64;
    } else if k == 2 {
        assert((acc | (((byte & 0x7F) as u64) << 14u64)) < 0x200000u64) by (bit_vector)
            requires acc < 0x4000u64;
    } else if k == 3 {
        assert((acc | (((byte & 0x7F) as u64) << 21u64)) < 0x10000000u64) by (bit_vector)
            requires acc < 0x200000u64;
    } else if k == 4 {
        assert((acc | (((byte & 0x7F) as u64) << 28u64)) < 0x800000000u64) by (bit_vector)
            requires acc < 0x10000000u64;
    } else if k == 5 {
        assert((acc | (((byte & 0x7F) as u64) << 35u64)) < 0x40000000000u64) by (bit_vector)
            requires acc < 0x800000000u64;
    }
}

/// The sub-slice `src[start..end]`.
fn slice_of(src: &[u8], start: usize, end: usize) -> (s: &[u8])
    requires
        start <= end <= src@.len(),
    ensures
        s@ == src@.subrange(start as int, end as int),
{
    &src[start..end]
}

} // verus!
