//! Little-endian integer encodings of byte sequences.

use vstd::prelude::*;

verus! {

/// Value of the little-endian u16 stored at `pos`.
pub open spec fn le16_at(s: Seq<u8>, pos: int) -> int {
    s[pos] + 256 * s[pos + 1]
}

/// Value of the little-endian u32 stored at `pos`.
pub open spec fn le32_at(s: Seq<u8>, pos: int) -> int {
    le16_at(s, pos) + 65536 * le16_at(s, pos + 2)
}

/// Value of the little-endian u64 stored at `pos`.
pub open spec fn le64_at(s: Seq<u8>, pos: int) -> int {
    le32_at(s, pos) + 0x1_0000_0000 * le32_at(s, pos + 4)
}

/// The two little-endian bytes of `v`.
pub open spec fn le16_bytes(v: int) -> Seq<u8> {
    seq![(v % 256) as u8, ((v / 256) % 256) as u8]
}

/// The four little-endian bytes of `v`.
pub open spec fn le32_bytes(v: int) -> Seq<u8> {
    le16_bytes(v % 65536) + le16_bytes((v / 65536) % 65536)
}

/// The eight little-endian bytes of `v`.
pub open spec fn le64_bytes(v: int) -> Seq<u8> {
    le32_bytes(v % 0x1_0000_0000) + le32_bytes((v / 0x1_0000_0000) % 0x1_0000_0000)
}

pub proof fn lemma_le16_roundtrip(s: Seq<u8>, pos: int, v: int)
    requires
        0 <= v < 65536,
        0 <= pos,
        pos + 2 <= s.len(),
        s.subrange(pos, pos + 2) == le16_bytes(v),
    ensures
        le16_at(s, pos) == v,
{
    assert(s[pos] == le16_bytes(v)[0]);
    assert(s[pos + 1] == le16_bytes(v)[1]);
}

pub proof fn lemma_le32_roundtrip(s: Seq<u8>, pos: int, v: int)
    requires
        0 <= v < 0x1_0000_0000,
        0 <= pos,
        pos + 4 <= s.len(),
        s.subrange(pos, pos + 4) == le32_bytes(v),
    ensures
        le32_at(s, pos) == v,
{
    let e = le32_bytes(v);
    assert(s[pos] == e[0]);
    assert(s[pos + 1] == e[1]);
    assert(s[pos + 2] == e[2]);
    assert(s[pos + 3] == e[3]);
}

pub proof fn lemma_le64_roundtrip(s: Seq<u8>, pos: int, v: int)
    requires
        0 <= v < 0x1_0000_0000_0000_0000,
        0 <= pos,
        pos + 8 <= s.len(),
        s.subrange(pos, pos + 8) == le64_bytes(v),
    ensures
        le64_at(s, pos) == v,
{
    let lo = v % 0x1_0000_0000;
    let hi = (v / 0x1_0000_0000) % 0x1_0000_0000;
    let a = le32_bytes(lo);
    let b = le32_bytes(hi);
    let e = le64_bytes(v);
    assert(e == a + b);
    let s1 = s.subrange(pos, pos + 4);
    let s2 = s.subrange(pos + 4, pos + 8);
    assert forall|k: int| 0 <= k < 4 implies s1[k] == a[k] by {
        assert(s.subrange(pos, pos + 8)[k] == s[pos + k]);
        assert(e[k] == a[k]);
    }
    assert forall|k: int| 0 <= k < 4 implies s2[k] == b[k] by {
        assert(s.subrange(pos, pos + 8)[k + 4] == s[pos + 4 + k]);
        assert(e[k + 4] == b[k]);
    }
    assert(s1 =~= a);
    assert(s2 =~= b);
    lemma_le32_roundtrip(s, pos, lo);
    lemma_le32_roundtrip(s, pos + 4, hi);
}

/// Little-endian u16 at `pos`.
pub fn read_le16(bytes: &[u8], pos: usize) -> (v: u16)
    requires
        pos + 2 <= bytes@.len(),
    ensures
        v as int == le16_at(bytes@, pos as int),
{
    bytes[pos] as u16 + 256 * (bytes[pos + 1] as u16)
}

/// Little-endian u32 at `pos`.
pub fn read_le32(bytes: &[u8], pos: usize) -> (v: u32)
    requires
        pos + 4 <= bytes@.len(),
    ensures
        v as int == le32_at(bytes@, pos as int),
{
    let _n = bytes.len();
    let lo = read_le16(bytes, pos) as u32;
    let hi = read_le16(bytes, pos + 2) as u32;
    lo + 65536 * hi
}

/// Little-endian u64 at `pos`.
pub fn read_le64(bytes: &[u8], pos: usize) -> (v: u64)
    requires
        pos + 8 <= bytes@.len(),
    ensures
        v as int == le64_at(bytes@, pos as int),
{
    let _n = bytes.len();
    let lo = read_le32(bytes, pos) as u64;
    let hi = read_le32(bytes, pos + 4) as u64;
    lo + 0x1_0000_0000 * hi
}

/// Append the two little-endian bytes of `v`.
pub fn push_le16(out: &mut Vec<u8>, v: u16)
    ensures
        final(out)@ == old(out)@ + le16_bytes(v as int),
{
    out.push((v % 256) as u8);
    out.push((v / 256) as u8);
}

/// Append the four little-endian bytes of `v`.
pub fn push_le32(out: &mut Vec<u8>, v: u32)
    ensures
        final(out)@ == old(out)@ + le32_bytes(v as int),
{
    push_le16(out, (v % 65536) as u16);
    push_le16(out, (v / 65536) as u16);
    assert(final(out)@ =~= old(out)@ + le32_bytes(v as int));
}

/// Append the eight little-endian bytes of `v`.
pub fn push_le64(out: &mut Vec<u8>, v: u64)
    ensures
        final(out)@ == old(out)@ + le64_bytes(v as int),
{
    let lo = (v % 0x1_0000_0000) as u32;
    let hi = (v / 0x1_0000_0000) as u32;
    assert(hi as int == (v as int / 0x1_0000_0000) % 0x1_0000_0000);
    assert(le64_bytes(v as int) == le32_bytes(lo as int) + le32_bytes(hi as int));
    push_le32(out, lo);
    push_le32(out, hi);
    assert(final(out)@ =~= old(out)@ + le64_bytes(v as int));
}

/// Append every byte of `src`.
pub fn push_all(out: &mut Vec<u8>, src: &[u8])
    ensures
        final(out)@ == old(out)@ + src@,
{
    let mut i: usize = 0;
    while i < src.len()
        invariant
            i <= src@.len(),
            out@ == old(out)@ + src@.take(i as int),
        decreases src@.len() - i,
    {
        out.push(src[i]);
        i = i + 1;
        assert(out@ =~= old(out)@ + src@.take(i as int));
    }
    assert(src@.take(src@.len() as int) =~= src@);
}

/// A fresh vector holding the bytes `src[start..end]`.
pub fn copy_range(src: &[u8], start: usize, end: usize) -> (out: Vec<u8>)
    requires
        start <= end <= src@.len(),
    ensures
        out@ == src@.subrange(start as int, end as int),
{
    let mut out: Vec<u8> = Vec::with_capacity(end - start);
    let mut i: usize = start;
    while i < end
        invariant
            start <= i <= end <= src@.len(),
            out@ == src@.subrange(start as int, i as int),
        decreases end - i,
    {
        out.push(src[i]);
        i = i + 1;
        assert(out@ =~= src@.subrange(start as int, i as int));
    }
    out
}

} // verus!

verus! {

/// `out` extended by an LZ77 back-reference: `len` bytes, each copied from
/// `dist` positions behind the current end (so overlapping copies repeat).
pub open spec fn back_copy(out: Seq<u8>, dist: int, len: nat) -> Seq<u8>
    decreases len,
{
    if len == 0 {
        out
    } else {
        back_copy(out.push(out[out.len() - dist]), dist, (len - 1) as nat)
    }
}

pub proof fn lemma_back_copy_len(out: Seq<u8>, dist: int, len: nat)
    ensures
        back_copy(out, dist, len).len() == out.len() + len,
    decreases len,
{
    if len > 0 {
        lemma_back_copy_len(out.push(out[out.len() - dist]), dist, (len - 1) as nat);
    }
}

/// A back-reference only extends its input.
pub proof fn lemma_back_copy_prefix(out: Seq<u8>, dist: int, len: nat)
    ensures
        back_copy(out, dist, len).subrange(0, out.len() as int) == out,
    decreases len,
{
    lemma_back_copy_len(out, dist, len);
    if len > 0 {
        let o2 = out.push(out[out.len() - dist]);
        lemma_back_copy_prefix(o2, dist, (len - 1) as nat);
        lemma_back_copy_len(o2, dist, (len - 1) as nat);
        assert(back_copy(out, dist, len).subrange(0, out.len() as int) =~= o2.subrange(0, out.len() as int));
    }
}

/// Append an LZ77 back-reference of `len` bytes at distance `dist`.
pub fn push_back_copy(out: &mut Vec<u8>, dist: usize, len: usize)
    requires
        0 < dist <= old(out)@.len(),
    ensures
        final(out)@ == back_copy(old(out)@, dist as int, len as nat),
{
    let start = out.len() - dist;
    let mut k: usize = 0;
    while k < len
        invariant
            k <= len,
            start + dist == old(out)@.len(),
            0 < dist,
            out@.len() == old(out)@.len() + k,
            back_copy(old(out)@, dist as int, len as nat) == back_copy(out@, dist as int, (len - k) as nat),
        decreases len - k,
    {
        let _n = out.len();
        let byte = out[start + k];
        out.push(byte);
        k = k + 1;
    }
}

} // verus!
