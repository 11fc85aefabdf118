//! Zstandard frames (RFC 8878, 3.1): skippable frames, frame headers,
//! and the raw, RLE and compressed blocks of each frame, decoded onto one
//! output. Checksums are skipped, dictionaries refused.

use vstd::prelude::*;
use crate::error::MmnError;
use crate::bytes::{le32_at, read_le32, push_all};
use crate::zstd_block::{BlockState, DecodeState, spec_block, decode_compressed_block};
use crate::zstd_seq::push_range;

verus! {

/// Magic number of a Zstandard frame.
pub const ZSTD_MAGIC: u32 = 0xFD2F_B528;

/// The block at `pos`: a 3-byte little-endian header (bit 0: last block,
/// bits 1-2: type, the rest: size) and a raw, RLE or compressed body. Gives
/// the output, what carries on, the position after, and the last flag.
#[verifier::opaque]
pub open spec fn block_step(bytes: Seq<u8>, pos: int, out: Seq<u8>, bs: BlockState) -> Option<(Seq<u8>, BlockState, int, bool)> {
    if pos < 0 || pos + 3 > bytes.len() {
        None
    } else {
        let word = bytes[pos] as int + bytes[pos + 1] as int * 256 + bytes[pos + 2] as int * 65536;
        let p = pos + 3;
        let last = word % 2 == 1;
        let bt = (word / 2) % 4;
        let size = word / 8;
        if bt == 0 {
            if p + size > bytes.len() {
                None
            } else {
                Some((out + bytes.subrange(p, p + size), bs, p + size, last))
            }
        } else if bt == 1 {
            if p >= bytes.len() {
                None
            } else {
                Some((out + Seq::new(size as nat, |i: int| bytes[p]), bs, p + 1, last))
            }
        } else if bt == 2 {
            if p + size > bytes.len() {
                None
            } else {
                match spec_block(bytes.subrange(p, p + size), out, bs) {
                    None => None,
                    Some((o, b2)) => Some((o, b2, p + size, last)),
                }
            }
        } else {
            None
        }
    }
}

/// A block always moves the position forward, and not past the end.
pub proof fn lemma_block_step(bytes: Seq<u8>, pos: int, out: Seq<u8>, bs: BlockState)
    ensures
        block_step(bytes, pos, out, bs) matches Some((_, _, p1, _)) ==> pos < p1 <= bytes.len(),
{
    reveal(block_step);
}

/// How far `pos` is from the end (zero past it).
pub open spec fn left(bytes: Seq<u8>, pos: int) -> int {
    if pos < bytes.len() { bytes.len() - pos } else { 0 }
}

/// The blocks of a frame from `pos` on, then the frames after it (past the
/// checksum when the frame has one).
pub open spec fn spec_blocks(bytes: Seq<u8>, pos: int, out: Seq<u8>, bs: BlockState, ck: bool) -> Option<Seq<u8>>
    decreases left(bytes, pos),
{
    match block_step(bytes, pos, out, bs) {
        None => None,
        Some((o, b2, p1, last)) => {
            proof {
                lemma_block_step(bytes, pos, out, bs);
            }
            if last {
                spec_frames(bytes, p1 + if ck { 4int } else { 0int }, o)
            } else {
                spec_blocks(bytes, p1, o, b2, ck)
            }
        },
    }
}

/// Where the first block of a frame starts, from its descriptor byte at
/// `p` (window descriptor unless single-segment, then the content size
/// field), and whether a checksum follows the blocks. `None`: reserved bit
/// set, or a dictionary.
pub open spec fn frame_header_end(bytes: Seq<u8>, p: int) -> Option<(int, bool)> {
    if p < 0 || p >= bytes.len() {
        None
    } else {
        let d = bytes[p] as int;
        if (d / 8) % 2 == 1 || d % 4 != 0 {
            None
        } else {
            let single = (d / 32) % 2 == 1;
            let fcs = d / 64;
            let fcs_len = if fcs == 0 { if single { 1int } else { 0int } } else if fcs == 1 { 2int } else if fcs == 2 { 4int } else { 8int };
            Some((p + 1 + (if single { 0int } else { 1int }) + fcs_len, (d / 4) % 2 == 1))
        }
    }
}

/// Frames from `pos` on, appended to `out`: skippable frames (magic
/// 0x184D2A50 to 0x184D2A5F, then a 4-byte length) are passed over.
pub open spec fn spec_frames(bytes: Seq<u8>, pos: int, out: Seq<u8>) -> Option<Seq<u8>>
    decreases left(bytes, pos),
{
    if pos >= bytes.len() {
        Some(out)
    } else if pos < 0 || pos + 4 > bytes.len() {
        None
    } else {
        let magic = le32_at(bytes, pos);
        if 0x184D2A50 <= magic <= 0x184D2A5F {
            if pos + 8 > bytes.len() {
                None
            } else {
                spec_frames(bytes, pos + 8 + le32_at(bytes, pos + 4), out)
            }
        } else if magic != ZSTD_MAGIC {
            None
        } else {
            match frame_header_end(bytes, pos + 4) {
                None => None,
                Some((q, ck)) => spec_blocks(bytes, q, out, BlockState { rep: (1, 4, 8), tables: None, huff: None }, ck),
            }
        }
    }
}

/// The decompression of a sequence of frames.
pub open spec fn spec_zstd(bytes: Seq<u8>) -> Option<Seq<u8>> {
    spec_frames(bytes, 0, Seq::empty())
}

fn decode_block(bytes: &[u8], pos: usize, out: &mut Vec<u8>, st: DecodeState) -> (r: Result<(DecodeState, usize, bool), MmnError>)
    requires
        bytes@.len() <= usize::MAX / 16,
        st.wf(),
    ensures
        match block_step(bytes@, pos as int, old(out)@, st.view()) {
            None => r is Err,
            Some((o, b2, p1, last)) => r matches Ok((s2, q, l)) && final(out)@ == o && s2.view() == b2
                && q == p1 && l == last && s2.wf(),
        },
{
    reveal(block_step);
    let n = bytes.len();
    if pos > n || n - pos < 3 {
        return Err(MmnError::new("zstd block header truncated"));
    }
    let word: usize = bytes[pos] as usize + bytes[pos + 1] as usize * 256 + bytes[pos + 2] as usize * 65536;
    let p = pos + 3;
    let last = word % 2 == 1;
    let bt = (word / 2) % 4;
    let size = word / 8;
    if bt == 0 {
        if size > n - p {
            return Err(MmnError::new("zstd raw block truncated"));
        }
        push_range(out, bytes, p, p + size);
        Ok((st, p + size, last))
    } else if bt == 1 {
        if p >= n {
            return Err(MmnError::new("zstd RLE block truncated"));
        }
        let byte = bytes[p];
        let run: Vec<u8> = vec![byte; size];
        push_all(out, run.as_slice());
        proof {
            assert(run@ =~= Seq::new(size as nat, |i: int| bytes@[p as int]));
        }
        Ok((st, p + 1, last))
    } else if bt == 2 {
        if size > n - p {
            return Err(MmnError::new("zstd compressed block truncated"));
        }
        let st2 = decode_compressed_block(&bytes[p..p + size], out, st)?;
        Ok((st2, p + size, last))
    } else {
        Err(MmnError::new("zstd reserved block type"))
    }
}

fn decode_frame_blocks(bytes: &[u8], start: usize, out: &mut Vec<u8>, ck: bool) -> (r: Result<usize, MmnError>)
    requires
        bytes@.len() <= usize::MAX / 16,
        start <= bytes@.len() + 16,
    ensures
        r is Err ==> spec_blocks(bytes@, start as int, old(out)@, BlockState { rep: (1, 4, 8), tables: None, huff: None }, ck) is None,
        r matches Ok(p) ==> spec_blocks(bytes@, start as int, old(out)@, BlockState { rep: (1, 4, 8), tables: None, huff: None }, ck)
            == spec_frames(bytes@, p as int, final(out)@) && start < p <= bytes@.len() + 4,
{
    let n = bytes.len();
    let mut st = DecodeState { rep0: 1, rep1: 4, rep2: 8, tables: None, huff: None };
    let mut pos = start;
    let ghost goal = spec_blocks(bytes@, start as int, out@, st.view(), ck);
    loop
        invariant
            n == bytes@.len() <= usize::MAX / 16,
            start <= pos <= n + 16,
            st.wf(),
            goal == spec_blocks(bytes@, pos as int, out@, st.view(), ck),
            goal == spec_blocks(bytes@, start as int, old(out)@, BlockState { rep: (1, 4, 8), tables: None, huff: None }, ck),
        decreases n + 16 - pos,
    {
        let ghost o0 = out@;
        let ghost s0 = st.view();
        proof {
            lemma_block_step(bytes@, pos as int, o0, s0);
        }
        let (st2, next, last) = decode_block(bytes, pos, out, st)?;
        proof {
            assert(spec_blocks(bytes@, pos as int, o0, s0, ck) == if last {
                spec_frames(bytes@, next + if ck { 4int } else { 0int }, out@)
            } else {
                spec_blocks(bytes@, next as int, out@, st2.view(), ck)
            });
        }
        st = st2;
        if last {
            return Ok(next + if ck { 4 } else { 0 });
        }
        pos = next;
    }
}

/// Decompress a sequence of Zstandard frames (skippable frames skipped,
/// checksums not checked).
pub fn zstd_decompress(bytes: &[u8]) -> (r: Result<Vec<u8>, MmnError>)
    requires
        bytes@.len() <= usize::MAX / 16,
    ensures
        match spec_zstd(bytes@) {
            Some(o) => r matches Ok(v) && v@ == o,
            None => r is Err,
        },
{
    let n = bytes.len();
    let mut pos: usize = 0;
    let mut out: Vec<u8> = Vec::new();
    let ghost goal = spec_zstd(bytes@);
    while pos < n
        invariant
            n == bytes@.len() <= usize::MAX / 16,
            pos <= n + 4,
            goal == spec_frames(bytes@, pos as int, out@),
            goal == spec_zstd(bytes@),
        decreases left(bytes@, pos as int),
    {
        if n - pos < 4 {
            return Err(MmnError::new("zstd magic truncated"));
        }
        let magic = read_le32(bytes, pos);
        if 0x184D2A50 <= magic && magic <= 0x184D2A5F {
            if n - pos < 8 {
                return Err(MmnError::new("zstd skippable frame truncated"));
            }
            let size = read_le32(bytes, pos + 4) as usize;
            proof {
                assert(spec_frames(bytes@, pos as int, out@) == spec_frames(bytes@, pos + 8 + size, out@));
            }
            if size > n - pos - 8 {
                proof {
                    assert(spec_frames(bytes@, pos + 8 + size, out@) == Some(out@));
                    assert(spec_frames(bytes@, n as int, out@) == Some(out@));
                }
                pos = n;
            } else {
                pos = pos + 8 + size;
            }
        } else {
            if magic != ZSTD_MAGIC {
                return Err(MmnError::new("not a zstd frame (bad magic)"));
            }
            let p = pos + 4;
            if p >= n {
                return Err(MmnError::new("zstd frame header missing"));
            }
            let d = bytes[p];
            if (d / 8) % 2 == 1 {
                return Err(MmnError::new("zstd reserved frame-header bit set"));
            }
            if d % 4 != 0 {
                return Err(MmnError::new("zstd dictionaries are not supported"));
            }
            let single = (d / 32) % 2 == 1;
            let fcs = d / 64;
            let fcs_len: usize = if fcs == 0 { if single { 1 } else { 0 } } else if fcs == 1 { 2 } else if fcs == 2 { 4 } else { 8 };
            let q = p + 1 + (if single { 0 } else { 1 }) + fcs_len;
            let ck = (d / 4) % 2 == 1;
            proof {
                assert(frame_header_end(bytes@, p as int) == Some((q as int, ck)));
                assert(spec_frames(bytes@, pos as int, out@) == spec_blocks(bytes@, q as int, out@,
                    BlockState { rep: (1, 4, 8), tables: None, huff: None }, ck));
            }
            pos = decode_frame_blocks(bytes, q, &mut out, ck)?;
        }
    }
    Ok(out)
}

} // verus!
