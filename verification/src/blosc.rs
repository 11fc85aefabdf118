//! Blosc1 frames, Zarr's default compressor container: the 16-byte header
//! (flags with byte-shuffle, memcpy and bit-shuffle bits and the codec
//! id), per-block start offsets, split streams (one per byte lane) or a
//! single stream per block, raw streams, and the byte shuffle undone.

use vstd::prelude::*;
use crate::error::MmnError;
use crate::bytes::{le32_at, read_le32, copy_range, push_all};
use crate::hdf5::{spec_unshuffle, spec_zlib, undo_shuffle, undo_deflate};
use crate::lz4::{spec_lz4_block, lz4_decompress_block};

verus! {

pub open spec fn spec_u32(frame: Seq<u8>, pos: int) -> Option<int> {
    if 0 <= pos && pos + 4 <= frame.len() { Some(le32_at(frame, pos)) } else { None }
}

/// One stream of a block: stored raw when it is as long as its output;
/// otherwise codec 1 is LZ4 and 3 zlib, the rest refused.
pub open spec fn blosc_stream(codec: int, src: Seq<u8>, expected: int) -> Option<Seq<u8>> {
    if src.len() == expected {
        Some(src)
    } else if codec == 1 {
        if expected > isize::MAX || src.len() > isize::MAX { None } else { spec_lz4_block(src, expected) }
    } else if codec == 3 {
        if src.len() > usize::MAX / 8 {
            None
        } else {
            match spec_zlib(src) {
                Some(o) => if o.len() != expected { None } else { Some(o) },
                None => None,
            }
        }
    } else {
        None
    }
}

/// Streams `k..n` of a block from `pos`: each a 4-byte compressed size and
/// that many bytes, decoding to `neblock` bytes.
pub open spec fn blosc_streams(frame: Seq<u8>, codec: int, neblock: int, n: int, k: int, pos: int, acc: Seq<u8>) -> Option<Seq<u8>>
    decreases n - k,
{
    if k >= n {
        Some(acc)
    } else {
        match spec_u32(frame, pos) {
            None => None,
            Some(cb) => if pos + 4 + cb > frame.len() {
                None
            } else {
                match blosc_stream(codec, frame.subrange(pos + 4, pos + 4 + cb), neblock) {
                    None => None,
                    Some(d) => blosc_streams(frame, codec, neblock, n, k + 1, pos + 4 + cb, acc + d),
                }
            },
        }
    }
}

/// A block of `bsize` bytes at `bstart`: split into one stream per byte
/// lane when the element size divides it (falling back to a single stream
/// when that fails), else one stream.
#[verifier::opaque]
pub open spec fn blosc_block(frame: Seq<u8>, codec: int, ts: int, bstart: int, bsize: int) -> Option<Seq<u8>> {
    if ts > 1 && bsize % ts == 0 {
        match blosc_streams(frame, codec, bsize / ts, ts, 0, bstart, Seq::empty()) {
            Some(b) => Some(b),
            None => blosc_streams(frame, codec, bsize, 1, 0, bstart, Seq::empty()),
        }
    } else {
        blosc_streams(frame, codec, bsize, 1, 0, bstart, Seq::empty())
    }
}

/// Block `i`: its start from the offset table, its size (the last one
/// short), unshuffled when the frame is byte-shuffled.
#[verifier::opaque]
pub open spec fn block_step(frame: Seq<u8>, codec: int, ts: int, shuffle: bool, nbytes: int, blocksize: int, i: int) -> Option<Seq<u8>> {
    match spec_u32(frame, 16 + 4 * i) {
        None => None,
        Some(bstart) => {
            let rest = nbytes - i * blocksize;
            let bsize = if blocksize < rest { blocksize } else { rest };
            match blosc_block(frame, codec, ts, bstart, bsize) {
                None => None,
                Some(b) => Some(if shuffle { spec_unshuffle(b, ts) } else { b }),
            }
        },
    }
}

/// Blocks `i..nblocks` appended in turn.
pub open spec fn blosc_blocks(frame: Seq<u8>, codec: int, ts: int, shuffle: bool, nbytes: int, blocksize: int,
    nblocks: int, i: int, out: Seq<u8>) -> Option<Seq<u8>>
    decreases nblocks - i,
{
    if i >= nblocks {
        Some(out)
    } else {
        match block_step(frame, codec, ts, shuffle, nbytes, blocksize, i) {
            None => None,
            Some(b) => blosc_blocks(frame, codec, ts, shuffle, nbytes, blocksize, nblocks, i + 1, out + b),
        }
    }
}

/// A Blosc1 frame decompressed.
pub open spec fn spec_blosc(frame: Seq<u8>) -> Option<Seq<u8>> {
    if frame.len() < 16 {
        None
    } else {
        let flags = frame[2] as int;
        let ts = frame[3] as int;
        let nbytes = le32_at(frame, 4);
        let blocksize = le32_at(frame, 8);
        let cbytes = le32_at(frame, 12);
        if cbytes != frame.len() || (flags / 4) % 2 == 1 {
            None
        } else if nbytes == 0 {
            Some(Seq::empty())
        } else if (flags / 2) % 2 == 1 {
            if 16 + nbytes > frame.len() { None } else { Some(frame.subrange(16, 16 + nbytes)) }
        } else if blocksize == 0 {
            None
        } else {
            let codec = (flags / 32) % 8;
            let shuffle = flags % 2 == 1 && ts > 1;
            let nblocks = (nbytes + blocksize - 1) / (blocksize as int);
            match blosc_blocks(frame, codec, ts, shuffle, nbytes, blocksize, nblocks, 0, Seq::empty()) {
                None => None,
                Some(o) => if o.len() != nbytes { None } else { Some(o) },
            }
        }
    }
}

fn decode_stream(codec: u8, src: &[u8], expected: usize) -> (r: Result<Vec<u8>, MmnError>)
    ensures
        match blosc_stream(codec as int, src@, expected as int) {
            Some(o) => r matches Ok(v) && v@ == o,
            None => r is Err,
        },
{
    reveal(blosc_stream);
    if src.len() == expected {
        return Ok(copy_range(src, 0, src.len()));
    }
    if codec == 1 {
        if expected > isize::MAX as usize || src.len() > isize::MAX as usize {
            return Err(MmnError::new("blosc stream too large"));
        }
        lz4_decompress_block(src, expected)
    } else if codec == 3 {
        if src.len() > usize::MAX / 8 {
            return Err(MmnError::new("blosc zlib stream too large"));
        }
        let out = undo_deflate(src)?;
        if out.len() != expected {
            return Err(MmnError::new("blosc zlib stream length mismatch"));
        }
        Ok(out)
    } else if codec == 0 {
        Err(MmnError::new("blosc blosclz codec not supported (re-encode with cname='lz4' or 'zlib')"))
    } else if codec == 2 {
        Err(MmnError::new("blosc snappy codec not supported"))
    } else if codec == 4 {
        Err(MmnError::new("blosc zstd codec not supported (re-encode with cname='lz4' or 'zlib')"))
    } else {
        Err(MmnError::new("blosc codec id unknown"))
    }
}

fn decode_block(frame: &[u8], codec: u8, neblock: usize, n: usize, bstart: usize) -> (r: Result<Vec<u8>, MmnError>)
    requires
        frame@.len() <= u32::MAX,
        n <= 255,
    ensures
        match blosc_streams(frame@, codec as int, neblock as int, n as int, 0, bstart as int, Seq::empty()) {
            Some(o) => r matches Ok(v) && v@ == o,
            None => r is Err,
        },
{
    let mut pos = bstart;
    let mut block: Vec<u8> = Vec::new();
    let mut k: usize = 0;
    let ghost goal = blosc_streams(frame@, codec as int, neblock as int, n as int, 0, bstart as int, Seq::empty());
    proof {
        assert(block@ =~= Seq::<u8>::empty());
    }
    while k < n
        invariant
            frame@.len() <= u32::MAX,
            k <= n <= 255,
            goal == blosc_streams(frame@, codec as int, neblock as int, n as int, k as int, pos as int, block@),
            goal == blosc_streams(frame@, codec as int, neblock as int, n as int, 0, bstart as int, Seq::empty()),
        decreases n - k,
    {
        if pos > frame.len() || frame.len() - pos < 4 {
            return Err(MmnError::new("blosc frame truncated"));
        }
        let cb = read_le32(frame, pos) as usize;
        if cb > frame.len() - pos - 4 {
            return Err(MmnError::new("blosc stream truncated"));
        }
        let d = decode_stream(codec, &frame[pos + 4..pos + 4 + cb], neblock)?;
        push_all(&mut block, d.as_slice());
        pos = pos + 4 + cb;
        k = k + 1;
    }
    Ok(block)
}

fn decode_one_block(frame: &[u8], codec: u8, ts: usize, shuffle: bool, nbytes: usize, blocksize: usize, i: usize,
    out: &mut Vec<u8>) -> (r: Result<(), MmnError>)
    requires
        frame@.len() <= u32::MAX,
        ts <= 255,
        i * blocksize < nbytes,
    ensures
        match block_step(frame@, codec as int, ts as int, shuffle, nbytes as int, blocksize as int, i as int) {
            Some(b) => r is Ok && final(out)@ == old(out)@ + b,
            None => r is Err,
        },
{
    reveal(block_step);
    reveal(blosc_block);
    if frame.len() < 20 || i > (frame.len() - 20) / 4 {
        return Err(MmnError::new("blosc frame truncated"));
    }
    let bstart = read_le32(frame, 16 + 4 * i) as usize;
    let rest = nbytes - i * blocksize;
    let bsize = if blocksize < rest { blocksize } else { rest };
    let block = if ts > 1 && bsize % ts == 0 {
        match decode_block(frame, codec, bsize / ts, ts, bstart) {
            Ok(b) => b,
            Err(_) => decode_block(frame, codec, bsize, 1, bstart)?,
        }
    } else {
        decode_block(frame, codec, bsize, 1, bstart)?
    };
    if shuffle {
        let u = undo_shuffle(block.as_slice(), ts);
        push_all(out, u.as_slice());
    } else {
        push_all(out, block.as_slice());
    }
    Ok(())
}

/// Decompress a Blosc1 frame into its original bytes.
pub fn blosc_decompress(frame: &[u8]) -> (r: Result<Vec<u8>, MmnError>)
    requires
        frame@.len() <= u32::MAX,
    ensures
        match spec_blosc(frame@) {
            Some(o) => r matches Ok(v) && v@ == o,
            None => r is Err,
        },
{
    if frame.len() < 16 {
        return Err(MmnError::new("blosc frame shorter than its 16-byte header"));
    }
    let flags = frame[2];
    let ts = frame[3] as usize;
    let nbytes = read_le32(frame, 4) as usize;
    let blocksize = read_le32(frame, 8) as usize;
    let cbytes = read_le32(frame, 12) as usize;
    if cbytes != frame.len() {
        return Err(MmnError::new("blosc frame length differs from header cbytes"));
    }
    if (flags / 4) % 2 == 1 {
        return Err(MmnError::new("blosc bit-shuffle is not supported (re-encode with shuffle=Blosc.SHUFFLE)"));
    }
    if nbytes == 0 {
        return Ok(Vec::new());
    }
    if (flags / 2) % 2 == 1 {
        if nbytes > frame.len() - 16 {
            return Err(MmnError::new("blosc memcpy payload truncated"));
        }
        return Ok(copy_range(frame, 16, 16 + nbytes));
    }
    if blocksize == 0 {
        return Err(MmnError::new("blosc blocksize is zero"));
    }
    let codec = (flags / 32) % 8;
    let shuffle = flags % 2 == 1 && ts > 1;
    let nblocks = (nbytes - 1) / blocksize + 1;
    proof {
        vstd::arithmetic::div_mod::lemma_div_plus_one((nbytes - 1) as int, blocksize as int);
        assert(((nbytes - 1) + blocksize) as int == nbytes + blocksize - 1);
    }
    let mut out: Vec<u8> = Vec::new();
    let mut i: usize = 0;
    let ghost goal = blosc_blocks(frame@, codec as int, ts as int, shuffle, nbytes as int, blocksize as int, nblocks as int, 0, Seq::empty());
    proof {
        assert(out@ =~= Seq::<u8>::empty());
    }
    while i < nblocks
        invariant
            frame@.len() <= u32::MAX,
            ts <= 255,
            blocksize > 0,
            nbytes <= u32::MAX,
            nblocks as int == (nbytes + blocksize - 1) / (blocksize as int),
            i <= nblocks,
            goal == blosc_blocks(frame@, codec as int, ts as int, shuffle, nbytes as int, blocksize as int, nblocks as int, i as int, out@),
            match goal {
                None => spec_blosc(frame@) is None,
                Some(o) => spec_blosc(frame@) == (if o.len() != nbytes { None } else { Some(o) }),
            },
        decreases nblocks - i,
    {
        proof {
            assert(i * blocksize < nbytes) by (nonlinear_arith)
                requires
                    i < nblocks,
                    nblocks as int == (nbytes + blocksize - 1) / (blocksize as int),
                    blocksize > 0;
        }
        decode_one_block(frame, codec, ts, shuffle, nbytes, blocksize, i, &mut out)?;
        i = i + 1;
    }
    if out.len() != nbytes {
        return Err(MmnError::new("blosc output length differs from header nbytes"));
    }
    Ok(out)
}

} // verus!
