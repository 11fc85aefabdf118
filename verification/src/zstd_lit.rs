//! The literals section of a compressed Zstandard block (RFC 8878, 3.1.1.3.1):
//! raw, RLE, Huffman-compressed (with a new tree) and treeless (reusing the
//! previous tree), in one stream or four.

use vstd::prelude::*;
use crate::error::MmnError;
use crate::bytes::{le16_at, read_le16, copy_range, push_all};
use crate::zstd_huff::{HuffmanTable, spec_parse_huffman, spec_huff_stream, parse_huffman, huffman_decode_stream};

verus! {

/// The tree a block's literals may reuse: its log and its cells.
pub open spec fn huff_view(h: Option<HuffmanTable>) -> Option<(int, Seq<(u8, u8)>)> {
    match h {
        Some(t) => Some((t.table_log as int, t.entries@)),
        None => None,
    }
}

pub open spec fn huff_ok(h: Option<HuffmanTable>) -> bool {
    h matches Some(t) ==> t.wf()
}

/// Four streams after a six-byte jump table of the first three lengths;
/// the first three carry `ceil(regen / 4)` symbols each, the last the rest.
pub open spec fn spec_four_streams(tl: int, cells: Seq<(u8, u8)>, streams: Seq<u8>, regen: int) -> Option<Seq<u8>> {
    if streams.len() < 6 {
        None
    } else {
        let s1 = le16_at(streams, 0);
        let s2 = le16_at(streams, 2);
        let s3 = le16_at(streams, 4);
        let body = streams.subrange(6, streams.len() as int);
        let part = (regen + 3) / 4;
        if 3 * part > regen || s1 + s2 + s3 > body.len() {
            None
        } else {
            let t = tl as nat;
            match (spec_huff_stream(cells, t, body.subrange(0, s1), part),
                spec_huff_stream(cells, t, body.subrange(s1, s1 + s2), part),
                spec_huff_stream(cells, t, body.subrange(s1 + s2, s1 + s2 + s3), part),
                spec_huff_stream(cells, t, body.subrange(s1 + s2 + s3, body.len() as int), regen - 3 * part)) {
                (Some(a), Some(b), Some(c), Some(d)) => Some(a + b + c + d),
                _ => None,
            }
        }
    }
}

/// Regenerated size and header length of a raw or RLE literals section.
pub open spec fn raw_header(block: Seq<u8>) -> (int, int) {
    let b0 = block[0] as int;
    let sf = (b0 / 4) % 4;
    if sf == 0 || sf == 2 {
        (b0 / 8, 1)
    } else if sf == 1 {
        (b0 / 16 + block[1] * 16, 2)
    } else {
        (b0 / 16 + block[1] * 16 + block[2] * 4096, 3)
    }
}

/// Regenerated size, compressed size, header length and stream count of a
/// compressed or treeless literals section.
pub open spec fn comp_header(block: Seq<u8>) -> (int, int, int, bool) {
    let b0 = block[0] as int;
    let b1 = block[1] as int;
    let b2 = block[2] as int;
    let sf = (b0 / 4) % 4;
    if sf == 0 || sf == 1 {
        (b0 / 16 + (b1 % 64) * 16, b1 / 64 + b2 * 4, 3, sf == 1)
    } else if sf == 2 {
        (b0 / 16 + b1 * 16 + (b2 % 4) * 4096, b2 / 4 + block[3] * 64, 4, true)
    } else {
        (b0 / 16 + b1 * 16 + (b2 % 64) * 4096, b2 / 64 + block[3] * 4 + block[4] * 1024, 5, true)
    }
}

/// A raw (`ty == 0`) or RLE (`ty == 1`) literals section.
pub open spec fn spec_raw_literals(block: Seq<u8>, ty: int, huff: Option<(int, Seq<(u8, u8)>)>) -> Option<(Seq<u8>, int, Option<(int, Seq<(u8, u8)>)>)> {
    let (regen, hdr) = raw_header(block);
    if hdr > block.len() {
        None
    } else if ty == 0 {
        if hdr + regen > block.len() {
            None
        } else {
            Some((block.subrange(hdr, hdr + regen), hdr + regen, huff))
        }
    } else if hdr >= block.len() {
        None
    } else {
        Some((Seq::new(regen as nat, |i: int| block[hdr]), hdr + 1, huff))
    }
}

/// A compressed (`ty == 2`, new tree) or treeless (`ty == 3`) section.
pub open spec fn spec_comp_literals(block: Seq<u8>, ty: int, huff: Option<(int, Seq<(u8, u8)>)>) -> Option<(Seq<u8>, int, Option<(int, Seq<(u8, u8)>)>)> {
    let sf = (block[0] as int / 4) % 4;
    if block.len() < 3 || (sf == 2 && block.len() < 4) || (sf == 3 && block.len() < 5) {
        None
    } else {
        let (regen, comp, hdr, four) = comp_header(block);
        if hdr + comp > block.len() {
            None
        } else {
            let payload = block.subrange(hdr, hdr + comp);
            let tree: Option<(int, Seq<(u8, u8)>, int)> = if ty == 2 {
                spec_parse_huffman(payload)
            } else {
                match huff {
                    Some((tl, cells)) => Some((tl, cells, 0)),
                    None => None,
                }
            };
            match tree {
                None => None,
                Some((tl, cells, used)) => {
                    let streams = payload.subrange(used, payload.len() as int);
                    let lits = if four {
                        spec_four_streams(tl, cells, streams, regen)
                    } else {
                        spec_huff_stream(cells, tl as nat, streams, regen)
                    };
                    match lits {
                        None => None,
                        Some(l) => Some((l, hdr + comp, Some((tl, cells)))),
                    }
                },
            }
        }
    }
}

/// The literals section at the start of `block`: the literals, the bytes it
/// took, and the tree later blocks may reuse.
pub open spec fn spec_literals(block: Seq<u8>, huff: Option<(int, Seq<(u8, u8)>)>) -> Option<(Seq<u8>, int, Option<(int, Seq<(u8, u8)>)>)> {
    if block.len() == 0 {
        None
    } else if block[0] % 4 < 2 {
        spec_raw_literals(block, (block[0] % 4) as int, huff)
    } else {
        spec_comp_literals(block, (block[0] % 4) as int, huff)
    }
}

fn decode_four_streams(table: &HuffmanTable, streams: &[u8], regen: usize) -> (r: Result<Vec<u8>, MmnError>)
    requires
        table.wf(),
        streams@.len() <= usize::MAX / 16,
        regen < 0x100000,
    ensures
        match spec_four_streams(table.table_log as int, table.entries@, streams@, regen as int) {
            Some(l) => r matches Ok(v) && v@ == l,
            None => r is Err,
        },
{
    if streams.len() < 6 {
        return Err(MmnError::new("zstd 4-stream jump table truncated"));
    }
    let s1 = read_le16(streams, 0) as usize;
    let s2 = read_le16(streams, 2) as usize;
    let s3 = read_le16(streams, 4) as usize;
    let body = &streams[6..streams.len()];
    let part = (regen + 3) / 4;
    if 3 * part > regen || s1 + s2 + s3 > body.len() {
        return Err(MmnError::new("zstd literal stream truncated"));
    }
    let a = huffman_decode_stream(table, &body[0..s1], part)?;
    let b = huffman_decode_stream(table, &body[s1..s1 + s2], part)?;
    let c = huffman_decode_stream(table, &body[s1 + s2..s1 + s2 + s3], part)?;
    let d = huffman_decode_stream(table, &body[s1 + s2 + s3..body.len()], regen - 3 * part)?;
    let mut out = a;
    push_all(&mut out, b.as_slice());
    push_all(&mut out, c.as_slice());
    push_all(&mut out, d.as_slice());
    Ok(out)
}

fn decode_with_tree(table: &HuffmanTable, payload: &[u8], used: usize, regen: usize, four: bool) -> (r: Result<Vec<u8>, MmnError>)
    requires
        table.wf(),
        used <= payload@.len() <= usize::MAX / 16,
        regen < 0x100000,
    ensures
        ({
            let streams = payload@.subrange(used as int, payload@.len() as int);
            let lits = if four {
                spec_four_streams(table.table_log as int, table.entries@, streams, regen as int)
            } else {
                spec_huff_stream(table.entries@, table.table_log as nat, streams, regen as int)
            };
            match lits {
                Some(l) => r matches Ok(v) && v@ == l,
                None => r is Err,
            }
        }),
{
    let streams = &payload[used..payload.len()];
    if four {
        decode_four_streams(table, streams, regen)
    } else {
        huffman_decode_stream(table, streams, regen)
    }
}

fn decode_raw_literals(block: &[u8], ty: u8, huffman: Option<HuffmanTable>) -> (r: Result<(Vec<u8>, usize, Option<HuffmanTable>), MmnError>)
    requires
        block@.len() >= 1,
        ty < 2,
    ensures
        match spec_raw_literals(block@, ty as int, huff_view(huffman)) {
            Some((lits, used, h)) => r matches Ok((v, n, t)) && v@ == lits && n == used && t == huffman
                && n <= block@.len(),
            None => r is Err,
        },
{
    let b0 = block[0];
    let sf = (b0 / 4) % 4;
    let regen: usize;
    let hdr: usize;
    if sf == 0 || sf == 2 {
        regen = (b0 / 8) as usize;
        hdr = 1;
    } else if sf == 1 {
        if block.len() < 2 {
            return Err(MmnError::new("zstd literals header truncated"));
        }
        regen = (b0 / 16) as usize + block[1] as usize * 16;
        hdr = 2;
    } else {
        if block.len() < 3 {
            return Err(MmnError::new("zstd literals header truncated"));
        }
        regen = (b0 / 16) as usize + block[1] as usize * 16 + block[2] as usize * 4096;
        hdr = 3;
    }
    proof {
        assert(raw_header(block@) == (regen as int, hdr as int));
    }
    if ty == 0 {
        if regen > block.len() - hdr {
            return Err(MmnError::new("zstd raw literals truncated"));
        }
        let v = copy_range(block, hdr, hdr + regen);
        Ok((v, hdr + regen, huffman))
    } else {
        if hdr >= block.len() {
            return Err(MmnError::new("zstd RLE literal missing"));
        }
        let byte = block[hdr];
        let v: Vec<u8> = vec![byte; regen];
        proof {
            assert(v@ =~= Seq::new(regen as nat, |i: int| block@[hdr as int]));
        }
        Ok((v, hdr + 1, huffman))
    }
}

fn decode_comp_literals(block: &[u8], ty: u8, huffman: Option<HuffmanTable>) -> (r: Result<(Vec<u8>, usize, Option<HuffmanTable>), MmnError>)
    requires
        block@.len() >= 1,
        block@.len() <= usize::MAX / 16,
        2 <= ty < 4,
        huff_ok(huffman),
    ensures
        match spec_comp_literals(block@, ty as int, huff_view(huffman)) {
            Some((lits, used, h)) => r matches Ok((v, n, t)) && v@ == lits && n == used && huff_view(t) == h
                && huff_ok(t) && n <= block@.len(),
            None => r is Err,
        },
{
    let b0 = block[0];
    let sf = (b0 / 4) % 4;
    if block.len() < 3 || (sf == 2 && block.len() < 4) || (sf == 3 && block.len() < 5) {
        return Err(MmnError::new("zstd literals header truncated"));
    }
    let b1 = block[1] as usize;
    let b2 = block[2] as usize;
    let lo = (b0 / 16) as usize;
    let regen: usize;
    let comp: usize;
    let hdr: usize;
    let four: bool;
    if sf == 0 || sf == 1 {
        regen = lo + (b1 % 64) * 16;
        comp = b1 / 64 + b2 * 4;
        hdr = 3;
        four = sf == 1;
    } else if sf == 2 {
        regen = lo + b1 * 16 + (b2 % 4) * 4096;
        comp = b2 / 4 + block[3] as usize * 64;
        hdr = 4;
        four = true;
    } else {
        regen = lo + b1 * 16 + (b2 % 64) * 4096;
        comp = b2 / 64 + block[3] as usize * 4 + block[4] as usize * 1024;
        hdr = 5;
        four = true;
    }
    proof {
        assert(comp_header(block@) == (regen as int, comp as int, hdr as int, four));
    }
    if comp > block.len() - hdr {
        return Err(MmnError::new("zstd compressed literals truncated"));
    }
    let payload = &block[hdr..hdr + comp];
    if ty == 2 {
        let (table, used) = parse_huffman(payload)?;
        let lits = decode_with_tree(&table, payload, used, regen, four)?;
        Ok((lits, hdr + comp, Some(table)))
    } else {
        match huffman {
            Some(table) => {
                let lits = decode_with_tree(&table, payload, 0, regen, four)?;
                proof {
                    assert(payload@.subrange(0, payload@.len() as int) =~= payload@);
                }
                Ok((lits, hdr + comp, Some(table)))
            },
            None => Err(MmnError::new("zstd treeless literals without a previous tree")),
        }
    }
}

/// Parse the literals section at the start of `block`; gives the literals,
/// the bytes the section took, and the tree later blocks may reuse.
pub fn decode_literals(block: &[u8], huffman: Option<HuffmanTable>) -> (r: Result<(Vec<u8>, usize, Option<HuffmanTable>), MmnError>)
    requires
        block@.len() <= usize::MAX / 16,
        huff_ok(huffman),
    ensures
        match spec_literals(block@, huff_view(huffman)) {
            Some((lits, used, h)) => r matches Ok((v, n, t)) && v@ == lits && n == used && huff_view(t) == h
                && huff_ok(t) && n <= block@.len(),
            None => r is Err,
        },
{
    if block.len() == 0 {
        return Err(MmnError::new("zstd literals header missing"));
    }
    let ty = block[0] % 4;
    if ty < 2 {
        decode_raw_literals(block, ty, huffman)
    } else {
        decode_comp_literals(block, ty, huffman)
    }
}

} // verus!
