//! Reading HDF5 files as `h5py`/Keras write them: superblock 0/1,
//! version-1 object headers (with continuation blocks), symbol-table groups
//! (v1 B-tree, local heap, SNOD nodes), and compact, contiguous or chunked
//! datasets (v1 chunk B-tree, deflate and shuffle filters). Each dataset
//! comes out as its path, shape, datatype and row-major element bytes.

use vstd::prelude::*;
use crate::error::MmnError;
use crate::bytes::{le16_at, le32_at, le64_at, read_le16, read_le32, read_le64};
use crate::zip::{lossy_utf8, lossy_string};
use crate::text::chars_of;
use crate::hdf5::{spec_unshuffle, spec_zlib, undo_shuffle, undo_deflate};

verus! {

pub open spec fn spec_u8_at(bytes: Seq<u8>, pos: int) -> Option<int> {
    if 0 <= pos && pos + 1 <= bytes.len() { Some(bytes[pos] as int) } else { None }
}

pub open spec fn spec_u16_at(bytes: Seq<u8>, pos: int) -> Option<int> {
    if 0 <= pos && pos + 2 <= bytes.len() { Some(le16_at(bytes, pos)) } else { None }
}

pub open spec fn spec_u32_at(bytes: Seq<u8>, pos: int) -> Option<int> {
    if 0 <= pos && pos + 4 <= bytes.len() { Some(le32_at(bytes, pos)) } else { None }
}

pub open spec fn spec_u64_at(bytes: Seq<u8>, pos: int) -> Option<int> {
    if 0 <= pos && pos + 8 <= bytes.len() { Some(le64_at(bytes, pos)) } else { None }
}

/// An address or length field taken as a `usize`.
pub open spec fn spec_addr_at(bytes: Seq<u8>, pos: int) -> Option<int> {
    match spec_u64_at(bytes, pos) {
        Some(v) => Some((v as u64) as usize as int),
        None => None,
    }
}

fn truncated() -> (e: MmnError) {
    MmnError::new("hdf5 file truncated")
}

fn rd8(bytes: &[u8], pos: usize, off: usize) -> (r: Result<u8, MmnError>)
    ensures
        match spec_u8_at(bytes@, pos + off) {
            Some(v) => r matches Ok(x) && x == v,
            None => r is Err,
        },
{
    if pos > bytes.len() || off >= bytes.len() - pos {
        return Err(truncated());
    }
    Ok(bytes[pos + off])
}

fn rd16(bytes: &[u8], pos: usize, off: usize) -> (r: Result<u16, MmnError>)
    ensures
        match spec_u16_at(bytes@, pos + off) {
            Some(v) => r matches Ok(x) && x == v,
            None => r is Err,
        },
{
    if pos > bytes.len() || off > bytes.len() - pos || bytes.len() - pos - off < 2 {
        return Err(truncated());
    }
    Ok(read_le16(bytes, pos + off))
}

fn rd32(bytes: &[u8], pos: usize, off: usize) -> (r: Result<u32, MmnError>)
    ensures
        match spec_u32_at(bytes@, pos + off) {
            Some(v) => r matches Ok(x) && x == v,
            None => r is Err,
        },
{
    if pos > bytes.len() || off > bytes.len() - pos || bytes.len() - pos - off < 4 {
        return Err(truncated());
    }
    Ok(read_le32(bytes, pos + off))
}

fn rd64(bytes: &[u8], pos: usize, off: usize) -> (r: Result<u64, MmnError>)
    ensures
        match spec_u64_at(bytes@, pos + off) {
            Some(v) => r matches Ok(x) && x == v,
            None => r is Err,
        },
{
    if pos > bytes.len() || off > bytes.len() - pos || bytes.len() - pos - off < 8 {
        return Err(truncated());
    }
    Ok(read_le64(bytes, pos + off))
}

fn rd_addr(bytes: &[u8], pos: usize, off: usize) -> (r: Result<usize, MmnError>)
    ensures
        match spec_addr_at(bytes@, pos + off) {
            Some(v) => r matches Ok(x) && x == v,
            None => r is Err,
        },
{
    let v = rd64(bytes, pos, off)?;
    Ok(v as usize)
}

// ---------------------------------------------------------------------------
// Object header messages

/// Type and body position of one header message.
pub struct Message {
    pub msg_type: u16,
    pub body_start: usize,
}

/// Messages of a version-1 object header, from block `bi` (of `blocks`,
/// each a start and a length) at `pos`, until `nmsgs` are read. A message
/// header is 8 bytes (type, body size, flags); a continuation message (type
/// 0x10) adds the block its body names. `None`: out of blocks, a body past
/// its block, a field past the end of the file, or a block end past
/// `usize::MAX`.
pub open spec fn spec_msgs(bytes: Seq<u8>, nmsgs: int, blocks: Seq<(int, int)>, bi: int, pos: int, bend: int,
    msgs: Seq<(int, int)>) -> Option<Seq<(int, int)>>
    decreases nmsgs - msgs.len(),
{
    if msgs.len() >= nmsgs {
        Some(msgs)
    } else {
        let next = pos + 8 > bend;
        if next && bi + 1 >= blocks.len() {
            None
        } else if next && blocks[bi + 1].0 + blocks[bi + 1].1 > usize::MAX {
            None
        } else {
            let bi2 = if next { bi + 1 } else { bi };
            let p = if next { blocks[bi + 1].0 } else { pos };
            let e = if next { blocks[bi + 1].0 + blocks[bi + 1].1 } else { bend };
            match (spec_u16_at(bytes, p), spec_u16_at(bytes, p + 2)) {
                (Some(t), Some(size)) => {
                    let body = p + 8;
                    if body + size > e {
                        None
                    } else if t == 0x10 {
                        match (spec_addr_at(bytes, body), spec_addr_at(bytes, body + 8)) {
                            (Some(ca), Some(cl)) => spec_msgs(bytes, nmsgs, blocks.push((ca, cl)), bi2, body + size, e, msgs.push((t, body))),
                            _ => None,
                        }
                    } else {
                        spec_msgs(bytes, nmsgs, blocks, bi2, body + size, e, msgs.push((t, body)))
                    }
                },
                _ => None,
            }
        }
    }
}

/// The messages of the version-1 object header at `addr`: version byte 1,
/// message count at +2, header size at +8, first block at +16.
pub open spec fn spec_messages(bytes: Seq<u8>, addr: int) -> Option<Seq<(int, int)>> {
    match (spec_u8_at(bytes, addr), spec_u16_at(bytes, addr + 2), spec_u32_at(bytes, addr + 8)) {
        (Some(v), Some(n), Some(hs)) => if v != 1 || addr + 16 + hs > usize::MAX {
            None
        } else {
            spec_msgs(bytes, n, seq![(addr + 16, hs)], 0, addr + 16, addr + 16 + hs, Seq::empty())
        },
        _ => None,
    }
}

pub open spec fn blocks_view(b: Seq<(usize, usize)>) -> Seq<(int, int)> {
    Seq::new(b.len(), |i: int| (b[i].0 as int, b[i].1 as int))
}

pub open spec fn msgs_view(m: Seq<Message>) -> Seq<(int, int)> {
    Seq::new(m.len(), |i: int| (m[i].msg_type as int, m[i].body_start as int))
}

fn read_v1_messages(bytes: &[u8], addr: usize) -> (r: Result<Vec<Message>, MmnError>)
    requires
        bytes@.len() <= usize::MAX / 16,
    ensures
        match spec_messages(bytes@, addr as int) {
            Some(ms) => r matches Ok(v) && msgs_view(v@) == ms,
            None => r is Err,
        },
{
    let version = rd8(bytes, addr, 0)?;
    let nmsgs = rd16(bytes, addr, 2)? as usize;
    let header_size = rd32(bytes, addr, 8)? as usize;
    if version != 1 {
        return Err(MmnError::new("hdf5 object header version not supported (v1 headers only)"));
    }
    let start = addr + 16;
    if header_size > usize::MAX - start {
        return Err(MmnError::new("hdf5 object header block overflows"));
    }
    let mut blocks: Vec<(usize, usize)> = vec![(start, header_size)];
    let mut messages: Vec<Message> = Vec::new();
    let mut bi: usize = 0;
    let mut pos: usize = start;
    let mut bend: usize = start + header_size;
    let ghost goal = spec_msgs(bytes@, nmsgs as int, seq![(start as int, header_size as int)], 0, start as int,
        start + header_size, Seq::empty());
    proof {
        assert(blocks_view(blocks@) =~= seq![(start as int, header_size as int)]);
        assert(msgs_view(messages@) =~= Seq::<(int, int)>::empty());
        assert(spec_messages(bytes@, addr as int) == goal);
    }
    while messages.len() < nmsgs
        invariant
            bytes@.len() <= usize::MAX / 16,
            bi < blocks@.len(),
            blocks@.len() <= messages@.len() + 1,
            messages@.len() <= nmsgs,
            nmsgs <= 0xFFFF,
            goal == spec_messages(bytes@, addr as int),
            goal == spec_msgs(bytes@, nmsgs as int, blocks_view(blocks@), bi as int, pos as int, bend as int, msgs_view(messages@)),
        decreases nmsgs - messages@.len(),
    {
        let ghost bv = blocks_view(blocks@);
        let next = pos > usize::MAX - 8 || pos + 8 > bend;
        proof {
            assert(next == (pos + 8 > bend));
        }
        if next {
            if bi + 1 >= blocks.len() {
                return Err(MmnError::new("hdf5 object header ran out of blocks before all messages"));
            }
            let (s, l) = blocks[bi + 1];
            if l > usize::MAX - s {
                return Err(MmnError::new("hdf5 object header block overflows"));
            }
            bi = bi + 1;
            pos = s;
            bend = s + l;
        }
        let msg_type = rd16(bytes, pos, 0)?;
        let size = rd16(bytes, pos, 2)? as usize;
        let body = pos + 8;
        if size > bend || body > bend - size {
            return Err(MmnError::new("hdf5 header message overruns its block"));
        }
        let ghost m0 = msgs_view(messages@);
        if msg_type == 0x10 {
            let ca = rd_addr(bytes, body, 0)?;
            let cl = rd_addr(bytes, body, 8)?;
            blocks.push((ca, cl));
            proof {
                assert(blocks_view(blocks@) =~= bv.push((ca as int, cl as int)));
            }
        }
        messages.push(Message { msg_type, body_start: body });
        proof {
            assert(msgs_view(messages@) =~= m0.push((msg_type as int, body as int)));
        }
        pos = body + size;
    }
    Ok(messages)
}


// ---------------------------------------------------------------------------
// Dataspace, datatype, layout and filter pipeline messages

/// `n` address-sized fields from `start`, 8 bytes apart.
pub open spec fn spec_addr_list(bytes: Seq<u8>, start: int, n: nat) -> Option<Seq<usize>>
    decreases n,
{
    if n == 0 {
        Some(Seq::empty())
    } else {
        match (spec_addr_list(bytes, start, (n - 1) as nat), spec_addr_at(bytes, start + (n - 1) * 8)) {
            (Some(s), Some(v)) => Some(s.push(v as usize)),
            _ => None,
        }
    }
}

/// `n` 4-byte fields from `start`, as `usize`.
pub open spec fn spec_u32_list(bytes: Seq<u8>, start: int, n: nat) -> Option<Seq<usize>>
    decreases n,
{
    if n == 0 {
        Some(Seq::empty())
    } else {
        match (spec_u32_list(bytes, start, (n - 1) as nat), spec_u32_at(bytes, start + (n - 1) * 4)) {
            (Some(s), Some(v)) => Some(s.push(v as usize)),
            _ => None,
        }
    }
}

proof fn lemma_addr_list_none(bytes: Seq<u8>, start: int, i: nat, n: nat)
    requires
        i <= n,
        spec_addr_list(bytes, start, i) is None,
    ensures
        spec_addr_list(bytes, start, n) is None,
    decreases n - i,
{
    if i < n {
        lemma_addr_list_none(bytes, start, i + 1, n);
    }
}

proof fn lemma_u32_list_none(bytes: Seq<u8>, start: int, i: nat, n: nat)
    requires
        i <= n,
        spec_u32_list(bytes, start, i) is None,
    ensures
        spec_u32_list(bytes, start, n) is None,
    decreases n - i,
{
    if i < n {
        lemma_u32_list_none(bytes, start, i + 1, n);
    }
}

fn read_addr_list(bytes: &[u8], start: usize, n: usize) -> (r: Result<Vec<usize>, MmnError>)
    requires
        n <= 0xFFFF,
        bytes@.len() <= usize::MAX / 16,
    ensures
        match spec_addr_list(bytes@, start as int, n as nat) {
            Some(s) => r matches Ok(v) && v@ == s,
            None => r is Err,
        },
        r matches Ok(v) ==> v@.len() == n,
{
    let mut v: Vec<usize> = Vec::new();
    let mut i: usize = 0;
    while i < n
        invariant
            i <= n <= 0xFFFF,
            bytes@.len() <= usize::MAX / 16,
            spec_addr_list(bytes@, start as int, i as nat) == Some(v@),
            v@.len() == i,
        decreases n - i,
    {
        if start > usize::MAX - 8 * i {
            proof {
                lemma_addr_list_none(bytes@, start as int, (i + 1) as nat, n as nat);
            }
            return Err(truncated());
        }
        let x = match rd_addr(bytes, start, 8 * i) {
            Ok(x) => x,
            Err(e) => {
                proof {
                    lemma_addr_list_none(bytes@, start as int, (i + 1) as nat, n as nat);
                }
                return Err(e);
            },
        };
        v.push(x);
        i = i + 1;
    }
    Ok(v)
}

fn read_u32_list(bytes: &[u8], start: usize, n: usize) -> (r: Result<Vec<usize>, MmnError>)
    requires
        n <= 0xFFFF,
        bytes@.len() <= usize::MAX / 16,
    ensures
        match spec_u32_list(bytes@, start as int, n as nat) {
            Some(s) => r matches Ok(v) && v@ == s,
            None => r is Err,
        },
{
    let mut v: Vec<usize> = Vec::new();
    let mut i: usize = 0;
    while i < n
        invariant
            i <= n <= 0xFFFF,
            bytes@.len() <= usize::MAX / 16,
            spec_u32_list(bytes@, start as int, i as nat) == Some(v@),
        decreases n - i,
    {
        if start > usize::MAX - 4 * i {
            proof {
                lemma_u32_list_none(bytes@, start as int, (i + 1) as nat, n as nat);
            }
            return Err(truncated());
        }
        let x = match rd32(bytes, start, 4 * i) {
            Ok(x) => x,
            Err(e) => {
                proof {
                    lemma_u32_list_none(bytes@, start as int, (i + 1) as nat, n as nat);
                }
                return Err(e);
            },
        };
        v.push(x as usize);
        i = i + 1;
    }
    Ok(v)
}

/// Element type of a dataset: class (0 fixed-point, 1 IEEE float), size in
/// bytes, byte order, and (fixed-point only) signedness.
#[derive(Clone, Copy, PartialEq, Eq, Structural, Debug)]
pub struct H5Dtype {
    pub class: u8,
    pub size: usize,
    pub big_endian: bool,
    pub signed: bool,
}

/// Dimensions of a dataspace message at `b` (version 1: dims at +8,
/// version 2: at +4; rank at +1).
pub open spec fn spec_dataspace(bytes: Seq<u8>, b: int) -> Option<Seq<usize>> {
    match (spec_u8_at(bytes, b), spec_u8_at(bytes, b + 1)) {
        (Some(v), Some(rank)) => if v == 1 {
            spec_addr_list(bytes, b + 8, rank as nat)
        } else if v == 2 {
            spec_addr_list(bytes, b + 4, rank as nat)
        } else {
            None
        },
        _ => None,
    }
}

/// A datatype message at `b`: class in the low nibble of +0, bit field at
/// +1 (bit 0 big-endian, bit 3 signed), size at +4.
pub open spec fn spec_datatype(bytes: Seq<u8>, b: int) -> Option<H5Dtype> {
    match (spec_u8_at(bytes, b), spec_u8_at(bytes, b + 1), spec_u32_at(bytes, b + 4)) {
        (Some(cv), Some(bf), Some(size)) => Some(H5Dtype {
            class: (cv % 16) as u8,
            size: size as usize,
            big_endian: bf % 2 == 1,
            signed: cv % 16 == 0 && (bf / 8) % 2 == 1,
        }),
        _ => None,
    }
}

fn parse_dataspace(bytes: &[u8], b: usize) -> (r: Result<Vec<usize>, MmnError>)
    requires
        bytes@.len() <= usize::MAX / 16,
    ensures
        match spec_dataspace(bytes@, b as int) {
            Some(d) => r matches Ok(v) && v@ == d,
            None => r is Err,
        },
        r matches Ok(v) ==> v@.len() <= 255,
{
    let version = rd8(bytes, b, 0)?;
    let rank = rd8(bytes, b, 1)? as usize;
    if version == 1 {
        read_addr_list(bytes, b + 8, rank)
    } else if version == 2 {
        read_addr_list(bytes, b + 4, rank)
    } else {
        Err(MmnError::new("hdf5 dataspace version not supported"))
    }
}

fn parse_datatype(bytes: &[u8], b: usize) -> (r: Result<H5Dtype, MmnError>)
    ensures
        match spec_datatype(bytes@, b as int) {
            Some(d) => r matches Ok(v) && v == d,
            None => r is Err,
        },
{
    let cv = rd8(bytes, b, 0)?;
    let bf = rd8(bytes, b, 1)?;
    let size = rd32(bytes, b, 4)? as usize;
    let class = cv % 16;
    Ok(H5Dtype { class, size, big_endian: bf % 2 == 1, signed: class == 0 && (bf / 8) % 2 == 1 })
}

/// Where a dataset's elements are stored.
pub enum Layout {
    /// Inside the object header.
    Compact { start: usize, len: usize },
    /// One extent of the file (`u64::MAX`: never written).
    Contiguous { addr: u64, size: usize },
    /// Chunks indexed by a v1 B-tree; the dims end with the element size.
    Chunked { btree_addr: u64, chunk_dims: Vec<usize> },
}

pub enum LayoutView {
    Compact(int, int),
    Contiguous(u64, int),
    Chunked(u64, Seq<usize>),
}

pub open spec fn layout_view(l: Layout) -> LayoutView {
    match l {
        Layout::Compact { start, len } => LayoutView::Compact(start as int, len as int),
        Layout::Contiguous { addr, size } => LayoutView::Contiguous(addr, size as int),
        Layout::Chunked { btree_addr, chunk_dims } => LayoutView::Chunked(btree_addr, chunk_dims@),
    }
}

/// A version-3 data layout message at `b`: class 0 compact (size at +2,
/// data at +4), 1 contiguous (address +2, size +10), 2 chunked (rank +2,
/// B-tree +3, 4-byte dims from +11).
pub open spec fn spec_layout(bytes: Seq<u8>, b: int) -> Option<LayoutView> {
    match spec_u8_at(bytes, b) {
        None => None,
        Some(v) => if v != 3 {
            None
        } else {
            match spec_u8_at(bytes, b + 1) {
                None => None,
                Some(c) => if c == 0 {
                    match spec_u16_at(bytes, b + 2) {
                        Some(len) => Some(LayoutView::Compact(b + 4, len)),
                        None => None,
                    }
                } else if c == 1 {
                    match (spec_u64_at(bytes, b + 2), spec_addr_at(bytes, b + 10)) {
                        (Some(a), Some(size)) => Some(LayoutView::Contiguous(a as u64, size)),
                        _ => None,
                    }
                } else if c == 2 {
                    match (spec_u8_at(bytes, b + 2), spec_u64_at(bytes, b + 3)) {
                        (Some(rank), Some(bt)) => match spec_u32_list(bytes, b + 11, rank as nat) {
                            Some(d) => Some(LayoutView::Chunked(bt as u64, d)),
                            None => None,
                        },
                        _ => None,
                    }
                } else {
                    None
                },
            }
        },
    }
}

fn parse_layout(bytes: &[u8], b: usize) -> (r: Result<Layout, MmnError>)
    requires
        bytes@.len() <= usize::MAX / 16,
    ensures
        match spec_layout(bytes@, b as int) {
            Some(l) => r matches Ok(v) && layout_view(v) == l,
            None => r is Err,
        },
{
    let version = rd8(bytes, b, 0)?;
    if version != 3 {
        return Err(MmnError::new("hdf5 data layout version not supported (v3 only)"));
    }
    let class = rd8(bytes, b, 1)?;
    if class == 0 {
        let len = rd16(bytes, b, 2)? as usize;
        Ok(Layout::Compact { start: b + 4, len })
    } else if class == 1 {
        let addr = rd64(bytes, b, 2)?;
        let size = rd_addr(bytes, b, 10)?;
        Ok(Layout::Contiguous { addr, size })
    } else if class == 2 {
        let rank = rd8(bytes, b, 2)? as usize;
        let bt = rd64(bytes, b, 3)?;
        let dims = read_u32_list(bytes, b + 11, rank)?;
        Ok(Layout::Chunked { btree_addr: bt, chunk_dims: dims })
    } else {
        Err(MmnError::new("hdf5 layout class unknown"))
    }
}

/// Filter ids of a pipeline message, from filter `k` on at `pos`: an id,
/// a name length (version 1, or ids of 256 and up), flags, a value count,
/// the name, the 4-byte values (padded to 8 bytes in version 1).
pub open spec fn spec_filters(bytes: Seq<u8>, version: int, n: int, k: int, pos: int, ids: Seq<u16>) -> Option<Seq<u16>>
    decreases n - k,
{
    if k >= n {
        Some(ids)
    } else {
        match spec_u16_at(bytes, pos) {
            None => None,
            Some(id) => {
                let has_name = version == 1 || id >= 256;
                let name_len: Option<int> = if has_name { spec_u16_at(bytes, pos + 2) } else { Some(0) };
                let base = if has_name { pos + 4 } else { pos + 2 };
                match (name_len, spec_u16_at(bytes, base), spec_u16_at(bytes, base + 2)) {
                    (Some(nl), Some(_flags), Some(nv)) => {
                        let vpos = base + 4 + nl;
                        if nv > 0 && vpos + 4 * nv > bytes.len() {
                            None
                        } else {
                            let end = vpos + 4 * nv + if version == 1 && nv % 2 == 1 { 4int } else { 0int };
                            spec_filters(bytes, version, n, k + 1, end, ids.push(id as u16))
                        }
                    },
                    _ => None,
                }
            },
        }
    }
}

/// A filter pipeline message at `b` (version 1: filters from +8, version
/// 2: from +2; count at +1).
pub open spec fn spec_pipeline(bytes: Seq<u8>, b: int) -> Option<Seq<u16>> {
    match (spec_u8_at(bytes, b), spec_u8_at(bytes, b + 1)) {
        (Some(v), Some(n)) => if v == 1 {
            spec_filters(bytes, 1, n, 0, b + 8, Seq::empty())
        } else if v == 2 {
            spec_filters(bytes, 2, n, 0, b + 2, Seq::empty())
        } else {
            None
        },
        _ => None,
    }
}

fn parse_filter_pipeline(bytes: &[u8], b: usize) -> (r: Result<Vec<u16>, MmnError>)
    requires
        bytes@.len() <= usize::MAX / 16,
    ensures
        match spec_pipeline(bytes@, b as int) {
            Some(ids) => r matches Ok(v) && v@ == ids,
            None => r is Err,
        },
        r matches Ok(v) ==> v@.len() <= 255,
{
    let version = rd8(bytes, b, 0)?;
    let n = rd8(bytes, b, 1)? as usize;
    if version != 1 && version != 2 {
        return Err(MmnError::new("hdf5 filter pipeline version unknown"));
    }
    let mut pos: usize = if version == 1 { b + 8 } else { b + 2 };
    let mut ids: Vec<u16> = Vec::new();
    let mut k: usize = 0;
    let ghost goal = spec_pipeline(bytes@, b as int);
    while k < n
        invariant
            bytes@.len() <= usize::MAX / 16,
            k <= n <= 255,
            version == 1 || version == 2,
            pos <= bytes@.len() + 0x20000,
            goal == spec_filters(bytes@, version as int, n as int, k as int, pos as int, ids@),
            goal == spec_pipeline(bytes@, b as int),
            ids@.len() == k,
        decreases n - k,
    {
        let id = rd16(bytes, pos, 0)?;
        let has_name = version == 1 || id >= 256;
        let name_len: usize = if has_name { rd16(bytes, pos, 2)? as usize } else { 0 };
        let base = if has_name { pos + 4 } else { pos + 2 };
        let _flags = rd16(bytes, base, 0)?;
        let nv = rd16(bytes, base, 2)? as usize;
        let vpos = base + 4 + name_len;
        if nv > 0 && (vpos > bytes.len() || 4 * nv > bytes.len() - vpos) {
            return Err(truncated());
        }
        let pad: usize = if version == 1 && nv % 2 == 1 { 4 } else { 0 };
        ids.push(id);
        pos = vpos + 4 * nv + pad;
        k = k + 1;
    }
    Ok(ids)
}


// ---------------------------------------------------------------------------
// What an object header says

/// The messages of one object that matter here, later ones overriding
/// earlier ones; a layout that does not parse is kept as `Some(None)` and
/// only matters for a dataset.
pub struct ObjView {
    pub dims: Option<Seq<usize>>,
    pub dtype: Option<H5Dtype>,
    pub layout: Option<Option<LayoutView>>,
    pub symtab: Option<(int, int)>,
    pub filters: Seq<u16>,
}

pub open spec fn spec_obj(bytes: Seq<u8>, msgs: Seq<(int, int)>, i: int, st: ObjView) -> Option<ObjView>
    decreases msgs.len() - i,
{
    if i < 0 || i >= msgs.len() {
        Some(st)
    } else {
        let t = msgs[i].0;
        let b = msgs[i].1;
        if t == 1 {
            match spec_dataspace(bytes, b) {
                None => None,
                Some(d) => spec_obj(bytes, msgs, i + 1, ObjView { dims: Some(d), ..st }),
            }
        } else if t == 3 {
            match spec_datatype(bytes, b) {
                None => None,
                Some(d) => spec_obj(bytes, msgs, i + 1, ObjView { dtype: Some(d), ..st }),
            }
        } else if t == 8 {
            spec_obj(bytes, msgs, i + 1, ObjView { layout: Some(spec_layout(bytes, b)), ..st })
        } else if t == 0xB {
            match spec_pipeline(bytes, b) {
                None => None,
                Some(f) => spec_obj(bytes, msgs, i + 1, ObjView { filters: f, ..st }),
            }
        } else if t == 0x11 {
            match (spec_addr_at(bytes, b), spec_addr_at(bytes, b + 8)) {
                (Some(bt), Some(hp)) => spec_obj(bytes, msgs, i + 1, ObjView { symtab: Some((bt, hp)), ..st }),
                _ => None,
            }
        } else {
            spec_obj(bytes, msgs, i + 1, st)
        }
    }
}

pub open spec fn empty_obj() -> ObjView {
    ObjView { dims: None, dtype: None, layout: None, symtab: None, filters: Seq::empty() }
}

pub struct ObjInfo {
    pub dims: Option<Vec<usize>>,
    pub dtype: Option<H5Dtype>,
    pub layout: Option<Result<Layout, MmnError>>,
    pub symtab: Option<(usize, usize)>,
    pub filters: Vec<u16>,
}

pub open spec fn obj_view(o: ObjInfo) -> ObjView {
    ObjView {
        dims: match o.dims { Some(d) => Some(d@), None => None },
        dtype: o.dtype,
        layout: match o.layout {
            Some(Ok(l)) => Some(Some(layout_view(l))),
            Some(Err(_)) => Some(None),
            None => None,
        },
        symtab: match o.symtab { Some((a, b)) => Some((a as int, b as int)), None => None },
        filters: o.filters@,
    }
}

fn object_info(bytes: &[u8], msgs: &Vec<Message>) -> (r: Result<ObjInfo, MmnError>)
    requires
        bytes@.len() <= usize::MAX / 16,
    ensures
        match spec_obj(bytes@, msgs_view(msgs@), 0, empty_obj()) {
            Some(v) => r matches Ok(o) && obj_view(o) == v,
            None => r is Err,
        },
        r matches Ok(o) ==> (o.dims matches Some(d) ==> d@.len() <= 255) && o.filters@.len() <= 255,
{
    let mut info = ObjInfo { dims: None, dtype: None, layout: None, symtab: None, filters: Vec::new() };
    let ghost mv = msgs_view(msgs@);
    let ghost goal = spec_obj(bytes@, mv, 0, empty_obj());
    proof {
        assert(obj_view(info) == empty_obj()) by {
            assert(info.filters@ =~= Seq::<u16>::empty());
        }
    }
    let mut i: usize = 0;
    while i < msgs.len()
        invariant
            bytes@.len() <= usize::MAX / 16,
            mv == msgs_view(msgs@),
            i <= msgs@.len(),
            goal == spec_obj(bytes@, mv, i as int, obj_view(info)),
            goal == spec_obj(bytes@, msgs_view(msgs@), 0, empty_obj()),
            info.dims matches Some(d) ==> d@.len() <= 255,
            info.filters@.len() <= 255,
        decreases msgs@.len() - i,
    {
        let t = msgs[i].msg_type;
        let b = msgs[i].body_start;
        proof {
            assert(mv[i as int] == (t as int, b as int));
        }
        if t == 1 {
            let d = parse_dataspace(bytes, b)?;
            info.dims = Some(d);
        } else if t == 3 {
            let d = parse_datatype(bytes, b)?;
            info.dtype = Some(d);
        } else if t == 8 {
            info.layout = Some(parse_layout(bytes, b));
        } else if t == 0xB {
            let f = parse_filter_pipeline(bytes, b)?;
            info.filters = f;
        } else if t == 0x11 {
            let bt = rd_addr(bytes, b, 0)?;
            let hp = rd_addr(bytes, b, 8)?;
            info.symtab = Some((bt, hp));
        }
        i = i + 1;
    }
    Ok(info)
}

// ---------------------------------------------------------------------------
// Groups: local heap, v1 B-tree, symbol nodes

/// Whether the four bytes at `pos` are `sig`.
pub open spec fn sig_at(bytes: Seq<u8>, pos: int, sig: Seq<u8>) -> bool {
    0 <= pos && pos + 4 <= bytes.len() && bytes.subrange(pos, pos + 4) == sig
}

fn check_sig(bytes: &[u8], pos: usize, a: u8, b: u8, c: u8, d: u8) -> (r: Result<(), MmnError>)
    ensures
        r is Ok <==> sig_at(bytes@, pos as int, seq![a, b, c, d]),
{
    if pos > bytes.len() || bytes.len() - pos < 4 {
        return Err(truncated());
    }
    if bytes[pos] != a || bytes[pos + 1] != b || bytes[pos + 2] != c || bytes[pos + 3] != d {
        proof {
            if sig_at(bytes@, pos as int, seq![a, b, c, d]) {
                assert(bytes@.subrange(pos as int, pos + 4)[0] == a);
                assert(bytes@.subrange(pos as int, pos + 4)[1] == b);
                assert(bytes@.subrange(pos as int, pos + 4)[2] == c);
                assert(bytes@.subrange(pos as int, pos + 4)[3] == d);
            }
        }
        return Err(MmnError::new("hdf5 signature mismatch"));
    }
    proof {
        assert(bytes@.subrange(pos as int, pos + 4) =~= seq![a, b, c, d]);
    }
    Ok(())
}

pub open spec fn heap_sig() -> Seq<u8> { seq![0x48u8, 0x45, 0x41, 0x50] }
pub open spec fn tree_sig() -> Seq<u8> { seq![0x54u8, 0x52, 0x45, 0x45] }
pub open spec fn snod_sig() -> Seq<u8> { seq![0x53u8, 0x4E, 0x4F, 0x44] }

/// The data segment address of the local heap at `addr`.
pub open spec fn spec_heap(bytes: Seq<u8>, addr: int) -> Option<int> {
    if !sig_at(bytes, addr, heap_sig()) { None } else { spec_addr_at(bytes, addr + 24) }
}

/// First NUL at or after `i`, or the end of the file.
pub open spec fn nul_end(bytes: Seq<u8>, i: int) -> int
    decreases bytes.len() - i,
{
    if i >= bytes.len() || i < 0 { i } else if bytes[i] == 0 { i } else { nul_end(bytes, i + 1) }
}

/// The NUL-terminated name at `offset` in the heap data segment, decoded
/// as text (invalid UTF-8 replaced).
pub open spec fn spec_heap_name(bytes: Seq<u8>, heap: int, offset: int) -> Option<Seq<char>> {
    let start = heap + offset;
    if start > bytes.len() {
        None
    } else {
        Some(lossy_utf8(bytes.subrange(start, nul_end(bytes, start))))
    }
}

fn heap_name(bytes: &[u8], heap: usize, offset: usize) -> (r: Result<Vec<char>, MmnError>)
    ensures
        match spec_heap_name(bytes@, heap as int, offset as int) {
            Some(n) => r matches Ok(v) && v@ == n,
            None => r is Err,
        },
{
    if heap > bytes.len() || offset > bytes.len() - heap {
        return Err(truncated());
    }
    let start = heap + offset;
    let mut end = start;
    while end < bytes.len() && bytes[end] != 0
        invariant
            start <= end <= bytes@.len(),
            nul_end(bytes@, start as int) == nul_end(bytes@, end as int),
        decreases bytes@.len() - end,
    {
        end = end + 1;
    }
    let s = lossy_string(&bytes[start..end]);
    Ok(chars_of(s.as_str()))
}

fn parse_local_heap(bytes: &[u8], addr: usize) -> (r: Result<usize, MmnError>)
    ensures
        match spec_heap(bytes@, addr as int) {
            Some(h) => r matches Ok(v) && v == h,
            None => r is Err,
        },
{
    check_sig(bytes, addr, 0x48, 0x45, 0x41, 0x50)?;
    rd_addr(bytes, addr, 24)
}

pub open spec fn links_view(l: Seq<(Vec<char>, usize)>) -> Seq<(Seq<char>, int)> {
    Seq::new(l.len(), |i: int| (l[i].0@, l[i].1 as int))
}

/// Links of a symbol node from entry `k` at `pos`: each 40-byte entry holds
/// a name offset into the heap and an object header address.
pub open spec fn snod_entries(bytes: Seq<u8>, heap: int, n: int, k: int, pos: int, links: Seq<(Seq<char>, int)>) -> Option<Seq<(Seq<char>, int)>>
    decreases n - k,
{
    if k >= n {
        Some(links)
    } else {
        match (spec_addr_at(bytes, pos), spec_addr_at(bytes, pos + 8)) {
            (Some(no), Some(ha)) => match spec_heap_name(bytes, heap, no) {
                Some(name) => snod_entries(bytes, heap, n, k + 1, pos + 40, links.push((name, ha))),
                None => None,
            },
            _ => None,
        }
    }
}

pub open spec fn spec_snod(bytes: Seq<u8>, heap: int, addr: int, links: Seq<(Seq<char>, int)>) -> Option<Seq<(Seq<char>, int)>> {
    if !sig_at(bytes, addr, snod_sig()) {
        None
    } else {
        match spec_u16_at(bytes, addr + 6) {
            Some(n) => snod_entries(bytes, heap, n, 0, addr + 8, links),
            None => None,
        }
    }
}

fn read_snod(bytes: &[u8], addr: usize, heap: usize, out: &mut Vec<(Vec<char>, usize)>) -> (r: Result<(), MmnError>)
    requires
        bytes@.len() <= usize::MAX / 16,
    ensures
        match spec_snod(bytes@, heap as int, addr as int, links_view(old(out)@)) {
            Some(l) => r is Ok && links_view(final(out)@) == l,
            None => r is Err,
        },
{
    check_sig(bytes, addr, 0x53, 0x4E, 0x4F, 0x44)?;
    let count = rd16(bytes, addr, 6)? as usize;
    let mut pos = addr + 8;
    let mut k: usize = 0;
    let ghost goal = spec_snod(bytes@, heap as int, addr as int, links_view(out@));
    while k < count
        invariant
            bytes@.len() <= usize::MAX / 16,
            k <= count <= 0xFFFF,
            pos <= bytes@.len() + 40,
            goal == snod_entries(bytes@, heap as int, count as int, k as int, pos as int, links_view(out@)),
            goal == spec_snod(bytes@, heap as int, addr as int, links_view(old(out)@)),
        decreases count - k,
    {
        let no = rd_addr(bytes, pos, 0)?;
        let ha = rd_addr(bytes, pos, 8)?;
        let name = heap_name(bytes, heap, no)?;
        let ghost l0 = links_view(out@);
        out.push((name, ha));
        proof {
            assert(links_view(out@) =~= l0.push((name@, ha as int)));
        }
        pos = pos + 40;
        k = k + 1;
    }
    Ok(())
}

/// The links under group B-tree node `addr` (nested at most `fuel` deep).
pub open spec fn group_node(bytes: Seq<u8>, heap: int, addr: int, fuel: nat, links: Seq<(Seq<char>, int)>) -> Option<Seq<(Seq<char>, int)>>
    decreases fuel, 1int, 0int,
{
    if fuel == 0 || !sig_at(bytes, addr, tree_sig()) {
        None
    } else {
        match (spec_u8_at(bytes, addr + 4), spec_u8_at(bytes, addr + 5), spec_u16_at(bytes, addr + 6)) {
            (Some(nt), Some(level), Some(n)) => if nt != 0 {
                None
            } else {
                group_entries(bytes, heap, level, n, 0, addr + 24, fuel, links)
            },
            _ => None,
        }
    }
}

/// Children `k..n` of a group node: a key, then a child address; level 0
/// children are symbol nodes.
pub open spec fn group_entries(bytes: Seq<u8>, heap: int, level: int, n: int, k: int, pos: int, fuel: nat,
    links: Seq<(Seq<char>, int)>) -> Option<Seq<(Seq<char>, int)>>
    decreases fuel, 0int, n - k,
{
    if k >= n {
        Some(links)
    } else if fuel == 0 {
        None
    } else {
        match spec_addr_at(bytes, pos + 8) {
            None => None,
            Some(child) => {
                let r = if level > 0 {
                    group_node(bytes, heap, child, (fuel - 1) as nat, links)
                } else {
                    spec_snod(bytes, heap, child, links)
                };
                match r {
                    None => None,
                    Some(l2) => group_entries(bytes, heap, level, n, k + 1, pos + 16, fuel, l2),
                }
            },
        }
    }
}

fn walk_btree(bytes: &[u8], addr: usize, heap: usize, out: &mut Vec<(Vec<char>, usize)>, fuel: usize) -> (r: Result<(), MmnError>)
    requires
        bytes@.len() <= usize::MAX / 16,
    ensures
        match group_node(bytes@, heap as int, addr as int, fuel as nat, links_view(old(out)@)) {
            Some(l) => r is Ok && links_view(final(out)@) == l,
            None => r is Err,
        },
    decreases fuel,
{
    if fuel == 0 {
        return Err(MmnError::new("hdf5 B-tree nested too deeply"));
    }
    check_sig(bytes, addr, 0x54, 0x52, 0x45, 0x45)?;
    let nt = rd8(bytes, addr, 4)?;
    let level = rd8(bytes, addr, 5)?;
    let n = rd16(bytes, addr, 6)? as usize;
    if nt != 0 {
        return Err(MmnError::new("hdf5 B-tree node type is not a group node"));
    }
    let mut pos = addr + 24;
    let mut k: usize = 0;
    let ghost goal = group_node(bytes@, heap as int, addr as int, fuel as nat, links_view(out@));
    while k < n
        invariant
            bytes@.len() <= usize::MAX / 16,
            k <= n <= 0xFFFF,
            fuel >= 1,
            pos <= bytes@.len() + 24,
            goal == group_entries(bytes@, heap as int, level as int, n as int, k as int, pos as int, fuel as nat, links_view(out@)),
            goal == group_node(bytes@, heap as int, addr as int, fuel as nat, links_view(old(out)@)),
        decreases n - k,
    {
        let child = rd_addr(bytes, pos, 8)?;
        if level > 0 {
            walk_btree(bytes, child, heap, out, fuel - 1)?;
        } else {
            read_snod(bytes, child, heap, out)?;
        }
        pos = pos + 16;
        k = k + 1;
    }
    Ok(())
}


// ---------------------------------------------------------------------------
// Links in name order

/// `a` sorts before `b`: character by character by code point, a proper
/// prefix first (the order of their UTF-8 bytes).
pub open spec fn chars_less(a: Seq<char>, b: Seq<char>) -> bool
    decreases a.len(),
{
    if a.len() == 0 {
        b.len() > 0
    } else if b.len() == 0 {
        false
    } else if a[0] != b[0] {
        (a[0] as u32) < (b[0] as u32)
    } else {
        chars_less(a.drop_first(), b.drop_first())
    }
}

/// `x` placed into sorted `s` after every link whose name does not sort
/// after its own (so equal names keep their order).
pub open spec fn insert_link(s: Seq<(Seq<char>, int)>, x: (Seq<char>, int)) -> Seq<(Seq<char>, int)>
    decreases s.len(),
{
    if s.len() == 0 {
        seq![x]
    } else if chars_less(x.0, s.last().0) {
        insert_link(s.drop_last(), x).push(s.last())
    } else {
        s.push(x)
    }
}

/// Links stably sorted by name.
pub open spec fn sort_links(s: Seq<(Seq<char>, int)>) -> Seq<(Seq<char>, int)>
    decreases s.len(),
{
    if s.len() == 0 { s } else { insert_link(sort_links(s.drop_last()), s.last()) }
}

pub(crate) fn less_chars(a: &Vec<char>, b: &Vec<char>) -> (r: bool)
    ensures
        r == chars_less(a@, b@),
{
    let mut i: usize = 0;
    proof {
        assert(a@.skip(0) =~= a@);
        assert(b@.skip(0) =~= b@);
    }
    while i < a.len() && i < b.len() && a[i] == b[i]
        invariant
            i <= a@.len(),
            i <= b@.len(),
            chars_less(a@, b@) == chars_less(a@.skip(i as int), b@.skip(i as int)),
        decreases a@.len() - i,
    {
        proof {
            assert(a@.skip(i as int).drop_first() =~= a@.skip(i as int + 1));
            assert(b@.skip(i as int).drop_first() =~= b@.skip(i as int + 1));
        }
        i = i + 1;
    }
    if i == a.len() {
        i < b.len()
    } else if i == b.len() {
        false
    } else {
        (a[i] as u32) < (b[i] as u32)
    }
}

fn sort_by_name(links: Vec<(Vec<char>, usize)>) -> (r: Vec<(Vec<char>, usize)>)
    ensures
        links_view(r@) == sort_links(links_view(links@)),
{
    let mut res: Vec<(Vec<char>, usize)> = Vec::new();
    let mut rest = links;
    let ghost all = links_view(rest@);
    let mut k: usize = 0;
    let n = rest.len();
    let mut src: Vec<(Vec<char>, usize)> = Vec::new();
    // Take the links out in order, keeping them as a queue.
    let mut q: usize = 0;
    while q < n
        invariant
            q <= n == rest@.len(),
            links_view(src@) == all.take(q as int),
            all == links_view(rest@),
        decreases n - q,
    {
        let item = (rest[q].0.clone(), rest[q].1);
        proof {
            assert(item.0@ == rest@[q as int].0@);
        }
        let ghost s0 = links_view(src@);
        src.push(item);
        proof {
            assert(links_view(src@) =~= s0.push(all[q as int]));
            assert(all.take(q as int + 1) =~= all.take(q as int).push(all[q as int]));
        }
        q = q + 1;
    }
    proof {
        assert(all.take(n as int) =~= all);
    }
    while k < n
        invariant
            k <= n == src@.len(),
            links_view(src@) == all,
            links_view(res@) == sort_links(all.take(k as int)),
        decreases n - k,
    {
        let x = (src[k].0.clone(), src[k].1);
        let ghost xv = (x.0@, x.1 as int);
        proof {
            assert(xv == all[k as int]);
        }
        let ghost s = links_view(res@);
        let mut j = res.len();
        proof {
            assert(s.take(j as int) =~= s);
            assert(s.skip(j as int) =~= Seq::<(Seq<char>, int)>::empty());
            assert(insert_link(s, xv) + Seq::<(Seq<char>, int)>::empty() =~= insert_link(s, xv));
        }
        let mut go = j > 0 && less_chars(&x.0, &res[j - 1].0);
        while go
            invariant
                j <= res@.len(),
                s == links_view(res@),
                xv == (x.0@, x.1 as int),
                insert_link(s, xv) == insert_link(s.take(j as int), xv) + s.skip(j as int),
                go ==> j > 0 && chars_less(xv.0, s[j - 1].0),
                !go ==> j == 0 || !chars_less(xv.0, s[j - 1].0),
            decreases j,
        {
            proof {
                let t = s.take(j as int);
                assert(t.last() == s[j - 1]);
                assert(t.drop_last() =~= s.take(j - 1));
                assert(insert_link(t, xv) == insert_link(s.take(j - 1), xv).push(s[j - 1]));
                assert(insert_link(s.take(j - 1), xv).push(s[j - 1]) + s.skip(j as int)
                    =~= insert_link(s.take(j - 1), xv) + s.skip(j - 1));
            }
            j = j - 1;
            go = j > 0 && less_chars(&x.0, &res[j - 1].0);
        }
        proof {
            let t = s.take(j as int);
            if j > 0 {
                assert(t.last() == s[j - 1]);
                assert(insert_link(t, xv) == t.push(xv));
            } else {
                assert(insert_link(t, xv) == seq![xv]);
            }
            assert(all.take(k as int + 1).drop_last() =~= all.take(k as int));
            assert(all.take(k as int + 1).last() == xv);
        }
        res.insert(j, x);
        proof {
            assert(links_view(res@) =~= s.take(j as int).push(xv) + s.skip(j as int));
        }
        k = k + 1;
    }
    proof {
        assert(all.take(n as int) =~= all);
    }
    res
}


// ---------------------------------------------------------------------------
// Chunked datasets

/// A chunk as its B-tree leaf names it.
pub struct ChunkRef {
    pub offsets: Vec<usize>,
    pub mask: u32,
    pub addr: usize,
    pub size: usize,
}

pub struct ChunkView {
    pub offsets: Seq<usize>,
    pub mask: int,
    pub addr: int,
    pub size: int,
}

pub open spec fn chunks_view(c: Seq<ChunkRef>) -> Seq<ChunkView> {
    Seq::new(c.len(), |i: int| ChunkView { offsets: c[i].offsets@, mask: c[i].mask as int, addr: c[i].addr as int, size: c[i].size as int })
}

/// The chunks under chunk B-tree node `addr` (node type 1), in order.
pub open spec fn chunk_node(bytes: Seq<u8>, addr: int, dim: int, fuel: nat, acc: Seq<ChunkView>) -> Option<Seq<ChunkView>>
    decreases fuel, 1int, 0int,
{
    if fuel == 0 || !sig_at(bytes, addr, tree_sig()) {
        None
    } else {
        match (spec_u8_at(bytes, addr + 4), spec_u8_at(bytes, addr + 5), spec_u16_at(bytes, addr + 6)) {
            (Some(nt), Some(level), Some(n)) => if nt != 1 {
                None
            } else {
                chunk_entries(bytes, dim, level, n, 0, addr + 24, fuel, acc)
            },
            _ => None,
        }
    }
}

/// Entries `k..n` of a chunk node: a key (chunk size, filter mask, one
/// 8-byte offset per dimension), then a child address.
pub open spec fn chunk_entries(bytes: Seq<u8>, dim: int, level: int, n: int, k: int, pos: int, fuel: nat,
    acc: Seq<ChunkView>) -> Option<Seq<ChunkView>>
    decreases fuel, 0int, n - k,
{
    if k >= n {
        Some(acc)
    } else if fuel == 0 || dim < 0 {
        None
    } else {
        match (spec_u32_at(bytes, pos), spec_u32_at(bytes, pos + 4), spec_addr_list(bytes, pos + 8, dim as nat),
            spec_addr_at(bytes, pos + 8 + 8 * dim)) {
            (Some(size), Some(mask), Some(offs), Some(child)) => {
                let next = pos + 16 + 8 * dim;
                if level > 0 {
                    match chunk_node(bytes, child, dim, (fuel - 1) as nat, acc) {
                        None => None,
                        Some(a2) => chunk_entries(bytes, dim, level, n, k + 1, next, fuel, a2),
                    }
                } else {
                    chunk_entries(bytes, dim, level, n, k + 1, next, fuel,
                        acc.push(ChunkView { offsets: offs, mask, addr: child, size: size as usize as int }))
                }
            },
            _ => None,
        }
    }
}

fn walk_chunk_btree(bytes: &[u8], addr: usize, dim: usize, out: &mut Vec<ChunkRef>, fuel: usize) -> (r: Result<(), MmnError>)
    requires
        bytes@.len() <= usize::MAX / 16,
        dim <= 256,
        forall|j: int| 0 <= j < old(out)@.len() ==> #[trigger] old(out)@[j].offsets@.len() == dim,
    ensures
        match chunk_node(bytes@, addr as int, dim as int, fuel as nat, chunks_view(old(out)@)) {
            Some(c) => r is Ok && chunks_view(final(out)@) == c,
            None => r is Err,
        },
        r is Ok ==> forall|j: int| 0 <= j < final(out)@.len() ==> #[trigger] final(out)@[j].offsets@.len() == dim,
    decreases fuel,
{
    if fuel == 0 {
        return Err(MmnError::new("hdf5 chunk B-tree nested too deeply"));
    }
    check_sig(bytes, addr, 0x54, 0x52, 0x45, 0x45)?;
    let nt = rd8(bytes, addr, 4)?;
    let level = rd8(bytes, addr, 5)?;
    let n = rd16(bytes, addr, 6)? as usize;
    if nt != 1 {
        return Err(MmnError::new("hdf5 chunk B-tree node type mismatch"));
    }
    let mut pos = addr + 24;
    let mut k: usize = 0;
    let ghost goal = chunk_node(bytes@, addr as int, dim as int, fuel as nat, chunks_view(out@));
    while k < n
        invariant
            bytes@.len() <= usize::MAX / 16,
            dim <= 256,
            k <= n <= 0xFFFF,
            fuel >= 1,
            pos <= bytes@.len() + 24,
            goal == chunk_entries(bytes@, dim as int, level as int, n as int, k as int, pos as int, fuel as nat, chunks_view(out@)),
            goal == chunk_node(bytes@, addr as int, dim as int, fuel as nat, chunks_view(old(out)@)),
            forall|j: int| 0 <= j < out@.len() ==> #[trigger] out@[j].offsets@.len() == dim,
        decreases n - k,
    {
        let size = rd32(bytes, pos, 0)? as usize;
        let mask = rd32(bytes, pos, 4)?;
        let offs = read_addr_list(bytes, pos + 8, dim)?;
        let child = rd_addr(bytes, pos, 8 + 8 * dim)?;
        if level > 0 {
            walk_chunk_btree(bytes, child, dim, out, fuel - 1)?;
        } else {
            let ghost c0 = chunks_view(out@);
            out.push(ChunkRef { offsets: offs, mask, addr: child, size });
            proof {
                assert(chunks_view(out@) =~= c0.push(ChunkView { offsets: offs@, mask: mask as int, addr: child as int, size: size as int }));
            }
        }
        pos = pos + 16 + 8 * dim;
        k = k + 1;
    }
    Ok(())
}

/// One filter undone: 1 is deflate (zlib-wrapped), 2 shuffle, others
/// refused; data too long to inflate is refused too.
#[verifier::opaque]
pub open spec fn undo_one(data: Seq<u8>, id: u16, es: int) -> Option<Seq<u8>> {
    if id == 1 {
        if data.len() > usize::MAX / 8 { None } else { spec_zlib(data) }
    } else if id == 2 {
        Some(spec_unshuffle(data, es))
    } else {
        None
    }
}

/// Filters `i-1` down to 0 undone in turn (the pipeline in reverse), each
/// skipped when its bit of `mask` is set; a filter past bit 31 is refused.
pub open spec fn spec_undo(data: Seq<u8>, ids: Seq<u16>, i: int, mask: int, es: int) -> Option<Seq<u8>>
    decreases i,
{
    if i <= 0 {
        Some(data)
    } else {
        let f = i - 1;
        if f >= 32 {
            None
        } else if (mask / vstd::arithmetic::power2::pow2(f as nat) as int) % 2 == 1 {
            spec_undo(data, ids, f, mask, es)
        } else {
            match undo_one(data, ids[f], es) {
                None => None,
                Some(d) => spec_undo(d, ids, f, mask, es),
            }
        }
    }
}

/// The filter mask of a chunk: filter `f` of the pipeline is undone exactly
/// when bit `f` of the mask is 0, and skipped (its input passed on as it is)
/// when the bit is 1.
pub proof fn lemma_filter_mask_bit(data: Seq<u8>, ids: Seq<u16>, f: int, mask: u32, es: int)
    requires
        0 <= f < 32,
        f < ids.len(),
    ensures
        (mask >> (f as u32)) & 1 == 1 ==> spec_undo(data, ids, f + 1, mask as int, es) == spec_undo(data, ids, f, mask as int, es),
        (mask >> (f as u32)) & 1 == 0 ==> spec_undo(data, ids, f + 1, mask as int, es) == match undo_one(data, ids[f], es) {
            None => None,
            Some(d) => spec_undo(d, ids, f, mask as int, es),
        },
{
    let sh: u32 = f as u32;
    vstd::bits::lemma_u32_shr_is_div(mask, sh);
    let y: u32 = mask >> sh;
    assert(y & 1 == y % 2) by (bit_vector);
    assert(y == mask as int / vstd::arithmetic::power2::pow2(f as nat) as int);
}

/// A chunk written through a one-filter deflate pipeline, with bit 0 of its
/// mask clear, reads back as the zlib stream it holds inflated; with the bit
/// set, it reads back as stored.
pub proof fn lemma_gzip_chunk_inflated(data: Seq<u8>, mask: u32, es: int)
    ensures
        mask & 1 == 0 ==> spec_undo(data, seq![1u16], 1, mask as int, es)
            == (if data.len() > usize::MAX / 8 { None } else { spec_zlib(data) }),
        mask & 1 == 1 ==> spec_undo(data, seq![1u16], 1, mask as int, es) == Some(data),
{
    reveal(undo_one);
    lemma_filter_mask_bit(data, seq![1u16], 0, mask, es);
    assert(mask >> 0u32 == mask) by (bit_vector);
    assert(seq![1u16][0] == 1u16);
}

fn undo_one_exec(data: Vec<u8>, id: u16, es: usize) -> (r: Result<Vec<u8>, MmnError>)
    ensures
        match undo_one(data@, id, es as int) {
            Some(d) => r matches Ok(v) && v@ == d,
            None => r is Err,
        },
{
    reveal(undo_one);
    if id == 1 {
        if data.len() > usize::MAX / 8 {
            return Err(MmnError::new("hdf5 gzip chunk too large"));
        }
        undo_deflate(data.as_slice())
    } else if id == 2 {
        Ok(undo_shuffle(data.as_slice(), es))
    } else {
        Err(MmnError::new("hdf5 filter not supported (gzip and shuffle only)"))
    }
}

fn undo_filters(raw: Vec<u8>, ids: &Vec<u16>, mask: u32, es: usize) -> (r: Result<Vec<u8>, MmnError>)
    requires
        ids@.len() <= 255,
    ensures
        match spec_undo(raw@, ids@, ids@.len() as int, mask as int, es as int) {
            Some(d) => r matches Ok(v) && v@ == d,
            None => r is Err,
        },
{
    let mut data = raw;
    let mut i = ids.len();
    let ghost goal = spec_undo(raw@, ids@, ids@.len() as int, mask as int, es as int);
    while i > 0
        invariant
            i <= ids@.len() <= 255,
            goal == spec_undo(data@, ids@, i as int, mask as int, es as int),
            goal == spec_undo(raw@, ids@, ids@.len() as int, mask as int, es as int),
        decreases i,
    {
        let f = i - 1;
        if f >= 32 {
            return Err(MmnError::new("hdf5 filter mask bit out of range"));
        }
        proof {
            vstd::bits::lemma_u32_shr_is_div(mask, f as u32);
        }
        let bit = (mask >> (f as u32)) % 2;
        if bit != 1 {
            data = undo_one_exec(data, ids[f], es)?;
        }
        i = f;
    }
    Ok(data)
}


/// Product of `s` from the left, `None` once a partial product passes
/// `usize::MAX`.
pub open spec fn cprod(s: Seq<usize>) -> Option<int>
    decreases s.len(),
{
    if s.len() == 0 {
        Some(1)
    } else {
        match cprod(s.drop_last()) {
            None => None,
            Some(p) => if p * s.last() > usize::MAX { None } else { Some(p * s.last()) },
        }
    }
}

fn prod_checked(s: &[usize]) -> (r: Result<usize, MmnError>)
    ensures
        match cprod(s@) {
            Some(p) => r matches Ok(v) && v == p,
            None => r is Err,
        },
{
    let mut acc: usize = 1;
    let mut i: usize = 0;
    proof {
        assert(s@.take(0) =~= Seq::<usize>::empty());
    }
    while i < s.len()
        invariant
            i <= s@.len(),
            cprod(s@.take(i as int)) == Some(acc as int),
        decreases s@.len() - i,
    {
        proof {
            assert(s@.take(i as int + 1).drop_last() =~= s@.take(i as int));
            assert(s@.take(i as int + 1).last() == s@[i as int]);
        }
        match acc.checked_mul(s[i]) {
            Some(v) => acc = v,
            None => {
                proof {
                    lemma_cprod_none(s@, i as int + 1);
                }
                return Err(MmnError::new("hdf5 size overflows"));
            },
        }
        i = i + 1;
    }
    proof {
        assert(s@.take(s@.len() as int) =~= s@);
    }
    Ok(acc)
}

proof fn lemma_cprod_none(s: Seq<usize>, k: int)
    requires
        0 <= k <= s.len(),
        cprod(s.take(k)) is None,
    ensures
        cprod(s) is None,
    decreases s.len() - k,
{
    if k < s.len() {
        assert(s.take(k + 1).drop_last() =~= s.take(k));
        lemma_cprod_none(s, k + 1);
    } else {
        assert(s.take(k) =~= s);
    }
}

/// Row-major strides of dims `i..`: the last is 1, each other the next
/// times the next dimension (`None` past `usize::MAX`).
pub open spec fn strides_from(dims: Seq<usize>, i: int) -> Option<Seq<usize>>
    decreases dims.len() - i,
{
    if i >= dims.len() - 1 {
        Some(seq![1usize])
    } else {
        match strides_from(dims, i + 1) {
            None => None,
            Some(t) => {
                let v = t[0] as int * dims[i + 1] as int;
                if v > usize::MAX { None } else { Some(seq![v as usize] + t) }
            },
        }
    }
}

proof fn lemma_strides_len(dims: Seq<usize>, i: int)
    requires
        0 <= i < dims.len(),
    ensures
        strides_from(dims, i) matches Some(t) ==> t.len() == dims.len() - i,
    decreases dims.len() - i,
{
    if i < dims.len() - 1 {
        lemma_strides_len(dims, i + 1);
    }
}

proof fn lemma_strides_none(dims: Seq<usize>, i: int, j: int)
    requires
        0 <= i <= j < dims.len(),
        strides_from(dims, j) is None,
    ensures
        strides_from(dims, i) is None,
    decreases j - i,
{
    if i < j {
        lemma_strides_none(dims, i + 1, j);
    }
}

fn row_strides(dims: &[usize]) -> (r: Result<Vec<usize>, MmnError>)
    requires
        dims@.len() >= 1,
    ensures
        match strides_from(dims@, 0) {
            Some(t) => r matches Ok(v) && v@ == t,
            None => r is Err,
        },
{
    let rank = dims.len();
    let mut st: Vec<usize> = vec![1usize; rank];
    let mut i = rank - 1;
    proof {
        assert(st@.skip(i as int) =~= seq![1usize]);
    }
    while i > 0
        invariant
            i < rank == dims@.len(),
            st@.len() == rank,
            strides_from(dims@, i as int) == Some(st@.skip(i as int)),
        decreases i,
    {
        proof {
            lemma_strides_len(dims@, i as int);
        }
        let v = match st[i].checked_mul(dims[i]) {
            Some(v) => v,
            None => {
                proof {
                    assert(strides_from(dims@, i - 1) is None);
                    lemma_strides_none(dims@, 0, i - 1);
                }
                return Err(MmnError::new("hdf5 strides overflow"));
            },
        };
        let ghost old_skip = st@.skip(i as int);
        st.set(i - 1, v);
        proof {
            assert(st@.skip(i - 1) =~= seq![v] + old_skip);
        }
        i = i - 1;
    }
    proof {
        assert(st@.skip(0) =~= st@);
    }
    Ok(st)
}

/// The flat element index where a row of the chunk lands: dims `d..last`
/// of the chunk offset plus the row index, each checked against the
/// dataset's dims (`Some(None)`: the row lies outside; `None`: overflow).
pub open spec fn row_target(offs: Seq<usize>, idx: Seq<usize>, dims: Seq<usize>, strides: Seq<usize>, d: int, last: int, acc: int) -> Option<Option<int>>
    decreases last - d,
{
    if d >= last {
        Some(Some(acc))
    } else {
        let pos = offs[d] + idx[d];
        if pos > usize::MAX {
            None
        } else if pos >= dims[d] {
            Some(None)
        } else {
            let m = pos * strides[d];
            if m > usize::MAX || acc + m > usize::MAX { None } else { row_target(offs, idx, dims, strides, d + 1, last, acc + m) }
        }
    }
}

/// Where the row starts inside the chunk, dims `d-1` down to 0.
pub open spec fn row_src(idx: Seq<usize>, cs: Seq<usize>, last: int, d: int, src: int, mul: int) -> Option<int>
    decreases d,
{
    if d <= 0 {
        Some(src)
    } else {
        let a = idx[d - 1] * mul;
        let b = a * cs[last];
        let m2 = mul * cs[d - 1];
        if a > usize::MAX || b > usize::MAX || src + b > usize::MAX || m2 > usize::MAX {
            None
        } else {
            row_src(idx, cs, last, d - 1, src + b, m2)
        }
    }
}

/// The next row index, counting the last outer dimension fastest.
pub open spec fn odo(idx: Seq<usize>, cs: Seq<usize>, d: int) -> Seq<usize>
    decreases d,
{
    if d <= 0 {
        idx
    } else {
        let v = idx[d - 1] + 1;
        if v < cs[d - 1] { idx.update(d - 1, v as usize) } else { odo(idx.update(d - 1, 0), cs, d - 1) }
    }
}

/// What stays fixed while one chunk's rows are copied.
pub struct RowCtx {
    pub offs: Seq<usize>,
    pub cs: Seq<usize>,
    pub dims: Seq<usize>,
    pub strides: Seq<usize>,
    pub es: int,
    pub last: int,
    pub row_len: int,
}

/// Rows `o..count` of a chunk copied into `out`.
pub open spec fn chunk_rows(out: Seq<u8>, data: Seq<u8>, c: RowCtx, o: int, count: int, idx: Seq<usize>) -> Option<Seq<u8>>
    decreases count - o,
{
    if o >= count {
        Some(out)
    } else {
        let next = odo(idx, c.cs, c.last);
        match row_target(c.offs, idx, c.dims, c.strides, 0, c.last, c.offs[c.last] as int) {
            None => None,
            Some(None) => chunk_rows(out, data, c, o + 1, count, next),
            Some(Some(t)) => match row_src(idx, c.cs, c.last, c.last, 0, 1) {
                None => None,
                Some(src) => {
                    let n = c.row_len * c.es;
                    let dst = t * c.es;
                    let ss = src * c.es;
                    if n > usize::MAX || dst > usize::MAX || dst + n > out.len() || ss > usize::MAX || ss + n > data.len() {
                        None
                    } else {
                        chunk_rows(out.take(dst) + data.subrange(ss, ss + n) + out.skip(dst + n), data, c, o + 1, count, next)
                    }
                },
            },
        }
    }
}


fn row_target_exec(offs: &Vec<usize>, idx: &Vec<usize>, dims: &[usize], strides: &Vec<usize>, last: usize) -> (r: Result<Option<usize>, MmnError>)
    requires
        offs@.len() >= last + 1,
        idx@.len() == last,
        dims@.len() == last + 1,
        strides@.len() == last + 1,
    ensures
        match row_target(offs@, idx@, dims@, strides@, 0, last as int, offs@[last as int] as int) {
            None => r is Err,
            Some(None) => r matches Ok(None),
            Some(Some(t)) => r matches Ok(Some(v)) && v == t,
        },
{
    let mut acc = offs[last];
    let mut d: usize = 0;
    let ghost goal = row_target(offs@, idx@, dims@, strides@, 0, last as int, offs@[last as int] as int);
    while d < last
        invariant
            d <= last,
            offs@.len() >= last + 1,
            idx@.len() == last,
            dims@.len() == last + 1,
            strides@.len() == last + 1,
            goal == row_target(offs@, idx@, dims@, strides@, d as int, last as int, acc as int),
            goal == row_target(offs@, idx@, dims@, strides@, 0, last as int, offs@[last as int] as int),
        decreases last - d,
    {
        let pos = match offs[d].checked_add(idx[d]) {
            Some(p) => p,
            None => return Err(MmnError::new("hdf5 chunk offset overflows")),
        };
        if pos >= dims[d] {
            return Ok(None);
        }
        let m = match pos.checked_mul(strides[d]) {
            Some(m) => m,
            None => return Err(MmnError::new("hdf5 chunk offset overflows")),
        };
        acc = match acc.checked_add(m) {
            Some(a) => a,
            None => return Err(MmnError::new("hdf5 chunk offset overflows")),
        };
        d = d + 1;
    }
    Ok(Some(acc))
}

fn row_src_exec(idx: &Vec<usize>, cs: &Vec<usize>, last: usize) -> (r: Result<usize, MmnError>)
    requires
        idx@.len() == last,
        cs@.len() == last + 1,
    ensures
        match row_src(idx@, cs@, last as int, last as int, 0, 1) {
            None => r is Err,
            Some(v) => r matches Ok(x) && x == v,
        },
{
    let mut src: usize = 0;
    let mut mul: usize = 1;
    let mut d = last;
    let ghost goal = row_src(idx@, cs@, last as int, last as int, 0, 1);
    while d > 0
        invariant
            d <= last,
            idx@.len() == last,
            cs@.len() == last + 1,
            goal == row_src(idx@, cs@, last as int, d as int, src as int, mul as int),
            goal == row_src(idx@, cs@, last as int, last as int, 0, 1),
        decreases d,
    {
        let a = match idx[d - 1].checked_mul(mul) {
            Some(a) => a,
            None => return Err(MmnError::new("hdf5 chunk index overflows")),
        };
        let b = match a.checked_mul(cs[last]) {
            Some(b) => b,
            None => return Err(MmnError::new("hdf5 chunk index overflows")),
        };
        let s2 = match src.checked_add(b) {
            Some(s2) => s2,
            None => return Err(MmnError::new("hdf5 chunk index overflows")),
        };
        let m2 = match mul.checked_mul(cs[d - 1]) {
            Some(m2) => m2,
            None => return Err(MmnError::new("hdf5 chunk index overflows")),
        };
        src = s2;
        mul = m2;
        d = d - 1;
    }
    Ok(src)
}

/// Row indices stay below their chunk dims (or at 0).
pub open spec fn idx_ok(idx: Seq<usize>, cs: Seq<usize>) -> bool {
    forall|d: int| 0 <= d < idx.len() ==> (#[trigger] idx[d] < cs[d] || idx[d] == 0)
}

fn odo_exec(idx: &mut Vec<usize>, cs: &Vec<usize>, last: usize)
    requires
        old(idx)@.len() == last,
        cs@.len() == last + 1,
        idx_ok(old(idx)@, cs@),
    ensures
        final(idx)@ == odo(old(idx)@, cs@, last as int),
        idx_ok(final(idx)@, cs@),
        final(idx)@.len() == last,
{
    let mut d = last;
    let ghost goal = odo(idx@, cs@, last as int);
    loop
        invariant
            d <= last,
            idx@.len() == last,
            cs@.len() == last + 1,
            idx_ok(idx@, cs@),
            goal == odo(idx@, cs@, d as int),
            goal == odo(old(idx)@, cs@, last as int),
        decreases d,
    {
        if d == 0 {
            return;
        }
        let v = idx[d - 1] + 1;
        if v < cs[d - 1] {
            idx.set(d - 1, v);
            return;
        }
        idx.set(d - 1, 0);
        d = d - 1;
    }
}

fn copy_row(out: &mut Vec<u8>, dst: usize, data: &Vec<u8>, ss: usize, n: usize)
    requires
        dst + n <= old(out)@.len(),
        ss + n <= data@.len(),
    ensures
        final(out)@ == old(out)@.take(dst as int) + data@.subrange(ss as int, ss + n) + old(out)@.skip(dst + n),
{
    let mut k: usize = 0;
    let _ol = out.len();
    let _dl = data.len();
    while k < n
        invariant
            k <= n,
            _ol == out@.len(),
            _dl == data@.len(),
            dst + n <= out@.len(),
            ss + n <= data@.len(),
            out@.len() == old(out)@.len(),
            forall|j: int| 0 <= j < out@.len() ==> #[trigger] out@[j] == if dst <= j < dst + k { data@[ss + j - dst] } else { old(out)@[j] },
        decreases n - k,
    {
        out.set(dst + k, data[ss + k]);
        k = k + 1;
    }
    proof {
        assert(out@ =~= old(out)@.take(dst as int) + data@.subrange(ss as int, ss + n) + old(out)@.skip(dst + n));
    }
}

pub open spec fn row_ctx_of(offs: Seq<usize>, cs: Seq<usize>, dims: Seq<usize>, strides: Seq<usize>, es: int, last: int, row_len: int) -> RowCtx {
    RowCtx { offs, cs, dims, strides, es, last, row_len }
}

fn chunk_rows_exec(out: &mut Vec<u8>, data: &Vec<u8>, offs: &Vec<usize>, cs: &Vec<usize>, dims: &[usize], strides: &Vec<usize>,
    es: usize, last: usize, row_len: usize, count: usize) -> (r: Result<(), MmnError>)
    requires
        offs@.len() >= last + 1,
        cs@.len() == last + 1,
        dims@.len() == last + 1,
        strides@.len() == last + 1,
    ensures
        match chunk_rows(old(out)@, data@, row_ctx_of(offs@, cs@, dims@, strides@, es as int, last as int, row_len as int),
            0, count as int, Seq::new(last as nat, |i: int| 0usize)) {
            Some(o) => r is Ok && final(out)@ == o,
            None => r is Err,
        },
{
    let ghost c = row_ctx_of(offs@, cs@, dims@, strides@, es as int, last as int, row_len as int);
    let mut idx: Vec<usize> = vec![0usize; last];
    let ghost goal = chunk_rows(out@, data@, c, 0, count as int, idx@);
    proof {
        assert(idx@ =~= Seq::new(last as nat, |i: int| 0usize));
    }
    let mut o: usize = 0;
    while o < count
        invariant
            o <= count,
            offs@.len() >= last + 1,
            cs@.len() == last + 1,
            dims@.len() == last + 1,
            strides@.len() == last + 1,
            idx@.len() == last,
            idx_ok(idx@, cs@),
            c == row_ctx_of(offs@, cs@, dims@, strides@, es as int, last as int, row_len as int),
            goal == chunk_rows(out@, data@, c, o as int, count as int, idx@),
            goal == chunk_rows(old(out)@, data@, c, 0, count as int, Seq::new(last as nat, |i: int| 0usize)),
        decreases count - o,
    {
        let t = row_target_exec(offs, &idx, dims, strides, last)?;
        match t {
            None => {},
            Some(t) => {
                let src = row_src_exec(&idx, cs, last)?;
                let n = match row_len.checked_mul(es) {
                    Some(n) => n,
                    None => return Err(MmnError::new("hdf5 chunk row overflows")),
                };
                let dst = match t.checked_mul(es) {
                    Some(d) => d,
                    None => return Err(MmnError::new("hdf5 chunk row overflows")),
                };
                if dst > out.len() || n > out.len() - dst {
                    return Err(MmnError::new("hdf5 chunk row outside the dataset"));
                }
                let ss = match src.checked_mul(es) {
                    Some(x) => x,
                    None => return Err(MmnError::new("hdf5 chunk row overflows")),
                };
                if ss > data.len() || n > data.len() - ss {
                    return Err(MmnError::new("hdf5 chunk row outside the chunk"));
                }
                copy_row(out, dst, data, ss, n);
            },
        }
        odo_exec(&mut idx, cs, last);
        o = o + 1;
    }
    Ok(())
}


/// One chunk undone through the filters and its rows copied into `out`.
pub open spec fn place_chunk(bytes: Seq<u8>, out: Seq<u8>, ck: ChunkView, ids: Seq<u16>, es: int, dims: Seq<usize>,
    cs: Seq<usize>, strides: Seq<usize>, cnumel: int) -> Option<Seq<u8>> {
    if ck.addr + ck.size > bytes.len() {
        None
    } else {
        match spec_undo(bytes.subrange(ck.addr, ck.addr + ck.size), ids, ids.len() as int, ck.mask, es) {
            None => None,
            Some(data) => if cnumel * es > usize::MAX || data.len() < cnumel * es {
                None
            } else {
                let last = dims.len() - 1;
                let left = if dims[last] >= ck.offsets[last] { dims[last] - ck.offsets[last] } else { 0 };
                let rl = if cs[last] < left { cs[last] as int } else { left };
                if rl == 0 {
                    Some(out)
                } else {
                    match cprod(cs.take(last)) {
                        None => None,
                        Some(outer) => chunk_rows(out, data, row_ctx_of(ck.offsets, cs, dims, strides, es, last, rl), 0,
                            if outer > 1 { outer } else { 1 }, Seq::new(last as nat, |i: int| 0usize)),
                    }
                }
            },
        }
    }
}

pub open spec fn place_all(bytes: Seq<u8>, out: Seq<u8>, chunks: Seq<ChunkView>, i: int, ids: Seq<u16>, es: int,
    dims: Seq<usize>, cs: Seq<usize>, strides: Seq<usize>, cnumel: int) -> Option<Seq<u8>>
    decreases chunks.len() - i,
{
    if i < 0 || i >= chunks.len() {
        Some(out)
    } else {
        match place_chunk(bytes, out, chunks[i], ids, es, dims, cs, strides, cnumel) {
            None => None,
            Some(o2) => place_all(bytes, o2, chunks, i + 1, ids, es, dims, cs, strides, cnumel),
        }
    }
}

/// A chunked dataset assembled row-major: zeros where no chunk was
/// written, each chunk's rows copied in B-tree order (edge chunks clipped).
pub open spec fn spec_assemble(bytes: Seq<u8>, dims: Seq<usize>, es: int, bt: u64, cdims: Seq<usize>, ids: Seq<u16>) -> Option<Seq<u8>> {
    let rank = dims.len() as int;
    if cdims.len() != rank + 1 {
        None
    } else {
        match cprod(dims) {
            None => None,
            Some(numel) => if numel * es > usize::MAX {
                None
            } else {
                let out0 = Seq::new((numel * es) as nat, |i: int| 0u8);
                if bt == u64::MAX {
                    Some(out0)
                } else {
                    match (chunk_node(bytes, bt as usize as int, rank + 1, bytes.len() as nat, Seq::empty()),
                        strides_from(dims, 0), cprod(cdims.take(rank))) {
                        (Some(chunks), Some(st), Some(cn)) => place_all(bytes, out0, chunks, 0, ids, es, dims, cdims.take(rank), st, cn),
                        _ => None,
                    }
                }
            },
        }
    }
}

fn place_chunk_exec(bytes: &[u8], out: &mut Vec<u8>, ck: &ChunkRef, ids: &Vec<u16>, es: usize, dims: &Vec<usize>,
    cs: &Vec<usize>, strides: &Vec<usize>, cnumel: usize) -> (r: Result<(), MmnError>)
    requires
        dims@.len() >= 1,
        cs@.len() == dims@.len(),
        strides@.len() == dims@.len(),
        ck.offsets@.len() >= dims@.len(),
        ids@.len() <= 255,
    ensures
        match place_chunk(bytes@, old(out)@, ChunkView { offsets: ck.offsets@, mask: ck.mask as int, addr: ck.addr as int, size: ck.size as int },
            ids@, es as int, dims@, cs@, strides@, cnumel as int) {
            Some(o) => r is Ok && final(out)@ == o,
            None => r is Err,
        },
{
    if ck.addr > bytes.len() || ck.size > bytes.len() - ck.addr {
        return Err(MmnError::new("hdf5 dataset chunk out of bounds"));
    }
    let raw = crate::bytes::copy_range(bytes, ck.addr, ck.addr + ck.size);
    let data = undo_filters(raw, ids, ck.mask, es)?;
    let need = match cnumel.checked_mul(es) {
        Some(n) => n,
        None => return Err(MmnError::new("hdf5 chunk size overflows")),
    };
    if data.len() < need {
        return Err(MmnError::new("hdf5 dataset chunk decoded too short"));
    }
    let last = dims.len() - 1;
    let left = if dims[last] >= ck.offsets[last] { dims[last] - ck.offsets[last] } else { 0 };
    let rl = if cs[last] < left { cs[last] } else { left };
    if rl == 0 {
        return Ok(());
    }
    let outer = prod_checked(&cs.as_slice()[0..last])?;
    proof {
        assert(cs@.subrange(0, last as int) =~= cs@.take(last as int));
    }
    let count = if outer > 1 { outer } else { 1 };
    chunk_rows_exec(out, &data, &ck.offsets, cs, dims.as_slice(), strides, es, last, rl, count)
}

fn take_usizes(src: &Vec<usize>, n: usize) -> (out: Vec<usize>)
    requires
        n <= src@.len(),
    ensures
        out@ == src@.take(n as int),
{
    let mut out: Vec<usize> = Vec::new();
    let mut i: usize = 0;
    while i < n
        invariant
            i <= n <= src@.len(),
            out@ == src@.take(i as int),
        decreases n - i,
    {
        out.push(src[i]);
        i = i + 1;
        assert(out@ =~= src@.take(i as int));
    }
    out
}

fn assemble_chunked(bytes: &[u8], dims: &Vec<usize>, es: usize, bt: u64, cdims: &Vec<usize>, ids: &Vec<u16>) -> (r: Result<Vec<u8>, MmnError>)
    requires
        bytes@.len() <= usize::MAX / 16,
        1 <= dims@.len() <= 255,
        ids@.len() <= 255,
    ensures
        match spec_assemble(bytes@, dims@, es as int, bt, cdims@, ids@) {
            Some(o) => r matches Ok(v) && v@ == o,
            None => r is Err,
        },
{
    let rank = dims.len();
    if cdims.len() != rank + 1 {
        return Err(MmnError::new("hdf5 dataset chunk rank does not match dataspace rank"));
    }
    let numel = prod_checked(dims.as_slice())?;
    let total = match numel.checked_mul(es) {
        Some(t) => t,
        None => return Err(MmnError::new("hdf5 dataset size overflows")),
    };
    let mut out: Vec<u8> = vec![0u8; total];
    proof {
        assert(out@ =~= Seq::new((numel * es) as nat, |i: int| 0u8));
    }
    if bt == u64::MAX {
        return Ok(out);
    }
    let mut chunks: Vec<ChunkRef> = Vec::new();
    proof {
        assert(chunks_view(chunks@) =~= Seq::<ChunkView>::empty());
    }
    walk_chunk_btree(bytes, bt as usize, rank + 1, &mut chunks, bytes.len())?;
    let strides = row_strides(dims.as_slice())?;
    let cs = take_usizes(cdims, rank);
    let cn = prod_checked(cs.as_slice())?;
    proof {
        assert(cs@ =~= cdims@.take(rank as int));
        lemma_strides_len(dims@, 0);
    }
    let ghost cv = chunks_view(chunks@);
    let ghost goal = place_all(bytes@, out@, cv, 0, ids@, es as int, dims@, cs@, strides@, cn as int);
    proof {
        assert(goal == spec_assemble(bytes@, dims@, es as int, bt, cdims@, ids@));
    }
    let mut i: usize = 0;
    while i < chunks.len()
        invariant
            i <= chunks@.len(),
            cv == chunks_view(chunks@),
            1 <= dims@.len() <= 255,
            cs@.len() == dims@.len(),
            strides@.len() == dims@.len(),
            ids@.len() <= 255,
            forall|j: int| 0 <= j < chunks@.len() ==> #[trigger] chunks@[j].offsets@.len() == rank + 1,
            goal == place_all(bytes@, out@, cv, i as int, ids@, es as int, dims@, cs@, strides@, cn as int),
            goal == spec_assemble(bytes@, dims@, es as int, bt, cdims@, ids@),
            rank == dims@.len(),
        decreases chunks@.len() - i,
    {
        proof {
            assert(cv[i as int] == ChunkView { offsets: chunks@[i as int].offsets@, mask: chunks@[i as int].mask as int,
                addr: chunks@[i as int].addr as int, size: chunks@[i as int].size as int });
        }
        place_chunk_exec(bytes, &mut out, &chunks[i], ids, es, dims, &cs, &strides, cn)?;
        i = i + 1;
    }
    Ok(out)
}


// ---------------------------------------------------------------------------
// Datasets and the object walk

/// Datatypes whose elements convert to numbers: IEEE floats of 2, 4 or 8
/// bytes, fixed-point of 1, 2, 4 or 8 bytes.
pub open spec fn supported(t: H5Dtype) -> bool {
    (t.class == 1 && (t.size == 2 || t.size == 4 || t.size == 8))
    || (t.class == 0 && (t.size == 1 || t.size == 2 || t.size == 4 || t.size == 8))
}

/// The first `numel * size` bytes of a dataset's storage. A contiguous
/// dataset never written (address `u64::MAX`) reads as zeros; otherwise the
/// element size must be non-zero, and the datatype supported when there is
/// at least one element.
pub open spec fn spec_dataset_bytes(bytes: Seq<u8>, dims: Seq<usize>, t: H5Dtype, layout: LayoutView, ids: Seq<u16>) -> Option<Seq<u8>> {
    match cprod(dims) {
        None => None,
        Some(numel) => if numel * t.size > usize::MAX {
            None
        } else {
            let expected = numel * t.size;
            let raw: Option<Seq<u8>> = match layout {
                LayoutView::Compact(start, len) => if start + len > bytes.len() { None } else { Some(bytes.subrange(start, start + len)) },
                LayoutView::Contiguous(addr, size) => {
                    let a = addr as usize as int;
                    if a + size > bytes.len() { None } else { Some(bytes.subrange(a, a + size)) }
                },
                LayoutView::Chunked(bt, cd) => if dims.len() == 0 { None } else { spec_assemble(bytes, dims, t.size as int, bt, cd, ids) },
            };
            if layout matches LayoutView::Contiguous(a, _) && a == u64::MAX {
                Some(Seq::new(expected as nat, |i: int| 0u8))
            } else {
                match raw {
                    None => None,
                    Some(r) => if r.len() < expected || t.size == 0 || (expected > 0 && !supported(t)) {
                        None
                    } else {
                        Some(r.take(expected))
                    },
                }
            }
        },
    }
}

fn dataset_bytes(bytes: &[u8], dims: &Vec<usize>, t: H5Dtype, layout: &Layout, ids: &Vec<u16>) -> (r: Result<Vec<u8>, MmnError>)
    requires
        bytes@.len() <= usize::MAX / 16,
        dims@.len() <= 255,
        ids@.len() <= 255,
    ensures
        match spec_dataset_bytes(bytes@, dims@, t, layout_view(*layout), ids@) {
            Some(d) => r matches Ok(v) && v@ == d,
            None => r is Err,
        },
{
    let numel = prod_checked(dims.as_slice())?;
    let expected = match numel.checked_mul(t.size) {
        Some(e) => e,
        None => return Err(MmnError::new("hdf5 dataset size overflows")),
    };
    let raw: Vec<u8> = match layout {
        Layout::Compact { start, len } => {
            if *start > bytes.len() || *len > bytes.len() - *start {
                return Err(truncated());
            }
            crate::bytes::copy_range(bytes, *start, *start + *len)
        },
        Layout::Contiguous { addr, size } => {
            if *addr == u64::MAX {
                let z: Vec<u8> = vec![0u8; expected];
                proof {
                    assert(z@ =~= Seq::new(expected as nat, |i: int| 0u8));
                }
                return Ok(z);
            }
            let a = *addr as usize;
            if a > bytes.len() || *size > bytes.len() - a {
                return Err(truncated());
            }
            crate::bytes::copy_range(bytes, a, a + *size)
        },
        Layout::Chunked { btree_addr, chunk_dims } => {
            if dims.len() == 0 {
                return Err(MmnError::new("hdf5 chunked scalar dataset not supported"));
            }
            assemble_chunked(bytes, dims, t.size, *btree_addr, chunk_dims, ids)?
        },
    };
    if raw.len() < expected {
        return Err(MmnError::new("hdf5 dataset storage shorter than its shape"));
    }
    if t.size == 0 {
        return Err(MmnError::new("hdf5 datatype has size zero"));
    }
    let ok = (t.class == 1 && (t.size == 2 || t.size == 4 || t.size == 8))
        || (t.class == 0 && (t.size == 1 || t.size == 2 || t.size == 4 || t.size == 8));
    if expected > 0 && !ok {
        return Err(MmnError::new("hdf5 datatype not supported (fixed-point and IEEE float only)"));
    }
    let v = crate::bytes::copy_range(raw.as_slice(), 0, expected);
    proof {
        assert(raw@.subrange(0, expected as int) =~= raw@.take(expected as int));
    }
    Ok(v)
}


/// A dataset as read: its path (group names joined by `/`), shape,
/// datatype, and the row-major bytes of its elements.
pub struct H5Dataset {
    pub name: String,
    pub dims: Vec<usize>,
    pub dtype: H5Dtype,
    pub data: Vec<u8>,
}

pub struct DsView {
    pub name: Seq<char>,
    pub dims: Seq<usize>,
    pub dtype: H5Dtype,
    pub data: Seq<u8>,
}

pub open spec fn ds_view(d: Seq<H5Dataset>) -> Seq<DsView> {
    Seq::new(d.len(), |i: int| DsView { name: d[i].name@, dims: d[i].dims@, dtype: d[i].dtype, data: d[i].data@ })
}

pub open spec fn seen_view(s: Seq<usize>) -> Seq<int> {
    Seq::new(s.len(), |i: int| s[i] as int)
}

/// What is left to visit, by the count of objects seen.
pub open spec fn room(bytes: Seq<u8>, seen: Seq<int>) -> int {
    if seen.len() < bytes.len() { bytes.len() - seen.len() } else { 0 }
}

pub open spec fn child_path(path: Seq<char>, name: Seq<char>) -> Seq<char> {
    if path.len() == 0 { name } else { path + seq!['/'] + name }
}

/// The datasets under the object at `addr`, reached by `path`, appended to
/// `out`; an object already seen (a hard-link cycle) adds nothing. A group
/// visits its links in name order; an object with a dataspace, a datatype
/// and a layout is a dataset; anything else adds nothing.
pub open spec fn spec_visit(bytes: Seq<u8>, path: Seq<char>, addr: int, seen: Seq<int>, out: Seq<DsView>) -> Option<(Seq<DsView>, Seq<int>)>
    decreases room(bytes, seen), 0int, 0int,
{
    if seen.contains(addr) {
        Some((out, seen))
    } else if addr < 0 || addr >= bytes.len() || seen.len() >= bytes.len() {
        None
    } else {
        match spec_messages(bytes, addr) {
            None => None,
            Some(msgs) => match spec_obj(bytes, msgs, 0, empty_obj()) {
                None => None,
                Some(ob) => visit_obj(bytes, path, ob, seen.push(addr), out),
            },
        }
    }
}

/// What one object adds, once its header is read: a group's links in name
/// order, or a dataset, or nothing.
pub open spec fn visit_obj(bytes: Seq<u8>, path: Seq<char>, ob: ObjView, seen1: Seq<int>, out: Seq<DsView>) -> Option<(Seq<DsView>, Seq<int>)>
    decreases room(bytes, seen1), 2int, 0int,
{
    match ob.symtab {
        Some((bt, hp)) => match spec_heap(bytes, hp) {
            None => None,
            Some(hd) => match group_node(bytes, hd, bt, bytes.len() as nat, Seq::empty()) {
                None => None,
                Some(links) => visit_children(bytes, path, sort_links(links), 0, seen1, out),
            },
        },
        None => match (ob.dims, ob.dtype, ob.layout) {
            (Some(d), Some(t), Some(l)) => match l {
                None => None,
                Some(lv) => match spec_dataset_bytes(bytes, d, t, lv, ob.filters) {
                    None => None,
                    Some(data) => Some((out.push(DsView { name: path, dims: d, dtype: t, data }), seen1)),
                },
            },
            _ => Some((out, seen1)),
        },
    }
}

/// Links `i..` of a group visited in turn.
pub open spec fn visit_children(bytes: Seq<u8>, path: Seq<char>, links: Seq<(Seq<char>, int)>, i: int, seen: Seq<int>,
    out: Seq<DsView>) -> Option<(Seq<DsView>, Seq<int>)>
    decreases room(bytes, seen), 1int, links.len() - i,
{
    if i < 0 || i >= links.len() {
        Some((out, seen))
    } else {
        match spec_visit(bytes, child_path(path, links[i].0), links[i].1, seen, out) {
            None => None,
            Some((o2, s2)) => visit_children(bytes, path, links, i + 1, if s2.len() >= seen.len() { s2 } else { seen }, o2),
        }
    }
}

fn seen_contains(seen: &Vec<usize>, a: usize) -> (r: bool)
    ensures
        r == seen_view(seen@).contains(a as int),
{
    let mut i: usize = 0;
    while i < seen.len()
        invariant
            i <= seen@.len(),
            forall|j: int| 0 <= j < i ==> seen@[j] != a,
        decreases seen@.len() - i,
    {
        if seen[i] == a {
            proof {
                assert(seen_view(seen@)[i as int] == a as int);
            }
            return true;
        }
        i = i + 1;
    }
    proof {
        if seen_view(seen@).contains(a as int) {
            let j = choose|j: int| 0 <= j < seen_view(seen@).len() && seen_view(seen@)[j] == a as int;
            assert(seen@[j] == a);
        }
    }
    false
}

pub(crate) fn string_of(cs: &Vec<char>) -> (s: String)
    ensures
        s@ == cs@,
{
    let mut s = String::new();
    let mut i: usize = 0;
    while i < cs.len()
        invariant
            i <= cs@.len(),
            s@ == cs@.take(i as int),
        decreases cs@.len() - i,
    {
        crate::text::push_char(&mut s, cs[i]);
        i = i + 1;
        proof {
            assert(s@ =~= cs@.take(i as int));
        }
    }
    proof {
        assert(cs@.take(cs@.len() as int) =~= cs@);
    }
    s
}

fn join_path(path: &Vec<char>, name: &Vec<char>) -> (p: Vec<char>)
    ensures
        p@ == child_path(path@, name@),
{
    if path.len() == 0 {
        return name.clone();
    }
    let mut p = path.clone();
    p.push('/');
    let mut i: usize = 0;
    let ghost base = p@;
    while i < name.len()
        invariant
            i <= name@.len(),
            p@ == base + name@.take(i as int),
        decreases name@.len() - i,
    {
        p.push(name[i]);
        i = i + 1;
        proof {
            assert(p@ =~= base + name@.take(i as int));
        }
    }
    proof {
        assert(name@.take(name@.len() as int) =~= name@);
        assert(base =~= path@ + seq!['/']);
    }
    p
}

fn visit_links(bytes: &[u8], path: &Vec<char>, sorted: &Vec<(Vec<char>, usize)>, out: &mut Vec<H5Dataset>, seen: &mut Vec<usize>) -> (r: Result<(), MmnError>)
    requires
        bytes@.len() <= usize::MAX / 16,
    ensures
        match visit_children(bytes@, path@, links_view(sorted@), 0, seen_view(old(seen)@), ds_view(old(out)@)) {
            Some((o, sn)) => r is Ok && ds_view(final(out)@) == o && seen_view(final(seen)@) == sn,
            None => r is Err,
        },
        final(seen)@.len() >= old(seen)@.len(),
    decreases room(bytes@, seen_view(old(seen)@)), 1int, 0int,
{
    let ghost lv = links_view(sorted@);
    let ghost goal = visit_children(bytes@, path@, lv, 0, seen_view(seen@), ds_view(out@));
    let mut i: usize = 0;
    while i < sorted.len()
        invariant
            bytes@.len() <= usize::MAX / 16,
            i <= sorted@.len(),
            lv == links_view(sorted@),
            seen@.len() >= old(seen)@.len(),
            goal == visit_children(bytes@, path@, lv, i as int, seen_view(seen@), ds_view(out@)),
            goal == visit_children(bytes@, path@, links_view(sorted@), 0, seen_view(old(seen)@), ds_view(old(out)@)),
        decreases sorted@.len() - i,
    {
        let child = join_path(path, &sorted[i].0);
        let ghost sb = seen_view(seen@);
        let ghost ob = ds_view(out@);
        proof {
            assert(lv[i as int] == (sorted@[i as int].0@, sorted@[i as int].1 as int));
            assert(visit_children(bytes@, path@, lv, i as int, sb, ob) == match spec_visit(bytes@, child@, sorted@[i as int].1 as int, sb, ob) {
                None => None,
                Some((o2, s2)) => visit_children(bytes@, path@, lv, i + 1, if s2.len() >= sb.len() { s2 } else { sb }, o2),
            });
        }
        visit_object(bytes, &child, sorted[i].1, out, seen)?;
        proof {
            assert(seen_view(seen@).len() >= sb.len());
        }
        i = i + 1;
    }
    proof {
    }
    Ok(())
}

fn visit_object(bytes: &[u8], path: &Vec<char>, addr: usize, out: &mut Vec<H5Dataset>, seen: &mut Vec<usize>) -> (r: Result<(), MmnError>)
    requires
        bytes@.len() <= usize::MAX / 16,
    ensures
        match spec_visit(bytes@, path@, addr as int, seen_view(old(seen)@), ds_view(old(out)@)) {
            Some((o, sn)) => r is Ok && ds_view(final(out)@) == o && seen_view(final(seen)@) == sn,
            None => r is Err,
        },
        final(seen)@.len() >= old(seen)@.len(),
    decreases room(bytes@, seen_view(old(seen)@)), 0int, 0int,
{
    if seen_contains(seen, addr) {
        return Ok(());
    }
    if addr >= bytes.len() || seen.len() >= bytes.len() {
        return Err(MmnError::new("hdf5 object address outside the file"));
    }
    let ghost s0 = seen_view(seen@);
    seen.push(addr);
    proof {
        assert(seen_view(seen@) =~= s0.push(addr as int));
    }
    let msgs = read_v1_messages(bytes, addr)?;
    let info = object_info(bytes, &msgs)?;
    visit_obj_exec(bytes, path, &info, out, seen)
}

fn visit_obj_exec(bytes: &[u8], path: &Vec<char>, info: &ObjInfo, out: &mut Vec<H5Dataset>, seen: &mut Vec<usize>) -> (r: Result<(), MmnError>)
    requires
        bytes@.len() <= usize::MAX / 16,
        info.dims matches Some(d) ==> d@.len() <= 255,
        info.filters@.len() <= 255,
    ensures
        match visit_obj(bytes@, path@, obj_view(*info), seen_view(old(seen)@), ds_view(old(out)@)) {
            Some((o, sn)) => r is Ok && ds_view(final(out)@) == o && seen_view(final(seen)@) == sn,
            None => r is Err,
        },
        final(seen)@.len() >= old(seen)@.len(),
    decreases room(bytes@, seen_view(old(seen)@)), 2int, 0int,
{
    match info.symtab {
        Some((bt, hp)) => {
            let hd = parse_local_heap(bytes, hp)?;
            let mut links: Vec<(Vec<char>, usize)> = Vec::new();
            proof {
                assert(links_view(links@) =~= Seq::<(Seq<char>, int)>::empty());
            }
            walk_btree(bytes, bt, hd, &mut links, bytes.len())?;
            let sorted = sort_by_name(links);
            visit_links(bytes, path, &sorted, out, seen)
        },
        None => {
            match (&info.dims, &info.dtype, &info.layout) {
                (Some(d), Some(t), Some(l)) => {
                    match l {
                        Err(_) => Err(MmnError::new("hdf5 data layout not readable")),
                        Ok(layout) => {
                            let data = dataset_bytes(bytes, d, *t, layout, &info.filters)?;
                            let ghost o0 = ds_view(out@);
                            out.push(H5Dataset { name: string_of(path), dims: d.clone(), dtype: *t, data });
                            proof {
                                assert(ds_view(out@) =~= o0.push(DsView { name: path@, dims: d@, dtype: *t, data: data@ }));
                            }
                            Ok(())
                        },
                    }
                },
                _ => Ok(()),
            }
        },
    }
}

/// Read every dataset of an HDF5 file (superblock 0 or 1, 8-byte offsets
/// and lengths), walking the groups from the root.
pub open spec fn spec_read_h5(bytes: Seq<u8>) -> Option<Seq<DsView>> {
    if bytes.len() < 9 || bytes.take(8) != crate::hdf5::hdf5_signature() || bytes[8] > 1 {
        None
    } else {
        match (spec_u8_at(bytes, 13), spec_u8_at(bytes, 14)) {
            (Some(so), Some(sl)) => if so != 8 || sl != 8 {
                None
            } else {
                let entry = if bytes[8] == 0 { 56int } else { 60int };
                match spec_addr_at(bytes, entry + 8) {
                    None => None,
                    Some(root) => match spec_visit(bytes, Seq::<char>::empty(), root, Seq::<int>::empty(), Seq::<DsView>::empty()) {
                        None => None,
                        Some((o, _)) => Some(o),
                    },
                }
            },
            _ => None,
        }
    }
}

/// Read every dataset in an HDF5 byte buffer as its path, shape, datatype
/// and element bytes.
pub fn read_h5_arrays_bytes(bytes: &[u8]) -> (r: Result<Vec<H5Dataset>, MmnError>)
    requires
        bytes@.len() <= usize::MAX / 16,
    ensures
        match spec_read_h5(bytes@) {
            Some(ds) => r matches Ok(v) && ds_view(v@) == ds,
            None => r is Err,
        },
{
    if bytes.len() < 9 || !crate::hdf5::is_hdf5_bytes(bytes) {
        return Err(MmnError::new("not an HDF5 file (missing signature)"));
    }
    let version = bytes[8];
    if version > 1 {
        return Err(MmnError::new("hdf5 superblock version not supported (0/1 only)"));
    }
    let so = rd8(bytes, 13, 0)?;
    let sl = rd8(bytes, 14, 0)?;
    if so != 8 || sl != 8 {
        return Err(MmnError::new("hdf5 offset/length sizes not supported (8/8 only)"));
    }
    let entry: usize = if version == 0 { 56 } else { 60 };
    let root = rd_addr(bytes, entry, 8)?;
    let mut out: Vec<H5Dataset> = Vec::new();
    let mut seen: Vec<usize> = Vec::new();
    let path: Vec<char> = Vec::new();
    proof {
        assert(ds_view(out@) =~= Seq::<DsView>::empty());
        assert(seen_view(seen@) =~= Seq::<int>::empty());
    }
    visit_object(bytes, &path, root, &mut out, &mut seen)?;
    Ok(out)
}

} // verus!
