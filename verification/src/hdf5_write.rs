//! Minimal HDF5 writer: superblock v0, symbol-table groups (v1 B-tree, local
//! heap, SNOD leaves), version-1 object headers and contiguous
//! little-endian f32 datasets, the layout that libhdf5 reads natively.

use vstd::prelude::*;
use vstd::utf8::*;
use crate::bytes::{le16_bytes, le32_bytes, le64_bytes, push_le16, push_le32, push_le64, push_all};
use crate::error::MmnError;
use crate::gguf::zeros;
use crate::hdf5_read::{chars_less, less_chars, string_of};
use crate::text::{chars_of, push_char};

verus! {

/// Most children one group may hold: eight SNOD leaves of eight entries
/// under a single-level B-tree node of at most 32 children.
pub const MAX_GROUP_CHILDREN: usize = 256;

// ---------------------------------------------------------------------
// Names and the group tree
// ---------------------------------------------------------------------

/// Splitting a path: the segments finished so far and the one in progress.
pub open spec fn split_state(cs: Seq<char>) -> (Seq<Seq<char>>, Seq<char>)
    decreases cs.len(),
{
    if cs.len() == 0 {
        (seq![], seq![])
    } else {
        let (ps, cur) = split_state(cs.drop_last());
        if cs.last() == '/' {
            (if cur.len() > 0 { ps.push(cur) } else { ps }, seq![])
        } else {
            (ps, cur.push(cs.last()))
        }
    }
}

/// The non-empty `/`-separated segments of a path.
pub open spec fn path_parts(cs: Seq<char>) -> Seq<Seq<char>> {
    let (ps, cur) = split_state(cs);
    if cur.len() > 0 { ps.push(cur) } else { ps }
}

/// A group tree: groups map names to children, datasets name an input.
pub enum H5Tree {
    Group(Seq<(Seq<char>, H5Tree)>),
    Dataset(nat),
}

/// Index of the child named `k`, or -1.
pub open spec fn child_pos(ch: Seq<(Seq<char>, H5Tree)>, k: Seq<char>) -> int
    decreases ch.len(),
{
    if ch.len() == 0 {
        -1
    } else if ch.last().0 == k {
        ch.len() - 1
    } else {
        child_pos(ch.drop_last(), k)
    }
}

/// How many children sort before `k`.
pub open spec fn count_before(ch: Seq<(Seq<char>, H5Tree)>, k: Seq<char>) -> int
    decreases ch.len(),
{
    if ch.len() == 0 {
        0
    } else {
        count_before(ch.drop_last(), k) + if chars_less(ch.last().0, k) { 1int } else { 0int }
    }
}

/// `ch` with child `k` set to `t`: replaced in place when present, else
/// inserted after every child that sorts before it.
pub open spec fn put_child(ch: Seq<(Seq<char>, H5Tree)>, k: Seq<char>, t: H5Tree) -> Seq<(Seq<char>, H5Tree)> {
    let i = child_pos(ch, k);
    if i >= 0 {
        ch.update(i, (k, t))
    } else {
        let j = count_before(ch, k);
        ch.take(j) + seq![(k, t)] + ch.skip(j)
    }
}

/// Placing dataset `index` at the path `parts` below the group `ch`:
/// intermediate segments name groups (created when missing), the last one
/// names the dataset (replacing an earlier dataset of that name). A
/// segment that names a dataset on the way, or a final one that names a
/// group, is refused, and so is an empty path.
pub open spec fn tree_insert(ch: Seq<(Seq<char>, H5Tree)>, parts: Seq<Seq<char>>, index: nat) -> Option<Seq<(Seq<char>, H5Tree)>>
    decreases parts.len(),
{
    if parts.len() == 0 {
        None
    } else {
        let k = parts[0];
        let i = child_pos(ch, k);
        if parts.len() == 1 {
            if i >= 0 && ch[i].1 is Group {
                None
            } else {
                Some(put_child(ch, k, H5Tree::Dataset(index)))
            }
        } else {
            let sub: Option<Seq<(Seq<char>, H5Tree)>> = if i < 0 {
                Some(seq![])
            } else {
                match ch[i].1 {
                    H5Tree::Group(g) => Some(g),
                    H5Tree::Dataset(_) => None,
                }
            };
            match sub {
                None => None,
                Some(g) => match tree_insert(g, parts.drop_first(), index) {
                    None => None,
                    Some(g2) => Some(put_child(ch, k, H5Tree::Group(g2))),
                },
            }
        }
    }
}

proof fn lemma_child_pos(ch: Seq<(Seq<char>, H5Tree)>, k: Seq<char>)
    ensures
        -1 <= child_pos(ch, k) < ch.len(),
        child_pos(ch, k) >= 0 ==> ch[child_pos(ch, k)].0 == k,
    decreases ch.len(),
{
    if ch.len() > 0 {
        lemma_child_pos(ch.drop_last(), k);
    }
}

/// Product of the dims.
pub open spec fn shape_product(shape: Seq<usize>) -> int
    decreases shape.len(),
{
    if shape.len() == 0 { 1 } else { shape_product(shape.drop_last()) * shape.last() }
}

/// The views of named arrays (name, shape, f32 bit patterns).
pub open spec fn arrays_view(a: Seq<(String, Vec<usize>, Vec<u32>)>) -> Seq<(Seq<char>, Seq<usize>, Seq<u32>)> {
    Seq::new(a.len(), |i: int| (a[i].0@, a[i].1@, a[i].2@))
}

/// The tree holding the first `n` arrays, or `None` when one of them has
/// as many values as its shape needs no more, or cannot be placed.
pub open spec fn build_tree(a: Seq<(Seq<char>, Seq<usize>, Seq<u32>)>, n: nat) -> Option<Seq<(Seq<char>, H5Tree)>>
    decreases n,
{
    if n == 0 {
        Some(seq![])
    } else {
        match build_tree(a, (n - 1) as nat) {
            None => None,
            Some(root) => {
                let (name, shape, values) = a[n - 1];
                if shape_product(shape) != values.len() {
                    None
                } else {
                    tree_insert(root, path_parts(name), (n - 1) as nat)
                }
            },
        }
    }
}

/// Every group holds at most [`MAX_GROUP_CHILDREN`] children and every
/// dataset names one of the `n` arrays (always so of a built tree).
pub open spec fn fanout_ok(t: H5Tree, n: nat) -> bool
    decreases t,
{
    match t {
        H5Tree::Dataset(i) => i < n,
        H5Tree::Group(ch) => ch.len() <= MAX_GROUP_CHILDREN && children_fanout_ok(ch, n),
    }
}

/// Every child satisfies [`fanout_ok`].
pub open spec fn children_fanout_ok(ch: Seq<(Seq<char>, H5Tree)>, n: nat) -> bool
    decreases ch,
{
    ch.len() == 0 || (children_fanout_ok(ch.subrange(0, ch.len() - 1), n) && fanout_ok(ch[ch.len() - 1].1, n))
}

proof fn lemma_children_fanout_at(ch: Seq<(Seq<char>, H5Tree)>, n: nat, k: int)
    requires
        children_fanout_ok(ch, n),
        0 <= k < ch.len(),
    ensures
        fanout_ok(ch[k].1, n),
    decreases ch.len(),
{
    if k < ch.len() - 1 {
        let init = ch.subrange(0, ch.len() - 1);
        lemma_children_fanout_at(init, n, k);
        assert(init[k] == ch[k]);
    }
}

// ---------------------------------------------------------------------
// Building the tree
// ---------------------------------------------------------------------

/// A group tree under construction.
enum Node {
    Group(Vec<(String, Node)>),
    Dataset(usize),
}

spec fn node_view(n: Node) -> H5Tree
    decreases n,
{
    match n {
        Node::Dataset(i) => H5Tree::Dataset(i as nat),
        Node::Group(ch) => H5Tree::Group(
            Seq::new(ch@.len(), |i: int| if 0 <= i < ch@.len() {
                (ch@[i].0@, node_view(ch@[i].1))
            } else {
                (Seq::<char>::empty(), H5Tree::Dataset(0))
            }),
        ),
    }
}

spec fn children_view(ch: Seq<(String, Node)>) -> Seq<(Seq<char>, H5Tree)> {
    Seq::new(ch.len(), |i: int| (ch[i].0@, node_view(ch[i].1)))
}

proof fn lemma_group_view(ch: Vec<(String, Node)>)
    ensures
        node_view(Node::Group(ch)) == H5Tree::Group(children_view(ch@)),
{
    assert(node_view(Node::Group(ch))->Group_0 =~= children_view(ch@));
}

/// The non-empty `/`-separated segments of `path`.
fn split_path(path: &str) -> (parts: Vec<Vec<char>>)
    ensures
        parts@.map_values(|p: Vec<char>| p@) == path_parts(path@),
{
    let cs = chars_of(path);
    let mut parts: Vec<Vec<char>> = Vec::new();
    let mut cur: Vec<char> = Vec::new();
    let mut i: usize = 0;
    proof {
        assert(cs@.take(0) =~= Seq::<char>::empty());
    }
    while i < cs.len()
        invariant
            cs@ == path@,
            i <= cs@.len(),
            split_state(cs@.take(i as int)) == (parts@.map_values(|p: Vec<char>| p@), cur@),
        decreases cs@.len() - i,
    {
        proof {
            assert(cs@.take(i + 1).drop_last() =~= cs@.take(i as int));
        }
        let c = cs[i];
        if c == '/' {
            if cur.len() > 0 {
                let ghost before = parts@;
                parts.push(cur);
                proof {
                    assert(parts@.map_values(|p: Vec<char>| p@) =~= before.map_values(|p: Vec<char>| p@).push(
                        parts@.last()@));
                }
            }
            cur = Vec::new();
        } else {
            cur.push(c);
        }
        i = i + 1;
    }
    proof {
        assert(cs@.take(i as int) =~= cs@);
    }
    if cur.len() > 0 {
        let ghost before = parts@;
        parts.push(cur);
        proof {
            assert(parts@.map_values(|p: Vec<char>| p@) =~= before.map_values(|p: Vec<char>| p@).push(
                parts@.last()@));
        }
    }
    parts
}

/// The two character runs are equal.
fn chars_eq(a: &Vec<char>, b: &Vec<char>) -> (r: bool)
    ensures
        r == (a@ == b@),
{
    if a.len() != b.len() {
        return false;
    }
    let mut i: usize = 0;
    while i < a.len()
        invariant
            a@.len() == b@.len(),
            i <= a@.len(),
            forall|k: int| 0 <= k < i ==> a@[k] == b@[k],
        decreases a@.len() - i,
    {
        if a[i] != b[i] {
            return false;
        }
        i = i + 1;
    }
    assert(a@ =~= b@);
    true
}

/// Index of the last child named `k`.
fn find_child(ch: &Vec<(String, Node)>, k: &Vec<char>) -> (r: Option<usize>)
    ensures
        match r {
            Some(i) => i as int == child_pos(children_view(ch@), k@) && i < ch@.len(),
            None => child_pos(children_view(ch@), k@) < 0,
        },
{
    let ghost cv = children_view(ch@);
    let mut found: Option<usize> = None;
    let mut j: usize = 0;
    proof {
        assert(cv.take(0) =~= Seq::<(Seq<char>, H5Tree)>::empty());
    }
    while j < ch.len()
        invariant
            cv == children_view(ch@),
            j <= ch@.len(),
            match found {
                Some(i) => i as int == child_pos(cv.take(j as int), k@) && i < j,
                None => child_pos(cv.take(j as int), k@) < 0,
            },
        decreases ch@.len() - j,
    {
        proof {
            assert(cv.take(j + 1).drop_last() =~= cv.take(j as int));
        }
        let name = chars_of(ch[j].0.as_str());
        if chars_eq(&name, k) {
            found = Some(j);
        }
        j = j + 1;
    }
    proof {
        assert(cv.take(j as int) =~= cv);
    }
    found
}

/// How many children sort before `k`.
fn count_less(ch: &Vec<(String, Node)>, k: &Vec<char>) -> (r: usize)
    ensures
        r as int == count_before(children_view(ch@), k@),
        r <= ch@.len(),
{
    let ghost cv = children_view(ch@);
    let mut n: usize = 0;
    let mut j: usize = 0;
    proof {
        assert(cv.take(0) =~= Seq::<(Seq<char>, H5Tree)>::empty());
    }
    while j < ch.len()
        invariant
            cv == children_view(ch@),
            j <= ch@.len(),
            n <= j,
            n as int == count_before(cv.take(j as int), k@),
        decreases ch@.len() - j,
    {
        proof {
            assert(cv.take(j + 1).drop_last() =~= cv.take(j as int));
        }
        let name = chars_of(ch[j].0.as_str());
        if less_chars(&name, k) {
            n = n + 1;
        }
        j = j + 1;
    }
    proof {
        assert(cv.take(j as int) =~= cv);
    }
    n
}

/// Set child `k` to `t`.
fn put(ch: &mut Vec<(String, Node)>, k: &Vec<char>, t: Node)
    ensures
        children_view(final(ch)@) == put_child(children_view(old(ch)@), k@, node_view(t)),
{
    let ghost cv = children_view(ch@);
    let ghost tv = node_view(t);
    let name = string_of(k);
    match find_child(ch, k) {
        Some(i) => {
            ch.set(i, (name, t));
            proof {
                assert(children_view(ch@) =~= cv.update(i as int, (k@, tv)));
            }
        },
        None => {
            let j = count_less(ch, k);
            ch.insert(j, (name, t));
            proof {
                assert(children_view(ch@) =~= cv.take(j as int) + seq![(k@, tv)] + cv.skip(j as int));
            }
        },
    }
}

/// Place dataset `index` at `parts[from..]` below the group `ch`.
fn insert_path(ch: Vec<(String, Node)>, parts: &Vec<Vec<char>>, from: usize, index: usize)
    -> (r: Result<Vec<(String, Node)>, MmnError>)
    requires
        from <= parts@.len(),
    ensures
        match tree_insert(children_view(ch@), parts@.map_values(|p: Vec<char>| p@).skip(from as int), index as nat) {
            Some(g) => r matches Ok(v) && children_view(v@) == g,
            None => r is Err,
        },
    decreases parts@.len() - from,
{
    let ghost pv = parts@.map_values(|p: Vec<char>| p@).skip(from as int);
    let ghost cv = children_view(ch@);
    if from == parts.len() {
        return Err(MmnError::new("h5 dataset name must be non-empty"));
    }
    let k = &parts[from];
    assert(pv[0] == k@);
    let mut ch = ch;
    let found = find_child(&ch, k);
    if from + 1 == parts.len() {
        match found {
            Some(i) => {
                if let Node::Group(_) = &ch[i].1 {
                    return Err(MmnError::new("h5 name collides with a group"));
                }
            },
            None => {},
        }
        put(&mut ch, k, Node::Dataset(index));
        return Ok(ch);
    }
    proof {
        assert(pv.drop_first() =~= parts@.map_values(|p: Vec<char>| p@).skip(from + 1));
    }
    match found {
        None => {
            let empty: Vec<(String, Node)> = Vec::new();
            assert(children_view(empty@) =~= Seq::<(Seq<char>, H5Tree)>::empty());
            let g2 = insert_path(empty, parts, from + 1, index)?;
            proof {
                lemma_group_view(g2);
            }
            put(&mut ch, k, Node::Group(g2));
            Ok(ch)
        },
        Some(i) => {
            let ghost before = ch@;
            let (nm, node) = ch.remove(i);
            proof {
                assert(cv[i as int] == (nm@, node_view(node)));
                lemma_child_pos(cv, k@);
            }
            match node {
                Node::Dataset(d) => {
                    return Err(MmnError::new("h5 name nests under a dataset"));
                },
                Node::Group(g) => {
                    proof {
                        lemma_group_view(g);
                    }
                    let g2 = insert_path(g, parts, from + 1, index)?;
                    proof {
                        lemma_group_view(g2);
                    }
                    let ghost removed = ch@;
                    ch.insert(i, (nm, Node::Group(g2)));
                    proof {
                        assert(ch@ =~= before.update(i as int, ch@[i as int]));
                        assert(ch@[i as int].0@ == k@);
                        assert(node_view(ch@[i as int].1) == H5Tree::Group(children_view(g2@)));
                        assert(children_view(ch@) =~= cv.update(i as int, (k@, H5Tree::Group(children_view(g2@)))));
                    }
                    Ok(ch)
                },
            }
        },
    }
}


// ---------------------------------------------------------------------
// Layout
// ---------------------------------------------------------------------

/// Address of an unused slot.
pub const UNDEF: u64 = 0xffff_ffff_ffff_ffff;
/// Fixed allocation of a SNOD leaf of eight entries.
pub const SNOD_ALLOC: usize = 328;
/// Fixed allocation of a group B-tree node of 32 children.
pub const BTREE_ALLOC: usize = 544;

/// Zeros needed to reach a multiple of 8.
pub open spec fn pad8(n: int) -> int {
    if n % 8 == 0 { 0 } else { 8 - n % 8 }
}

/// `b` padded with zeros to a multiple of 8 bytes.
pub open spec fn align8(b: Seq<u8>) -> Seq<u8> {
    b + zeros(pad8(b.len() as int))
}

/// A header message: type, body size rounded up to 8, flags, the body and
/// its padding.
pub open spec fn message_bytes(t: u16, body: Seq<u8>) -> Seq<u8> {
    le16_bytes(t as int) + le16_bytes(((body.len() + pad8(body.len() as int)) as u16) as int) + zeros(4) + body
        + zeros(pad8(body.len() as int))
}

/// Header messages back to back.
pub open spec fn messages_bytes(ms: Seq<(u16, Seq<u8>)>) -> Seq<u8>
    decreases ms.len(),
{
    if ms.len() == 0 { seq![] } else { messages_bytes(ms.drop_last()) + message_bytes(ms.last().0, ms.last().1) }
}

/// A version-1 object header appended at the next multiple of 8, and its
/// address.
pub open spec fn emit_header(b: Seq<u8>, ms: Seq<(u16, Seq<u8>)>) -> (Seq<u8>, int) {
    let body = messages_bytes(ms);
    let b1 = align8(b);
    (b1 + seq![1u8, 0u8] + le16_bytes((ms.len() as u16) as int) + le32_bytes(1) + le32_bytes((body.len() as u32) as int)
        + zeros(4) + body, b1.len() as int)
}

/// The IEEE little-endian f32 datatype message body.
pub open spec fn f32_dtype() -> Seq<u8> {
    seq![0x11u8, 0x20u8, 0x1fu8, 0x00u8] + le32_bytes(4) + le16_bytes(0) + le16_bytes(32)
        + seq![23u8, 8u8, 0u8, 23u8] + le32_bytes(127)
}

/// f32 bit patterns as little-endian bytes.
pub open spec fn values_bytes(v: Seq<u32>) -> Seq<u8>
    decreases v.len(),
{
    if v.len() == 0 { seq![] } else { values_bytes(v.drop_last()) + le32_bytes(v.last() as int) }
}

/// Dims as little-endian `u64`s.
pub open spec fn dims_bytes(shape: Seq<usize>) -> Seq<u8>
    decreases shape.len(),
{
    if shape.len() == 0 { seq![] } else { dims_bytes(shape.drop_last()) + le64_bytes(shape.last() as int) }
}

/// A contiguous f32 dataset: its data at the next multiple of 8, then its
/// object header (dataspace, datatype, fill value, layout); and the
/// header's address.
pub open spec fn emit_dataset(b: Seq<u8>, shape: Seq<usize>, vals: Seq<u32>) -> (Seq<u8>, int) {
    let b1 = align8(b);
    let b2 = b1 + values_bytes(vals);
    let dataspace = seq![1u8, shape.len() as u8, 0u8, 0u8, 0u8, 0u8, 0u8, 0u8] + dims_bytes(shape);
    let fill = seq![2u8, 2u8, 2u8, 1u8, 0u8, 0u8, 0u8, 0u8];
    let layout = seq![3u8, 1u8] + le64_bytes(b1.len() as int) + le64_bytes(vals.len() * 4int);
    emit_header(b2, seq![(1u16, dataspace), (3u16, f32_dtype()), (5u16, fill), (8u16, layout)])
}

/// Local-heap data for `names`: eight reserved zero bytes, then each
/// name's UTF-8 bytes and a NUL, padded with zeros to a multiple of 8.
pub open spec fn heap_names(names: Seq<Seq<char>>) -> Seq<u8>
    decreases names.len(),
{
    if names.len() == 0 {
        zeros(8)
    } else {
        let h = heap_names(names.drop_last()) + encode_utf8(names.last()) + seq![0u8];
        h + zeros(pad8(h.len() as int))
    }
}

/// Heap offset of name `i`.
#[verifier::opaque]
pub open spec fn name_offset(names: Seq<Seq<char>>, i: int) -> int {
    heap_names(names.take(i)).len() as int
}

/// SNOD entries `lo..hi`: name offset, header address, 24 zero bytes.
pub open spec fn snod_entries(names: Seq<Seq<char>>, addrs: Seq<int>, lo: int, hi: int) -> Seq<u8>
    decreases hi - lo,
{
    if hi <= lo {
        seq![]
    } else {
        snod_entries(names, addrs, lo, hi - 1) + le64_bytes(name_offset(names, hi - 1)) + le64_bytes(addrs[hi - 1])
            + zeros(24)
    }
}

/// End of chunk `j` of eight children.
pub open spec fn chunk_end(n: int, j: int) -> int {
    if 8 * j + 8 < n { 8 * j + 8 } else { n }
}

/// Number of SNOD leaves for `n` children.
pub open spec fn chunk_count(n: int) -> int {
    if n % 8 == 0 { n / 8 } else { n / 8 + 1 }
}

/// The SNOD leaf for children `lo..hi`, padded to its fixed allocation,
/// at the next multiple of 8; and its address.
pub open spec fn emit_snod(b: Seq<u8>, names: Seq<Seq<char>>, addrs: Seq<int>, lo: int, hi: int) -> (Seq<u8>, int) {
    let b1 = align8(b);
    let body = seq![0x53u8, 0x4eu8, 0x4fu8, 0x44u8, 1u8, 0u8] + le16_bytes(((hi - lo) as u16) as int)
        + snod_entries(names, addrs, lo, hi);
    (b1 + body + zeros(SNOD_ALLOC - body.len()), b1.len() as int)
}

/// The first `k` SNOD leaves and their addresses.
pub open spec fn emit_snods(b: Seq<u8>, names: Seq<Seq<char>>, addrs: Seq<int>, k: nat) -> (Seq<u8>, Seq<int>)
    decreases k,
{
    if k == 0 {
        (b, seq![])
    } else {
        let (b1, s) = emit_snods(b, names, addrs, (k - 1) as nat);
        let (b2, a) = emit_snod(b1, names, addrs, 8 * (k - 1), chunk_end(names.len() as int, k - 1));
        (b2, s.push(a))
    }
}

/// B-tree child entries: SNOD address and the heap offset of its last name.
pub open spec fn btree_entries(names: Seq<Seq<char>>, snods: Seq<int>) -> Seq<u8>
    decreases snods.len(),
{
    if snods.len() == 0 {
        seq![]
    } else {
        let j = snods.len() - 1;
        btree_entries(names, snods.drop_last()) + le64_bytes(snods[j])
            + le64_bytes(name_offset(names, chunk_end(names.len() as int, j) - 1))
    }
}

/// The single-level group B-tree over the SNOD leaves, padded to its fixed
/// allocation, at the next multiple of 8; and its address.
pub open spec fn emit_btree(b: Seq<u8>, names: Seq<Seq<char>>, snods: Seq<int>) -> (Seq<u8>, int) {
    let b1 = align8(b);
    let body = seq![0x54u8, 0x52u8, 0x45u8, 0x45u8, 0u8, 0u8] + le16_bytes((snods.len() as u16) as int)
        + le64_bytes(UNDEF as int) + le64_bytes(UNDEF as int) + le64_bytes(0) + btree_entries(names, snods);
    (b1 + body + zeros(BTREE_ALLOC - body.len()), b1.len() as int)
}

/// A group whose children (in order) are named `names` and have headers at
/// `addrs`: heap data, local heap, SNOD leaves, B-tree, and the group's
/// object header with its symbol-table message; and that header's address.
pub open spec fn emit_group(b: Seq<u8>, names: Seq<Seq<char>>, addrs: Seq<int>) -> (Seq<u8>, int) {
    let (b4, ha) = emit_heap(b, heap_names(names));
    let (b5, snods) = emit_snods(b4, names, addrs, chunk_count(names.len() as int) as nat);
    let (b6, ta) = emit_btree(b5, names, snods);
    emit_header(b6, seq![(0x11u16, le64_bytes(ta) + le64_bytes(ha))])
}

/// The names of children.
pub open spec fn child_names(ch: Seq<(Seq<char>, H5Tree)>) -> Seq<Seq<char>> {
    Seq::new(ch.len(), |i: int| ch[i].0)
}

/// A node written after `b` (a group after its children, in order); and
/// the address of its object header.
pub open spec fn emit_node(b: Seq<u8>, t: H5Tree, a: Seq<(Seq<char>, Seq<usize>, Seq<u32>)>) -> (Seq<u8>, int)
    decreases t, 0nat,
{
    match t {
        H5Tree::Dataset(i) => emit_dataset(b, a[i as int].1, a[i as int].2),
        H5Tree::Group(ch) => {
            let (b1, addrs) = emit_children(b, ch, a);
            emit_group(b1, child_names(ch), addrs)
        },
    }
}

/// Children written one after another, with their header addresses.
pub open spec fn emit_children(b: Seq<u8>, ch: Seq<(Seq<char>, H5Tree)>, a: Seq<(Seq<char>, Seq<usize>, Seq<u32>)>) -> (Seq<u8>, Seq<int>)
    decreases ch, 1nat,
{
    if ch.len() == 0 {
        (b, seq![])
    } else {
        let (b1, addrs) = emit_children(b, ch.subrange(0, ch.len() - 1), a);
        let (b2, x) = emit_node(b1, ch[ch.len() - 1].1, a);
        (b2, addrs.push(x))
    }
}

/// The version-0 superblock: signature, versions and sizes, group K
/// values, base address, end of file, and the root symbol-table entry.
pub open spec fn superblock(eof: int, root: int) -> Seq<u8> {
    seq![0x89u8, 0x48u8, 0x44u8, 0x46u8, 0x0du8, 0x0au8, 0x1au8, 0x0au8]
        + seq![0u8, 0u8, 0u8, 0u8, 0u8, 8u8, 8u8, 0u8] + le16_bytes(4) + le16_bytes(16) + le32_bytes(0)
        + le64_bytes(0) + le64_bytes(UNDEF as int) + le64_bytes(eof) + le64_bytes(UNDEF as int) + le64_bytes(0)
        + le64_bytes(root)
}

/// The whole file for named f32 arrays, or `None` when there are none, an
/// array's value count differs from its shape's, names collide, or a group
/// would hold more than [`MAX_GROUP_CHILDREN`] children.
pub open spec fn spec_write_h5(a: Seq<(Seq<char>, Seq<usize>, Seq<u32>)>) -> Option<Seq<u8>> {
    if a.len() == 0 {
        None
    } else {
        match build_tree(a, a.len()) {
            None => None,
            Some(root) => if !fanout_ok(H5Tree::Group(root), a.len()) {
                None
            } else {
                let (b, ra) = emit_node(zeros(96), H5Tree::Group(root), a);
                Some(superblock(b.len() as int, ra) + b.subrange(72, b.len() as int))
            },
        }
    }
}


// ---------------------------------------------------------------------
// Writing
// ---------------------------------------------------------------------

/// Append zeros up to a multiple of 8.
fn align8_exec(buf: &mut Vec<u8>)
    ensures
        final(buf)@ == align8(old(buf)@),
{
    let rem = buf.len() % 8;
    if rem != 0 {
        let mut k: usize = 0;
        while k < 8 - rem
            invariant
                rem == old(buf)@.len() % 8,
                0 < rem < 8,
                k <= 8 - rem,
                buf@ == old(buf)@ + zeros(k as int),
            decreases 8 - rem - k,
        {
            buf.push(0u8);
            k = k + 1;
            assert(buf@ =~= old(buf)@ + zeros(k as int));
        }
    } else {
        assert(buf@ =~= old(buf)@ + zeros(0));
    }
}

/// Append `n` zero bytes.
fn push_zeros(buf: &mut Vec<u8>, n: usize)
    ensures
        final(buf)@ == old(buf)@ + zeros(n as int),
{
    let mut k: usize = 0;
    while k < n
        invariant
            k <= n,
            buf@ == old(buf)@ + zeros(k as int),
        decreases n - k,
    {
        buf.push(0u8);
        k = k + 1;
        assert(buf@ =~= old(buf)@ + zeros(k as int));
    }
}

/// Append one header message.
fn push_message(out: &mut Vec<u8>, t: u16, body: &Vec<u8>)
    requires
        body@.len() + 8 <= usize::MAX,
    ensures
        final(out)@ == old(out)@ + message_bytes(t, body@),
{
    let n = body.len();
    let pad: usize = if n % 8 == 0 { 0 } else { 8 - n % 8 };
    push_le16(out, t);
    push_le16(out, (n + pad) as u16);
    push_zeros(out, 4);
    push_all(out, body.as_slice());
    push_zeros(out, pad);
    assert(final(out)@ =~= old(out)@ + message_bytes(t, body@));
}

/// The views of header messages.
pub open spec fn msgs_view(ms: Seq<(u16, Vec<u8>)>) -> Seq<(u16, Seq<u8>)> {
    Seq::new(ms.len(), |i: int| (ms[i].0, ms[i].1@))
}

/// Append an object header holding `msgs`; its address.
fn write_object_header(buf: &mut Vec<u8>, msgs: &Vec<(u16, Vec<u8>)>) -> (addr: u64)
    requires
        forall|i: int| 0 <= i < msgs@.len() ==> (#[trigger] msgs@[i]).1@.len() + 8 <= usize::MAX,
    ensures
        final(buf)@ == emit_header(old(buf)@, msgs_view(msgs@)).0,
        addr as int == emit_header(old(buf)@, msgs_view(msgs@)).1,
{
    let ghost mv = msgs_view(msgs@);
    let mut body: Vec<u8> = Vec::new();
    let mut i: usize = 0;
    proof {
        assert(mv.take(0) =~= Seq::<(u16, Seq<u8>)>::empty());
    }
    while i < msgs.len()
        invariant
            mv == msgs_view(msgs@),
            i <= msgs@.len(),
            forall|j: int| 0 <= j < msgs@.len() ==> (#[trigger] msgs@[j]).1@.len() + 8 <= usize::MAX,
            body@ == messages_bytes(mv.take(i as int)),
        decreases msgs@.len() - i,
    {
        proof {
            assert(mv.take(i + 1).drop_last() =~= mv.take(i as int));
        }
        push_message(&mut body, msgs[i].0, &msgs[i].1);
        i = i + 1;
    }
    proof {
        assert(mv.take(i as int) =~= mv);
    }
    align8_exec(buf);
    let addr = buf.len() as u64;
    buf.push(1u8);
    buf.push(0u8);
    push_le16(buf, msgs.len() as u16);
    push_le32(buf, 1u32);
    push_le32(buf, body.len() as u32);
    push_zeros(buf, 4);
    push_all(buf, body.as_slice());
    proof {
        let b1 = align8(old(buf)@);
        assert(final(buf)@ =~= b1 + seq![1u8, 0u8] + le16_bytes((mv.len() as u16) as int) + le32_bytes(1)
            + le32_bytes((body@.len() as u32) as int) + zeros(4) + body@);
    }
    addr
}

/// Append a little-endian f32 dataset and its object header; the header's
/// address.
fn write_dataset(buf: &mut Vec<u8>, shape: &Vec<usize>, values: &Vec<u32>) -> (addr: u64)
    requires
        values@.len() * 4 <= usize::MAX,
        shape@.len() * 8 + 16 <= usize::MAX,
    ensures
        final(buf)@ == emit_dataset(old(buf)@, shape@, values@).0,
        addr as int == emit_dataset(old(buf)@, shape@, values@).1,
{
    align8_exec(buf);
    let data_addr = buf.len() as u64;
    let ghost b1 = buf@;
    let mut i: usize = 0;
    proof {
        assert(values@.take(0) =~= Seq::<u32>::empty());
        assert(buf@ =~= b1 + values_bytes(values@.take(0)));
    }
    while i < values.len()
        invariant
            i <= values@.len(),
            buf@ == b1 + values_bytes(values@.take(i as int)),
        decreases values@.len() - i,
    {
        proof {
            assert(values@.take(i + 1).drop_last() =~= values@.take(i as int));
        }
        push_le32(buf, values[i]);
        i = i + 1;
        assert(buf@ =~= b1 + values_bytes(values@.take(i as int)));
    }
    proof {
        assert(values@.take(i as int) =~= values@);
    }
    let mut dataspace: Vec<u8> = vec![1u8, shape.len() as u8, 0u8, 0u8, 0u8, 0u8, 0u8, 0u8];
    let ghost ds0 = dataspace@;
    let mut j: usize = 0;
    proof {
        assert(shape@.take(0) =~= Seq::<usize>::empty());
        assert(dataspace@ =~= ds0 + dims_bytes(shape@.take(0)));
    }
    while j < shape.len()
        invariant
            j <= shape@.len(),
            dataspace@ == ds0 + dims_bytes(shape@.take(j as int)),
        decreases shape@.len() - j,
    {
        proof {
            assert(shape@.take(j + 1).drop_last() =~= shape@.take(j as int));
        }
        push_le64(&mut dataspace, shape[j] as u64);
        j = j + 1;
        assert(dataspace@ =~= ds0 + dims_bytes(shape@.take(j as int)));
    }
    proof {
        assert(shape@.take(j as int) =~= shape@);
    }
    let fill: Vec<u8> = vec![2u8, 2u8, 2u8, 1u8, 0u8, 0u8, 0u8, 0u8];
    let mut layout: Vec<u8> = vec![3u8, 1u8];
    push_le64(&mut layout, data_addr);
    push_le64(&mut layout, (values.len() * 4) as u64);
    let dtype = f32_datatype_body();
    let msgs: Vec<(u16, Vec<u8>)> = vec![(1u16, dataspace), (3u16, dtype), (5u16, fill), (8u16, layout)];
    proof {
        let dsv = seq![1u8, shape@.len() as u8, 0u8, 0u8, 0u8, 0u8, 0u8, 0u8] + dims_bytes(shape@);
        let lv = seq![3u8, 1u8] + le64_bytes(b1.len() as int) + le64_bytes(values@.len() * 4int);
        assert(msgs_view(msgs@) =~= seq![(1u16, dsv), (3u16, f32_dtype()),
            (5u16, seq![2u8, 2u8, 2u8, 1u8, 0u8, 0u8, 0u8, 0u8]), (8u16, lv)]);
        lemma_dims_bytes_len(shape@);
        assert(msgs@[0].1@.len() + 8 <= usize::MAX);
        assert(msgs@[1].1@.len() + 8 <= usize::MAX);
        assert(msgs@[2].1@.len() + 8 <= usize::MAX);
        assert(msgs@[3].1@.len() + 8 <= usize::MAX);
    }
    write_object_header(buf, &msgs)
}

proof fn lemma_dims_bytes_len(shape: Seq<usize>)
    ensures
        dims_bytes(shape).len() == 8 * shape.len(),
    decreases shape.len(),
{
    if shape.len() > 0 {
        lemma_dims_bytes_len(shape.drop_last());
    }
}

/// The IEEE little-endian f32 datatype message body.
fn f32_datatype_body() -> (body: Vec<u8>)
    ensures
        body@ == f32_dtype(),
{
    let mut body: Vec<u8> = vec![0x11u8, 0x20u8, 0x1fu8, 0x00u8];
    push_le32(&mut body, 4u32);
    push_le16(&mut body, 0u16);
    push_le16(&mut body, 32u16);
    body.push(23u8);
    body.push(8u8);
    body.push(0u8);
    body.push(23u8);
    push_le32(&mut body, 127u32);
    assert(body@ =~= f32_dtype());
    body
}


proof fn lemma_assoc(a: Seq<u8>, b: Seq<u8>, c: Seq<u8>)
    ensures
        a + b + c == a + (b + c),
{
    assert(a + b + c =~= a + (b + c));
}

/// Addresses as integers.
pub open spec fn as_ints(s: Seq<u64>) -> Seq<int> {
    Seq::new(s.len(), |i: int| s[i] as int)
}

/// The names of resolved children.
pub open spec fn group_names(c: Seq<(String, u64)>) -> Seq<Seq<char>> {
    Seq::new(c.len(), |i: int| c[i].0@)
}

/// The header addresses of resolved children.
pub open spec fn group_addrs(c: Seq<(String, u64)>) -> Seq<int> {
    Seq::new(c.len(), |i: int| c[i].1 as int)
}

/// Local-heap data for the children's names, and each name's offset.
fn build_heap_names(children: &Vec<(String, u64)>) -> (r: (Vec<u8>, Vec<u64>))
    ensures
        r.0@ == heap_names(group_names(children@)),
        r.1@.len() == children@.len(),
        forall|k: int| 0 <= k < children@.len() ==> r.1@[k] as int == name_offset(group_names(children@), k),
{
    let ghost names = group_names(children@);
    let mut heap: Vec<u8> = Vec::new();
    push_zeros(&mut heap, 8);
    let mut offsets: Vec<u64> = Vec::new();
    let mut i: usize = 0;
    proof {
        assert(names.take(0) =~= Seq::<Seq<char>>::empty());
    }
    while i < children.len()
        invariant
            names == group_names(children@),
            i <= children@.len(),
            heap@ == heap_names(names.take(i as int)),
            offsets@.len() == i,
            forall|k: int| 0 <= k < i ==> offsets@[k] as int == name_offset(names, k),
        decreases children@.len() - i,
    {
        proof {
            assert(names.take(i + 1).drop_last() =~= names.take(i as int));
            assert(names.take(i + 1).last() == children@[i as int].0@);
            reveal(name_offset);
        }
        offsets.push(heap.len() as u64);
        push_all(&mut heap, children[i].0.as_str().as_bytes());
        heap.push(0u8);
        align8_exec(&mut heap);
        i = i + 1;
        proof {
            assert(heap@ =~= heap_names(names.take(i as int)));
        }
    }
    proof {
        assert(names.take(i as int) =~= names);
    }
    (heap, offsets)
}


/// Append the SNOD leaf for children `lo..hi`; its address.
fn write_snod(buf: &mut Vec<u8>, children: &Vec<(String, u64)>, offsets: &Vec<u64>, lo: usize, hi: usize) -> (addr: u64)
    requires
        lo <= hi <= children@.len(),
        hi - lo <= 8,
        offsets@.len() == children@.len(),
        forall|k: int| 0 <= k < children@.len() ==> offsets@[k] as int == name_offset(group_names(children@), k),
    ensures
        final(buf)@ == emit_snod(old(buf)@, group_names(children@), group_addrs(children@), lo as int, hi as int).0,
        addr as int == emit_snod(old(buf)@, group_names(children@), group_addrs(children@), lo as int, hi as int).1,
{
    let ghost names = group_names(children@);
    let ghost addrs = group_addrs(children@);
    align8_exec(buf);
    let ghost b1 = buf@;
    let addr = buf.len() as u64;
    let mut body: Vec<u8> = vec![0x53u8, 0x4eu8, 0x4fu8, 0x44u8, 1u8, 0u8];
    push_le16(&mut body, (hi - lo) as u16);
    let ghost head = body@;
    let mut k: usize = lo;
    proof {
        assert(body@ =~= head + snod_entries(names, addrs, lo as int, lo as int));
    }
    while k < hi
        invariant
            names == group_names(children@),
            addrs == group_addrs(children@),
            lo <= k <= hi <= children@.len(),
            offsets@.len() == children@.len(),
            forall|j: int| 0 <= j < children@.len() ==> offsets@[j] as int == name_offset(names, j),
            body@ == head + snod_entries(names, addrs, lo as int, k as int),
            body@.len() == 8 + 40 * (k - lo),
        decreases hi - k,
    {
        let ghost e0 = snod_entries(names, addrs, lo as int, k as int);
        let ghost x = le64_bytes(offsets@[k as int] as int);
        let ghost y = le64_bytes(children@[k as int].1 as int);
        push_le64(&mut body, offsets[k]);
        push_le64(&mut body, children[k].1);
        push_zeros(&mut body, 24);
        proof {
            assert(addrs[k as int] == children@[k as int].1 as int);
            assert(snod_entries(names, addrs, lo as int, k + 1) == e0 + x + y + zeros(24));
            lemma_assoc(head, e0, x);
            lemma_assoc(head, e0 + x, y);
            lemma_assoc(head, e0 + x + y, zeros(24));
        }
        k = k + 1;
    }
    let fill = SNOD_ALLOC - body.len();
    push_all(buf, body.as_slice());
    push_zeros(buf, fill);
    addr
}

/// Append one SNOD leaf per chunk of eight children; their addresses.
fn write_snods(buf: &mut Vec<u8>, children: &Vec<(String, u64)>, offsets: &Vec<u64>) -> (snods: Vec<u64>)
    requires
        children@.len() <= MAX_GROUP_CHILDREN,
        offsets@.len() == children@.len(),
        forall|k: int| 0 <= k < children@.len() ==> offsets@[k] as int == name_offset(group_names(children@), k),
    ensures
        final(buf)@ == emit_snods(old(buf)@, group_names(children@), group_addrs(children@),
            chunk_count(children@.len() as int) as nat).0,
        as_ints(snods@) == emit_snods(old(buf)@, group_names(children@), group_addrs(children@),
            chunk_count(children@.len() as int) as nat).1,
{
    let ghost names = group_names(children@);
    let ghost addrs = group_addrs(children@);
    let n = children.len();
    let nch = if n % 8 == 0 { n / 8 } else { n / 8 + 1 };
    let mut snods: Vec<u64> = Vec::new();
    let mut j: usize = 0;
    proof {
        assert(as_ints(snods@) =~= Seq::<int>::empty());
    }
    while j < nch
        invariant
            names == group_names(children@),
            addrs == group_addrs(children@),
            n == children@.len(),
            n <= MAX_GROUP_CHILDREN,
            nch == chunk_count(n as int),
            j <= nch,
            offsets@.len() == children@.len(),
            forall|k: int| 0 <= k < children@.len() ==> offsets@[k] as int == name_offset(names, k),
            (buf@, as_ints(snods@)) == emit_snods(old(buf)@, names, addrs, j as nat),
        decreases nch - j,
    {
        let lo = 8 * j;
        let hi = if lo + 8 < n { lo + 8 } else { n };
        let a = write_snod(buf, children, offsets, lo, hi);
        let ghost before = snods@;
        snods.push(a);
        proof {
            assert(as_ints(snods@) =~= as_ints(before).push(a as int));
        }
        j = j + 1;
    }
    snods
}

proof fn lemma_emit_snods_len(b: Seq<u8>, names: Seq<Seq<char>>, addrs: Seq<int>, k: nat)
    ensures
        emit_snods(b, names, addrs, k).1.len() == k,
    decreases k,
{
    if k > 0 {
        lemma_emit_snods_len(b, names, addrs, (k - 1) as nat);
    }
}

proof fn lemma_chunks(n: int, j: int)
    requires
        0 <= n,
    ensures
        n <= 256 ==> chunk_count(n) <= 32,
        0 <= j < chunk_count(n) ==> 8 * j < n,
        chunk_count(n) >= 0,
{
    assert(n <= 256 ==> chunk_count(n) <= 32) by (nonlinear_arith)
        requires
            n >= 0,
            chunk_count(n) == (if n % 8 == 0 { n / 8 } else { n / 8 + 1 }),
    ;
    assert(0 <= j < chunk_count(n) ==> 8 * j < n) by (nonlinear_arith)
        requires
            n >= 0,
            chunk_count(n) == (if n % 8 == 0 { n / 8 } else { n / 8 + 1 }),
    ;
    assert(chunk_count(n) >= 0) by (nonlinear_arith)
        requires
            n >= 0,
            chunk_count(n) == (if n % 8 == 0 { n / 8 } else { n / 8 + 1 }),
    ;
}

/// Append the group B-tree over `snods`; its address.
#[verifier::rlimit(80)]
fn write_btree(buf: &mut Vec<u8>, children: &Vec<(String, u64)>, offsets: &Vec<u64>, snods: &Vec<u64>) -> (addr: u64)
    requires
        offsets@.len() == children@.len(),
        forall|k: int| 0 <= k < children@.len() ==> offsets@[k] as int == name_offset(group_names(children@), k),
        snods@.len() == chunk_count(children@.len() as int),
        snods@.len() <= 32,
    ensures
        final(buf)@ == emit_btree(old(buf)@, group_names(children@), as_ints(snods@)).0,
        addr as int == emit_btree(old(buf)@, group_names(children@), as_ints(snods@)).1,
{
    let ghost names = group_names(children@);
    let ghost sv = as_ints(snods@);
    let n = children.len();
    align8_exec(buf);
    let addr = buf.len() as u64;
    let mut body: Vec<u8> = vec![0x54u8, 0x52u8, 0x45u8, 0x45u8, 0u8, 0u8];
    push_le16(&mut body, snods.len() as u16);
    push_le64(&mut body, UNDEF);
    push_le64(&mut body, UNDEF);
    push_le64(&mut body, 0u64);
    let ghost head = body@;
    let mut j: usize = 0;
    proof {
        assert(sv.take(0) =~= Seq::<int>::empty());
        assert(body@ =~= head + btree_entries(names, sv.take(0)));
    }
    while j < snods.len()
        invariant
            names == group_names(children@),
            sv == as_ints(snods@),
            n == children@.len(),
            snods@.len() == chunk_count(n as int),
            snods@.len() <= 32,
            offsets@.len() == n,
            forall|k: int| 0 <= k < n ==> offsets@[k] as int == name_offset(names, k),
            j <= snods@.len(),
            body@ == head + btree_entries(names, sv.take(j as int)),
            body@.len() == 32 + 16 * j,
        decreases snods@.len() - j,
    {
        proof {
            lemma_chunks(n as int, j as int);
        }
        let hi = if 8 * j + 8 < n { 8 * j + 8 } else { n };
        let ghost e0 = btree_entries(names, sv.take(j as int));
        let ghost x = le64_bytes(snods@[j as int] as int);
        let ghost y = le64_bytes(offsets@[hi - 1] as int);
        push_le64(&mut body, snods[j]);
        push_le64(&mut body, offsets[hi - 1]);
        proof {
            let t = sv.take(j + 1);
            assert(t.drop_last() =~= sv.take(j as int));
            assert(t[j as int] == snods@[j as int] as int);
            assert(btree_entries(names, t) == e0 + x + y);
            lemma_assoc(head, e0, x);
            lemma_assoc(head, e0 + x, y);
        }
        j = j + 1;
    }
    proof {
        assert(sv.take(j as int) =~= sv);
    }
    let fill = BTREE_ALLOC - body.len();
    push_all(buf, body.as_slice());
    push_zeros(buf, fill);
    addr
}

/// The heap data (names and free-block descriptor) and the local heap
/// header after `b`.
pub open spec fn emit_heap(b: Seq<u8>, hd: Seq<u8>) -> (Seq<u8>, int) {
    let hfull = hd + le64_bytes(1) + le64_bytes(16);
    let b1 = align8(b);
    let b2 = b1 + hfull;
    let b3 = align8(b2);
    (b3 + seq![0x48u8, 0x45u8, 0x41u8, 0x50u8] + zeros(4) + le64_bytes(hfull.len() as int)
        + le64_bytes(hd.len() as int) + le64_bytes(b1.len() as int), b3.len() as int)
}

/// Append the heap data and local heap header; the heap's address.
fn write_heap(buf: &mut Vec<u8>, heap: Vec<u8>) -> (addr: u64)
    ensures
        final(buf)@ == emit_heap(old(buf)@, heap@).0,
        addr as int == emit_heap(old(buf)@, heap@).1,
{
    let ghost hd = heap@;
    let mut heap = heap;
    let free = heap.len() as u64;
    push_le64(&mut heap, 1u64);
    push_le64(&mut heap, 16u64);
    align8_exec(buf);
    let heap_data_addr = buf.len() as u64;
    push_all(buf, heap.as_slice());
    align8_exec(buf);
    let heap_addr = buf.len() as u64;
    let ghost b3 = buf@;
    buf.push(0x48u8);
    buf.push(0x45u8);
    buf.push(0x41u8);
    buf.push(0x50u8);
    push_zeros(buf, 4);
    push_le64(buf, heap.len() as u64);
    push_le64(buf, free);
    push_le64(buf, heap_data_addr);
    proof {
        assert(final(buf)@ =~= b3 + seq![0x48u8, 0x45u8, 0x41u8, 0x50u8] + zeros(4) + le64_bytes(heap@.len() as int)
            + le64_bytes(hd.len() as int) + le64_bytes(heap_data_addr as int));
    }
    heap_addr
}

/// Append a group over resolved children (name, header address); the
/// address of its object header.
/// Append the SNOD leaves and the B-tree over them; the B-tree's address.
fn write_index(buf: &mut Vec<u8>, children: &Vec<(String, u64)>, offsets: &Vec<u64>) -> (ta: u64)
    requires
        children@.len() <= MAX_GROUP_CHILDREN,
        offsets@.len() == children@.len(),
        forall|k: int| 0 <= k < children@.len() ==> offsets@[k] as int == name_offset(group_names(children@), k),
    ensures
        ({
            let (b5, sv) = emit_snods(old(buf)@, group_names(children@), group_addrs(children@),
                chunk_count(children@.len() as int) as nat);
            emit_btree(b5, group_names(children@), sv) == (final(buf)@, ta as int)
        }),
{
    proof {
        lemma_chunks(children@.len() as int, 0);
        lemma_emit_snods_len(old(buf)@, group_names(children@), group_addrs(children@),
            chunk_count(children@.len() as int) as nat);
    }
    let snods = write_snods(buf, children, offsets);
    write_btree(buf, children, offsets, &snods)
}

/// The symbol-table message body.
fn symbol_table(ta: u64, ha: u64) -> (msgs: Vec<(u16, Vec<u8>)>)
    ensures
        msgs_view(msgs@) == seq![(0x11u16, le64_bytes(ta as int) + le64_bytes(ha as int))],
        forall|i: int| 0 <= i < msgs@.len() ==> (#[trigger] msgs@[i]).1@.len() + 8 <= usize::MAX,
{
    let mut st: Vec<u8> = Vec::new();
    push_le64(&mut st, ta);
    push_le64(&mut st, ha);
    let msgs: Vec<(u16, Vec<u8>)> = vec![(0x11u16, st)];
    assert(msgs_view(msgs@) =~= seq![(0x11u16, le64_bytes(ta as int) + le64_bytes(ha as int))]);
    msgs
}

/// Append a group over resolved children (name, header address); the
/// address of its object header.
fn write_group(buf: &mut Vec<u8>, children: &Vec<(String, u64)>) -> (addr: u64)
    requires
        children@.len() <= MAX_GROUP_CHILDREN,
    ensures
        final(buf)@ == emit_group(old(buf)@, group_names(children@), group_addrs(children@)).0,
        addr as int == emit_group(old(buf)@, group_names(children@), group_addrs(children@)).1,
{
    let ghost names = group_names(children@);
    let ghost addrs = group_addrs(children@);
    let (heap, offsets) = build_heap_names(children);
    let heap_addr = write_heap(buf, heap);
    let ghost b4 = buf@;
    let tree_addr = write_index(buf, children, &offsets);
    let ghost b6 = buf@;
    let msgs = symbol_table(tree_addr, heap_addr);
    let r = write_object_header(buf, &msgs);
    proof {
        let (b5, sv) = emit_snods(b4, names, addrs, chunk_count(names.len() as int) as nat);
        lemma_group_compose(old(buf)@, names, addrs, b4, heap_addr as int, b5, sv, b6, tree_addr as int,
            buf@, r as int);
    }
    r
}

proof fn lemma_group_compose(b: Seq<u8>, names: Seq<Seq<char>>, addrs: Seq<int>, b4: Seq<u8>, ha: int,
    b5: Seq<u8>, sv: Seq<int>, b6: Seq<u8>, ta: int, fin: Seq<u8>, r: int)
    requires
        emit_heap(b, heap_names(names)) == (b4, ha),
        emit_snods(b4, names, addrs, chunk_count(names.len() as int) as nat) == (b5, sv),
        emit_btree(b5, names, sv) == (b6, ta),
        emit_header(b6, seq![(0x11u16, le64_bytes(ta) + le64_bytes(ha))]) == (fin, r),
    ensures
        emit_group(b, names, addrs) == (fin, r),
{
}


// ---------------------------------------------------------------------
// Whole tree and file
// ---------------------------------------------------------------------

/// Whether the tree satisfies [`fanout_ok`] for `n` arrays.
fn check_fanout(node: &Node, n: usize) -> (r: bool)
    ensures
        r == fanout_ok(node_view(*node), n as nat),
    decreases node,
{
    match node {
        Node::Dataset(i) => *i < n,
        Node::Group(ch) => {
            proof {
                lemma_group_view(*ch);
            }
            if ch.len() > MAX_GROUP_CHILDREN {
                return false;
            }
            let ghost cv = children_view(ch@);
            let mut i: usize = 0;
            proof {
                assert(cv.subrange(0, 0) =~= Seq::<(Seq<char>, H5Tree)>::empty());
            }
            while i < ch.len()
                invariant
                    *node == Node::Group(*ch),
                    cv == children_view(ch@),
                    node_view(*node) == H5Tree::Group(cv),
                    ch@.len() <= MAX_GROUP_CHILDREN,
                    i <= ch@.len(),
                    children_fanout_ok(cv.subrange(0, i as int), n as nat),
                decreases ch@.len() - i,
            {
                proof {
                    assert(cv.subrange(0, i + 1).subrange(0, i as int) =~= cv.subrange(0, i as int));
                    assert(cv[i as int].1 == node_view(ch@[i as int].1));
                }
                if !check_fanout(&ch[i].1, n) {
                    proof {
                        if children_fanout_ok(cv, n as nat) {
                            lemma_children_fanout_at(cv, n as nat, i as int);
                        }
                    }
                    return false;
                }
                i = i + 1;
            }
            proof {
                assert(cv.subrange(0, i as int) =~= cv);
            }
            true
        },
    }
}

/// Every array's value bytes, dims and prefix products fit the machine.
pub open spec fn arrays_fit(a: Seq<(Seq<char>, Seq<usize>, Seq<u32>)>) -> bool {
    forall|i: int| 0 <= i < a.len() ==> {
        &&& (#[trigger] a[i]).2.len() * 4 <= usize::MAX
        &&& a[i].1.len() * 8 + 16 <= usize::MAX
        &&& forall|k: int| 0 <= k <= a[i].1.len() ==> #[trigger] shape_product(a[i].1.take(k)) <= usize::MAX
    }
}

/// Append `node` (a group after its children); its header's address.
fn write_node(buf: &mut Vec<u8>, node: &Node, arrays: &[(String, Vec<usize>, Vec<u32>)]) -> (addr: u64)
    requires
        fanout_ok(node_view(*node), arrays@.len() as nat),
        arrays_fit(arrays_view(arrays@)),
    ensures
        (final(buf)@, addr as int) == emit_node(old(buf)@, node_view(*node), arrays_view(arrays@)),
    decreases node, 1nat,
{
    match node {
        Node::Dataset(i) => {
            let ghost av = arrays_view(arrays@);
            assert(av[*i as int] == (arrays@[*i as int].0@, arrays@[*i as int].1@, arrays@[*i as int].2@));
            write_dataset(buf, &arrays[*i].1, &arrays[*i].2)
        },
        Node::Group(ch) => {
            proof {
                lemma_group_view(*ch);
            }
            let resolved = write_children(buf, node, ch, arrays);
            write_group(buf, &resolved)
        },
    }
}

/// Append the children of the group `whole` in order; each child's name
/// and header address.
fn write_children(buf: &mut Vec<u8>, whole: &Node, ch: &Vec<(String, Node)>, arrays: &[(String, Vec<usize>, Vec<u32>)])
    -> (resolved: Vec<(String, u64)>)
    requires
        *whole == Node::Group(*ch),
        fanout_ok(node_view(*whole), arrays@.len() as nat),
        arrays_fit(arrays_view(arrays@)),
    ensures
        resolved@.len() == ch@.len(),
        group_names(resolved@) == child_names(children_view(ch@)),
        (final(buf)@, group_addrs(resolved@)) == emit_children(old(buf)@, children_view(ch@), arrays_view(arrays@)),
    decreases whole, 0nat,
{
    proof {
        lemma_group_view(*ch);
    }
    let ghost cv = children_view(ch@);
    let ghost av = arrays_view(arrays@);
    let mut resolved: Vec<(String, u64)> = Vec::new();
    let mut i: usize = 0;
    proof {
        assert(cv.take(0) =~= Seq::<(Seq<char>, H5Tree)>::empty());
        assert(group_addrs(resolved@) =~= Seq::<int>::empty());
    }
    while i < ch.len()
        invariant
            *whole == Node::Group(*ch),
            cv == children_view(ch@),
            av == arrays_view(arrays@),
            node_view(*whole) == H5Tree::Group(cv),
            children_fanout_ok(cv, arrays@.len() as nat),
            arrays_fit(av),
            i <= ch@.len(),
            resolved@.len() == i,
            forall|k: int| 0 <= k < i ==> (#[trigger] resolved@[k]).0@ == cv[k].0,
            (buf@, group_addrs(resolved@)) == emit_children(old(buf)@, cv.take(i as int), av),
        decreases ch@.len() - i,
    {
        proof {
            lemma_children_fanout_at(cv, arrays@.len() as nat, i as int);
            assert(cv[i as int].1 == node_view(ch@[i as int].1));
            let t = cv.take(i + 1);
            assert(t.subrange(0, i as int) =~= cv.take(i as int));
            assert(t[i as int] == cv[i as int]);
        }
        let ghost before = resolved@;
        let a = write_node(buf, &ch[i].1, arrays);
        let name = ch[i].0.clone();
        resolved.push((name, a));
        proof {
            assert(group_addrs(resolved@) =~= group_addrs(before).push(a as int));
        }
        i = i + 1;
    }
    proof {
        assert(cv.take(i as int) =~= cv);
        assert(group_names(resolved@) =~= child_names(cv));
    }
    resolved
}

/// The views of a run of arrays, checked for size.
proof fn lemma_arrays_fit_at(a: Seq<(Seq<char>, Seq<usize>, Seq<u32>)>, i: int)
    requires
        arrays_fit(a),
        0 <= i < a.len(),
    ensures
        a[i].2.len() * 4 <= usize::MAX,
        a[i].1.len() * 8 + 16 <= usize::MAX,
        forall|k: int| 0 <= k <= a[i].1.len() ==> #[trigger] shape_product(a[i].1.take(k)) <= usize::MAX,
{
}

/// Product of the dims (every prefix product fits).
fn product_of(shape: &Vec<usize>) -> (r: usize)
    requires
        forall|k: int| 0 <= k <= shape@.len() ==> #[trigger] shape_product(shape@.take(k)) <= usize::MAX,
    ensures
        r as int == shape_product(shape@),
{
    let mut acc: usize = 1;
    let mut i: usize = 0;
    proof {
        assert(shape@.take(0) =~= Seq::<usize>::empty());
    }
    while i < shape.len()
        invariant
            i <= shape@.len(),
            forall|k: int| 0 <= k <= shape@.len() ==> #[trigger] shape_product(shape@.take(k)) <= usize::MAX,
            acc as int == shape_product(shape@.take(i as int)),
        decreases shape@.len() - i,
    {
        proof {
            assert(shape@.take(i + 1).drop_last() =~= shape@.take(i as int));
            assert(shape_product(shape@.take(i + 1)) <= usize::MAX);
        }
        acc = acc * shape[i];
        i = i + 1;
    }
    proof {
        assert(shape@.take(i as int) =~= shape@);
    }
    acc
}

/// The group tree of the arrays, checked for value counts and names.
fn build_root(arrays: &[(String, Vec<usize>, Vec<u32>)]) -> (r: Result<Vec<(String, Node)>, MmnError>)
    requires
        arrays_fit(arrays_view(arrays@)),
    ensures
        match build_tree(arrays_view(arrays@), arrays@.len() as nat) {
            Some(t) => r matches Ok(v) && children_view(v@) == t,
            None => r is Err,
        },
{
    let ghost av = arrays_view(arrays@);
    let mut root: Vec<(String, Node)> = Vec::new();
    let mut i: usize = 0;
    proof {
        assert(children_view(root@) =~= Seq::<(Seq<char>, H5Tree)>::empty());
    }
    while i < arrays.len()
        invariant
            av == arrays_view(arrays@),
            arrays_fit(av),
            i <= arrays@.len(),
            build_tree(av, i as nat) == Some(children_view(root@)),
        decreases arrays@.len() - i,
    {
        proof {
            lemma_arrays_fit_at(av, i as int);
            assert(av[i as int] == (arrays@[i as int].0@, arrays@[i as int].1@, arrays@[i as int].2@));
        }
        let numel = product_of(&arrays[i].1);
        if numel != arrays[i].2.len() {
            proof {
                lemma_build_fail_extends(av, (i + 1) as nat, av.len());
            }
            return Err(MmnError::new("h5 array shape and value count differ"));
        }
        let parts = split_path(arrays[i].0.as_str());
        proof {
            assert(parts@.map_values(|p: Vec<char>| p@).skip(0) =~= parts@.map_values(|p: Vec<char>| p@));
        }
        match insert_path(root, &parts, 0, i) {
            Ok(next) => {
                root = next;
            },
            Err(e) => {
                proof {
                    lemma_build_fail_extends(av, (i + 1) as nat, av.len());
                }
                return Err(e);
            },
        }
        i = i + 1;
    }
    Ok(root)
}

/// The superblock for a file of `eof` bytes with its root header at `root`.
fn superblock_bytes(eof: u64, root: u64) -> (out: Vec<u8>)
    ensures
        out@ == superblock(eof as int, root as int),
{
    let mut out: Vec<u8> = vec![0x89u8, 0x48u8, 0x44u8, 0x46u8, 0x0du8, 0x0au8, 0x1au8, 0x0au8,
        0u8, 0u8, 0u8, 0u8, 0u8, 8u8, 8u8, 0u8];
    push_le16(&mut out, 4u16);
    push_le16(&mut out, 16u16);
    push_le32(&mut out, 0u32);
    push_le64(&mut out, 0u64);
    push_le64(&mut out, UNDEF);
    push_le64(&mut out, eof);
    push_le64(&mut out, UNDEF);
    push_le64(&mut out, 0u64);
    push_le64(&mut out, root);
    assert(out@ =~= superblock(eof as int, root as int));
    out
}

/// Serialize named arrays (name, row-major shape, f32 bit patterns) into
/// an HDF5 file. Slash-separated names become nested groups.
pub fn write_h5_arrays_bytes(arrays: &[(String, Vec<usize>, Vec<u32>)]) -> (r: Result<Vec<u8>, MmnError>)
    requires
        arrays_fit(arrays_view(arrays@)),
    ensures
        match spec_write_h5(arrays_view(arrays@)) {
            Some(b) => r matches Ok(v) && v@ == b,
            None => r is Err,
        },
{
    let ghost av = arrays_view(arrays@);
    if arrays.len() == 0 {
        return Err(MmnError::new("h5 writer needs at least one array"));
    }
    let root = build_root(arrays)?;
    let tree = Node::Group(root);
    proof {
        lemma_group_view(root);
    }
    if !check_fanout(&tree, arrays.len()) {
        return Err(MmnError::new("h5 writer supports up to 256 entries per group; nest names into subgroups"));
    }
    let mut buf: Vec<u8> = Vec::new();
    push_zeros(&mut buf, 96);
    let root_addr = write_node(&mut buf, &tree, arrays);
    let eof = buf.len() as u64;
    proof {
        lemma_emit_grows(zeros(96), node_view(tree), av);
    }
    let mut out = superblock_bytes(eof, root_addr);
    let rest = crate::bytes::copy_range(buf.as_slice(), 72, buf.len());
    push_all(&mut out, rest.as_slice());
    Ok(out)
}

proof fn lemma_build_fail_extends(a: Seq<(Seq<char>, Seq<usize>, Seq<u32>)>, k: nat, n: nat)
    requires
        k <= n,
        build_tree(a, k) is None,
    ensures
        build_tree(a, n) is None,
    decreases n - k,
{
    if k < n {
        lemma_build_fail_extends(a, k, (n - 1) as nat);
    }
}

/// Writing never shortens the buffer.
proof fn lemma_emit_grows(b: Seq<u8>, t: H5Tree, a: Seq<(Seq<char>, Seq<usize>, Seq<u32>)>)
    ensures
        emit_node(b, t, a).0.len() >= b.len(),
    decreases t, 0nat,
{
    match t {
        H5Tree::Dataset(i) => {
            lemma_dataset_grows(b, a[i as int].1, a[i as int].2);
        },
        H5Tree::Group(ch) => {
            lemma_children_grow(b, ch, a);
            let (b1, addrs) = emit_children(b, ch, a);
            lemma_group_grows(b1, child_names(ch), addrs);
        },
    }
}

proof fn lemma_group_grows(b: Seq<u8>, names: Seq<Seq<char>>, addrs: Seq<int>)
    ensures
        emit_group(b, names, addrs).0.len() >= b.len(),
{
    let (b4, ha) = emit_heap(b, heap_names(names));
    lemma_heap_grows(b, heap_names(names));
    lemma_snods_grow(b4, names, addrs, chunk_count(names.len() as int) as nat);
    let (b5, snods) = emit_snods(b4, names, addrs, chunk_count(names.len() as int) as nat);
    lemma_btree_grows(b5, names, snods);
    let (b6, ta) = emit_btree(b5, names, snods);
    lemma_header_grows(b6, seq![(0x11u16, le64_bytes(ta) + le64_bytes(ha))]);
}

proof fn lemma_dataset_grows(b: Seq<u8>, shape: Seq<usize>, vals: Seq<u32>)
    ensures
        emit_dataset(b, shape, vals).0.len() >= b.len(),
{
    let b1 = align8(b);
    let b2 = b1 + values_bytes(vals);
    let dataspace = seq![1u8, shape.len() as u8, 0u8, 0u8, 0u8, 0u8, 0u8, 0u8] + dims_bytes(shape);
    let fill = seq![2u8, 2u8, 2u8, 1u8, 0u8, 0u8, 0u8, 0u8];
    let layout = seq![3u8, 1u8] + le64_bytes(b1.len() as int) + le64_bytes(vals.len() * 4int);
    lemma_header_grows(b2, seq![(1u16, dataspace), (3u16, f32_dtype()), (5u16, fill), (8u16, layout)]);
}

proof fn lemma_align8_grows(b: Seq<u8>)
    ensures
        align8(b).len() >= b.len(),
{
    assert(pad8(b.len() as int) >= 0);
    assert(zeros(pad8(b.len() as int)).len() == pad8(b.len() as int));
}

proof fn lemma_heap_grows(b: Seq<u8>, hd: Seq<u8>)
    ensures
        emit_heap(b, hd).0.len() >= b.len(),
{
    let hfull = hd + le64_bytes(1) + le64_bytes(16);
    let b1 = align8(b);
    lemma_align8_grows(b);
    let b2 = b1 + hfull;
    let b3 = align8(b2);
    lemma_align8_grows(b2);
    let tail = seq![0x48u8, 0x45u8, 0x41u8, 0x50u8] + zeros(4) + le64_bytes(hfull.len() as int)
        + le64_bytes(hd.len() as int) + le64_bytes(b1.len() as int);
    assert(emit_heap(b, hd).0 == b3 + tail);
    assert((b3 + tail).len() >= b3.len());
}

proof fn lemma_btree_grows(b: Seq<u8>, names: Seq<Seq<char>>, snods: Seq<int>)
    ensures
        emit_btree(b, names, snods).0.len() >= b.len(),
{
}

proof fn lemma_header_grows(b: Seq<u8>, ms: Seq<(u16, Seq<u8>)>)
    ensures
        emit_header(b, ms).0.len() >= b.len(),
{
}

proof fn lemma_children_grow(b: Seq<u8>, ch: Seq<(Seq<char>, H5Tree)>, a: Seq<(Seq<char>, Seq<usize>, Seq<u32>)>)
    ensures
        emit_children(b, ch, a).0.len() >= b.len(),
    decreases ch, 1nat,
{
    if ch.len() > 0 {
        let init = ch.subrange(0, ch.len() - 1);
        lemma_children_grow(b, init, a);
        let (b1, addrs) = emit_children(b, init, a);
        lemma_emit_grows(b1, ch[ch.len() - 1].1, a);
    }
}

proof fn lemma_snods_grow(b: Seq<u8>, names: Seq<Seq<char>>, addrs: Seq<int>, k: nat)
    ensures
        emit_snods(b, names, addrs, k).0.len() >= b.len(),
    decreases k,
{
    if k > 0 {
        lemma_snods_grow(b, names, addrs, (k - 1) as nat);
        let (b1, s) = emit_snods(b, names, addrs, (k - 1) as nat);
        lemma_snod_grows(b1, names, addrs, 8 * (k - 1), chunk_end(names.len() as int, k - 1));
    }
}

proof fn lemma_snod_grows(b: Seq<u8>, names: Seq<Seq<char>>, addrs: Seq<int>, lo: int, hi: int)
    ensures
        emit_snod(b, names, addrs, lo, hi).0.len() >= b.len(),
{
}

} // verus!
