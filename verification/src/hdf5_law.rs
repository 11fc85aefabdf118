//! What the HDF5 reader makes of a dataset the HDF5 writer emits.

use vstd::prelude::*;
use crate::bytes::{le16_at, le16_bytes, le32_at, le32_bytes, le64_at, le64_bytes, lemma_le16_roundtrip,
    lemma_le32_roundtrip, lemma_le64_roundtrip};
use crate::gguf::zeros;
use crate::hdf5_read::{
    cprod, empty_obj, spec_dataspace, spec_datatype, spec_u16_at, spec_u32_at, spec_u8_at, spec_addr_list, spec_dataset_bytes, spec_layout, spec_messages, spec_msgs, spec_obj,
    spec_visit, supported, visit_obj, DsView, H5Dtype, LayoutView, ObjView,
};
use crate::hdf5_write::{align8, dims_bytes, emit_dataset, emit_header, f32_dtype, message_bytes, messages_bytes,
    pad8, shape_product, values_bytes};

verus! {

/// The element type the writer gives every dataset: little-endian IEEE
/// f32.
pub open spec fn f32_h5_dtype() -> H5Dtype {
    H5Dtype { class: 1, size: 4, big_endian: false, signed: false }
}

proof fn lemma_at(f: Seq<u8>, x: int, s: Seq<u8>)
    requires
        0 <= x,
        x + s.len() <= f.len(),
        f.subrange(x, x + s.len()) == s,
    ensures
        forall|k: int| 0 <= k < s.len() ==> #[trigger] f[x + k] == s[k],
{
    assert forall|k: int| 0 <= k < s.len() implies #[trigger] f[x + k] == s[k] by {
        assert(f.subrange(x, x + s.len())[k] == f[x + k]);
    }
}

proof fn lemma_values_len(v: Seq<u32>)
    ensures
        values_bytes(v).len() == 4 * v.len(),
    decreases v.len(),
{
    if v.len() > 0 {
        lemma_values_len(v.drop_last());
    }
}

proof fn lemma_dims(shape: Seq<usize>)
    ensures
        dims_bytes(shape).len() == 8 * shape.len(),
        forall|k: int| 0 <= k < shape.len() ==> #[trigger] dims_bytes(shape).subrange(8 * k, 8 * k + 8)
            == le64_bytes(shape[k] as int),
    decreases shape.len(),
{
    if shape.len() > 0 {
        let init = shape.drop_last();
        lemma_dims(init);
        let d = dims_bytes(shape);
        assert forall|k: int| 0 <= k < shape.len() implies #[trigger] d.subrange(8 * k, 8 * k + 8) == le64_bytes(
            shape[k] as int,
        ) by {
            if k < init.len() {
                assert(d.subrange(8 * k, 8 * k + 8) =~= dims_bytes(init).subrange(8 * k, 8 * k + 8));
            } else {
                assert(d.subrange(8 * k, 8 * k + 8) =~= le64_bytes(shape.last() as int));
            }
        }
    }
}

proof fn lemma_addr_list(f: Seq<u8>, start: int, shape: Seq<usize>, n: nat)
    requires
        0 <= start,
        start + 8 * shape.len() <= f.len(),
        f.subrange(start, start + 8 * shape.len()) == dims_bytes(shape),
        n <= shape.len(),
    ensures
        spec_addr_list(f, start, n) == Some(shape.take(n as int)),
    decreases n,
{
    if n == 0 {
        assert(shape.take(0) =~= Seq::<usize>::empty());
    } else {
        lemma_addr_list(f, start, shape, (n - 1) as nat);
        lemma_dims(shape);
        let k = n - 1;
        let x = start + 8 * k;
        assert(f.subrange(x, x + 8) =~= dims_bytes(shape).subrange(8 * k, 8 * k + 8));
        lemma_le64_roundtrip(f, x, shape[k] as int);
        assert(((shape[k] as int) as u64) as usize == shape[k]);
        assert(shape.take(n as int) =~= shape.take(k).push(shape[k]));
    }
}

proof fn lemma_cprod(shape: Seq<usize>)
    requires
        forall|k: int| 0 <= k <= shape.len() ==> #[trigger] shape_product(shape.take(k)) <= usize::MAX,
    ensures
        cprod(shape) == Some(shape_product(shape)),
    decreases shape.len(),
{
    if shape.len() > 0 {
        let init = shape.drop_last();
        assert forall|k: int| 0 <= k <= init.len() implies #[trigger] shape_product(init.take(k)) <= usize::MAX by {
            assert(init.take(k) =~= shape.take(k));
        }
        lemma_cprod(init);
        assert(shape.take(shape.len() as int) =~= shape);
    }
}

/// Type and body size of a header message the writer emits, and where
/// its body lies.
#[verifier::rlimit(40)]
#[verifier::spinoff_prover]
proof fn lemma_message_at(f: Seq<u8>, p: int, t: u16, body: Seq<u8>)
    requires
        0 <= p,
        p + message_bytes(t, body).len() <= f.len(),
        f.subrange(p, p + message_bytes(t, body).len()) == message_bytes(t, body),
        body.len() + 8 < 65536,
    ensures
        message_bytes(t, body).len() == 8 + body.len() + pad8(body.len() as int),
        spec_u16_at(f, p) == Some(t as int),
        spec_u16_at(f, p + 2) == Some(body.len() + pad8(body.len() as int)),
        f.subrange(p + 8, p + 8 + body.len()) == body,
{
    let m = message_bytes(t, body);
    let sz = body.len() + pad8(body.len() as int);
    assert(((sz as u16) as int) == sz);
    lemma_at(f, p, m);
    assert(f.subrange(p, p + 2) =~= le16_bytes(t as int)) by {
        assert(m.subrange(0, 2) =~= le16_bytes(t as int));
    }
    lemma_le16_roundtrip(f, p, t as int);
    assert(f.subrange(p + 2, p + 4) =~= le16_bytes(sz)) by {
        assert(m.subrange(2, 4) =~= le16_bytes(sz));
    }
    lemma_le16_roundtrip(f, p + 2, sz);
    assert(f.subrange(p + 8, p + 8 + body.len()) =~= body) by {
        assert forall|k: int| 0 <= k < body.len() implies f.subrange(p + 8, p + 8 + body.len())[k] == body[k] by {
            assert(f[p + (8 + k)] == m[8 + k]);
        }
    }
}

/// The four messages of an emitted dataset header, found in turn.
#[verifier::rlimit(60)]
#[verifier::spinoff_prover]
proof fn lemma_walk_messages(f: Seq<u8>, addr: int, r: int)
    requires
        0 <= addr,
        0 <= r <= 255,
        addr + 16 + (96 + 8 * r) <= f.len() <= usize::MAX,
        spec_u8_at(f, addr) == Some(1int),
        spec_u16_at(f, addr + 2) == Some(4int),
        spec_u32_at(f, addr + 8) == Some(96 + 8 * r),
        spec_u16_at(f, addr + 16) == Some(1int),
        spec_u16_at(f, addr + 18) == Some(8 + 8 * r),
        spec_u16_at(f, addr + 32 + 8 * r) == Some(3int),
        spec_u16_at(f, addr + 34 + 8 * r) == Some(24int),
        spec_u16_at(f, addr + 64 + 8 * r) == Some(5int),
        spec_u16_at(f, addr + 66 + 8 * r) == Some(8int),
        spec_u16_at(f, addr + 80 + 8 * r) == Some(8int),
        spec_u16_at(f, addr + 82 + 8 * r) == Some(24int),
    ensures
        spec_messages(f, addr) == Some(seq![
            (1int, addr + 24),
            (3int, addr + 40 + 8 * r),
            (5int, addr + 72 + 8 * r),
            (8int, addr + 88 + 8 * r),
        ]),
{
    let p0 = addr + 16;
    let e = p0 + 96 + 8 * r;
    let blocks = seq![(p0, 96 + 8 * r)];
    let m1 = seq![(1int, addr + 24)];
    let m2 = m1.push((3int, addr + 40 + 8 * r));
    let m3 = m2.push((5int, addr + 72 + 8 * r));
    let m4 = m3.push((8int, addr + 88 + 8 * r));
    assert(spec_msgs(f, 4, blocks, 0, e, e, m4) == Some(m4));
    assert(spec_msgs(f, 4, blocks, 0, addr + 80 + 8 * r, e, m3) == Some(m4));
    assert(spec_msgs(f, 4, blocks, 0, addr + 64 + 8 * r, e, m2) == Some(m4));
    assert(spec_msgs(f, 4, blocks, 0, addr + 32 + 8 * r, e, m1) == Some(m4));
    assert(spec_msgs(f, 4, blocks, 0, p0, e, Seq::empty()) == Some(m4)) by {
        assert(Seq::<(int, int)>::empty().push((1int, addr + 24)) =~= m1);
    }
    assert(m4 =~= seq![(1int, addr + 24), (3int, addr + 40 + 8 * r), (5int, addr + 72 + 8 * r), (8int, addr + 88 + 8 * r)]);
}

/// The four messages read give a contiguous f32 dataset.
#[verifier::rlimit(40)]
#[verifier::spinoff_prover]
proof fn lemma_walk_obj(f: Seq<u8>, msgs: Seq<(int, int)>, shape: Seq<usize>, lv: LayoutView)
    requires
        msgs.len() == 4,
        msgs[0].0 == 1,
        msgs[1].0 == 3,
        msgs[2].0 == 5,
        msgs[3].0 == 8,
        spec_dataspace(f, msgs[0].1) == Some(shape),
        spec_datatype(f, msgs[1].1) == Some(f32_h5_dtype()),
        spec_layout(f, msgs[3].1) == Some(lv),
    ensures
        spec_obj(f, msgs, 0, empty_obj()) == Some(ObjView {
            dims: Some(shape),
            dtype: Some(f32_h5_dtype()),
            layout: Some(Some(lv)),
            symtab: None,
            filters: Seq::empty(),
        }),
{
    let o1 = ObjView { dims: Some(shape), ..empty_obj() };
    let o2 = ObjView { dtype: Some(f32_h5_dtype()), ..o1 };
    let o4 = ObjView { layout: Some(Some(lv)), ..o2 };
    assert(spec_obj(f, msgs, 4, o4) == Some(o4));
    assert(spec_obj(f, msgs, 3, o2) == Some(o4));
    assert(spec_obj(f, msgs, 2, o2) == Some(o4));
    assert(spec_obj(f, msgs, 1, o1) == Some(o4));
}

/// The dataspace message body the writer emits for a shape.
pub open spec fn ds_body(shape: Seq<usize>) -> Seq<u8> {
    seq![1u8, shape.len() as u8, 0u8, 0u8, 0u8, 0u8, 0u8, 0u8] + dims_bytes(shape)
}

/// The contiguous layout message body for data at `da` of `size` bytes.
pub open spec fn lay_body(da: int, size: int) -> Seq<u8> {
    seq![3u8, 1u8] + le64_bytes(da) + le64_bytes(size)
}

/// The fill-value message body.
pub open spec fn fill_body() -> Seq<u8> {
    seq![2u8, 2u8, 2u8, 1u8, 0u8, 0u8, 0u8, 0u8]
}

/// The messages of an emitted dataset header.
pub open spec fn ds_messages(shape: Seq<usize>, da: int, size: int) -> Seq<u8> {
    message_bytes(1u16, ds_body(shape)) + message_bytes(3u16, f32_dtype()) + message_bytes(5u16, fill_body())
        + message_bytes(8u16, lay_body(da, size))
}

/// The 16-byte prefix of a version-1 object header of four messages.
pub open spec fn ds_prefix(body_len: int) -> Seq<u8> {
    seq![1u8, 0u8] + le16_bytes(4) + le32_bytes(1) + le32_bytes(body_len) + zeros(4)
}

/// The layout of what `emit_dataset` appends.
#[verifier::rlimit(60)]
#[verifier::spinoff_prover]
proof fn lemma_emitted(b: Seq<u8>, shape: Seq<usize>, vals: Seq<u32>)
    requires
        shape.len() <= 255,
    ensures
        ({
            let b1 = align8(b);
            let hb = align8(b1 + values_bytes(vals));
            let body = ds_messages(shape, b1.len() as int, vals.len() * 4int);
            &&& body.len() == 96 + 8 * shape.len()
            &&& emit_dataset(b, shape, vals) == (hb + ds_prefix(body.len() as int) + body, hb.len() as int)
        }),
{
    let r = shape.len() as int;
    let b1 = align8(b);
    let da = b1.len() as int;
    lemma_dims(shape);
    let ds = ds_body(shape);
    let lay = lay_body(da, vals.len() * 4int);
    let ms = seq![(1u16, ds), (3u16, f32_dtype()), (5u16, fill_body()), (8u16, lay)];
    let body = ds_messages(shape, da, vals.len() * 4int);
    assert(messages_bytes(ms) == body) by {
        reveal_with_fuel(messages_bytes, 5);
        assert(ms.drop_last().drop_last().drop_last().drop_last() =~= Seq::<(u16, Seq<u8>)>::empty());
        assert(ms.drop_last().drop_last().drop_last() =~= seq![(1u16, ds)]);
        assert(ms.drop_last().drop_last() =~= seq![(1u16, ds), (3u16, f32_dtype())]);
        assert(ms.drop_last() =~= seq![(1u16, ds), (3u16, f32_dtype()), (5u16, fill_body())]);
        assert(messages_bytes(seq![(1u16, ds)]) =~= message_bytes(1u16, ds));
    }
    assert(pad8(8 + 8 * r) == 0);
    assert(pad8(20) == 4);
    assert(pad8(8) == 0);
    assert(pad8(18) == 6);
    assert(body.len() == 96 + 8 * r);
    let hb = align8(b1 + values_bytes(vals));
    assert(((ms.len() as u16) as int) == 4);
    assert(((body.len() as u32) as int) == body.len());
    assert(hb + seq![1u8, 0u8] + le16_bytes(4) + le32_bytes(1) + le32_bytes(body.len() as int) + zeros(4) + body
        =~= hb + ds_prefix(body.len() as int) + body);
}

proof fn lemma_sub_of(f: Seq<u8>, x: int, s: Seq<u8>, a: int, e: int)
    requires
        0 <= x,
        x + s.len() <= f.len(),
        f.subrange(x, x + s.len()) == s,
        0 <= a <= e <= s.len(),
    ensures
        f.subrange(x + a, x + e) == s.subrange(a, e),
{
    assert forall|k: int| 0 <= k < e - a implies #[trigger] f.subrange(x + a, x + e)[k] == s.subrange(a, e)[k] by {
        assert(f.subrange(x, x + s.len())[a + k] == f[x + a + k]);
    }
    assert(f.subrange(x + a, x + e) =~= s.subrange(a, e));
}

/// The messages of an emitted dataset header, found in the file.
#[verifier::rlimit(60)]
#[verifier::spinoff_prover]
proof fn lemma_header_messages(f: Seq<u8>, addr: int, shape: Seq<usize>, da: int, size: int)
    requires
        0 <= addr,
        shape.len() <= 255,
        addr + 16 + ds_messages(shape, da, size).len() <= f.len() <= usize::MAX,
        ds_messages(shape, da, size).len() == 96 + 8 * shape.len(),
        f.subrange(addr, addr + 16) == ds_prefix(96 + 8 * shape.len() as int),
        f.subrange(addr + 16, addr + 32 + 8 * shape.len()) == message_bytes(1u16, ds_body(shape)),
        f.subrange(addr + 32 + 8 * shape.len(), addr + 64 + 8 * shape.len()) == message_bytes(3u16, f32_dtype()),
        f.subrange(addr + 64 + 8 * shape.len(), addr + 80 + 8 * shape.len()) == message_bytes(5u16, fill_body()),
        f.subrange(addr + 80 + 8 * shape.len(), addr + 112 + 8 * shape.len()) == message_bytes(8u16, lay_body(da, size)),
    ensures
        spec_messages(f, addr) == Some(seq![
            (1int, addr + 24),
            (3int, addr + 40 + 8 * shape.len()),
            (5int, addr + 72 + 8 * shape.len()),
            (8int, addr + 88 + 8 * shape.len()),
        ]),
{
    let r = shape.len() as int;
    lemma_dims(shape);
    assert(pad8(8 + 8 * r) == 0);
    assert(pad8(20) == 4);
    assert(pad8(8) == 0);
    assert(pad8(18) == 6);
    let hdr = ds_prefix(96 + 8 * r);
    lemma_at(f, addr, hdr);
    assert(f[addr] == hdr[0]);
    lemma_sub_of(f, addr, hdr, 2, 4);
    assert(hdr.subrange(2, 4) =~= le16_bytes(4));
    lemma_le16_roundtrip(f, addr + 2, 4);
    lemma_sub_of(f, addr, hdr, 8, 12);
    assert(hdr.subrange(8, 12) =~= le32_bytes(96 + 8 * r));
    lemma_le32_roundtrip(f, addr + 8, 96 + 8 * r);
    lemma_message_at(f, addr + 16, 1u16, ds_body(shape));
    lemma_message_at(f, addr + 32 + 8 * r, 3u16, f32_dtype());
    lemma_message_at(f, addr + 64 + 8 * r, 5u16, fill_body());
    lemma_message_at(f, addr + 80 + 8 * r, 8u16, lay_body(da, size));
    lemma_walk_messages(f, addr, r);
}

/// The dataspace, datatype and layout of an emitted dataset header.
#[verifier::rlimit(60)]
#[verifier::spinoff_prover]
proof fn lemma_header_values(f: Seq<u8>, addr: int, shape: Seq<usize>, da: int, size: int)
    requires
        0 <= addr,
        shape.len() <= 255,
        0 <= da < 0x1_0000_0000_0000_0000,
        0 <= size < 0x1_0000_0000_0000_0000,
        addr + 112 + 8 * shape.len() <= f.len() <= usize::MAX,
        f.subrange(addr + 16, addr + 32 + 8 * shape.len()) == message_bytes(1u16, ds_body(shape)),
        f.subrange(addr + 32 + 8 * shape.len(), addr + 64 + 8 * shape.len()) == message_bytes(3u16, f32_dtype()),
        f.subrange(addr + 80 + 8 * shape.len(), addr + 112 + 8 * shape.len()) == message_bytes(8u16, lay_body(da, size)),
    ensures
        spec_dataspace(f, addr + 24) == Some(shape),
        spec_datatype(f, addr + 40 + 8 * shape.len()) == Some(f32_h5_dtype()),
        spec_layout(f, addr + 88 + 8 * shape.len()) == Some(LayoutView::Contiguous(da as u64, size as usize as int)),
{
    let r = shape.len() as int;
    lemma_dims(shape);
    assert(pad8(8 + 8 * r) == 0);
    assert(pad8(20) == 4);
    assert(pad8(18) == 6);
    let ds = ds_body(shape);
    let lay = lay_body(da, size);
    lemma_message_at(f, addr + 16, 1u16, ds);
    lemma_message_at(f, addr + 32 + 8 * r, 3u16, f32_dtype());
    lemma_message_at(f, addr + 80 + 8 * r, 8u16, lay);
    // The dataspace.
    let p = addr + 24;
    lemma_at(f, p, ds);
    assert(f[p] == ds[0] && f[p + 1] == ds[1]);
    lemma_sub_of(f, p, ds, 8, 8 + 8 * r);
    assert(ds.subrange(8, 8 + 8 * r) =~= dims_bytes(shape));
    lemma_addr_list(f, p + 8, shape, r as nat);
    assert(shape.take(r) =~= shape);
    // The datatype.
    let q = addr + 40 + 8 * r;
    let t = f32_dtype();
    lemma_at(f, q, t);
    assert(f[q] == t[0] && f[q + 1] == t[1]);
    lemma_sub_of(f, q, t, 4, 8);
    assert(t.subrange(4, 8) =~= le32_bytes(4));
    lemma_le32_roundtrip(f, q + 4, 4);
    // The layout.
    let l = addr + 88 + 8 * r;
    lemma_at(f, l, lay);
    assert(f[l] == lay[0] && f[l + 1] == lay[1]);
    lemma_sub_of(f, l, lay, 2, 10);
    assert(lay.subrange(2, 10) =~= le64_bytes(da));
    lemma_le64_roundtrip(f, l + 2, da);
    lemma_sub_of(f, l, lay, 10, 18);
    assert(lay.subrange(10, 18) =~= le64_bytes(size));
    lemma_le64_roundtrip(f, l + 10, size);
}

/// The pieces of an emitted dataset header, each where it lies.
#[verifier::rlimit(60)]
#[verifier::spinoff_prover]
proof fn lemma_header_pieces(f: Seq<u8>, addr: int, shape: Seq<usize>, da: int, size: int)
    requires
        0 <= addr,
        shape.len() <= 255,
        ds_messages(shape, da, size).len() == 96 + 8 * shape.len(),
        addr + 16 + ds_messages(shape, da, size).len() <= f.len(),
        f.subrange(addr, addr + 16 + ds_messages(shape, da, size).len())
            == ds_prefix(96 + 8 * shape.len() as int) + ds_messages(shape, da, size),
    ensures
        f.subrange(addr, addr + 16) == ds_prefix(96 + 8 * shape.len() as int),
        f.subrange(addr + 16, addr + 32 + 8 * shape.len()) == message_bytes(1u16, ds_body(shape)),
        f.subrange(addr + 32 + 8 * shape.len(), addr + 64 + 8 * shape.len()) == message_bytes(3u16, f32_dtype()),
        f.subrange(addr + 64 + 8 * shape.len(), addr + 80 + 8 * shape.len()) == message_bytes(5u16, fill_body()),
        f.subrange(addr + 80 + 8 * shape.len(), addr + 112 + 8 * shape.len()) == message_bytes(8u16, lay_body(da, size)),
{
    let r = shape.len() as int;
    lemma_dims(shape);
    assert(pad8(8 + 8 * r) == 0);
    assert(pad8(20) == 4);
    assert(pad8(8) == 0);
    assert(pad8(18) == 6);
    let m0 = message_bytes(1u16, ds_body(shape));
    let m1 = message_bytes(3u16, f32_dtype());
    let m2 = message_bytes(5u16, fill_body());
    let m3 = message_bytes(8u16, lay_body(da, size));
    let hdr = ds_prefix(96 + 8 * r);
    let w = hdr + ds_messages(shape, da, size);
    assert(w =~= hdr + m0 + m1 + m2 + m3);
    lemma_sub_of(f, addr, w, 0, 16);
    assert(w.subrange(0, 16) =~= hdr);
    lemma_sub_of(f, addr, w, 16, 32 + 8 * r);
    assert(w.subrange(16, 32 + 8 * r) =~= m0);
    lemma_sub_of(f, addr, w, 32 + 8 * r, 64 + 8 * r);
    assert(w.subrange(32 + 8 * r, 64 + 8 * r) =~= m1);
    lemma_sub_of(f, addr, w, 64 + 8 * r, 80 + 8 * r);
    assert(w.subrange(64 + 8 * r, 80 + 8 * r) =~= m2);
    lemma_sub_of(f, addr, w, 80 + 8 * r, 112 + 8 * r);
    assert(w.subrange(80 + 8 * r, 112 + 8 * r) =~= m3);
}

/// Where the header and the data of an emitted dataset lie in a file
/// that begins with what was written.
#[verifier::rlimit(60)]
#[verifier::spinoff_prover]
proof fn lemma_dataset_in_file(f: Seq<u8>, b: Seq<u8>, shape: Seq<usize>, vals: Seq<u32>)
    requires
        shape.len() <= 255,
        emit_dataset(b, shape, vals).0.len() <= f.len(),
        f.take(emit_dataset(b, shape, vals).0.len() as int) == emit_dataset(b, shape, vals).0,
    ensures
        ({
            let da = align8(b).len() as int;
            let addr = emit_dataset(b, shape, vals).1;
            let body = ds_messages(shape, da, vals.len() * 4int);
            &&& body.len() == 96 + 8 * shape.len()
            &&& 0 <= da
            &&& da + values_bytes(vals).len() <= addr
            &&& addr + 16 + body.len() == emit_dataset(b, shape, vals).0.len()
            &&& f.subrange(addr, addr + 16 + body.len()) == ds_prefix(96 + 8 * shape.len() as int) + body
            &&& f.subrange(da, da + values_bytes(vals).len()) == values_bytes(vals)
        }),
{
    let b1 = align8(b);
    let da = b1.len() as int;
    let vb = values_bytes(vals);
    let size = vals.len() * 4int;
    lemma_emitted(b, shape, vals);
    let hb = align8(b1 + vb);
    let addr = hb.len() as int;
    let body = ds_messages(shape, da, size);
    let hdr = ds_prefix(body.len() as int);
    let whole = hb + hdr + body;
    let n = whole.len() as int;
    assert(f.subrange(0, n) == whole) by {
        assert(f.take(n) =~= f.subrange(0, n));
    }
    lemma_sub_of(f, 0, whole, addr, n);
    assert(whole.subrange(addr, n) =~= hdr + body);
    lemma_sub_of(f, 0, whole, da, da + vb.len());
    assert(whole.subrange(da, da + vb.len()) =~= vb) by {
        assert(b1 + vb + zeros(pad8((b1 + vb).len() as int)) + hdr + body =~= whole);
    }
}

/// The element bytes of a contiguous f32 dataset stored at `da`.
#[verifier::rlimit(40)]
#[verifier::spinoff_prover]
proof fn lemma_data_bytes(f: Seq<u8>, shape: Seq<usize>, vals: Seq<u32>, da: int)
    requires
        shape_product(shape) == vals.len(),
        forall|k: int| 0 <= k <= shape.len() ==> #[trigger] shape_product(shape.take(k)) <= usize::MAX,
        vals.len() * 4 <= usize::MAX,
        0 <= da,
        da + values_bytes(vals).len() <= f.len() <= usize::MAX,
        f.subrange(da, da + values_bytes(vals).len()) == values_bytes(vals),
    ensures
        spec_dataset_bytes(f, shape, f32_h5_dtype(), LayoutView::Contiguous(da as u64, vals.len() * 4int), Seq::empty())
            == Some(values_bytes(vals)),
{
    let vb = values_bytes(vals);
    lemma_values_len(vals);
    lemma_cprod(shape);
    assert(supported(f32_h5_dtype()));
    assert(vb.take(vb.len() as int) =~= vb);
    assert((da as u64) as usize as int == da);
}

/// A header read as a dataset adds it to what was found.
#[verifier::rlimit(40)]
#[verifier::spinoff_prover]
proof fn lemma_visit_dataset_header(f: Seq<u8>, path: Seq<char>, addr: int, seen: Seq<int>, out: Seq<DsView>,
    msgs: Seq<(int, int)>, shape: Seq<usize>, lv: LayoutView, data: Seq<u8>)
    requires
        !seen.contains(addr),
        0 <= addr < f.len(),
        seen.len() < f.len(),
        spec_messages(f, addr) == Some(msgs),
        spec_obj(f, msgs, 0, empty_obj()) == Some(ObjView {
            dims: Some(shape),
            dtype: Some(f32_h5_dtype()),
            layout: Some(Some(lv)),
            symtab: None,
            filters: Seq::empty(),
        }),
        spec_dataset_bytes(f, shape, f32_h5_dtype(), lv, Seq::empty()) == Some(data),
    ensures
        spec_visit(f, path, addr, seen, out) == Some((
            out.push(DsView { name: path, dims: shape, dtype: f32_h5_dtype(), data }),
            seen.push(addr),
        )),
{
}

/// A dataset object header the writer emits, read at its address inside
/// any file that begins with what the writer had written by then, gives
/// the dataset: its path, its shape, little-endian f32 elements, and the
/// bytes of exactly the values written.
#[verifier::rlimit(100)]
#[verifier::spinoff_prover]
pub proof fn lemma_visit_written_dataset(f: Seq<u8>, b: Seq<u8>, shape: Seq<usize>, vals: Seq<u32>,
    path: Seq<char>, seen: Seq<int>, out: Seq<DsView>)
    requires
        shape.len() <= 255,
        shape_product(shape) == vals.len(),
        forall|k: int| 0 <= k <= shape.len() ==> #[trigger] shape_product(shape.take(k)) <= usize::MAX,
        vals.len() * 4 <= usize::MAX,
        emit_dataset(b, shape, vals).0.len() <= f.len() <= usize::MAX,
        f.take(emit_dataset(b, shape, vals).0.len() as int) == emit_dataset(b, shape, vals).0,
        !seen.contains(emit_dataset(b, shape, vals).1),
        seen.len() < f.len(),
    ensures
        spec_visit(f, path, emit_dataset(b, shape, vals).1, seen, out) == Some((
            out.push(DsView { name: path, dims: shape, dtype: f32_h5_dtype(), data: values_bytes(vals) }),
            seen.push(emit_dataset(b, shape, vals).1),
        )),
{
    let r = shape.len() as int;
    let da = align8(b).len() as int;
    let size = vals.len() * 4int;
    let addr = emit_dataset(b, shape, vals).1;
    lemma_values_len(vals);
    lemma_dataset_in_file(f, b, shape, vals);
    lemma_header_pieces(f, addr, shape, da, size);
    lemma_header_messages(f, addr, shape, da, size);
    lemma_header_values(f, addr, shape, da, size);
    let msgs = seq![(1int, addr + 24), (3int, addr + 40 + 8 * r), (5int, addr + 72 + 8 * r), (8int, addr + 88 + 8 * r)];
    let lv = LayoutView::Contiguous(da as u64, size);
    assert(size as usize as int == size);
    lemma_walk_obj(f, msgs, shape, lv);
    lemma_data_bytes(f, shape, vals, da);
    lemma_visit_dataset_header(f, path, addr, seen, out, msgs, shape, lv, values_bytes(vals));
}

} // verus!
