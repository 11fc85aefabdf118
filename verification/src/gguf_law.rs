//! What reading gives back of a written GGUF file.

use vstd::prelude::*;
use vstd::utf8::*;
use crate::bytes::{le16_at, le32_at, le64_at, le16_bytes, le32_bytes, le64_bytes,
    lemma_le16_roundtrip, lemma_le32_roundtrip, lemma_le64_roundtrip};
use crate::gguf::{GVal, TensorView, WriteView, HeaderView, gguf_str_at, gguf_value_at, gguf_items_at,
    gguf_kvs_at, gguf_tensor_at, gguf_tensors_at, gv_type_id, value_bytes, items_bytes, str_bytes,
    array_elem_type, kv_bytes, info_bytes, infos_bytes, dims_rev_bytes, le64_run, keys_unique, key_index,
    meta_insert, payloads_total, payload_section, padded, zeros, gguf_head, spec_write_gguf, spec_read_gguf,
    spec_gguf_header, spec_alignment, round_up, meta_lookup, gv_as_u64, lemma_key_index,
    lemma_payload_section_len, lemma_payloads_total_prefix};
use crate::gguf_quant::is_known_type_id;

verus! {

/// `x` sits in `s` at `p`.
pub open spec fn holds_at(s: Seq<u8>, p: int, x: Seq<u8>) -> bool {
    0 <= p && p + x.len() <= s.len() && s.subrange(p, p + x.len()) == x
}

pub proof fn lemma_split(s: Seq<u8>, p: int, a: Seq<u8>, b: Seq<u8>)
    requires
        holds_at(s, p, a + b),
    ensures
        holds_at(s, p, a),
        holds_at(s, p + a.len(), b),
{
    let w = s.subrange(p, p + a.len() + b.len());
    assert(w =~= a + b);
    assert(s.subrange(p, p + a.len()) =~= w.subrange(0, a.len() as int));
    assert(s.subrange(p + a.len(), p + a.len() + b.len()) =~= w.subrange(a.len() as int, (a.len() + b.len()) as int));
    assert(w.subrange(0, a.len() as int) =~= a);
    assert(w.subrange(a.len() as int, (a.len() + b.len()) as int) =~= b);
}

/// Values that the reader gives back as they were written: arrays whose
/// items all have the type of the first, nested at most four deep.
pub open spec fn storable(v: GVal, d: int) -> bool
    decreases v,
{
    d <= 4 && match v {
        GVal::Array(items) => all_storable(items, array_elem_type(items), d + 1),
        _ => true,
    }
}

/// Every item has type `t` and is [`storable`] at depth `d`.
pub open spec fn all_storable(items: Seq<GVal>, t: u32, d: int) -> bool
    decreases items,
{
    items.len() == 0 || (all_storable(items.subrange(0, items.len() - 1), t, d)
        && gv_type_id(items[items.len() - 1]) == t && storable(items[items.len() - 1], d))
}

proof fn lemma_all_storable_at(items: Seq<GVal>, t: u32, d: int, k: int)
    requires
        all_storable(items, t, d),
        0 <= k < items.len(),
    ensures
        gv_type_id(items[k]) == t,
        storable(items[k], d),
    decreases items.len(),
{
    if k < items.len() - 1 {
        let init = items.subrange(0, items.len() - 1);
        lemma_all_storable_at(init, t, d, k);
        assert(init[k] == items[k]);
    }
}

proof fn lemma_value_bytes_nonempty(v: GVal)
    ensures
        value_bytes(v).len() >= 1,
{
    match v {
        GVal::Str(cs) => {},
        GVal::Array(items) => {},
        _ => {},
    }
}

proof fn lemma_items_bytes_len(items: Seq<GVal>)
    ensures
        items_bytes(items).len() >= items.len(),
    decreases items.len(),
{
    if items.len() > 0 {
        lemma_items_bytes_len(items.subrange(0, items.len() - 1));
        lemma_value_bytes_nonempty(items[items.len() - 1]);
    }
}

/// The stored bytes of the first `k` items start the stored bytes of all.
proof fn lemma_items_bytes_prefix(items: Seq<GVal>, k: int)
    requires
        0 <= k <= items.len(),
    ensures
        items_bytes(items.take(k)).len() <= items_bytes(items).len(),
        items_bytes(items).subrange(0, items_bytes(items.take(k)).len() as int) == items_bytes(items.take(k)),
    decreases items.len() - k,
{
    if k == items.len() {
        assert(items.take(k) =~= items);
    } else {
        let n = items.len() as int;
        let init = items.subrange(0, n - 1);
        lemma_items_bytes_prefix(init, k);
        assert(init.take(k) =~= items.take(k));
        let a = items_bytes(init);
        let b = items_bytes(items.take(k));
        assert(items_bytes(items) == a + value_bytes(items[n - 1]));
        assert((a + value_bytes(items[n - 1])).subrange(0, b.len() as int) =~= a.subrange(0, b.len() as int));
    }
}

/// A stored string at `p` reads back as that string.
pub proof fn lemma_read_str(s: Seq<u8>, p: int, cs: Seq<char>)
    requires
        holds_at(s, p, str_bytes(cs)),
        s.len() <= usize::MAX,
    ensures
        gguf_str_at(s, p) == Some((cs, p + str_bytes(cs).len())),
{
    broadcast use {encode_utf8_valid_utf8, encode_utf8_decode_utf8};
    let enc = encode_utf8(cs);
    lemma_split(s, p, le64_bytes(enc.len() as int), enc);
    lemma_le64_roundtrip(s, p, enc.len() as int);
    assert(s.subrange(p + 8, p + 8 + enc.len()) == enc);
}

proof fn lemma_small_casts(x8: i8, x16: i16, x32: i32, x64: i64)
    ensures
        (x8 as u8) as i8 == x8,
        (x16 as u16) as i16 == x16,
        (x32 as u32) as i32 == x32,
        (x64 as u64) as i64 == x64,
{
    assert((x8 as u8) as i8 == x8) by (bit_vector);
    assert((x16 as u16) as i16 == x16) by (bit_vector);
    assert((x32 as u32) as i32 == x32) by (bit_vector);
    assert((x64 as u64) as i64 == x64) by (bit_vector);
}

/// A stored value at `p` reads back as that value, at any depth where it
/// is [`storable`].
pub proof fn lemma_read_value(s: Seq<u8>, p: int, v: GVal, d: int)
    requires
        storable(v, d),
        holds_at(s, p, value_bytes(v)),
        s.len() <= usize::MAX,
    ensures
        gguf_value_at(s, p, gv_type_id(v), d) == Some((v, p + value_bytes(v).len())),
    decreases v, 0nat,
{
    let b = value_bytes(v);
    assert(s[p] == b[0]) by {
        assert(s.subrange(p, p + b.len())[0] == s[p]);
    }
    match v {
        GVal::U8(x) => {},
        GVal::I8(x) => {
            lemma_small_casts(x, 0, 0, 0);
        },
        GVal::Bool(x) => {},
        GVal::U16(x) => lemma_le16_roundtrip(s, p, x as int),
        GVal::I16(x) => {
            lemma_le16_roundtrip(s, p, (x as u16) as int);
            lemma_small_casts(0, x, 0, 0);
        },
        GVal::U32(x) => lemma_le32_roundtrip(s, p, x as int),
        GVal::I32(x) => {
            lemma_le32_roundtrip(s, p, (x as u32) as int);
            lemma_small_casts(0, 0, x, 0);
        },
        GVal::F32(x) => lemma_le32_roundtrip(s, p, x as int),
        GVal::U64(x) => lemma_le64_roundtrip(s, p, x as int),
        GVal::I64(x) => {
            lemma_le64_roundtrip(s, p, (x as u64) as int);
            lemma_small_casts(0, 0, 0, x);
        },
        GVal::F64(x) => lemma_le64_roundtrip(s, p, x as int),
        GVal::Str(cs) => lemma_read_str(s, p, cs),
        GVal::Array(items) => lemma_read_array(s, p, items, d),
    }
}

proof fn lemma_read_array(s: Seq<u8>, p: int, items: Seq<GVal>, d: int)
    requires
        storable(GVal::Array(items), d),
        holds_at(s, p, value_bytes(GVal::Array(items))),
        s.len() <= usize::MAX,
    ensures
        gguf_value_at(s, p, 9, d) == Some((GVal::Array(items), p + value_bytes(GVal::Array(items)).len())),
    decreases items, 2nat,
{
    let t = array_elem_type(items);
    let n = items.len() as int;
    let body = items_bytes(items);
    lemma_split(s, p, le32_bytes(t as int) + le64_bytes(n), body);
    lemma_split(s, p, le32_bytes(t as int), le64_bytes(n));
    lemma_le32_roundtrip(s, p, t as int);
    lemma_items_bytes_len(items);
    lemma_le64_roundtrip(s, p + 4, n);
    lemma_read_items(s, p + 12, items, t, d + 1, n);
    assert(items.take(n) =~= items);
}

/// The first `k` stored items at `p` read back as those items.
pub proof fn lemma_read_items(s: Seq<u8>, p: int, items: Seq<GVal>, t: u32, d: int, k: int)
    requires
        all_storable(items, t, d),
        holds_at(s, p, items_bytes(items)),
        0 <= k <= items.len(),
        s.len() <= usize::MAX,
    ensures
        gguf_items_at(s, p, t, d, k as nat) == Some((items.take(k), p + items_bytes(items.take(k)).len())),
    decreases items, 1nat, k,
{
    if k == 0 {
        assert(items.take(0) =~= Seq::<GVal>::empty());
    } else {
        lemma_read_items(s, p, items, t, d, k - 1);
        let tk = items.take(k);
        assert(tk.subrange(0, k - 1) =~= items.take(k - 1));
        assert(items_bytes(tk) == items_bytes(items.take(k - 1)) + value_bytes(items[k - 1]));
        lemma_items_bytes_prefix(items, k);
        let whole = items_bytes(items);
        let pre = items_bytes(tk);
        assert(holds_at(s, p, pre)) by {
            assert(s.subrange(p, p + pre.len()) =~= whole.subrange(0, pre.len() as int));
        }
        lemma_split(s, p, items_bytes(items.take(k - 1)), value_bytes(items[k - 1]));
        lemma_all_storable_at(items, t, d, k - 1);
        lemma_read_value(s, p + items_bytes(items.take(k - 1)).len(), items[k - 1], d);
        assert(items.take(k - 1).push(items[k - 1]) =~= tk);
    }
}


// ---------------------------------------------------------------------
// Metadata entries
// ---------------------------------------------------------------------

proof fn lemma_kv_concat(a: Seq<(Seq<char>, GVal)>, b: Seq<(Seq<char>, GVal)>)
    ensures
        kv_bytes(a + b) == kv_bytes(a) + kv_bytes(b),
    decreases b.len(),
{
    if b.len() == 0 {
        assert(a + b =~= a);
        assert(kv_bytes(a) + kv_bytes(b) =~= kv_bytes(a));
    } else {
        let bi = b.drop_last();
        lemma_kv_concat(a, bi);
        assert((a + b).drop_last() =~= a + bi);
        assert((a + b).last() == b.last());
        let (k, v) = b.last();
        let tail = str_bytes(k) + le32_bytes(gv_type_id(v) as int) + value_bytes(v);
        assert(kv_bytes(a + b) =~= kv_bytes(a) + kv_bytes(bi) + tail);
        assert(kv_bytes(b) == kv_bytes(bi) + tail);
        assert(kv_bytes(a) + kv_bytes(b) =~= kv_bytes(a) + kv_bytes(bi) + tail);
    }
}

proof fn lemma_kv_bytes_prefix(m: Seq<(Seq<char>, GVal)>, k: int)
    requires
        0 <= k <= m.len(),
    ensures
        kv_bytes(m.take(k)).len() <= kv_bytes(m).len(),
        kv_bytes(m).subrange(0, kv_bytes(m.take(k)).len() as int) == kv_bytes(m.take(k)),
    decreases m.len() - k,
{
    if k == m.len() {
        assert(m.take(k) =~= m);
    } else {
        let init = m.drop_last();
        lemma_kv_bytes_prefix(init, k);
        assert(init.take(k) =~= m.take(k));
        let a = kv_bytes(init);
        let b = kv_bytes(m.take(k));
        let (kk, v) = m.last();
        let tail = str_bytes(kk) + le32_bytes(gv_type_id(v) as int) + value_bytes(v);
        assert(kv_bytes(m) == a + tail);
        assert((a + tail).subrange(0, b.len() as int) =~= a.subrange(0, b.len() as int));
    }
}

/// Stored metadata entries with distinct keys read back as those entries.
#[verifier::rlimit(100)]
#[verifier::spinoff_prover]
proof fn lemma_read_kvs(s: Seq<u8>, p: int, m: Seq<(Seq<char>, GVal)>, k: int)
    requires
        keys_unique(m),
        forall|i: int| 0 <= i < m.len() ==> storable(#[trigger] m[i].1, 0),
        holds_at(s, p, kv_bytes(m)),
        0 <= k <= m.len(),
        s.len() <= usize::MAX,
    ensures
        gguf_kvs_at(s, p, k as nat) == Some((m.take(k), p + kv_bytes(m.take(k)).len())),
    decreases k,
{
    if k == 0 {
        assert(m.take(0) =~= Seq::<(Seq<char>, GVal)>::empty());
    } else {
        lemma_read_kvs(s, p, m, k - 1);
        let prev = m.take(k - 1);
        let tk = m.take(k);
        assert(tk.drop_last() =~= prev);
        let (key, v) = m[k - 1];
        assert(tk.last() == m[k - 1]);
        let q = p + kv_bytes(prev).len();
        lemma_kv_bytes_prefix(m, k);
        let whole = kv_bytes(m);
        let pre = kv_bytes(tk);
        assert(holds_at(s, p, pre)) by {
            assert(s.subrange(p, p + pre.len()) =~= whole.subrange(0, pre.len() as int));
        }
        let sb = str_bytes(key);
        let tb = le32_bytes(gv_type_id(v) as int);
        let vb = value_bytes(v);
        assert(pre =~= kv_bytes(prev) + (sb + tb + vb));
        lemma_split(s, p, kv_bytes(prev), sb + tb + vb);
        lemma_split(s, q, sb + tb, vb);
        lemma_split(s, q, sb, tb);
        lemma_read_str(s, q, key);
        lemma_le32_roundtrip(s, q + sb.len(), gv_type_id(v) as int);
        assert(storable(m[k - 1].1, 0));
        lemma_read_value(s, q + sb.len() + 4, v, 0);
        lemma_key_index(prev, key);
        if key_index(prev, key) >= 0 {
            let j = key_index(prev, key);
            assert(prev[j] == m[j]);
            assert(false);
        }
        assert(meta_insert(prev, key, v) =~= tk);
    }
}

// ---------------------------------------------------------------------
// Tensor descriptors
// ---------------------------------------------------------------------

/// A row-major shape's dims in GGML order.
pub open spec fn written_dims(shape: Seq<usize>) -> Seq<u64> {
    Seq::new(shape.len(), |j: int| shape[shape.len() - 1 - j] as u64)
}

/// The descriptor that reading gives for tensor `i` of a written file.
pub open spec fn written_tensor(ts: Seq<WriteView>, i: int) -> TensorView {
    TensorView {
        name: ts[i].name,
        dims: written_dims(ts[i].shape),
        type_id: ts[i].type_id,
        offset: payloads_total(ts.take(i)) as u64,
    }
}

/// The descriptors that reading gives for a written file.
pub open spec fn written_tensors(ts: Seq<WriteView>) -> Seq<TensorView> {
    Seq::new(ts.len(), |i: int| written_tensor(ts, i))
}

proof fn lemma_read_dims(s: Seq<u8>, p: int, shape: Seq<usize>)
    requires
        holds_at(s, p, dims_rev_bytes(shape)),
    ensures
        dims_rev_bytes(shape).len() == 8 * shape.len(),
        le64_run(s, p, shape.len()) == written_dims(shape),
    decreases shape.len(),
{
    if shape.len() > 0 {
        let n = shape.len() as int;
        let init = shape.drop_last();
        lemma_split(s, p, le64_bytes(shape.last() as int), dims_rev_bytes(init));
        lemma_read_dims(s, p + 8, init);
        lemma_le64_roundtrip(s, p, shape.last() as int);
        assert forall|j: int| 0 <= j < n implies #[trigger] le64_run(s, p, n as nat)[j] == written_dims(shape)[j] by {
            if j > 0 {
                assert(le64_run(s, p + 8, (n - 1) as nat)[j - 1] == written_dims(init)[j - 1]);
                assert(p + 8 + 8 * (j - 1) == p + 8 * j);
            }
        }
        assert(le64_run(s, p, n as nat) =~= written_dims(shape));
    } else {
        assert(le64_run(s, p, 0) =~= written_dims(shape));
    }
}

#[verifier::rlimit(60)]
proof fn lemma_read_tensor(s: Seq<u8>, q: int, t: WriteView, off: int)
    requires
        holds_at(s, q, info_bytes(t, off)),
        t.shape.len() <= 4,
        is_known_type_id(t.type_id),
        0 <= off <= usize::MAX,
        s.len() <= usize::MAX,
    ensures
        gguf_tensor_at(s, q) == Some((TensorView {
            name: t.name,
            dims: written_dims(t.shape),
            type_id: t.type_id,
            offset: off as u64,
        }, q + info_bytes(t, off).len())),
{
    let sb = str_bytes(t.name);
    let nb = le32_bytes((t.shape.len() as u32) as int);
    let db = dims_rev_bytes(t.shape);
    let ib = le32_bytes(t.type_id as int);
    let ob = le64_bytes(off);
    assert(info_bytes(t, off) == sb + nb + db + ib + ob);
    lemma_split(s, q, sb + nb + db + ib, ob);
    lemma_split(s, q, sb + nb + db, ib);
    lemma_split(s, q, sb + nb, db);
    lemma_split(s, q, sb, nb);
    lemma_read_str(s, q, t.name);
    let q1 = q + sb.len();
    lemma_le32_roundtrip(s, q1, (t.shape.len() as u32) as int);
    lemma_read_dims(s, q1 + 4, t.shape);
    let q2 = q1 + 4 + 8 * t.shape.len();
    lemma_le32_roundtrip(s, q2, t.type_id as int);
    lemma_le64_roundtrip(s, q2 + 4, off);
}

proof fn lemma_infos_bytes_prefix(ts: Seq<WriteView>, k: int)
    requires
        0 <= k <= ts.len(),
    ensures
        infos_bytes(ts.take(k)).len() <= infos_bytes(ts).len(),
        infos_bytes(ts).subrange(0, infos_bytes(ts.take(k)).len() as int) == infos_bytes(ts.take(k)),
    decreases ts.len() - k,
{
    if k == ts.len() {
        assert(ts.take(k) =~= ts);
    } else {
        let init = ts.drop_last();
        lemma_infos_bytes_prefix(init, k);
        assert(init.take(k) =~= ts.take(k));
        let a = infos_bytes(init);
        let b = infos_bytes(ts.take(k));
        let tail = info_bytes(ts.last(), payloads_total(init));
        assert(infos_bytes(ts) == a + tail);
        assert((a + tail).subrange(0, b.len() as int) =~= a.subrange(0, b.len() as int));
    }
}

/// Stored tensor descriptors read back with GGML-order dims and the
/// offsets of the aligned payloads.
#[verifier::rlimit(60)]
proof fn lemma_read_tensors(s: Seq<u8>, p: int, ts: Seq<WriteView>, k: int)
    requires
        forall|i: int| 0 <= i < ts.len() ==> (#[trigger] ts[i]).shape.len() <= 4 && is_known_type_id(ts[i].type_id),
        holds_at(s, p, infos_bytes(ts)),
        payloads_total(ts) <= usize::MAX,
        0 <= k <= ts.len(),
        s.len() <= usize::MAX,
    ensures
        gguf_tensors_at(s, p, k as nat) == Some((written_tensors(ts).take(k), p + infos_bytes(ts.take(k)).len())),
    decreases k,
{
    if k == 0 {
        assert(written_tensors(ts).take(0) =~= Seq::<TensorView>::empty());
    } else {
        lemma_read_tensors(s, p, ts, k - 1);
        let prev = ts.take(k - 1);
        let tk = ts.take(k);
        assert(tk.drop_last() =~= prev);
        assert(tk.last() == ts[k - 1]);
        let off = payloads_total(prev);
        lemma_payloads_total_prefix(ts, k - 1);
        lemma_payload_section_len(prev);
        lemma_infos_bytes_prefix(ts, k);
        let whole = infos_bytes(ts);
        let pre = infos_bytes(tk);
        assert(holds_at(s, p, pre)) by {
            assert(s.subrange(p, p + pre.len()) =~= whole.subrange(0, pre.len() as int));
        }
        assert(pre == infos_bytes(prev) + info_bytes(ts[k - 1], off));
        lemma_split(s, p, infos_bytes(prev), info_bytes(ts[k - 1], off));
        assert(ts[k - 1].shape.len() <= 4 && is_known_type_id(ts[k - 1].type_id));
        lemma_read_tensor(s, p + infos_bytes(prev).len(), ts[k - 1], off);
        assert(written_tensors(ts).take(k - 1).push(written_tensor(ts, k - 1)) =~= written_tensors(ts).take(k));
    }
}


// ---------------------------------------------------------------------
// Whole file
// ---------------------------------------------------------------------

/// The metadata a written file holds: the alignment entry, then `m`.
pub open spec fn written_metadata(m: Seq<(Seq<char>, GVal)>) -> Seq<(Seq<char>, GVal)> {
    seq![("general.alignment"@, GVal::U32(32))] + m
}

#[verifier::rlimit(60)]
proof fn lemma_written_metadata_bytes(m: Seq<(Seq<char>, GVal)>)
    ensures
        kv_bytes(written_metadata(m)) == str_bytes("general.alignment"@) + le32_bytes(4) + le32_bytes(32) + kv_bytes(m),
{
    let ga = "general.alignment"@;
    let one = seq![(ga, GVal::U32(32))];
    assert(written_metadata(m) == one + m);
    lemma_kv_concat(one, m);
    let empty = Seq::<(Seq<char>, GVal)>::empty();
    assert(one.drop_last() =~= empty);
    assert(one.last() == (ga, GVal::U32(32)));
    assert(kv_bytes(empty) =~= Seq::<u8>::empty());
    assert(value_bytes(GVal::U32(32)) == le32_bytes(32));
    assert(gv_type_id(GVal::U32(32)) == 4);
    let sb = str_bytes(ga);
    assert(kv_bytes(one) == kv_bytes(empty) + sb + le32_bytes(4) + le32_bytes(32));
    assert(kv_bytes(one) =~= sb + le32_bytes(4) + le32_bytes(32));
}

proof fn lemma_written_metadata_entries(m: Seq<(Seq<char>, GVal)>)
    requires
        keys_unique(m),
        forall|i: int| 0 <= i < m.len() ==> (#[trigger] m[i]).0 != "general.alignment"@ && storable(m[i].1, 0),
    ensures
        keys_unique(written_metadata(m)),
        forall|i: int| 0 <= i < written_metadata(m).len() ==> storable(#[trigger] written_metadata(m)[i].1, 0),
{
    let m2 = written_metadata(m);
    assert forall|i: int, j: int| 0 <= i < j < m2.len() implies m2[i].0 != m2[j].0 by {
        assert(m2[j] == m[j - 1]);
        if i > 0 {
            assert(m2[i] == m[i - 1]);
        }
    }
    assert forall|i: int| 0 <= i < m2.len() implies storable(#[trigger] m2[i].1, 0) by {
        if i > 0 {
            assert(m2[i] == m[i - 1]);
        }
    }
}

proof fn lemma_written_alignment(m: Seq<(Seq<char>, GVal)>)
    requires
        forall|i: int| 0 <= i < m.len() ==> (#[trigger] m[i]).0 != "general.alignment"@,
    ensures
        spec_alignment(written_metadata(m)) == 32,
{
    let ga = "general.alignment"@;
    let m2 = written_metadata(m);
    lemma_key_index(m2, ga);
    if key_index(m2, ga) > 0 {
        assert(m2[key_index(m2, ga)] == m[key_index(m2, ga) - 1]);
    }
    assert(m2[0].0 == ga);
    assert(key_index(m2, ga) == 0);
    assert(meta_lookup(m2, ga) == Some(GVal::U32(32)));
}

#[verifier::rlimit(60)]
proof fn lemma_written_head(s: Seq<u8>, m: Seq<(Seq<char>, GVal)>, ts: Seq<WriteView>)
    requires
        holds_at(s, 0, gguf_head(m, ts)),
        kv_bytes(written_metadata(m)) == str_bytes("general.alignment"@) + le32_bytes(4) + le32_bytes(32) + kv_bytes(m),
        m.len() + 1 <= 0x100_0000,
        ts.len() <= 0x100_0000,
    ensures
        s.len() >= 24,
        s[0] == 0x47 && s[1] == 0x47 && s[2] == 0x55 && s[3] == 0x46,
        le32_at(s, 4) == 3,
        le64_at(s, 8) == ts.len(),
        le64_at(s, 16) == m.len() + 1,
        holds_at(s, 24, kv_bytes(written_metadata(m))),
        holds_at(s, 24int + kv_bytes(written_metadata(m)).len(), infos_bytes(ts)),
        gguf_head(m, ts).len() == 24 + kv_bytes(written_metadata(m)).len() + infos_bytes(ts).len(),
{
    let m2 = written_metadata(m);
    let magic = seq![0x47u8, 0x47u8, 0x55u8, 0x46u8];
    let pre = magic + le32_bytes(3) + le64_bytes(ts.len() as int) + le64_bytes(m.len() + 1int);
    let h = gguf_head(m, ts);
    assert(h =~= pre + kv_bytes(m2) + infos_bytes(ts));
    lemma_split(s, 0, pre + kv_bytes(m2), infos_bytes(ts));
    lemma_split(s, 0, pre, kv_bytes(m2));
    lemma_split(s, 0, magic + le32_bytes(3) + le64_bytes(ts.len() as int), le64_bytes(m.len() + 1int));
    lemma_split(s, 0, magic + le32_bytes(3), le64_bytes(ts.len() as int));
    lemma_split(s, 0, magic, le32_bytes(3));
    assert(s.subrange(0, 4)[0] == s[0]);
    assert(s.subrange(0, 4)[1] == s[1]);
    assert(s.subrange(0, 4)[2] == s[2]);
    assert(s.subrange(0, 4)[3] == s[3]);
    lemma_le32_roundtrip(s, 4, 3);
    lemma_le64_roundtrip(s, 8, ts.len() as int);
    lemma_le64_roundtrip(s, 16, m.len() + 1int);
}

/// Reading back a written file gives version 3; the `general.alignment`
/// entry (a `u32` 32) followed by the given metadata entries; the tensor
/// descriptors with their dims in GGML order and offsets of the aligned
/// payloads; alignment 32; and a data section holding exactly the aligned
/// payloads. This holds for metadata with distinct keys, none of them
/// `general.alignment`, whose arrays are homogeneous and nested at most
/// four deep, for at most 2^24 - 1 entries and 2^24 tensors of at most
/// four dims each.
#[verifier::rlimit(60)]
pub proof fn lemma_read_written_gguf(m: Seq<(Seq<char>, GVal)>, ts: Seq<WriteView>)
    requires
        keys_unique(m),
        forall|i: int| 0 <= i < m.len() ==> (#[trigger] m[i]).0 != "general.alignment"@ && storable(m[i].1, 0),
        m.len() + 1 <= 0x100_0000,
        ts.len() <= 0x100_0000,
        forall|i: int| 0 <= i < ts.len() ==> (#[trigger] ts[i]).shape.len() <= 4 && is_known_type_id(ts[i].type_id),
        spec_write_gguf(m, ts).len() <= usize::MAX,
    ensures
        spec_read_gguf(spec_write_gguf(m, ts)) == Some((HeaderView {
            version: 3,
            metadata: written_metadata(m),
            tensors: written_tensors(ts),
            alignment: 32,
            data_start: padded(gguf_head(m, ts).len() as int),
        }, payload_section(ts))),
{
    let s = spec_write_gguf(m, ts);
    let h = gguf_head(m, ts);
    let hl = h.len() as int;
    assert(padded(hl) >= hl) by (nonlinear_arith)
        requires
            hl >= 0,
            padded(hl) == (if hl % 32 == 0 { hl } else { hl - hl % 32 + 32 }),
    ;
    let z = zeros(padded(hl) - hl);
    let ps = payload_section(ts);
    assert(s == h + z + ps);
    assert(holds_at(s, 0, h)) by {
        assert(s.subrange(0, hl) =~= h);
    }
    let m2 = written_metadata(m);
    lemma_written_metadata_bytes(m);
    lemma_written_metadata_entries(m);
    lemma_written_alignment(m);
    lemma_written_head(s, m, ts);
    lemma_read_kvs(s, 24, m2, m2.len() as int);
    assert(m2.take(m2.len() as int) =~= m2);
    let q: int = 24int + kv_bytes(m2).len();
    lemma_payload_section_len(ts);
    lemma_read_tensors(s, q, ts, ts.len() as int);
    assert(ts.take(ts.len() as int) =~= ts);
    assert(written_tensors(ts).take(ts.len() as int) =~= written_tensors(ts));
    assert(s.subrange(padded(hl), s.len() as int) =~= ps);
}

} // verus!
