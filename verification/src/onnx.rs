//! ONNX model reader: every graph initializer (weight) of a `.onnx` protobuf,
//! with its name, shape and stored data. Converting the data to floats is
//! left to the caller.

use vstd::prelude::*;
use crate::bytes::{le32_at, le64_at, read_le32, read_le64};
use crate::error::MmnError;
use crate::proto::{spec_fields, spec_packed_varints, packed_varints, walk_message, ProtoValue, SpecProtoValue};
use crate::zip::{lossy_string, lossy_utf8};

verus! {

/// The stored data of one tensor, as it sits in the file.
pub enum OnnxData {
    /// `raw_data` bytes with the element type code they hold.
    Raw(u64, Vec<u8>),
    /// `float_data` as IEEE-754 single-precision bit patterns.
    Float32(Vec<u32>),
    /// `double_data` as IEEE-754 double-precision bit patterns.
    Float64(Vec<u64>),
    /// `int32_data` / `int64_data` / `uint64_data` values.
    Ints(Vec<i64>),
    /// No data, for a tensor with no elements.
    Empty,
}

/// One initializer: name, dims and data.
pub struct OnnxArray {
    pub name: String,
    pub dims: Vec<usize>,
    pub data: OnnxData,
}

/// The content of [`OnnxData`].
pub enum SpecOnnxData {
    Raw(u64, Seq<u8>),
    Float32(Seq<u32>),
    Float64(Seq<u64>),
    Ints(Seq<i64>),
    Empty,
}

/// The content of [`OnnxArray`].
pub struct SpecOnnxArray {
    pub name: Seq<char>,
    pub dims: Seq<usize>,
    pub data: SpecOnnxData,
}

impl View for OnnxData {
    type V = SpecOnnxData;

    open spec fn view(&self) -> SpecOnnxData {
        match self {
            OnnxData::Raw(t, b) => SpecOnnxData::Raw(*t, b@),
            OnnxData::Float32(v) => SpecOnnxData::Float32(v@),
            OnnxData::Float64(v) => SpecOnnxData::Float64(v@),
            OnnxData::Ints(v) => SpecOnnxData::Ints(v@),
            OnnxData::Empty => SpecOnnxData::Empty,
        }
    }
}

impl View for OnnxArray {
    type V = SpecOnnxArray;

    open spec fn view(&self) -> SpecOnnxArray {
        SpecOnnxArray { name: self.name@, dims: self.dims@, data: self.data@ }
    }
}

/// The initializers of the model's graph, possibly none.
pub open spec fn spec_onnx_weights(bytes: Seq<u8>) -> Option<Seq<SpecOnnxArray>> {
    match spec_fields(bytes, 0) {
        None => None,
        Some(top) => match last_graph(top, top.len() as int) {
            None => None,
            Some(g) => match spec_fields(g, 0) {
                None => None,
                Some(gs) => spec_initializers(gs, gs.len() as int),
            },
        },
    }
}

/// The fields of a `TensorProto` gathered so far.
pub struct SpecTensor {
    pub name: Seq<char>,
    pub dims: Seq<usize>,
    pub data_type: u64,
    pub raw: Option<Seq<u8>>,
    pub floats: Seq<u32>,
    pub doubles: Seq<u64>,
    pub ints: Seq<i64>,
    pub external: bool,
}

/// A tensor with no fields seen yet.
pub open spec fn empty_tensor() -> SpecTensor {
    SpecTensor {
        name: Seq::empty(),
        dims: Seq::empty(),
        data_type: 0,
        raw: None,
        floats: Seq::empty(),
        doubles: Seq::empty(),
        ints: Seq::empty(),
        external: false,
    }
}

/// Little-endian 32-bit words of `b` (a trailing partial word is ignored).
pub open spec fn le32_words(b: Seq<u8>) -> Seq<u32> {
    Seq::new(b.len() / 4, |i: int| le32_at(b, 4 * i) as u32)
}

/// Little-endian 64-bit words of `b` (a trailing partial word is ignored).
pub open spec fn le64_words(b: Seq<u8>) -> Seq<u64> {
    Seq::new(b.len() / 8, |i: int| le64_at(b, 8 * i) as u64)
}

/// What one field does to the tensor gathered so far (`None`: a packed
/// field that does not decode).
pub open spec fn tensor_step(t: SpecTensor, field: u64, v: SpecProtoValue) -> Option<SpecTensor> {
    match v {
        SpecProtoValue::Varint(x) => if field == 1 {
            Some(SpecTensor { dims: t.dims.push(x as usize), ..t })
        } else if field == 2 {
            Some(SpecTensor { data_type: x, ..t })
        } else if field == 5 || field == 7 || field == 11 {
            Some(SpecTensor { ints: t.ints.push(x as i64), ..t })
        } else if field == 14 {
            Some(SpecTensor { external: x == 1, ..t })
        } else {
            Some(t)
        },
        SpecProtoValue::Bytes(b) => if field == 1 {
            match spec_packed_varints(b, 0) {
                Some(vs) => Some(SpecTensor { dims: t.dims + Seq::new(vs.len(), |i: int| vs[i] as usize), ..t }),
                None => None,
            }
        } else if field == 8 {
            Some(SpecTensor { name: lossy_utf8(b), ..t })
        } else if field == 9 {
            Some(SpecTensor { raw: Some(b), ..t })
        } else if field == 4 {
            Some(SpecTensor { floats: t.floats + le32_words(b), ..t })
        } else if field == 10 {
            Some(SpecTensor { doubles: t.doubles + le64_words(b), ..t })
        } else if field == 5 || field == 7 || field == 11 {
            match spec_packed_varints(b, 0) {
                Some(vs) => Some(SpecTensor { ints: t.ints + Seq::new(vs.len(), |i: int| vs[i] as i64), ..t }),
                None => None,
            }
        } else {
            Some(t)
        },
        SpecProtoValue::Fixed32(x) => if field == 4 {
            Some(SpecTensor { floats: t.floats.push(x), ..t })
        } else {
            Some(t)
        },
        SpecProtoValue::Fixed64(x) => if field == 10 {
            Some(SpecTensor { doubles: t.doubles.push(x), ..t })
        } else {
            Some(t)
        },
    }
}

/// The tensor the fields `fs[..k]` describe.
pub open spec fn gather_tensor(fs: Seq<(u64, SpecProtoValue)>, k: int) -> Option<SpecTensor>
    decreases k,
{
    if k <= 0 {
        Some(empty_tensor())
    } else {
        match gather_tensor(fs, k - 1) {
            None => None,
            Some(t) => tensor_step(t, fs[k - 1].0, fs[k - 1].1),
        }
    }
}

/// Bytes per element of a raw tensor of this type code (`None`: not numeric).
pub open spec fn raw_item_size(data_type: u64) -> Option<nat> {
    if data_type == 2 || data_type == 3 || data_type == 9 {
        Some(1)
    } else if data_type == 4 || data_type == 5 || data_type == 10 || data_type == 16 {
        Some(2)
    } else if data_type == 1 || data_type == 6 || data_type == 12 {
        Some(4)
    } else if data_type == 7 || data_type == 11 || data_type == 13 {
        Some(8)
    } else {
        None
    }
}

/// Product of the dims.
pub open spec fn dims_numel(dims: Seq<usize>) -> int
    decreases dims.len(),
{
    if dims.len() == 0 { 1 } else { dims_numel(dims.drop_last()) * dims.last() }
}

/// Every partial product of the dims, taken from the front, fits in a `usize`.
pub open spec fn dims_fit(dims: Seq<usize>) -> bool {
    forall|k: int| 0 <= k <= dims.len() ==> #[trigger] dims_numel(dims.take(k)) <= usize::MAX
}

/// The initializer a gathered tensor becomes, or `None` when it has external
/// data, unusable data, or a value count that does not match its shape.
pub open spec fn tensor_array(t: SpecTensor) -> Option<SpecOnnxArray> {
    let numel = dims_numel(t.dims);
    let picked: Option<(SpecOnnxData, int)> = match t.raw {
        Some(r) => match raw_item_size(t.data_type) {
            Some(item) => if r.len() % item == 0 { Some((SpecOnnxData::Raw(t.data_type, r), (r.len() / item) as int)) } else { None },
            None => None,
        },
        None => if t.floats.len() > 0 {
            Some((SpecOnnxData::Float32(t.floats), t.floats.len() as int))
        } else if t.doubles.len() > 0 {
            Some((SpecOnnxData::Float64(t.doubles), t.doubles.len() as int))
        } else if t.ints.len() > 0 {
            Some((SpecOnnxData::Ints(t.ints), t.ints.len() as int))
        } else if numel == 0 {
            Some((SpecOnnxData::Empty, 0))
        } else {
            None
        },
    };
    if t.external || !dims_fit(t.dims) {
        None
    } else {
        match picked {
            Some((data, count)) => if count == numel {
                Some(SpecOnnxArray { name: t.name, dims: t.dims, data })
            } else {
                None
            },
            None => None,
        }
    }
}

/// Raw initializer data is read at the element width of its ONNX data type:
/// 8 bytes for INT64 (7), DOUBLE (11) and UINT64 (13); 4 for FLOAT (1),
/// INT32 (6) and UINT32 (12); 2 for UINT16 (4), INT16 (5), FLOAT16 (10) and
/// BFLOAT16 (16); 1 for UINT8 (2), INT8 (3) and BOOL (9). A tensor with raw
/// data (stored inline, with a shape whose element count fits) is accepted
/// exactly when its byte length is that width times its element count, and
/// then keeps its name, shape, type code and bytes; any other type code is
/// refused.
pub proof fn lemma_raw_data_widths(t: SpecTensor)
    requires
        t.raw is Some,
        !t.external,
        dims_fit(t.dims),
    ensures
        t.data_type == 7 || t.data_type == 11 || t.data_type == 13
            ==> (tensor_array(t) is Some <==> t.raw->0.len() == 8 * dims_numel(t.dims)),
        t.data_type == 1 || t.data_type == 6 || t.data_type == 12
            ==> (tensor_array(t) is Some <==> t.raw->0.len() == 4 * dims_numel(t.dims)),
        t.data_type == 4 || t.data_type == 5 || t.data_type == 10 || t.data_type == 16
            ==> (tensor_array(t) is Some <==> t.raw->0.len() == 2 * dims_numel(t.dims)),
        t.data_type == 2 || t.data_type == 3 || t.data_type == 9
            ==> (tensor_array(t) is Some <==> t.raw->0.len() == dims_numel(t.dims)),
        !(t.data_type == 1 || t.data_type == 2 || t.data_type == 3 || t.data_type == 4 || t.data_type == 5
            || t.data_type == 6 || t.data_type == 7 || t.data_type == 9 || t.data_type == 10 || t.data_type == 11
            || t.data_type == 12 || t.data_type == 13 || t.data_type == 16) ==> tensor_array(t) is None,
        tensor_array(t) is Some ==> tensor_array(t)->0 == (SpecOnnxArray {
            name: t.name,
            dims: t.dims,
            data: SpecOnnxData::Raw(t.data_type, t.raw->0),
        }),
{
}

/// The initializer stored in a `TensorProto` body.
pub open spec fn spec_initializer(body: Seq<u8>) -> Option<SpecOnnxArray> {
    match spec_fields(body, 0) {
        None => None,
        Some(fs) => match gather_tensor(fs, fs.len() as int) {
            None => None,
            Some(t) => tensor_array(t),
        },
    }
}

/// The initializers (field 5) among the graph fields `gs[..k]`, in order.
pub open spec fn spec_initializers(gs: Seq<(u64, SpecProtoValue)>, k: int) -> Option<Seq<SpecOnnxArray>>
    decreases k,
{
    if k <= 0 {
        Some(Seq::empty())
    } else {
        match spec_initializers(gs, k - 1) {
            None => None,
            Some(done) => if gs[k - 1].0 == 5 && gs[k - 1].1 is Bytes {
                match spec_initializer(gs[k - 1].1->Bytes_0) {
                    None => None,
                    Some(a) => Some(done.push(a)),
                }
            } else {
                Some(done)
            },
        }
    }
}

/// The body of the last `graph` field (7) among `fs[..k]`.
pub open spec fn last_graph(fs: Seq<(u64, SpecProtoValue)>, k: int) -> Option<Seq<u8>>
    decreases k,
{
    if k <= 0 {
        None
    } else if fs[k - 1].0 == 7 && fs[k - 1].1 is Bytes {
        Some(fs[k - 1].1->Bytes_0)
    } else {
        last_graph(fs, k - 1)
    }
}

/// The initializers of an ONNX model, or `None` when it does not parse, has
/// no graph, a bad initializer, or no initializer at all.
pub open spec fn spec_read_onnx(bytes: Seq<u8>) -> Option<Seq<SpecOnnxArray>> {
    match spec_fields(bytes, 0) {
        None => None,
        Some(top) => match last_graph(top, top.len() as int) {
            None => None,
            Some(g) => match spec_fields(g, 0) {
                None => None,
                Some(gs) => match spec_initializers(gs, gs.len() as int) {
                    None => None,
                    Some(arrs) => if arrs.len() == 0 { None } else { Some(arrs) },
                },
            },
        },
    }
}

/// The fields of a `TensorProto` gathered so far.
struct TensorFields<'a> {
    name: String,
    dims: Vec<usize>,
    data_type: u64,
    raw: Option<&'a [u8]>,
    floats: Vec<u32>,
    doubles: Vec<u64>,
    ints: Vec<i64>,
    external: bool,
}

impl<'a> TensorFields<'a> {
    spec fn content(&self) -> SpecTensor {
        SpecTensor {
            name: self.name@,
            dims: self.dims@,
            data_type: self.data_type,
            raw: match self.raw {
                Some(r) => Some(r@),
                None => None,
            },
            floats: self.floats@,
            doubles: self.doubles@,
            ints: self.ints@,
            external: self.external,
        }
    }
}

/// Little-endian 32-bit words of `b`.
fn words32(b: &[u8]) -> (out: Vec<u32>)
    ensures
        out@ == le32_words(b@),
{
    let blen = b.len();
    let n = blen / 4;
    let mut out: Vec<u32> = Vec::with_capacity(n);
    let mut i: usize = 0;
    while i < n
        invariant
            blen == b@.len(),
            n == b@.len() / 4,
            i <= n,
            out@ == le32_words(b@).take(i as int),
        decreases n - i,
    {
        assert(4 * i + 4 <= b@.len());
        out.push(read_le32(b, 4 * i));
        i = i + 1;
        assert(out@ =~= le32_words(b@).take(i as int));
    }
    assert(le32_words(b@).take(n as int) =~= le32_words(b@));
    out
}

/// Little-endian 64-bit words of `b`.
fn words64(b: &[u8]) -> (out: Vec<u64>)
    ensures
        out@ == le64_words(b@),
{
    let blen = b.len();
    let n = blen / 8;
    let mut out: Vec<u64> = Vec::with_capacity(n);
    let mut i: usize = 0;
    while i < n
        invariant
            blen == b@.len(),
            n == b@.len() / 8,
            i <= n,
            out@ == le64_words(b@).take(i as int),
        decreases n - i,
    {
        assert(8 * i + 8 <= b@.len());
        out.push(read_le64(b, 8 * i));
        i = i + 1;
        assert(out@ =~= le64_words(b@).take(i as int));
    }
    assert(le64_words(b@).take(n as int) =~= le64_words(b@));
    out
}

/// Append `vs`, each taken as a `usize`.
fn push_as_usize(out: &mut Vec<usize>, vs: &Vec<u64>)
    ensures
        final(out)@ == old(out)@ + Seq::new(vs@.len(), |i: int| vs@[i] as usize),
{
    let mut i: usize = 0;
    while i < vs.len()
        invariant
            i <= vs@.len(),
            out@ == old(out)@ + Seq::new(i as nat, |j: int| vs@[j] as usize),
        decreases vs@.len() - i,
    {
        out.push(vs[i] as usize);
        i = i + 1;
        assert(out@ =~= old(out)@ + Seq::new(i as nat, |j: int| vs@[j] as usize));
    }
    assert(Seq::new(i as nat, |j: int| vs@[j] as usize) =~= Seq::new(vs@.len(), |j: int| vs@[j] as usize));
}

/// Append `vs`, each taken as an `i64`.
fn push_as_i64(out: &mut Vec<i64>, vs: &Vec<u64>)
    ensures
        final(out)@ == old(out)@ + Seq::new(vs@.len(), |i: int| vs@[i] as i64),
{
    let mut i: usize = 0;
    while i < vs.len()
        invariant
            i <= vs@.len(),
            out@ == old(out)@ + Seq::new(i as nat, |j: int| vs@[j] as i64),
        decreases vs@.len() - i,
    {
        out.push(vs[i] as i64);
        i = i + 1;
        assert(out@ =~= old(out)@ + Seq::new(i as nat, |j: int| vs@[j] as i64));
    }
    assert(Seq::new(i as nat, |j: int| vs@[j] as i64) =~= Seq::new(vs@.len(), |j: int| vs@[j] as i64));
}

/// Apply one field of a `TensorProto` to the tensor gathered so far.
fn apply_field<'a>(t: &mut TensorFields<'a>, field: u64, v: &ProtoValue<'a>) -> (r: Result<(), MmnError>)
    ensures
        match tensor_step(old(t).content(), field, v@) {
            Some(n) => r is Ok && final(t).content() == n,
            None => r is Err,
        },
{
    match v {
        ProtoValue::Varint(x) => {
            if field == 1 {
                t.dims.push(*x as usize);
            } else if field == 2 {
                t.data_type = *x;
            } else if field == 5 || field == 7 || field == 11 {
                t.ints.push(*x as i64);
            } else if field == 14 {
                t.external = *x == 1;
            }
        },
        ProtoValue::Bytes(b) => {
            if field == 1 {
                let vs = packed_varints(b)?;
                push_as_usize(&mut t.dims, &vs);
            } else if field == 8 {
                t.name = lossy_string(b);
            } else if field == 9 {
                t.raw = Some(*b);
            } else if field == 4 {
                let mut words = words32(b);
                t.floats.append(&mut words);
            } else if field == 10 {
                let mut words = words64(b);
                t.doubles.append(&mut words);
            } else if field == 5 || field == 7 || field == 11 {
                let vs = packed_varints(b)?;
                push_as_i64(&mut t.ints, &vs);
            }
        },
        ProtoValue::Fixed32(x) => {
            if field == 4 {
                t.floats.push(*x);
            }
        },
        ProtoValue::Fixed64(x) => {
            if field == 10 {
                t.doubles.push(*x);
            }
        },
    }
    proof {
        match tensor_step(old(t).content(), field, v@) {
            Some(n) => {
                assert(t.content().dims =~= n.dims);
                assert(t.content().ints =~= n.ints);
                assert(t.content().floats =~= n.floats);
                assert(t.content().doubles =~= n.doubles);
            },
            None => {},
        }
    }
    Ok(())
}

proof fn lemma_gather_none_stays(fs: Seq<(u64, SpecProtoValue)>, k: int, m: int)
    requires
        0 <= k <= m,
        gather_tensor(fs, k) is None,
    ensures
        gather_tensor(fs, m) is None,
    decreases m - k,
{
    if k < m {
        lemma_gather_none_stays(fs, k, m - 1);
    }
}

proof fn lemma_initializers_none_stays(gs: Seq<(u64, SpecProtoValue)>, k: int, m: int)
    requires
        0 <= k <= m,
        spec_initializers(gs, k) is None,
    ensures
        spec_initializers(gs, m) is None,
    decreases m - k,
{
    if k < m {
        lemma_initializers_none_stays(gs, k, m - 1);
    }
}

/// Gather the fields of a `TensorProto` body.
fn parse_tensor<'a>(body: &'a [u8]) -> (r: Result<TensorFields<'a>, MmnError>)
    ensures
        match spec_fields(body@, 0) {
            None => r is Err,
            Some(fs) => match gather_tensor(fs, fs.len() as int) {
                Some(t) => r matches Ok(tf) && tf.content() == t,
                None => r is Err,
            },
        },
{
    let fields = walk_message(body)?;
    let ghost fs = spec_fields(body@, 0)->Some_0;
    let mut t = TensorFields {
        name: String::new(),
        dims: Vec::new(),
        data_type: 0,
        raw: None,
        floats: Vec::new(),
        doubles: Vec::new(),
        ints: Vec::new(),
        external: false,
    };
    proof {
        assert(t.content() == empty_tensor()) by {
            assert(t.content().name =~= empty_tensor().name);
            assert(t.content().dims =~= empty_tensor().dims);
            assert(t.content().floats =~= empty_tensor().floats);
            assert(t.content().doubles =~= empty_tensor().doubles);
            assert(t.content().ints =~= empty_tensor().ints);
        }
    }
    let mut i: usize = 0;
    while i < fields.len()
        invariant
            spec_fields(body@, 0) == Some(fs),
            fields@.len() == fs.len(),
            forall|k: int| 0 <= k < fs.len() ==> (#[trigger] fields@[k]).0 == fs[k].0 && fields@[k].1@ == fs[k].1,
            i <= fields@.len(),
            gather_tensor(fs, i as int) == Some(t.content()),
        decreases fields@.len() - i,
    {
        let entry = &fields[i];
        match apply_field(&mut t, entry.0, &entry.1) {
            Ok(()) => {},
            Err(e) => {
                proof {
                    lemma_gather_none_stays(fs, i + 1, fs.len() as int);
                }
                return Err(e);
            },
        }
        i = i + 1;
    }
    Ok(t)
}

/// Element size of a raw tensor of this type code.
fn raw_item_size_of(data_type: u64) -> (r: Option<usize>)
    ensures
        match raw_item_size(data_type) {
            Some(n) => r == Some(n as usize),
            None => r is None,
        },
{
    if data_type == 2 || data_type == 3 || data_type == 9 {
        Some(1)
    } else if data_type == 4 || data_type == 5 || data_type == 10 || data_type == 16 {
        Some(2)
    } else if data_type == 1 || data_type == 6 || data_type == 12 {
        Some(4)
    } else if data_type == 7 || data_type == 11 || data_type == 13 {
        Some(8)
    } else {
        None
    }
}

/// Product of the dims, or `None` when a partial product overflows.
fn checked_numel(dims: &Vec<usize>) -> (r: Option<usize>)
    ensures
        match r {
            Some(n) => dims_fit(dims@) && n == dims_numel(dims@),
            None => !dims_fit(dims@),
        },
{
    let mut p: usize = 1;
    let mut i: usize = 0;
    proof {
        assert(dims@.take(0) =~= Seq::<usize>::empty());
    }
    while i < dims.len()
        invariant
            i <= dims@.len(),
            p == dims_numel(dims@.take(i as int)),
            forall|k: int| 0 <= k <= i ==> #[trigger] dims_numel(dims@.take(k)) <= usize::MAX,
        decreases dims@.len() - i,
    {
        proof {
            assert(dims@.take(i + 1).drop_last() =~= dims@.take(i as int));
        }
        match p.checked_mul(dims[i]) {
            None => {
                proof {
                    assert(dims_numel(dims@.take(i + 1)) > usize::MAX);
                }
                return None;
            },
            Some(q) => {
                p = q;
            },
        }
        i = i + 1;
    }
    proof {
        assert(dims@.take(i as int) =~= dims@);
        assert forall|k: int| 0 <= k <= dims@.len() implies #[trigger] dims_numel(dims@.take(k)) <= usize::MAX by {}
    }
    Some(p)
}

/// Turn the gathered fields into an initializer.
fn tensor_to_array(t: TensorFields<'_>) -> (r: Result<OnnxArray, MmnError>)
    ensures
        match tensor_array(t.content()) {
            Some(a) => r matches Ok(x) && x@ == a,
            None => r is Err,
        },
{
    if t.external {
        return Err(MmnError::new("onnx tensor uses external data files; re-export with save_as_external_data=False"));
    }
    let numel = match checked_numel(&t.dims) {
        Some(n) => n,
        None => return Err(MmnError::new("onnx tensor element count overflows")),
    };
    let (data, count) = match t.raw {
        Some(r) => match raw_item_size_of(t.data_type) {
            Some(item) => {
                if r.len() % item != 0 {
                    return Err(MmnError::new("onnx tensor raw length not a multiple of its element size"));
                }
                (OnnxData::Raw(t.data_type, crate::bytes::copy_range(r, 0, r.len())), r.len() / item)
            },
            None => return Err(MmnError::new("onnx tensor data_type not supported (numeric types only)")),
        },
        None => {
            if t.floats.len() > 0 {
                let n = t.floats.len();
                (OnnxData::Float32(t.floats), n)
            } else if t.doubles.len() > 0 {
                let n = t.doubles.len();
                (OnnxData::Float64(t.doubles), n)
            } else if t.ints.len() > 0 {
                let n = t.ints.len();
                (OnnxData::Ints(t.ints), n)
            } else if numel == 0 {
                (OnnxData::Empty, 0)
            } else {
                return Err(MmnError::new("onnx tensor carries no data"));
            }
        },
    };
    if count != numel {
        return Err(MmnError::new("onnx tensor value count does not match its shape"));
    }
    proof {
        match t.raw {
            Some(r) => assert(r@.subrange(0, r@.len() as int) =~= r@),
            None => {},
        }
    }
    Ok(OnnxArray { name: t.name, dims: t.dims, data })
}

/// The initializers among the fields of a `GraphProto` body, in order.
fn collect_initializers(g: &[u8]) -> (r: Result<Vec<OnnxArray>, MmnError>)
    ensures
        match spec_fields(g@, 0) {
            None => r is Err,
            Some(gfs) => match spec_initializers(gfs, gfs.len() as int) {
                Some(arrs) => r matches Ok(v) && v@.len() == arrs.len()
                    && forall|i: int| 0 <= i < arrs.len() ==> (#[trigger] v@[i])@ == arrs[i],
                None => r is Err,
            },
        },
{
    let gfields = walk_message(g)?;
    let ghost gfs = spec_fields(g@, 0)->Some_0;
    let mut out: Vec<OnnxArray> = Vec::new();
    let mut j: usize = 0;
    while j < gfields.len()
        invariant
            spec_fields(g@, 0) == Some(gfs),
            gfields@.len() == gfs.len(),
            forall|k: int| 0 <= k < gfs.len() ==> (#[trigger] gfields@[k]).0 == gfs[k].0 && gfields@[k].1@ == gfs[k].1,
            j <= gfields@.len(),
            spec_initializers(gfs, j as int) matches Some(done) && done.len() == out@.len()
                && forall|k: int| 0 <= k < done.len() ==> (#[trigger] out@[k])@ == done[k],
        decreases gfields@.len() - j,
    {
        if gfields[j].0 == 5 {
            match gfields[j].1.as_bytes() {
                Some(body) => {
                    proof {
                        assert(gfs[j as int].1 == SpecProtoValue::Bytes(body@));
                    }
                    let parsed = match parse_tensor(body) {
                        Ok(t) => {
                            let ghost tc = t.content();
                            let res = tensor_to_array(t);
                            proof {
                                if res is Err {
                                    assert(tensor_array(tc) is None);
                                    assert(spec_initializer(body@) is None);
                                }
                            }
                            res
                        },
                        Err(e) => {
                            proof {
                                assert(spec_initializer(body@) is None);
                            }
                            Err(e)
                        },
                    };
                    match parsed {
                        Ok(a) => {
                            out.push(a);
                        },
                        Err(e) => {
                            proof {
                                assert(spec_initializer(body@) is None);
                                assert(spec_initializers(gfs, j as int) is Some);
                                assert(spec_initializers(gfs, j + 1) is None);
                                lemma_initializers_none_stays(gfs, j + 1, gfs.len() as int);
                            }
                            return Err(e);
                        },
                    }
                },
                None => {},
            }
        }
        j = j + 1;
    }
    proof {
        assert(spec_initializers(gfs, gfs.len() as int) matches Some(done) && done.len() == out@.len());
    }
    Ok(out)
}

/// Read every graph initializer (weight) of an ONNX model: name, dims and the
/// data as stored.
pub fn read_onnx_arrays_bytes(bytes: &[u8]) -> (r: Result<Vec<OnnxArray>, MmnError>)
    ensures
        match spec_read_onnx(bytes@) {
            Some(arrs) => r matches Ok(v) && v@.len() == arrs.len()
                && forall|i: int| 0 <= i < arrs.len() ==> (#[trigger] v@[i])@ == arrs[i],
            None => r is Err,
        },
        r matches Err(e) ==> (spec_onnx_weights(bytes@) == Some(Seq::<SpecOnnxArray>::empty())
            ==> e.message@ == "onnx model has no initializers (weights); only graphs with stored weights are supported"@),
{
    let top = match walk_message(bytes) {
        Ok(f) => f,
        Err(_) => return Err(MmnError::new("not an ONNX file (protobuf parse failed)")),
    };
    let ghost tfs = spec_fields(bytes@, 0)->Some_0;
    let mut graph: Option<&[u8]> = None;
    let mut i: usize = 0;
    while i < top.len()
        invariant
            spec_fields(bytes@, 0) == Some(tfs),
            top@.len() == tfs.len(),
            forall|k: int| 0 <= k < tfs.len() ==> (#[trigger] top@[k]).0 == tfs[k].0 && top@[k].1@ == tfs[k].1,
            i <= top@.len(),
            match last_graph(tfs, i as int) {
                Some(g) => graph matches Some(b) && b@ == g,
                None => graph is None,
            },
        decreases top@.len() - i,
    {
        if top[i].0 == 7 {
            match top[i].1.as_bytes() {
                Some(b) => {
                    graph = Some(b);
                },
                None => {},
            }
        }
        i = i + 1;
    }
    let g = match graph {
        Some(g) => g,
        None => return Err(MmnError::new("onnx model has no graph (field 7)")),
    };
    let out = collect_initializers(g)?;
    if out.len() == 0 {
        return Err(MmnError::new(
            "onnx model has no initializers (weights); only graphs with stored weights are supported",
        ));
    }
    Ok(out)
}

} // verus!
