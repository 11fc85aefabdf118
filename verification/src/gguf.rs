//! GGUF container (versions 2 and 3): typed metadata values, tensor
//! descriptors, header parsing and header/container writing.

use vstd::prelude::*;
use vstd::utf8::*;
use crate::bytes::{le16_at, le32_at, le64_at, le16_bytes, le32_bytes, le64_bytes, read_le16, read_le32, read_le64,
    push_le16, push_le32, push_le64, push_all, copy_range};
use crate::error::MmnError;
use crate::gguf_quant::{GgmlType, spec_type_id, is_known_type_id};
use crate::msgpack::utf8_string;
use crate::text::str_equals;

verus! {

/// Container version written by [`write_gguf`].
pub const GGUF_VERSION: u32 = 3;
/// Data-section alignment used when the metadata names none.
pub const DEFAULT_ALIGNMENT: usize = 32;

/// A typed GGUF metadata value. Floats are held as their IEEE-754 bit
/// patterns, exactly as they are stored in the file.
#[derive(Debug, PartialEq)]
pub enum GgufValue {
    U8(u8),
    I8(i8),
    U16(u16),
    I16(i16),
    U32(u32),
    I32(i32),
    F32(u32),
    Bool(bool),
    String(String),
    Array(Vec<GgufValue>),
    U64(u64),
    I64(i64),
    F64(u64),
}

/// The mathematical content of a [`GgufValue`].
pub enum GVal {
    U8(u8),
    I8(i8),
    U16(u16),
    I16(i16),
    U32(u32),
    I32(i32),
    F32(u32),
    Bool(bool),
    Str(Seq<char>),
    Array(Seq<GVal>),
    U64(u64),
    I64(i64),
    F64(u64),
}

pub open spec fn gval_view(v: GgufValue) -> GVal
    decreases v,
{
    match v {
        GgufValue::U8(x) => GVal::U8(x),
        GgufValue::I8(x) => GVal::I8(x),
        GgufValue::U16(x) => GVal::U16(x),
        GgufValue::I16(x) => GVal::I16(x),
        GgufValue::U32(x) => GVal::U32(x),
        GgufValue::I32(x) => GVal::I32(x),
        GgufValue::F32(x) => GVal::F32(x),
        GgufValue::Bool(b) => GVal::Bool(b),
        GgufValue::String(s) => GVal::Str(s@),
        GgufValue::Array(items) => GVal::Array(
            Seq::new(items@.len(), |i: int| if 0 <= i < items@.len() { gval_view(items@[i]) } else { GVal::Bool(false) }),
        ),
        GgufValue::U64(x) => GVal::U64(x),
        GgufValue::I64(x) => GVal::I64(x),
        GgufValue::F64(x) => GVal::F64(x),
    }
}

impl View for GgufValue {
    type V = GVal;

    open spec fn view(&self) -> GVal {
        gval_view(*self)
    }
}

/// The views of a run of values.
pub open spec fn gvals_view(items: Seq<GgufValue>) -> Seq<GVal> {
    Seq::new(items.len(), |i: int| items[i]@)
}

/// The GGUF type id of a value.
pub open spec fn gv_type_id(v: GVal) -> u32 {
    match v {
        GVal::U8(_) => 0,
        GVal::I8(_) => 1,
        GVal::U16(_) => 2,
        GVal::I16(_) => 3,
        GVal::U32(_) => 4,
        GVal::I32(_) => 5,
        GVal::F32(_) => 6,
        GVal::Bool(_) => 7,
        GVal::Str(_) => 8,
        GVal::Array(_) => 9,
        GVal::U64(_) => 10,
        GVal::I64(_) => 11,
        GVal::F64(_) => 12,
    }
}

/// An integer value that is not negative, widened to `u64`.
pub open spec fn gv_as_u64(v: GVal) -> Option<u64> {
    match v {
        GVal::U8(x) => Some(x as u64),
        GVal::U16(x) => Some(x as u64),
        GVal::U32(x) => Some(x as u64),
        GVal::U64(x) => Some(x),
        GVal::I8(x) => if x >= 0 { Some(x as u64) } else { None },
        GVal::I16(x) => if x >= 0 { Some(x as u64) } else { None },
        GVal::I32(x) => if x >= 0 { Some(x as u64) } else { None },
        GVal::I64(x) => if x >= 0 { Some(x as u64) } else { None },
        _ => None,
    }
}

impl GgufValue {
    /// The value as a `u64` when it is an integer that is not negative.
    pub fn as_u64(&self) -> (r: Option<u64>)
        ensures
            r == gv_as_u64(self@),
    {
        match self {
            GgufValue::U8(v) => Some(*v as u64),
            GgufValue::U16(v) => Some(*v as u64),
            GgufValue::U32(v) => Some(*v as u64),
            GgufValue::U64(v) => Some(*v),
            GgufValue::I8(v) => if *v >= 0 { Some(*v as u64) } else { None },
            GgufValue::I16(v) => if *v >= 0 { Some(*v as u64) } else { None },
            GgufValue::I32(v) => if *v >= 0 { Some(*v as u64) } else { None },
            GgufValue::I64(v) => if *v >= 0 { Some(*v as u64) } else { None },
            _ => None,
        }
    }

    /// The text of a string value.
    pub fn as_str(&self) -> (r: Option<&str>)
        ensures
            match self@ {
                GVal::Str(s) => r matches Some(t) && t@ == s,
                _ => r is None,
            },
    {
        match self {
            GgufValue::String(s) => Some(s.as_str()),
            _ => None,
        }
    }

    /// The flag of a boolean value.
    pub fn as_bool(&self) -> (r: Option<bool>)
        ensures
            r == (match self@ {
                GVal::Bool(b) => Some(b),
                _ => None,
            }),
    {
        match self {
            GgufValue::Bool(b) => Some(*b),
            _ => None,
        }
    }

    /// The GGUF type id of this value.
    fn type_id(&self) -> (t: u32)
        ensures
            t == gv_type_id(self@),
    {
        match self {
            GgufValue::U8(_) => 0,
            GgufValue::I8(_) => 1,
            GgufValue::U16(_) => 2,
            GgufValue::I16(_) => 3,
            GgufValue::U32(_) => 4,
            GgufValue::I32(_) => 5,
            GgufValue::F32(_) => 6,
            GgufValue::Bool(_) => 7,
            GgufValue::String(_) => 8,
            GgufValue::Array(_) => 9,
            GgufValue::U64(_) => 10,
            GgufValue::I64(_) => 11,
            GgufValue::F64(_) => 12,
        }
    }
}

/// True when `bytes` begin with the GGUF magic `GGUF`.
pub fn is_gguf_bytes(bytes: &[u8]) -> (r: bool)
    ensures
        r == (bytes@.len() >= 4 && bytes@[0] == 0x47 && bytes@[1] == 0x47 && bytes@[2] == 0x55 && bytes@[3] == 0x46),
{
    bytes.len() >= 4 && bytes[0] == 0x47 && bytes[1] == 0x47 && bytes[2] == 0x55 && bytes[3] == 0x46
}

/// Product of the dims.
pub open spec fn dims_product(dims: Seq<u64>) -> nat
    decreases dims.len(),
{
    if dims.len() == 0 { 1 } else { dims_product(dims.drop_last()) * (dims.last() as nat) }
}

/// Tensor descriptor: dims are stored GGML-style (`ne[0]` fastest-varying).
#[derive(Clone, Debug)]
pub struct GgufTensorInfo {
    pub name: String,
    pub dims: Vec<u64>,
    pub ggml_type: GgmlType,
    pub offset: u64,
}

/// Every partial product of the dims, taken from the front, fits in a `u64`.
pub open spec fn dims_fit_u64(dims: Seq<u64>) -> bool {
    forall|k: int| 0 <= k <= dims.len() ==> #[trigger] dims_product(dims.take(k)) <= u64::MAX
}

impl GgufTensorInfo {
    /// Number of elements: the product of the dims, taken as a `usize`.
    pub fn numel(&self) -> (n: usize)
        requires
            dims_fit_u64(self.dims@),
        ensures
            n == dims_product(self.dims@) as usize,
    {
        let mut p: u64 = 1;
        let mut i: usize = 0;
        proof {
            assert(self.dims@.take(0) =~= Seq::<u64>::empty());
        }
        while i < self.dims.len()
            invariant
                i <= self.dims@.len(),
                dims_fit_u64(self.dims@),
                p == dims_product(self.dims@.take(i as int)),
            decreases self.dims@.len() - i,
        {
            proof {
                assert(self.dims@.take(i + 1).drop_last() =~= self.dims@.take(i as int));
                assert(dims_product(self.dims@.take(i + 1)) <= u64::MAX);
            }
            p = p * self.dims[i];
            i = i + 1;
        }
        proof {
            assert(self.dims@.take(i as int) =~= self.dims@);
        }
        p as usize
    }

    /// Row-major (C order) shape: GGML dims reversed.
    pub fn row_major_shape(&self) -> (shape: Vec<usize>)
        ensures
            shape@.len() == self.dims@.len(),
            forall|j: int| 0 <= j < shape@.len() ==> shape@[j] == self.dims@[self.dims@.len() - 1 - j] as usize,
    {
        let n = self.dims.len();
        let mut shape: Vec<usize> = Vec::new();
        let mut i: usize = 0;
        while i < n
            invariant
                n == self.dims@.len(),
                i <= n,
                shape@.len() == i,
                forall|j: int| 0 <= j < i ==> shape@[j] == self.dims@[n - 1 - j] as usize,
            decreases n - i,
        {
            shape.push(self.dims[n - 1 - i] as usize);
            i = i + 1;
        }
        shape
    }
}


// ---------------------------------------------------------------------
// Reading
// ---------------------------------------------------------------------

/// A length-prefixed UTF-8 string at `p`: eight little-endian length bytes,
/// then the text. The length may not exceed the whole buffer.
pub open spec fn gguf_str_at(s: Seq<u8>, p: int) -> Option<(Seq<char>, int)> {
    if p < 0 || p + 8 > s.len() {
        None
    } else {
        let n = (le64_at(s, p) as usize) as int;
        if n > s.len() || p + 8 + n > s.len() || !valid_utf8(s.subrange(p + 8, p + 8 + n)) {
            None
        } else {
            Some((decode_utf8(s.subrange(p + 8, p + 8 + n)), p + 8 + n))
        }
    }
}

/// Remaining nesting room at depth `d`.
pub open spec fn depth_room(d: int) -> nat {
    if d < 5 { (5 - d) as nat } else { 0 }
}

/// The value of type `t` at `p`, read at array nesting depth `d`, and the
/// position just past it; `None` when the bytes there hold no such value
/// or arrays nest more than four deep.
pub open spec fn gguf_value_at(s: Seq<u8>, p: int, t: u32, d: int) -> Option<(GVal, int)>
    decreases depth_room(d), 0nat, 0nat,
{
    if d > 4 || p < 0 {
        None
    } else if t == 0 || t == 1 || t == 7 {
        if p + 1 > s.len() {
            None
        } else if t == 0 {
            Some((GVal::U8(s[p]), p + 1))
        } else if t == 1 {
            Some((GVal::I8(s[p] as i8), p + 1))
        } else {
            Some((GVal::Bool(s[p] != 0), p + 1))
        }
    } else if t == 2 || t == 3 {
        if p + 2 > s.len() {
            None
        } else if t == 2 {
            Some((GVal::U16(le16_at(s, p) as u16), p + 2))
        } else {
            Some((GVal::I16(le16_at(s, p) as i16), p + 2))
        }
    } else if t == 4 || t == 5 || t == 6 {
        if p + 4 > s.len() {
            None
        } else if t == 4 {
            Some((GVal::U32(le32_at(s, p) as u32), p + 4))
        } else if t == 5 {
            Some((GVal::I32(le32_at(s, p) as i32), p + 4))
        } else {
            Some((GVal::F32(le32_at(s, p) as u32), p + 4))
        }
    } else if t == 10 || t == 11 || t == 12 {
        if p + 8 > s.len() {
            None
        } else if t == 10 {
            Some((GVal::U64(le64_at(s, p) as u64), p + 8))
        } else if t == 11 {
            Some((GVal::I64(le64_at(s, p) as i64), p + 8))
        } else {
            Some((GVal::F64(le64_at(s, p) as u64), p + 8))
        }
    } else if t == 8 {
        match gguf_str_at(s, p) {
            Some((cs, e)) => Some((GVal::Str(cs), e)),
            None => None,
        }
    } else if t == 9 {
        if p + 12 > s.len() {
            None
        } else {
            let n = le64_at(s, p + 4) as usize;
            if n > s.len() {
                None
            } else {
                match gguf_items_at(s, p + 12, le32_at(s, p) as u32, d + 1, n as nat) {
                    Some((items, e)) => Some((GVal::Array(items), e)),
                    None => None,
                }
            }
        }
    } else {
        None
    }
}

/// `n` values of type `t` back to back from `p`, at depth `d`.
pub open spec fn gguf_items_at(s: Seq<u8>, p: int, t: u32, d: int, n: nat) -> Option<(Seq<GVal>, int)>
    decreases depth_room(d), 1nat, n,
{
    if n == 0 {
        Some((seq![], p))
    } else {
        match gguf_items_at(s, p, t, d, (n - 1) as nat) {
            Some((items, q)) => match gguf_value_at(s, q, t, d) {
                Some((v, e)) => Some((items.push(v), e)),
                None => None,
            },
            None => None,
        }
    }
}

/// Once a prefix of an item run fails, every longer run fails too.
proof fn lemma_items_fail_extends(s: Seq<u8>, p: int, t: u32, d: int, k: nat, n: nat)
    requires
        k <= n,
        gguf_items_at(s, p, t, d, k) is None,
    ensures
        gguf_items_at(s, p, t, d, n) is None,
    decreases n - k,
{
    if k < n {
        lemma_items_fail_extends(s, p, t, d, k, (n - 1) as nat);
    }
}

fn truncated() -> (e: MmnError) {
    MmnError::new("GGUF file truncated")
}

/// The length-prefixed string at `p`.
fn read_string(bytes: &[u8], p: usize) -> (r: Result<(String, usize), MmnError>)
    requires
        p <= bytes@.len(),
    ensures
        match r {
            Ok((s, e)) => gguf_str_at(bytes@, p as int) == Some((s@, e as int)) && e <= bytes@.len(),
            Err(_) => gguf_str_at(bytes@, p as int) is None,
        },
{
    if bytes.len() - p < 8 {
        return Err(truncated());
    }
    let n = read_le64(bytes, p) as usize;
    if n > bytes.len() {
        return Err(MmnError::new("GGUF file truncated (string length exceeds buffer)"));
    }
    if n > bytes.len() - p - 8 {
        return Err(truncated());
    }
    let raw = copy_range(bytes, p + 8, p + 8 + n);
    match utf8_string(raw) {
        Some(text) => Ok((text, p + 8 + n)),
        None => Err(MmnError::new("GGUF string not UTF-8")),
    }
}

/// The value of type `t` at `p`, at nesting depth `depth`.
fn read_value(bytes: &[u8], p: usize, t: u32, depth: usize) -> (r: Result<(GgufValue, usize), MmnError>)
    requires
        p <= bytes@.len(),
        depth <= 5,
    ensures
        match r {
            Ok((v, e)) => gguf_value_at(bytes@, p as int, t, depth as int) == Some((v@, e as int))
                && e <= bytes@.len(),
            Err(_) => gguf_value_at(bytes@, p as int, t, depth as int) is None,
        },
    decreases 5 - depth,
{
    if depth > 4 {
        return Err(MmnError::new("GGUF metadata array nesting too deep"));
    }
    let avail = bytes.len() - p;
    if t == 0 || t == 1 || t == 7 {
        if avail < 1 {
            return Err(truncated());
        }
        let b = bytes[p];
        let v = if t == 0 {
            GgufValue::U8(b)
        } else if t == 1 {
            GgufValue::I8(b as i8)
        } else {
            GgufValue::Bool(b != 0)
        };
        Ok((v, p + 1))
    } else if t == 2 || t == 3 {
        if avail < 2 {
            return Err(truncated());
        }
        let x = read_le16(bytes, p);
        let v = if t == 2 { GgufValue::U16(x) } else { GgufValue::I16(x as i16) };
        Ok((v, p + 2))
    } else if t == 4 || t == 5 || t == 6 {
        if avail < 4 {
            return Err(truncated());
        }
        let x = read_le32(bytes, p);
        let v = if t == 4 {
            GgufValue::U32(x)
        } else if t == 5 {
            GgufValue::I32(x as i32)
        } else {
            GgufValue::F32(x)
        };
        Ok((v, p + 4))
    } else if t == 10 || t == 11 || t == 12 {
        if avail < 8 {
            return Err(truncated());
        }
        let x = read_le64(bytes, p);
        let v = if t == 10 {
            GgufValue::U64(x)
        } else if t == 11 {
            GgufValue::I64(x as i64)
        } else {
            GgufValue::F64(x)
        };
        Ok((v, p + 8))
    } else if t == 8 {
        let (s, e) = read_string(bytes, p)?;
        Ok((GgufValue::String(s), e))
    } else if t == 9 {
        if avail < 12 {
            return Err(truncated());
        }
        let et = read_le32(bytes, p);
        let n = read_le64(bytes, p + 4) as usize;
        if n > bytes.len() {
            return Err(MmnError::new("GGUF file truncated (array count exceeds buffer)"));
        }
        assert(et == le32_at(bytes@, p as int) as u32);
        assert(n == le64_at(bytes@, p + 4) as usize);
        let ghost s = bytes@;
        let mut items: Vec<GgufValue> = Vec::new();
        let mut q: usize = p + 12;
        let mut i: usize = 0;
        while i < n
            invariant
                s == bytes@,
                depth <= 4,
                i <= n,
                q <= bytes@.len(),
                et as int == le32_at(s, p as int),
                t == 9,
                p + 12 <= bytes@.len(),
                n == le64_at(s, p + 4) as usize,
                n <= bytes@.len(),
                gguf_items_at(s, p + 12, et, depth + 1, i as nat) == Some((gvals_view(items@), q as int)),
            decreases n - i,
        {
            match read_value(bytes, q, et, depth + 1) {
                Ok((v, e)) => {
                    proof {
                        assert(gvals_view(items@.push(v)) =~= gvals_view(items@).push(v@));
                    }
                    items.push(v);
                    q = e;
                    i = i + 1;
                },
                Err(err) => {
                    proof {
                        assert(gguf_value_at(s, q as int, et, (depth + 1) as int) is None);
                        assert(gguf_items_at(s, (p + 12) as int, et, (depth + 1) as int, (i + 1) as nat) is None);
                        lemma_items_fail_extends(s, (p + 12) as int, et, (depth + 1) as int, (i + 1) as nat, n as nat);
                    }
                    return Err(err);
                },
            }
        }
        let v = GgufValue::Array(items);
        proof {
            assert(v@ == GVal::Array(gvals_view(items@))) by {
                assert(v@->Array_0 =~= gvals_view(items@));
            }
        }
        Ok((v, q))
    } else {
        Err(MmnError::new("GGUF metadata value type unknown"))
    }
}


// ---------------------------------------------------------------------
// Metadata: keys in first-insertion order, each key at most once; a later
// entry for a key replaces the value of the earlier one.
// ---------------------------------------------------------------------

/// The views of metadata entries.
pub open spec fn meta_view(m: Seq<(String, GgufValue)>) -> Seq<(Seq<char>, GVal)> {
    Seq::new(m.len(), |i: int| (m[i].0@, m[i].1@))
}

/// The last index holding key `k`, or -1.
pub open spec fn key_index(m: Seq<(Seq<char>, GVal)>, k: Seq<char>) -> int
    decreases m.len(),
{
    if m.len() == 0 {
        -1
    } else if m.last().0 == k {
        m.len() - 1
    } else {
        key_index(m.drop_last(), k)
    }
}

/// No key occurs twice.
pub open spec fn keys_unique(m: Seq<(Seq<char>, GVal)>) -> bool {
    forall|i: int, j: int| 0 <= i < j < m.len() ==> m[i].0 != m[j].0
}

/// Insertion: the entry for `k` takes value `v`, or `(k, v)` is appended.
pub open spec fn meta_insert(m: Seq<(Seq<char>, GVal)>, k: Seq<char>, v: GVal) -> Seq<(Seq<char>, GVal)> {
    let i = key_index(m, k);
    if i < 0 { m.push((k, v)) } else { m.update(i, (k, v)) }
}

/// The value stored under `k`.
pub open spec fn meta_lookup(m: Seq<(Seq<char>, GVal)>, k: Seq<char>) -> Option<GVal> {
    let i = key_index(m, k);
    if i < 0 { None } else { Some(m[i].1) }
}

pub proof fn lemma_key_index(m: Seq<(Seq<char>, GVal)>, k: Seq<char>)
    ensures
        -1 <= key_index(m, k) < m.len(),
        key_index(m, k) >= 0 ==> m[key_index(m, k)].0 == k,
        key_index(m, k) < 0 ==> forall|i: int| 0 <= i < m.len() ==> m[i].0 != k,
        forall|i: int| key_index(m, k) < i < m.len() ==> m[i].0 != k,
    decreases m.len(),
{
    if m.len() > 0 {
        lemma_key_index(m.drop_last(), k);
        assert forall|i: int| 0 <= i < m.len() - 1 implies m.drop_last()[i] == m[i] by {}
    }
}

proof fn lemma_insert_unique(m: Seq<(Seq<char>, GVal)>, k: Seq<char>, v: GVal)
    requires
        keys_unique(m),
    ensures
        keys_unique(meta_insert(m, k, v)),
{
    lemma_key_index(m, k);
}

/// Index of the last entry whose key is `key`.
fn find_key(m: &Vec<(String, GgufValue)>, key: &str) -> (r: Option<usize>)
    ensures
        match r {
            Some(i) => i as int == key_index(meta_view(m@), key@) && i < m@.len(),
            None => key_index(meta_view(m@), key@) < 0,
        },
{
    let ghost mv = meta_view(m@);
    let mut found: Option<usize> = None;
    let mut j: usize = 0;
    proof {
        assert(mv.take(0) =~= Seq::<(Seq<char>, GVal)>::empty());
    }
    while j < m.len()
        invariant
            mv == meta_view(m@),
            j <= m@.len(),
            match found {
                Some(i) => i as int == key_index(mv.take(j as int), key@),
                None => key_index(mv.take(j as int), key@) < 0,
            },
        decreases m@.len() - j,
    {
        proof {
            assert(mv.take(j + 1).drop_last() =~= mv.take(j as int));
        }
        if str_equals(m[j].0.as_str(), key) {
            found = Some(j);
        }
        j = j + 1;
    }
    proof {
        assert(mv.take(j as int) =~= mv);
        lemma_key_index(mv, key@);
    }
    found
}

/// The value stored under `key`.
pub fn metadata_get<'a>(metadata: &'a Vec<(String, GgufValue)>, key: &str) -> (r: Option<&'a GgufValue>)
    ensures
        match r {
            Some(v) => meta_lookup(meta_view(metadata@), key@) == Some(v@),
            None => meta_lookup(meta_view(metadata@), key@) is None,
        },
{
    match find_key(metadata, key) {
        Some(i) => Some(&metadata[i].1),
        None => None,
    }
}

/// Insert `value` under `key`, replacing an earlier value for that key.
fn metadata_insert(m: &mut Vec<(String, GgufValue)>, key: String, value: GgufValue)
    requires
        keys_unique(meta_view(old(m)@)),
    ensures
        meta_view(final(m)@) == meta_insert(meta_view(old(m)@), key@, value@),
        keys_unique(meta_view(final(m)@)),
{
    let ghost mv = meta_view(m@);
    proof {
        lemma_insert_unique(mv, key@, value@);
    }
    match find_key(m, key.as_str()) {
        Some(i) => {
            let ghost kv = key@;
            let ghost vv = value@;
            m.set(i, (key, value));
            proof {
                assert(meta_view(m@) =~= mv.update(i as int, (kv, vv)));
            }
        },
        None => {
            let ghost kv = key@;
            let ghost vv = value@;
            m.push((key, value));
            proof {
                assert(meta_view(m@) =~= mv.push((kv, vv)));
            }
        },
    }
}


// ---------------------------------------------------------------------
// Header
// ---------------------------------------------------------------------

/// The mathematical content of a [`GgufTensorInfo`].
pub struct TensorView {
    pub name: Seq<char>,
    pub dims: Seq<u64>,
    pub type_id: u32,
    pub offset: u64,
}

impl View for GgufTensorInfo {
    type V = TensorView;

    open spec fn view(&self) -> TensorView {
        TensorView {
            name: self.name@,
            dims: self.dims@,
            type_id: spec_type_id(self.ggml_type),
            offset: self.offset,
        }
    }
}

/// The views of a run of tensor descriptors.
pub open spec fn tensors_view(ts: Seq<GgufTensorInfo>) -> Seq<TensorView> {
    Seq::new(ts.len(), |i: int| ts[i]@)
}

/// `n` little-endian `u64`s back to back from `p`.
pub open spec fn le64_run(s: Seq<u8>, p: int, n: nat) -> Seq<u64> {
    Seq::new(n, |i: int| le64_at(s, p + 8 * i) as u64)
}

/// The tensor descriptor at `p`: name, dim count (at most four), dims,
/// type id (one of the known element types) and data offset.
pub open spec fn gguf_tensor_at(s: Seq<u8>, p: int) -> Option<(TensorView, int)> {
    match gguf_str_at(s, p) {
        None => None,
        Some((name, q)) => if q + 4 > s.len() {
            None
        } else {
            let nd = (le32_at(s, q) as usize) as int;
            if nd > 4 || q + 4 + 8 * nd + 4 > s.len() {
                None
            } else {
                let q2 = q + 4 + 8 * nd;
                let id = le32_at(s, q2) as u32;
                if !is_known_type_id(id) || q2 + 12 > s.len() {
                    None
                } else {
                    Some((TensorView {
                        name: name,
                        dims: le64_run(s, q + 4, nd as nat),
                        type_id: id,
                        offset: le64_at(s, q2 + 4) as u64,
                    }, q2 + 12))
                }
            }
        },
    }
}

/// `n` tensor descriptors back to back from `p`.
pub open spec fn gguf_tensors_at(s: Seq<u8>, p: int, n: nat) -> Option<(Seq<TensorView>, int)>
    decreases n,
{
    if n == 0 {
        Some((seq![], p))
    } else {
        match gguf_tensors_at(s, p, (n - 1) as nat) {
            Some((ts, q)) => match gguf_tensor_at(s, q) {
                Some((t, e)) => Some((ts.push(t), e)),
                None => None,
            },
            None => None,
        }
    }
}

/// `n` metadata entries (key, type id, value) back to back from `p`,
/// inserted one after another.
pub open spec fn gguf_kvs_at(s: Seq<u8>, p: int, n: nat) -> Option<(Seq<(Seq<char>, GVal)>, int)>
    decreases n,
{
    if n == 0 {
        Some((seq![], p))
    } else {
        match gguf_kvs_at(s, p, (n - 1) as nat) {
            Some((m, q)) => match gguf_str_at(s, q) {
                Some((k, q1)) => if q1 + 4 > s.len() {
                    None
                } else {
                    match gguf_value_at(s, q1 + 4, le32_at(s, q1) as u32, 0) {
                        Some((v, e)) => Some((meta_insert(m, k, v), e)),
                        None => None,
                    }
                },
                None => None,
            },
            None => None,
        }
    }
}

/// The data-section alignment named by the metadata (`general.alignment`,
/// any non-negative integer type), at least 1; 32 when absent.
pub open spec fn spec_alignment(m: Seq<(Seq<char>, GVal)>) -> int {
    match meta_lookup(m, "general.alignment"@) {
        Some(v) => match gv_as_u64(v) {
            Some(x) => if (x as usize) < 1 { 1 } else { (x as usize) as int },
            None => 32,
        },
        None => 32,
    }
}

/// `q` rounded up to a multiple of `a`.
pub open spec fn round_up(q: int, a: int) -> int {
    if q % a == 0 { q } else { q - q % a + a }
}

/// The mathematical content of a [`GgufHeader`].
pub struct HeaderView {
    pub version: u32,
    pub metadata: Seq<(Seq<char>, GVal)>,
    pub tensors: Seq<TensorView>,
    pub alignment: int,
    pub data_start: int,
}

/// The header of a GGUF file: magic `GGUF`, version 2 or 3, tensor and
/// metadata counts (each at most 2^24), the metadata entries, the tensor
/// descriptors, and the data section start rounded up to the alignment.
pub open spec fn spec_gguf_header(s: Seq<u8>) -> Option<HeaderView> {
    if s.len() < 8 || s[0] != 0x47 || s[1] != 0x47 || s[2] != 0x55 || s[3] != 0x46 {
        None
    } else {
        let version = le32_at(s, 4) as u32;
        if version < 2 || version > 3 || s.len() < 24 {
            None
        } else {
            let tc = le64_at(s, 8) as usize;
            let kc = le64_at(s, 16) as usize;
            if tc > 0x100_0000 || kc > 0x100_0000 {
                None
            } else {
                match gguf_kvs_at(s, 24, kc as nat) {
                    None => None,
                    Some((m, q)) => match gguf_tensors_at(s, q, tc as nat) {
                        None => None,
                        Some((ts, q2)) => {
                            let a = spec_alignment(m);
                            let ds = round_up(q2, a);
                            if ds > usize::MAX {
                                None
                            } else {
                                Some(HeaderView { version, metadata: m, tensors: ts, alignment: a, data_start: ds })
                            }
                        },
                    },
                }
            }
        }
    }
}

/// Header portion of a GGUF file: everything before the tensor data.
pub struct GgufHeader {
    pub version: u32,
    /// Metadata entries, each key once, in order of first appearance.
    pub metadata: Vec<(String, GgufValue)>,
    pub tensors: Vec<GgufTensorInfo>,
    pub alignment: usize,
    pub data_start: usize,
}

impl View for GgufHeader {
    type V = HeaderView;

    open spec fn view(&self) -> HeaderView {
        HeaderView {
            version: self.version,
            metadata: meta_view(self.metadata@),
            tensors: tensors_view(self.tensors@),
            alignment: self.alignment as int,
            data_start: self.data_start as int,
        }
    }
}

proof fn lemma_tensors_fail_extends(s: Seq<u8>, p: int, k: nat, n: nat)
    requires
        k <= n,
        gguf_tensors_at(s, p, k) is None,
    ensures
        gguf_tensors_at(s, p, n) is None,
    decreases n - k,
{
    if k < n {
        lemma_tensors_fail_extends(s, p, k, (n - 1) as nat);
    }
}

proof fn lemma_kvs_fail_extends(s: Seq<u8>, p: int, k: nat, n: nat)
    requires
        k <= n,
        gguf_kvs_at(s, p, k) is None,
    ensures
        gguf_kvs_at(s, p, n) is None,
    decreases n - k,
{
    if k < n {
        lemma_kvs_fail_extends(s, p, k, (n - 1) as nat);
    }
}

/// The tensor descriptor at `p`.
fn read_tensor_info(bytes: &[u8], p: usize) -> (r: Result<(GgufTensorInfo, usize), MmnError>)
    requires
        p <= bytes@.len(),
    ensures
        match r {
            Ok((t, e)) => gguf_tensor_at(bytes@, p as int) == Some((t@, e as int)) && e <= bytes@.len(),
            Err(_) => gguf_tensor_at(bytes@, p as int) is None,
        },
{
    let ghost s = bytes@;
    let (name, q) = read_string(bytes, p)?;
    if bytes.len() - q < 4 {
        return Err(truncated());
    }
    let nd = read_le32(bytes, q) as usize;
    if nd > 4 {
        return Err(MmnError::new("GGUF tensor has more than 4 dims"));
    }
    if bytes.len() - q - 4 < 8 * nd + 4 {
        return Err(truncated());
    }
    let mut dims: Vec<u64> = Vec::new();
    let mut i: usize = 0;
    let mut at: usize = q + 4;
    let blen = bytes.len();
    while i < nd
        invariant
            s == bytes@,
            blen == bytes@.len(),
            i <= nd <= 4,
            at == q + 4 + 8 * i,
            q + 4 + 8 * nd + 4 <= bytes@.len(),
            dims@ =~= le64_run(s, q + 4, i as nat),
        decreases nd - i,
    {
        let d = read_le64(bytes, at);
        dims.push(d);
        i = i + 1;
        at = at + 8;
    }
    let q2 = q + 4 + 8 * nd;
    let id = read_le32(bytes, q2);
    let ggml_type = GgmlType::from_id(id)?;
    if bytes.len() - q2 < 12 {
        return Err(truncated());
    }
    let offset = read_le64(bytes, q2 + 4);
    Ok((GgufTensorInfo { name, dims, ggml_type, offset }, q2 + 12))
}

/// `n` tensor descriptors from `p`.
fn read_tensor_infos(bytes: &[u8], p: usize, n: usize) -> (r: Result<(Vec<GgufTensorInfo>, usize), MmnError>)
    requires
        p <= bytes@.len(),
    ensures
        match r {
            Ok((ts, e)) => gguf_tensors_at(bytes@, p as int, n as nat) == Some((tensors_view(ts@), e as int))
                && e <= bytes@.len(),
            Err(_) => gguf_tensors_at(bytes@, p as int, n as nat) is None,
        },
{
    let ghost s = bytes@;
    let mut ts: Vec<GgufTensorInfo> = Vec::new();
    let mut q = p;
    let mut i: usize = 0;
    while i < n
        invariant
            s == bytes@,
            i <= n,
            q <= bytes@.len(),
            gguf_tensors_at(s, p as int, i as nat) == Some((tensors_view(ts@), q as int)),
        decreases n - i,
    {
        match read_tensor_info(bytes, q) {
            Ok((t, e)) => {
                proof {
                    assert(tensors_view(ts@.push(t)) =~= tensors_view(ts@).push(t@));
                }
                ts.push(t);
                q = e;
                i = i + 1;
            },
            Err(err) => {
                proof {
                    lemma_tensors_fail_extends(s, p as int, (i + 1) as nat, n as nat);
                }
                return Err(err);
            },
        }
    }
    Ok((ts, q))
}

/// `n` metadata entries from `p`.
fn read_metadata(bytes: &[u8], p: usize, n: usize) -> (r: Result<(Vec<(String, GgufValue)>, usize), MmnError>)
    requires
        p <= bytes@.len(),
    ensures
        match r {
            Ok((m, e)) => gguf_kvs_at(bytes@, p as int, n as nat) == Some((meta_view(m@), e as int))
                && e <= bytes@.len() && keys_unique(meta_view(m@)),
            Err(_) => gguf_kvs_at(bytes@, p as int, n as nat) is None,
        },
{
    let ghost s = bytes@;
    let mut m: Vec<(String, GgufValue)> = Vec::new();
    let mut q = p;
    let mut i: usize = 0;
    proof {
        assert(meta_view(m@) =~= Seq::<(Seq<char>, GVal)>::empty());
    }
    while i < n
        invariant
            s == bytes@,
            i <= n,
            q <= bytes@.len(),
            keys_unique(meta_view(m@)),
            gguf_kvs_at(s, p as int, i as nat) == Some((meta_view(m@), q as int)),
        decreases n - i,
    {
        let (key, q1) = match read_string(bytes, q) {
            Ok(x) => x,
            Err(err) => {
                proof {
                    lemma_kvs_fail_extends(s, p as int, (i + 1) as nat, n as nat);
                }
                return Err(err);
            },
        };
        if bytes.len() - q1 < 4 {
            proof {
                lemma_kvs_fail_extends(s, p as int, (i + 1) as nat, n as nat);
            }
            return Err(truncated());
        }
        let t = read_le32(bytes, q1);
        let (value, e) = match read_value(bytes, q1 + 4, t, 0) {
            Ok(x) => x,
            Err(err) => {
                proof {
                    lemma_kvs_fail_extends(s, p as int, (i + 1) as nat, n as nat);
                }
                return Err(err);
            },
        };
        metadata_insert(&mut m, key, value);
        q = e;
        i = i + 1;
    }
    Ok((m, q))
}

/// The error for an unsupported container version.
fn version_error(version: u32) -> (e: MmnError)
    ensures
        e.message@ == "GGUF version "@ + crate::text::decimal(version as nat) + " not supported (versions 2 and 3 are)"@,
{
    let mut s = String::from_str("GGUF version ");
    crate::text::push_decimal(&mut s, version as usize);
    let s2 = s.concat(" not supported (versions 2 and 3 are)");
    MmnError { message: s2 }
}

/// Parse the GGUF header: magic, metadata entries and tensor descriptors.
pub fn parse_gguf_header(bytes: &[u8]) -> (r: Result<GgufHeader, MmnError>)
    ensures
        match r {
            Ok(h) => spec_gguf_header(bytes@) == Some(h@) && keys_unique(h@.metadata),
            Err(_) => spec_gguf_header(bytes@) is None,
        },
        r matches Err(e) ==> (bytes@.len() >= 8 && bytes@[0] == 0x47 && bytes@[1] == 0x47
            && bytes@[2] == 0x55 && bytes@[3] == 0x46
            && (le32_at(bytes@, 4) < 2 || le32_at(bytes@, 4) > 3)
            ==> e.message@ == "GGUF version "@ + crate::text::decimal(le32_at(bytes@, 4) as nat)
                + " not supported (versions 2 and 3 are)"@),
{
    let ghost s = bytes@;
    if bytes.len() < 8 || bytes[0] != 0x47 || bytes[1] != 0x47 || bytes[2] != 0x55 || bytes[3] != 0x46 {
        return Err(MmnError::new("not a GGUF file (missing GGUF magic)"));
    }
    let version = read_le32(bytes, 4);
    if version < 2 || version > 3 {
        return Err(version_error(version));
    }
    if bytes.len() < 24 {
        return Err(truncated());
    }
    let tc = read_le64(bytes, 8) as usize;
    let kc = read_le64(bytes, 16) as usize;
    if tc > 0x100_0000 || kc > 0x100_0000 {
        return Err(MmnError::new("GGUF header counts unreasonably large"));
    }
    let (metadata, q) = read_metadata(bytes, 24, kc)?;
    let (tensors, q2) = read_tensor_infos(bytes, q, tc)?;
    let alignment: usize = match metadata_get(&metadata, "general.alignment") {
        Some(v) => match v.as_u64() {
            Some(x) => if (x as usize) < 1 { 1 } else { x as usize },
            None => 32,
        },
        None => 32,
    };
    assert(alignment as int == spec_alignment(meta_view(metadata@)));
    let rem = q2 % alignment;
    assert(rem <= q2) by (nonlinear_arith)
        requires
            rem == q2 % alignment,
            alignment >= 1,
    ;
    let data_start = if rem == 0 {
        q2
    } else {
        let base = q2 - rem;
        if alignment > usize::MAX - base {
            return Err(MmnError::new("GGUF data section start overflows"));
        }
        base + alignment
    };
    Ok(GgufHeader { version, metadata, tensors, alignment, data_start })
}


// ---------------------------------------------------------------------
// Whole file
// ---------------------------------------------------------------------

/// Parsed GGUF file: metadata, tensor descriptors and the data section.
pub struct GgufFile {
    pub version: u32,
    /// Metadata entries, each key once, in order of first appearance.
    pub metadata: Vec<(String, GgufValue)>,
    pub tensors: Vec<GgufTensorInfo>,
    pub alignment: usize,
    /// Every byte from the aligned data-section start to the end.
    pub data: Vec<u8>,
}

/// A whole GGUF file: its header, and a data section that starts within
/// the file.
pub open spec fn spec_read_gguf(s: Seq<u8>) -> Option<(HeaderView, Seq<u8>)> {
    match spec_gguf_header(s) {
        Some(h) => if h.data_start > s.len() { None } else { Some((h, s.subrange(h.data_start, s.len() as int))) },
        None => None,
    }
}

/// Parse a GGUF byte buffer: header, metadata, tensor descriptors, data.
pub fn read_gguf(bytes: &[u8]) -> (r: Result<GgufFile, MmnError>)
    ensures
        match r {
            Ok(f) => spec_read_gguf(bytes@) matches Some((h, d))
                && f.version == h.version
                && meta_view(f.metadata@) == h.metadata
                && tensors_view(f.tensors@) == h.tensors
                && f.alignment == h.alignment
                && f.data@ == d,
            Err(_) => spec_read_gguf(bytes@) is None,
        },
{
    let header = parse_gguf_header(bytes)?;
    if header.data_start > bytes.len() {
        return Err(MmnError::new("GGUF data section start beyond end of file"));
    }
    let data = copy_range(bytes, header.data_start, bytes.len());
    Ok(GgufFile {
        version: header.version,
        metadata: header.metadata,
        tensors: header.tensors,
        alignment: header.alignment,
        data,
    })
}

/// Index of the first tensor named `name`, or -1.
pub open spec fn first_named(ts: Seq<TensorView>, name: Seq<char>) -> int
    decreases ts.len(),
{
    if ts.len() == 0 {
        -1
    } else if ts[0].name == name {
        0
    } else {
        let r = first_named(ts.drop_first(), name);
        if r < 0 { -1 } else { r + 1 }
    }
}

proof fn lemma_first_named_step(ts: Seq<TensorView>, name: Seq<char>, j: int)
    requires
        0 <= j < ts.len(),
        forall|k: int| 0 <= k < j ==> ts[k].name != name,
    ensures
        ts[j].name == name ==> first_named(ts, name) == j,
        ts[j].name != name && j + 1 == ts.len() ==> first_named(ts, name) == -1,
    decreases j,
{
    if j > 0 {
        let tail = ts.drop_first();
        assert forall|k: int| 0 <= k < j - 1 implies tail[k].name != name by {
            assert(tail[k] == ts[k + 1]);
        }
        lemma_first_named_step(tail, name, j - 1);
        assert(ts[0].name != name);
        assert(tail[j - 1] == ts[j]);
    } else if ts[0].name != name && ts.len() == 1 {
        assert(ts.drop_first().len() == 0);
        assert(first_named(ts.drop_first(), name) == -1);
    }
}

impl GgufFile {
    /// The first tensor descriptor named `name`.
    pub fn find_tensor(&self, name: &str) -> (r: Option<&GgufTensorInfo>)
        ensures
            match r {
                Some(t) => first_named(tensors_view(self.tensors@), name@) >= 0
                    && t@ == tensors_view(self.tensors@)[first_named(tensors_view(self.tensors@), name@)],
                None => first_named(tensors_view(self.tensors@), name@) < 0,
            },
    {
        let ghost tv = tensors_view(self.tensors@);
        let mut j: usize = 0;
        while j < self.tensors.len()
            invariant
                tv == tensors_view(self.tensors@),
                j <= self.tensors@.len(),
                forall|k: int| 0 <= k < j ==> tv[k].name != name@,
            decreases self.tensors@.len() - j,
        {
            let hit = str_equals(self.tensors[j].name.as_str(), name);
            proof {
                lemma_first_named_step(tv, name@, j as int);
            }
            if hit {
                return Some(&self.tensors[j]);
            }
            j = j + 1;
        }
        proof {
            if tv.len() == 0 {
            } else {
                lemma_first_named_step(tv, name@, tv.len() - 1);
            }
        }
        None
    }

    /// The raw stored bytes of one tensor: `data_len(numel)` bytes from the
    /// tensor's offset into the data section.
    pub fn tensor_bytes(&self, info: &GgufTensorInfo) -> (r: Result<Vec<u8>, MmnError>)
        requires
            crate::gguf::dims_fit_u64(info.dims@),
            (dims_product(info.dims@) as usize) / crate::gguf_quant::spec_block_layout(info.ggml_type).0
                * crate::gguf_quant::spec_block_layout(info.ggml_type).1 <= usize::MAX,
        ensures
            ({
                let numel = dims_product(info.dims@) as usize;
                let (be, bb) = crate::gguf_quant::spec_block_layout(info.ggml_type);
                let len = numel / be * bb;
                let start = info.offset as usize;
                match r {
                    Ok(b) => numel % be == 0 && start + len <= self.data@.len()
                        && b@ == self.data@.subrange(start as int, start + len),
                    Err(_) => numel % be != 0 || start + len > self.data@.len(),
                }
            }),
    {
        let start = info.offset as usize;
        let numel = info.numel();
        let len = info.ggml_type.data_len(numel)?;
        if len > self.data.len() || start > self.data.len() - len {
            return Err(MmnError::new("GGUF tensor data out of bounds"));
        }
        Ok(copy_range(&self.data, start, start + len))
    }
}


// ---------------------------------------------------------------------
// Writing
// ---------------------------------------------------------------------

/// A string as stored: its UTF-8 byte count as eight little-endian bytes,
/// then the UTF-8 bytes.
pub open spec fn str_bytes(cs: Seq<char>) -> Seq<u8> {
    le64_bytes(encode_utf8(cs).len() as int) + encode_utf8(cs)
}

/// The element type id written for an array: that of its first item, or
/// the string type for an empty array.
pub open spec fn array_elem_type(items: Seq<GVal>) -> u32 {
    if items.len() > 0 { gv_type_id(items[0]) } else { 8 }
}

/// The stored bytes of a value (without its type id).
pub open spec fn value_bytes(v: GVal) -> Seq<u8>
    decreases v,
{
    match v {
        GVal::U8(x) => seq![x],
        GVal::I8(x) => seq![x as u8],
        GVal::U16(x) => le16_bytes(x as int),
        GVal::I16(x) => le16_bytes((x as u16) as int),
        GVal::U32(x) => le32_bytes(x as int),
        GVal::I32(x) => le32_bytes((x as u32) as int),
        GVal::F32(x) => le32_bytes(x as int),
        GVal::Bool(b) => if b { seq![1u8] } else { seq![0u8] },
        GVal::Str(cs) => str_bytes(cs),
        GVal::Array(items) => le32_bytes(array_elem_type(items) as int) + le64_bytes(items.len() as int)
            + items_bytes(items),
        GVal::U64(x) => le64_bytes(x as int),
        GVal::I64(x) => le64_bytes((x as u64) as int),
        GVal::F64(x) => le64_bytes(x as int),
    }
}

/// The stored bytes of `items`, back to back.
pub open spec fn items_bytes(items: Seq<GVal>) -> Seq<u8>
    decreases items,
{
    if items.len() == 0 {
        seq![]
    } else {
        items_bytes(items.subrange(0, items.len() - 1)) + value_bytes(items[items.len() - 1])
    }
}

/// Append a length-prefixed string.
fn write_string(out: &mut Vec<u8>, s: &str)
    ensures
        final(out)@ == old(out)@ + str_bytes(s@),
{
    let b = s.as_bytes();
    push_le64(out, b.len() as u64);
    push_all(out, b);
    assert(final(out)@ =~= old(out)@ + str_bytes(s@));
}

/// Append the stored bytes of `value`.
fn write_value(out: &mut Vec<u8>, value: &GgufValue)
    ensures
        final(out)@ == old(out)@ + value_bytes(value@),
    decreases value,
{
    match value {
        GgufValue::U8(v) => {
            out.push(*v);
            assert(final(out)@ =~= old(out)@ + value_bytes(value@));
        },
        GgufValue::I8(v) => {
            out.push(*v as u8);
            assert(final(out)@ =~= old(out)@ + value_bytes(value@));
        },
        GgufValue::U16(v) => push_le16(out, *v),
        GgufValue::I16(v) => push_le16(out, *v as u16),
        GgufValue::U32(v) => push_le32(out, *v),
        GgufValue::I32(v) => push_le32(out, *v as u32),
        GgufValue::F32(v) => push_le32(out, *v),
        GgufValue::Bool(v) => {
            out.push(if *v { 1u8 } else { 0u8 });
            assert(final(out)@ =~= old(out)@ + value_bytes(value@));
        },
        GgufValue::String(s) => write_string(out, s.as_str()),
        GgufValue::Array(items) => {
            let elem_type: u32 = if items.len() > 0 { items[0].type_id() } else { 8 };
            proof {
                assert(value@->Array_0 =~= gvals_view(items@));
            }
            push_le32(out, elem_type);
            push_le64(out, items.len() as u64);
            write_items(value, items, out);
            assert(final(out)@ =~= old(out)@ + value_bytes(value@));
        },
        GgufValue::U64(v) => push_le64(out, *v),
        GgufValue::I64(v) => push_le64(out, *v as u64),
        GgufValue::F64(v) => push_le64(out, *v),
    }
}

/// Append the stored bytes of the items of the array `whole`.
fn write_items(whole: &GgufValue, items: &Vec<GgufValue>, out: &mut Vec<u8>)
    requires
        *whole == GgufValue::Array(*items),
    ensures
        final(out)@ == old(out)@ + items_bytes(whole@->Array_0),
    decreases whole, 0nat,
{
    let ghost vs: Seq<GVal> = whole@->Array_0;
    let mut i: usize = 0;
    while i < items.len()
        invariant
            *whole == GgufValue::Array(*items),
            vs == whole@->Array_0,
            vs.len() == items@.len(),
            i <= items@.len(),
            out@ == old(out)@ + items_bytes(vs.take(i as int)),
        decreases items@.len() - i,
    {
        proof {
            assert(vs[i as int] == items@[i as int]@);
            assert(vs.take(i + 1).subrange(0, i as int) =~= vs.take(i as int));
        }
        write_value(out, &items[i]);
        i = i + 1;
    }
    proof {
        assert(vs.take(i as int) =~= vs);
    }
}


/// `n` zero bytes.
pub open spec fn zeros(n: int) -> Seq<u8> {
    Seq::new(n as nat, |i: int| 0u8)
}

/// `n` rounded up to the default alignment.
pub open spec fn padded(n: int) -> int {
    round_up(n, DEFAULT_ALIGNMENT as int)
}

/// Append `n` zero bytes.
fn push_zeros(out: &mut Vec<u8>, n: usize)
    ensures
        final(out)@ == old(out)@ + zeros(n as int),
{
    let mut i: usize = 0;
    while i < n
        invariant
            i <= n,
            out@ == old(out)@ + zeros(i as int),
        decreases n - i,
    {
        out.push(0u8);
        i = i + 1;
        assert(out@ =~= old(out)@ + zeros(i as int));
    }
}

/// Append zeros up to the next multiple of the default alignment.
fn pad_to_alignment(out: &mut Vec<u8>)
    requires
        padded(old(out)@.len() as int) <= usize::MAX,
    ensures
        final(out)@ == old(out)@ + zeros(padded(old(out)@.len() as int) - old(out)@.len()),
{
    let rem = out.len() % 32;
    if rem != 0 {
        push_zeros(out, 32 - rem);
    } else {
        assert(final(out)@ =~= old(out)@ + zeros(0));
    }
}

/// A tensor to be written: `shape` is row-major (C order) and `payload`
/// holds its elements already encoded in `ggml_type`.
pub struct GgufWriteTensor {
    pub name: String,
    pub shape: Vec<usize>,
    pub ggml_type: GgmlType,
    pub payload: Vec<u8>,
}

/// The mathematical content of a [`GgufWriteTensor`].
pub struct WriteView {
    pub name: Seq<char>,
    pub shape: Seq<usize>,
    pub type_id: u32,
    pub payload: Seq<u8>,
}

impl View for GgufWriteTensor {
    type V = WriteView;

    open spec fn view(&self) -> WriteView {
        WriteView {
            name: self.name@,
            shape: self.shape@,
            type_id: spec_type_id(self.ggml_type),
            payload: self.payload@,
        }
    }
}

/// The views of a run of tensors to write.
pub open spec fn writes_view(ts: Seq<GgufWriteTensor>) -> Seq<WriteView> {
    Seq::new(ts.len(), |i: int| ts[i]@)
}

/// Total size of the aligned payloads.
pub open spec fn payloads_total(ts: Seq<WriteView>) -> int
    decreases ts.len(),
{
    if ts.len() == 0 { 0 } else { payloads_total(ts.drop_last()) + padded(ts.last().payload.len() as int) }
}

/// The dims of a row-major shape in GGML order (reversed), each as eight
/// little-endian bytes.
pub open spec fn dims_rev_bytes(shape: Seq<usize>) -> Seq<u8>
    decreases shape.len(),
{
    if shape.len() == 0 { seq![] } else { le64_bytes(shape.last() as int) + dims_rev_bytes(shape.drop_last()) }
}

/// One stored tensor descriptor with data offset `off`.
pub open spec fn info_bytes(t: WriteView, off: int) -> Seq<u8> {
    str_bytes(t.name) + le32_bytes((t.shape.len() as u32) as int) + dims_rev_bytes(t.shape)
        + le32_bytes(t.type_id as int) + le64_bytes(off)
}

/// The stored descriptors of `ts`, each with the offset at which its
/// payload follows the aligned payloads before it.
pub open spec fn infos_bytes(ts: Seq<WriteView>) -> Seq<u8>
    decreases ts.len(),
{
    if ts.len() == 0 {
        seq![]
    } else {
        infos_bytes(ts.drop_last()) + info_bytes(ts.last(), payloads_total(ts.drop_last()))
    }
}

/// The payloads of `ts`, each padded with zeros to the alignment.
pub open spec fn payload_section(ts: Seq<WriteView>) -> Seq<u8>
    decreases ts.len(),
{
    if ts.len() == 0 {
        seq![]
    } else {
        let p = ts.last().payload;
        payload_section(ts.drop_last()) + p + zeros(padded(p.len() as int) - p.len())
    }
}

/// The stored metadata entries: key, type id, value.
pub open spec fn kv_bytes(m: Seq<(Seq<char>, GVal)>) -> Seq<u8>
    decreases m.len(),
{
    if m.len() == 0 {
        seq![]
    } else {
        let (k, v) = m.last();
        kv_bytes(m.drop_last()) + str_bytes(k) + le32_bytes(gv_type_id(v) as int) + value_bytes(v)
    }
}

/// Everything before the data section: magic, version 3, counts, the
/// `general.alignment` entry (a `u32` 32) first, the given entries, and the
/// tensor descriptors.
pub open spec fn gguf_head(m: Seq<(Seq<char>, GVal)>, ts: Seq<WriteView>) -> Seq<u8> {
    seq![0x47u8, 0x47u8, 0x55u8, 0x46u8] + le32_bytes(3) + le64_bytes(ts.len() as int)
        + le64_bytes(m.len() + 1int) + str_bytes("general.alignment"@) + le32_bytes(4) + le32_bytes(32)
        + kv_bytes(m) + infos_bytes(ts)
}

/// A whole GGUF v3 file: the head padded with zeros to the alignment, then
/// the aligned payloads.
pub open spec fn spec_write_gguf(m: Seq<(Seq<char>, GVal)>, ts: Seq<WriteView>) -> Seq<u8> {
    let h = gguf_head(m, ts);
    h + zeros(padded(h.len() as int) - h.len()) + payload_section(ts)
}

proof fn lemma_kv_bytes_len(m: Seq<(Seq<char>, GVal)>)
    ensures
        kv_bytes(m).len() >= m.len(),
    decreases m.len(),
{
    if m.len() > 0 {
        lemma_kv_bytes_len(m.drop_last());
    }
}

pub proof fn lemma_payload_section_len(ts: Seq<WriteView>)
    ensures
        payload_section(ts).len() == payloads_total(ts),
        payloads_total(ts) >= 0,
    decreases ts.len(),
{
    if ts.len() > 0 {
        lemma_payload_section_len(ts.drop_last());
        let n = ts.last().payload.len() as int;
        assert(padded(n) >= n) by (nonlinear_arith)
            requires
                n >= 0,
                padded(n) == (if n % 32 == 0 { n } else { n - n % 32 + 32 }),
        ;
    }
}

pub proof fn lemma_payloads_total_prefix(ts: Seq<WriteView>, i: int)
    requires
        0 <= i <= ts.len(),
    ensures
        payloads_total(ts.take(i)) <= payloads_total(ts),
    decreases ts.len() - i,
{
    if i < ts.len() {
        lemma_payloads_total_prefix(ts, i + 1);
        assert(ts.take(i + 1).drop_last() =~= ts.take(i));
        let n = ts[i].payload.len() as int;
        assert(padded(n) >= 0) by (nonlinear_arith)
            requires
                n >= 0,
                padded(n) == (if n % 32 == 0 { n } else { n - n % 32 + 32 }),
        ;
    } else {
        assert(ts.take(i) =~= ts);
    }
}

/// Append the dims of `shape` in GGML order.
fn write_dims_rev(out: &mut Vec<u8>, shape: &Vec<usize>)
    ensures
        final(out)@ == old(out)@ + dims_rev_bytes(shape@),
{
    let mut k: usize = shape.len();
    proof {
        assert(shape@.take(k as int) =~= shape@);
    }
    while k > 0
        invariant
            k <= shape@.len(),
            old(out)@ + dims_rev_bytes(shape@) == out@ + dims_rev_bytes(shape@.take(k as int)),
        decreases k,
    {
        proof {
            let t = shape@.take(k as int);
            assert(t.drop_last() =~= shape@.take(k - 1));
            assert(t.last() == shape@[k - 1]);
        }
        let ghost before = out@;
        push_le64(out, shape[k - 1] as u64);
        proof {
            let t = shape@.take(k as int);
            assert(before + dims_rev_bytes(t) =~= out@ + dims_rev_bytes(shape@.take(k - 1)));
        }
        k = k - 1;
    }
    proof {
        assert(shape@.take(0) =~= Seq::<usize>::empty());
        assert(out@ + dims_rev_bytes(shape@.take(0)) =~= out@);
    }
}

/// Append one tensor descriptor with data offset `offset`.
fn write_tensor_info(out: &mut Vec<u8>, t: &GgufWriteTensor, offset: usize)
    ensures
        final(out)@ == old(out)@ + info_bytes(t@, offset as int),
{
    write_string(out, t.name.as_str());
    push_le32(out, t.shape.len() as u32);
    write_dims_rev(out, &t.shape);
    push_le32(out, t.ggml_type.type_id());
    push_le64(out, offset as u64);
    assert(final(out)@ =~= old(out)@ + info_bytes(t@, offset as int));
}

/// `n` rounded up to the default alignment.
fn padded_len(n: usize) -> (r: usize)
    requires
        padded(n as int) <= usize::MAX,
    ensures
        r == padded(n as int),
{
    let rem = n % 32;
    if rem == 0 { n } else { n - rem + 32 }
}

/// One more tensor taken from the front.
proof fn lemma_take_step(tv: Seq<WriteView>, j: int)
    requires
        0 <= j < tv.len(),
    ensures
        infos_bytes(tv.take(j + 1)) == infos_bytes(tv.take(j)) + info_bytes(tv[j], payloads_total(tv.take(j))),
        payloads_total(tv.take(j + 1)) == payloads_total(tv.take(j)) + padded(tv[j].payload.len() as int),
{
    let tk = tv.take(j + 1);
    assert(tk.drop_last() =~= tv.take(j));
    assert(tk.last() == tv[j]);
}

/// Append the descriptors of `tensors`, with offsets of aligned payloads.
#[verifier::rlimit(40)]
fn write_tensor_infos(out: &mut Vec<u8>, tensors: &[GgufWriteTensor])
    requires
        payloads_total(writes_view(tensors@)) <= usize::MAX,
    ensures
        final(out)@ == old(out)@ + infos_bytes(writes_view(tensors@)),
{
    let ghost tv = writes_view(tensors@);
    let mut offset: usize = 0;
    let mut j: usize = 0;
    proof {
        assert(tv.take(0) =~= Seq::<WriteView>::empty());
        assert(out@ =~= old(out)@ + infos_bytes(tv.take(0)));
    }
    while j < tensors.len()
        invariant
            tv == writes_view(tensors@),
            j <= tensors@.len(),
            out@ == old(out)@ + infos_bytes(tv.take(j as int)),
            offset as int == payloads_total(tv.take(j as int)),
            payloads_total(tv) <= usize::MAX,
        decreases tensors@.len() - j,
    {
        let t = &tensors[j];
        let ghost before = out@;
        write_tensor_info(out, t, offset);
        let ghost tk = tv.take(j + 1);
        proof {
            lemma_take_step(tv, j as int);
            lemma_payloads_total_prefix(tv, j + 1);
        }
        let pad = padded_len(t.payload.len());
        offset = offset + pad;
        j = j + 1;
    }
    proof {
        assert(tv.take(j as int) =~= tv);
    }
}

/// Serialize a GGUF v3 file: `general.alignment` (32) first, then the given
/// metadata entries in order, the tensor descriptors, and the payloads, each
/// padded to a multiple of 32 bytes.
#[verifier::rlimit(100)]
#[verifier::spinoff_prover]
pub fn write_gguf(metadata: &[(String, GgufValue)], tensors: &[GgufWriteTensor]) -> (out: Vec<u8>)
    requires
        spec_write_gguf(meta_view(metadata@), writes_view(tensors@)).len() <= usize::MAX,
    ensures
        out@ == spec_write_gguf(meta_view(metadata@), writes_view(tensors@)),
{
    let ghost mv = meta_view(metadata@);
    let ghost tv = writes_view(tensors@);
    proof {
        lemma_kv_bytes_len(mv);
        lemma_payload_section_len(tv);
    }
    let mut out: Vec<u8> = Vec::new();
    out.push(0x47u8);
    out.push(0x47u8);
    out.push(0x55u8);
    out.push(0x46u8);
    push_le32(&mut out, GGUF_VERSION);
    push_le64(&mut out, tensors.len() as u64);
    push_le64(&mut out, metadata.len() as u64 + 1);
    write_string(&mut out, "general.alignment");
    push_le32(&mut out, 4u32);
    push_le32(&mut out, 32u32);
    let ghost pre = out@;
    proof {
        assert(mv.take(0) =~= Seq::<(Seq<char>, GVal)>::empty());
        assert(out@ =~= pre + kv_bytes(mv.take(0)));
    }
    let mut i: usize = 0;
    while i < metadata.len()
        invariant
            mv == meta_view(metadata@),
            i <= metadata@.len(),
            out@ == pre + kv_bytes(mv.take(i as int)),
        decreases metadata@.len() - i,
    {
        let ghost before = out@;
        write_string(&mut out, metadata[i].0.as_str());
        push_le32(&mut out, metadata[i].1.type_id());
        write_value(&mut out, &metadata[i].1);
        proof {
            let t = mv.take(i + 1);
            assert(t.drop_last() =~= mv.take(i as int));
            assert(t.last() == (metadata@[i as int].0@, metadata@[i as int].1@));
            assert(out@ =~= pre + kv_bytes(t));
        }
        i = i + 1;
    }
    proof {
        assert(mv.take(i as int) =~= mv);
    }
    write_tensor_infos(&mut out, tensors);
    pad_to_alignment(&mut out);
    let ghost pre3 = out@;
    let mut k: usize = 0;
    proof {
        assert(out@ =~= pre3 + payload_section(tv.take(0)));
    }
    while k < tensors.len()
        invariant
            tv == writes_view(tensors@),
            k <= tensors@.len(),
            out@ == pre3 + payload_section(tv.take(k as int)),
            pre3.len() + payload_section(tv).len() <= usize::MAX,
        decreases tensors@.len() - k,
    {
        let p = &tensors[k].payload;
        let n = p.len();
        let rem = n % 32;
        let fill: usize = if rem == 0 { 0 } else { 32 - rem };
        proof {
            let tk = tv.take(k + 1);
            assert(tk.drop_last() =~= tv.take(k as int));
            assert(tk.last() == tensors@[k as int]@);
            lemma_payload_section_len(tk);
            lemma_payload_section_len(tv);
            lemma_payloads_total_prefix(tv, k + 1);
            lemma_payload_section_len(tv.take(k as int));
        }
        push_all(&mut out, p.as_slice());
        push_zeros(&mut out, fill);
        proof {
            let tk = tv.take(k + 1);
            assert(out@ =~= pre3 + payload_section(tk));
        }
        k = k + 1;
    }
    proof {
        assert(tv.take(k as int) =~= tv);
    }
    out
}

} // verus!
