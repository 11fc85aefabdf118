//! Legacy pre-GGUF llama.cpp containers: GGML (unversioned), GGMF v1 and
//! GGJT v1-v3 — container flavors, magic detection and tensor data sizes.

use vstd::prelude::*;
use vstd::utf8::*;
use crate::bytes::{le32_at, read_le32, copy_range};
use crate::msgpack::utf8_string;
use crate::error::MmnError;
use crate::gguf_quant::{GgmlType, spec_block_layout};

verus! {

/// `ggml` magic (unversioned).
pub const MAGIC_GGML: u32 = 0x6767_6d6c;
/// `ggmf` magic (v1).
pub const MAGIC_GGMF: u32 = 0x6767_6d66;
/// `ggjt` magic (v1-v3).
pub const MAGIC_GGJT: u32 = 0x6767_6a74;

/// Container flavor + version detected from the magic.
#[derive(Debug, Clone, Copy, PartialEq, Eq, Structural)]
pub enum LegacyGgmlContainer {
    /// Unversioned `ggml` (no vocab scores, no alignment).
    Ggml,
    /// `ggmf` v1 (vocab scores, no alignment).
    Ggmf,
    /// `ggjt` v1-v3 (vocab scores, 32-byte tensor alignment).
    Ggjt(u32),
}

/// GGJT v2+ uses the modern (GGUF) quantized block layouts.
pub open spec fn uses_modern_blocks(c: LegacyGgmlContainer) -> bool {
    match c {
        LegacyGgmlContainer::Ggjt(v) => v >= 2,
        _ => false,
    }
}

impl LegacyGgmlContainer {
    /// Short name of the flavor.
    pub fn as_str(&self) -> (s: &'static str)
        ensures
            s@ == match self {
                LegacyGgmlContainer::Ggml => "ggml"@,
                LegacyGgmlContainer::Ggmf => "ggmf"@,
                LegacyGgmlContainer::Ggjt(_) => "ggjt"@,
            },
    {
        match self {
            LegacyGgmlContainer::Ggml => "ggml",
            LegacyGgmlContainer::Ggmf => "ggmf",
            LegacyGgmlContainer::Ggjt(_) => "ggjt",
        }
    }

    /// Vocab entries carry a score from GGMF on.
    pub fn has_vocab_scores(&self) -> (r: bool)
        ensures
            r == !(*self is Ggml),
    {
        !matches!(self, LegacyGgmlContainer::Ggml)
    }

    /// GGJT pads tensor data to 32 bytes.
    pub fn aligned(&self) -> (r: bool)
        ensures
            r == (*self is Ggjt),
    {
        matches!(self, LegacyGgmlContainer::Ggjt(_))
    }

    /// GGJT v2 changed Q4/Q8 block layouts to the modern (GGUF) ones;
    /// everything earlier uses the original f32-scale layouts.
    pub fn modern_quant_blocks(&self) -> (r: bool)
        ensures
            r == uses_modern_blocks(*self),
    {
        match self {
            LegacyGgmlContainer::Ggjt(v) => *v >= 2,
            _ => false,
        }
    }
}

/// True when the buffer starts with a legacy GGML/GGMF/GGJT magic.
pub fn is_ggml_legacy_bytes(bytes: &[u8]) -> (r: bool)
    ensures
        r == (bytes@.len() >= 4 && (le32_at(bytes@, 0) == MAGIC_GGML || le32_at(bytes@, 0) == MAGIC_GGMF
            || le32_at(bytes@, 0) == MAGIC_GGJT)),
{
    if bytes.len() < 4 {
        return false;
    }
    let magic = read_le32(bytes, 0);
    magic == MAGIC_GGML || magic == MAGIC_GGMF || magic == MAGIC_GGJT
}

/// Bytes a legacy tensor of `numel` elements and `ftype` occupies, or `None`
/// when the ftype is not supported by this container.
pub open spec fn spec_legacy_data_len(modern: bool, ftype: u32, numel: int) -> Option<int> {
    if ftype == 0 {
        Some(numel * 4)
    } else if ftype == 1 {
        Some(numel * 2)
    } else if !modern && ftype == 2 {
        Some(numel / 32 * 20)
    } else if !modern && ftype == 3 {
        Some(numel / 32 * 24)
    } else if modern && (ftype == 2 || ftype == 3 || ftype == 6 || ftype == 7 || ftype == 8) {
        let t = if ftype == 2 { GgmlType::Q4_0 } else if ftype == 3 { GgmlType::Q4_1 } else if ftype == 6 {
            GgmlType::Q5_0 } else if ftype == 7 { GgmlType::Q5_1 } else { GgmlType::Q8_0 };
        if numel % (spec_block_layout(t).0 as int) == 0 {
            Some(numel / (spec_block_layout(t).0 as int) * (spec_block_layout(t).1 as int))
        } else {
            None
        }
    } else {
        None
    }
}

/// Bytes per tensor for one legacy ftype.
pub fn legacy_data_len(container: LegacyGgmlContainer, ftype: u32, numel: usize) -> (r: Result<usize, MmnError>)
    requires
        numel <= usize::MAX / 4,
    ensures
        match spec_legacy_data_len(uses_modern_blocks(container), ftype, numel as int) {
            Some(n) => r matches Ok(x) && x == n,
            None => r is Err,
        },
{
    let modern = container.modern_quant_blocks();
    if ftype == 0 {
        Ok(numel * 4)
    } else if ftype == 1 {
        Ok(numel * 2)
    } else if !modern && ftype == 2 {
        Ok(numel / 32 * 20)
    } else if !modern && ftype == 3 {
        Ok(numel / 32 * 24)
    } else if modern && ftype == 2 {
        GgmlType::Q4_0.data_len(numel)
    } else if modern && ftype == 3 {
        GgmlType::Q4_1.data_len(numel)
    } else if modern && ftype == 6 {
        GgmlType::Q5_0.data_len(numel)
    } else if modern && ftype == 7 {
        GgmlType::Q5_1.data_len(numel)
    } else if modern && ftype == 8 {
        GgmlType::Q8_0.data_len(numel)
    } else {
        Err(MmnError::new(
            "legacy ggml tensor ftype not supported for this container (f32/f16/q4_0/q4_1, plus q5/q8 for ggjt v2+)",
        ))
    }
}


// ---------------------------------------------------------------------
// Reading a whole legacy file
// ---------------------------------------------------------------------

/// One tensor of a legacy file: name, row-major shape (GGML dims
/// reversed), ftype and its stored bytes.
pub struct LegacyTensor {
    pub name: String,
    pub shape: Vec<usize>,
    pub ftype: u32,
    pub data: Vec<u8>,
}

/// Parsed legacy file: container, llama hparams
/// `[n_vocab, n_embd, n_mult, n_head, n_layer, n_rot, ftype]`, vocabulary
/// tokens with the bit patterns of their f32 scores (0 for unversioned
/// GGML), and the tensors.
pub struct LegacyGgmlFile {
    pub container: LegacyGgmlContainer,
    pub hparams: [i32; 7],
    pub vocab: Vec<(Vec<u8>, u32)>,
    pub tensors: Vec<LegacyTensor>,
}

/// The mathematical content of a [`LegacyTensor`].
pub struct LegacyTensorView {
    pub name: Seq<char>,
    pub shape: Seq<usize>,
    pub ftype: u32,
    pub data: Seq<u8>,
}

impl View for LegacyTensor {
    type V = LegacyTensorView;

    open spec fn view(&self) -> LegacyTensorView {
        LegacyTensorView { name: self.name@, shape: self.shape@, ftype: self.ftype, data: self.data@ }
    }
}

/// The container named by the magic (and version) at the start, and the
/// position after them.
pub open spec fn legacy_container_at(s: Seq<u8>) -> Option<(LegacyGgmlContainer, int)> {
    if s.len() < 4 {
        None
    } else {
        let magic = le32_at(s, 0);
        if magic == MAGIC_GGML {
            Some((LegacyGgmlContainer::Ggml, 4))
        } else if magic == MAGIC_GGMF || magic == MAGIC_GGJT {
            if s.len() < 8 {
                None
            } else {
                let v = le32_at(s, 4) as u32;
                if magic == MAGIC_GGMF {
                    if v != 1 { None } else { Some((LegacyGgmlContainer::Ggmf, 8)) }
                } else if v < 1 || v > 3 {
                    None
                } else {
                    Some((LegacyGgmlContainer::Ggjt(v), 8))
                }
            }
        } else {
            None
        }
    }
}

/// `n` vocabulary entries from `p`: length, token bytes (no longer than
/// the file), and a score when the container has them.
pub open spec fn legacy_vocab_at(s: Seq<u8>, p: int, n: nat, scores: bool) -> Option<(Seq<(Seq<u8>, u32)>, int)>
    decreases n,
{
    if n == 0 {
        Some((seq![], p))
    } else {
        match legacy_vocab_at(s, p, (n - 1) as nat, scores) {
            None => None,
            Some((vs, q)) => if q + 4 > s.len() {
                None
            } else {
                let len = (le32_at(s, q) as usize) as int;
                let end = q + 4 + len;
                if len > s.len() || end > s.len() {
                    None
                } else if scores {
                    if end + 4 > s.len() {
                        None
                    } else {
                        Some((vs.push((s.subrange(q + 4, end), le32_at(s, end) as u32)), end + 4))
                    }
                } else {
                    Some((vs.push((s.subrange(q + 4, end), 0u32)), end))
                }
            },
        }
    }
}

/// Product of the GGML dims.
pub open spec fn ne_product(ne: Seq<usize>) -> int
    decreases ne.len(),
{
    if ne.len() == 0 { 1 } else { ne_product(ne.drop_last()) * ne.last() }
}

/// `n` little-endian `u32`s from `p`, each taken as a `usize`.
pub open spec fn le32_usizes(s: Seq<u8>, p: int, n: nat) -> Seq<usize> {
    Seq::new(n, |i: int| le32_at(s, p + 4 * i) as usize)
}

/// The reversed dims.
pub open spec fn reversed(ne: Seq<usize>) -> Seq<usize> {
    Seq::new(ne.len(), |i: int| ne[ne.len() - 1 - i])
}

/// The tensor at `p`: dim count (at most 4), name length (at most 4096),
/// ftype, dims, UTF-8 name, padding to 32 bytes for GGJT, and the data of
/// the size the ftype gives. Element counts above `usize::MAX / 4` are
/// refused.
pub open spec fn legacy_tensor_at(s: Seq<u8>, p: int, c: LegacyGgmlContainer) -> Option<(LegacyTensorView, int)> {
    if p < 0 || p + 12 > s.len() {
        None
    } else {
        let nd = (le32_at(s, p) as usize) as int;
        let nl = (le32_at(s, p + 4) as usize) as int;
        let ft = le32_at(s, p + 8) as u32;
        if nd > 4 || nl > 4096 || p + 12 + 4 * nd + nl > s.len() {
            None
        } else {
            let ne = le32_usizes(s, p + 12, nd as nat);
            let q = p + 12 + 4 * nd;
            let name = s.subrange(q, q + nl);
            let after = if c is Ggjt && (q + nl) % 32 != 0 { q + nl - (q + nl) % 32 + 32 } else { q + nl };
            if !valid_utf8(name) || ne_product(ne) > usize::MAX / 4 {
                None
            } else {
                match spec_legacy_data_len(uses_modern_blocks(c), ft, ne_product(ne)) {
                    None => None,
                    Some(dl) => if after + dl > s.len() {
                        None
                    } else {
                        Some((LegacyTensorView {
                            name: decode_utf8(name),
                            shape: reversed(ne),
                            ftype: ft,
                            data: s.subrange(after, after + dl),
                        }, after + dl))
                    },
                }
            }
        }
    }
}

/// Tensors from `p` until the end of the file.
pub open spec fn legacy_tensors_at(s: Seq<u8>, p: int, c: LegacyGgmlContainer) -> Option<Seq<LegacyTensorView>>
    decreases s.len() - p,
{
    if p < 0 || p >= s.len() {
        Some(seq![])
    } else {
        match legacy_tensor_at(s, p, c) {
            None => None,
            Some((t, e)) => if e <= p {
                None
            } else {
                match legacy_tensors_at(s, e, c) {
                    Some(rest) => Some(seq![t] + rest),
                    None => None,
                }
            },
        }
    }
}

/// The mathematical content of a [`LegacyGgmlFile`].
pub struct LegacyView {
    pub container: LegacyGgmlContainer,
    pub hparams: Seq<i32>,
    pub vocab: Seq<(Seq<u8>, u32)>,
    pub tensors: Seq<LegacyTensorView>,
}

/// A whole legacy file: container, seven hparams, `n_vocab` (at most 2^22,
/// not negative) vocabulary entries, then tensors to the end.
pub open spec fn spec_read_legacy(s: Seq<u8>) -> Option<LegacyView> {
    match legacy_container_at(s) {
        None => None,
        Some((c, p)) => if p + 28 > s.len() {
            None
        } else {
            let hp = Seq::new(7, |i: int| le32_at(s, p + 4 * i) as i32);
            let nv = hp[0];
            if nv < 0 || nv > 0x40_0000 {
                None
            } else {
                match legacy_vocab_at(s, p + 28, nv as nat, !(c is Ggml)) {
                    None => None,
                    Some((vocab, q)) => match legacy_tensors_at(s, q, c) {
                        None => None,
                        Some(ts) => Some(LegacyView { container: c, hparams: hp, vocab, tensors: ts }),
                    },
                }
            }
        },
    }
}

fn truncated() -> (e: MmnError) {
    MmnError::new("legacy ggml file truncated")
}

/// The views of a run of tensors.
pub open spec fn legacy_tensors_view(ts: Seq<LegacyTensor>) -> Seq<LegacyTensorView> {
    Seq::new(ts.len(), |i: int| ts[i]@)
}

proof fn lemma_vocab_fail_extends(s: Seq<u8>, p: int, k: nat, n: nat, scores: bool)
    requires
        k <= n,
        legacy_vocab_at(s, p, k, scores) is None,
    ensures
        legacy_vocab_at(s, p, n, scores) is None,
    decreases n - k,
{
    if k < n {
        lemma_vocab_fail_extends(s, p, k, (n - 1) as nat, scores);
    }
}

/// The views of vocabulary entries.
pub open spec fn vocab_view(vs: Seq<(Vec<u8>, u32)>) -> Seq<(Seq<u8>, u32)> {
    Seq::new(vs.len(), |i: int| (vs[i].0@, vs[i].1))
}

/// `n` vocabulary entries from `p`.
fn read_vocab(bytes: &[u8], p: usize, n: usize, scores: bool) -> (r: Result<(Vec<(Vec<u8>, u32)>, usize), MmnError>)
    requires
        p <= bytes@.len(),
    ensures
        match r {
            Ok((vs, e)) => legacy_vocab_at(bytes@, p as int, n as nat, scores) == Some((vocab_view(vs@), e as int))
                && e <= bytes@.len(),
            Err(_) => legacy_vocab_at(bytes@, p as int, n as nat, scores) is None,
        },
{
    let ghost s = bytes@;
    let mut vs: Vec<(Vec<u8>, u32)> = Vec::new();
    let mut q = p;
    let mut i: usize = 0;
    while i < n
        invariant
            s == bytes@,
            i <= n,
            q <= bytes@.len(),
            legacy_vocab_at(s, p as int, i as nat, scores) == Some((vocab_view(vs@), q as int)),
        decreases n - i,
    {
        if bytes.len() - q < 4 {
            proof { lemma_vocab_fail_extends(s, p as int, (i + 1) as nat, n as nat, scores); }
            return Err(truncated());
        }
        let len = read_le32(bytes, q) as usize;
        if len > bytes.len() {
            proof { lemma_vocab_fail_extends(s, p as int, (i + 1) as nat, n as nat, scores); }
            return Err(MmnError::new("legacy ggml vocab entry length exceeds file"));
        }
        if len > bytes.len() - q - 4 {
            proof { lemma_vocab_fail_extends(s, p as int, (i + 1) as nat, n as nat, scores); }
            return Err(truncated());
        }
        let end = q + 4 + len;
        let token = copy_range(bytes, q + 4, end);
        let ghost old_vs = vs@;
        if scores {
            if bytes.len() - end < 4 {
                proof { lemma_vocab_fail_extends(s, p as int, (i + 1) as nat, n as nat, scores); }
                return Err(truncated());
            }
            let score = read_le32(bytes, end);
            vs.push((token, score));
            q = end + 4;
        } else {
            vs.push((token, 0u32));
            q = end;
        }
        proof {
            assert(vocab_view(vs@) =~= vocab_view(old_vs).push((vs@.last().0@, vs@.last().1)));
        }
        i = i + 1;
    }
    Ok((vs, q))
}

/// Product of the dims as a `u128` (at most four `u32`s).
fn dims_product(ne: &Vec<usize>) -> (r: u128)
    requires
        ne@.len() <= 4,
        forall|i: int| 0 <= i < ne@.len() ==> ne@[i] <= u32::MAX,
    ensures
        r as int == ne_product(ne@),
{
    let mut acc: u128 = 1;
    let mut i: usize = 0;
    proof {
        assert(ne@.take(0) =~= Seq::<usize>::empty());
    }
    while i < ne.len()
        invariant
            i <= ne@.len() <= 4,
            forall|k: int| 0 <= k < ne@.len() ==> ne@[k] <= u32::MAX,
            acc as int == ne_product(ne@.take(i as int)),
            0 <= acc <= pow32(i as nat),
        decreases ne@.len() - i,
    {
        proof {
            assert(ne@.take(i + 1).drop_last() =~= ne@.take(i as int));
            let a = acc as int;
            let x = ne@[i as int] as int;
            assert(a * x <= pow32(i as nat) * 0xffff_ffff) by (nonlinear_arith)
                requires 0 <= a <= pow32(i as nat), 0 <= x <= u32::MAX;
            assert(pow32((i + 1) as nat) == pow32(i as nat) * 0xffff_ffff);
            lemma_pow32_bound(i as nat);
        }
        acc = acc * (ne[i] as u128);
        i = i + 1;
    }
    proof {
        assert(ne@.take(i as int) =~= ne@);
    }
    acc
}

/// `(2^32 - 1)^n`.
pub open spec fn pow32(n: nat) -> int
    decreases n,
{
    if n == 0 { 1 } else { pow32((n - 1) as nat) * 0xffff_ffff }
}

proof fn lemma_pow32_bound(n: nat)
    requires
        n <= 3,
    ensures
        pow32(n + 1) <= u128::MAX,
{
    assert(pow32(0) == 1);
    assert(pow32(1) == 0xffff_ffff);
    assert(pow32(2) == 0xffff_ffff * 0xffff_ffff);
    assert(pow32(3) == 0xffff_ffff * 0xffff_ffff * 0xffff_ffff);
    assert(pow32(4) == 0xffff_ffff * 0xffff_ffff * 0xffff_ffff * 0xffff_ffff);
}


/// The tensor at `p`.
fn read_legacy_tensor(bytes: &[u8], p: usize, c: LegacyGgmlContainer) -> (r: Result<(LegacyTensor, usize), MmnError>)
    requires
        p <= bytes@.len(),
    ensures
        match r {
            Ok((t, e)) => legacy_tensor_at(bytes@, p as int, c) == Some((t@, e as int)) && p + 12 <= e <= bytes@.len(),
            Err(_) => legacy_tensor_at(bytes@, p as int, c) is None,
        },
{
    let ghost s = bytes@;
    let blen = bytes.len();
    if blen - p < 12 {
        return Err(truncated());
    }
    let nd = read_le32(bytes, p) as usize;
    let nl = read_le32(bytes, p + 4) as usize;
    let ft = read_le32(bytes, p + 8);
    if nd > 4 || nl > 4096 {
        return Err(MmnError::new("legacy ggml tensor header unreasonable"));
    }
    if blen - p - 12 < 4 * nd + nl {
        return Err(truncated());
    }
    let mut ne: Vec<usize> = Vec::new();
    let mut i: usize = 0;
    let mut at: usize = p + 12;
    while i < nd
        invariant
            s == bytes@,
            blen == bytes@.len(),
            i <= nd <= 4,
            nl <= 4096,
            at == p + 12 + 4 * i,
            p + 12 + 4 * nd + nl <= bytes@.len(),
            ne@ =~= le32_usizes(s, p + 12, i as nat),
        decreases nd - i,
    {
        let d = read_le32(bytes, at) as usize;
        ne.push(d);
        i = i + 1;
        at = at + 4;
    }
    let q = p + 12 + 4 * nd;
    let end = q + nl;
    let raw = copy_range(bytes, q, end);
    let name = match utf8_string(raw) {
        Some(t) => t,
        None => {
            return Err(MmnError::new("legacy ggml tensor name not UTF-8"));
        },
    };
    let mut after = end;
    if c.aligned() && end % 32 != 0 {
        let pad = 32 - end % 32;
        if pad > blen - end {
            assert(legacy_tensor_at(s, p as int, c) is None) by {
                let ne_s = le32_usizes(s, p + 12, nd as nat);
                match spec_legacy_data_len(uses_modern_blocks(c), ft, ne_product(ne_s)) {
                    Some(dl) => {
                        if ne_product(ne_s) <= usize::MAX / 4 {
                            lemma_ne_product_nonneg(ne_s);
                            assert(dl >= 0) by {
                                lemma_data_len_nonneg(uses_modern_blocks(c), ft, ne_product(ne_s));
                            }
                        }
                    },
                    None => {},
                }
            }
            return Err(truncated());
        }
        after = end + pad;
    }
    proof {
        assert(forall|k: int| 0 <= k < ne@.len() ==> ne@[k] <= u32::MAX);
    }
    let prod = dims_product(&ne);
    if prod > (usize::MAX / 4) as u128 {
        return Err(MmnError::new("legacy ggml tensor too large"));
    }
    let numel = prod as usize;
    let dl = legacy_data_len(c, ft, numel)?;
    proof {
        lemma_data_len_nonneg(uses_modern_blocks(c), ft, numel as int);
    }
    if dl > blen - after {
        return Err(truncated());
    }
    let data = copy_range(bytes, after, after + dl);
    let mut shape: Vec<usize> = Vec::new();
    let mut j: usize = 0;
    while j < nd
        invariant
            j <= nd,
            ne@.len() == nd,
            shape@ =~= Seq::new(j as nat, |k: int| ne@[nd - 1 - k]),
        decreases nd - j,
    {
        shape.push(ne[nd - 1 - j]);
        j = j + 1;
    }
    proof {
        assert(shape@ =~= reversed(ne@));
    }
    Ok((LegacyTensor { name, shape, ftype: ft, data }, after + dl))
}

proof fn lemma_ne_product_nonneg(ne: Seq<usize>)
    ensures
        ne_product(ne) >= 0,
    decreases ne.len(),
{
    if ne.len() > 0 {
        lemma_ne_product_nonneg(ne.drop_last());
        let a = ne_product(ne.drop_last());
        let b = ne.last() as int;
        assert(a * b >= 0) by (nonlinear_arith) requires a >= 0, b >= 0;
    }
}

proof fn lemma_data_len_nonneg(modern: bool, ftype: u32, numel: int)
    requires
        numel >= 0,
    ensures
        spec_legacy_data_len(modern, ftype, numel) matches Some(n) ==> n >= 0,
{
    if spec_legacy_data_len(modern, ftype, numel) is Some && ftype != 0 && ftype != 1 {
        if !modern && ftype == 2 {
            assert(numel / 32 * 20 >= 0) by (nonlinear_arith) requires numel >= 0;
        } else if !modern && ftype == 3 {
            assert(numel / 32 * 24 >= 0) by (nonlinear_arith) requires numel >= 0;
        } else {
            let t = if ftype == 2 { GgmlType::Q4_0 } else if ftype == 3 { GgmlType::Q4_1 } else if ftype == 6 {
                GgmlType::Q5_0 } else if ftype == 7 { GgmlType::Q5_1 } else { GgmlType::Q8_0 };
            let be = spec_block_layout(t).0 as int;
            let bb = spec_block_layout(t).1 as int;
            assert(be > 0);
            assert(numel / be * bb >= 0) by (nonlinear_arith) requires numel >= 0, be > 0, bb >= 0;
        }
    }
}

/// Tensors from `p` to the end of the file.
fn read_legacy_tensors(bytes: &[u8], p: usize, c: LegacyGgmlContainer) -> (r: Result<Vec<LegacyTensor>, MmnError>)
    requires
        p <= bytes@.len(),
    ensures
        match r {
            Ok(ts) => legacy_tensors_at(bytes@, p as int, c) == Some(legacy_tensors_view(ts@)),
            Err(_) => legacy_tensors_at(bytes@, p as int, c) is None,
        },
{
    let ghost s = bytes@;
    let mut ts: Vec<LegacyTensor> = Vec::new();
    let mut q = p;
    proof {
        assert(legacy_tensors_view(ts@) + Seq::<LegacyTensorView>::empty() =~= legacy_tensors_view(ts@));
    }
    while q < bytes.len()
        invariant
            s == bytes@,
            p <= q <= bytes@.len(),
            legacy_tensors_at(s, p as int, c) == match legacy_tensors_at(s, q as int, c) {
                Some(rest) => Some(legacy_tensors_view(ts@) + rest),
                None => None,
            },
        decreases bytes@.len() - q,
    {
        match read_legacy_tensor(bytes, q, c) {
            Ok((t, e)) => {
                proof {
                    let old_v = legacy_tensors_view(ts@);
                    assert(legacy_tensors_view(ts@.push(t)) =~= old_v.push(t@));
                    match legacy_tensors_at(s, e as int, c) {
                        Some(rest) => {
                            assert(old_v + (seq![t@] + rest) =~= old_v.push(t@) + rest);
                        },
                        None => {},
                    }
                }
                ts.push(t);
                q = e;
            },
            Err(err) => {
                return Err(err);
            },
        }
    }
    proof {
        assert(legacy_tensors_view(ts@) + Seq::<LegacyTensorView>::empty() =~= legacy_tensors_view(ts@));
    }
    Ok(ts)
}

/// The views of a parsed file.
pub open spec fn legacy_file_view(f: LegacyGgmlFile) -> LegacyView {
    LegacyView {
        container: f.container,
        hparams: f.hparams@,
        vocab: vocab_view(f.vocab@),
        tensors: legacy_tensors_view(f.tensors@),
    }
}

/// Read a legacy GGML/GGMF/GGJT byte buffer.
pub fn read_ggml_legacy_bytes(bytes: &[u8]) -> (r: Result<LegacyGgmlFile, MmnError>)
    ensures
        match r {
            Ok(f) => spec_read_legacy(bytes@) == Some(legacy_file_view(f)),
            Err(_) => spec_read_legacy(bytes@) is None,
        },
        r matches Err(e) ==> (bytes@.len() >= 8 && le32_at(bytes@, 0) == MAGIC_GGJT
            && (le32_at(bytes@, 4) < 1 || le32_at(bytes@, 4) > 3)
            ==> e.message@ == "ggjt version not supported (1-3 are)"@),
        r matches Err(e) ==> (bytes@.len() >= 8 && le32_at(bytes@, 0) == MAGIC_GGMF && le32_at(bytes@, 4) != 1
            ==> e.message@ == "ggmf version not supported (1 is)"@),
{
    let ghost s = bytes@;
    if bytes.len() < 4 {
        return Err(truncated());
    }
    let magic = read_le32(bytes, 0);
    let (container, p) = if magic == MAGIC_GGML {
        (LegacyGgmlContainer::Ggml, 4usize)
    } else if magic == MAGIC_GGMF || magic == MAGIC_GGJT {
        if bytes.len() < 8 {
            return Err(truncated());
        }
        let v = read_le32(bytes, 4);
        if magic == MAGIC_GGMF {
            if v != 1 {
                return Err(MmnError::new("ggmf version not supported (1 is)"));
            }
            (LegacyGgmlContainer::Ggmf, 8usize)
        } else {
            if v < 1 || v > 3 {
                return Err(MmnError::new("ggjt version not supported (1-3 are)"));
            }
            (LegacyGgmlContainer::Ggjt(v), 8usize)
        }
    } else {
        return Err(MmnError::new("not a legacy ggml/ggmf/ggjt file"));
    };
    if bytes.len() - p < 28 {
        return Err(truncated());
    }
    let hparams: [i32; 7] = [
        read_le32(bytes, p) as i32,
        read_le32(bytes, p + 4) as i32,
        read_le32(bytes, p + 8) as i32,
        read_le32(bytes, p + 12) as i32,
        read_le32(bytes, p + 16) as i32,
        read_le32(bytes, p + 20) as i32,
        read_le32(bytes, p + 24) as i32,
    ];
    proof {
        assert(hparams@ =~= Seq::new(7, |i: int| le32_at(s, p + 4 * i) as i32));
    }
    let n_vocab = hparams[0];
    if n_vocab < 0 || n_vocab > 0x40_0000 {
        return Err(MmnError::new("legacy ggml n_vocab unreasonable"));
    }
    let (vocab, q) = read_vocab(bytes, p + 28, n_vocab as usize, container.has_vocab_scores())?;
    let tensors = read_legacy_tensors(bytes, q, container)?;
    Ok(LegacyGgmlFile { container, hparams, vocab, tensors })
}

} // verus!
