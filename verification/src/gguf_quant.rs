//! GGML tensor element types: GGUF type ids and quantization block layouts.

use vstd::prelude::*;
use crate::error::MmnError;

verus! {

/// Classic quantization block size.
pub const QK: usize = 32;
/// K-quant super-block size.
pub const QK_K: usize = 256;

/// GGML tensor type ids as stored in GGUF tensor infos.
#[derive(Clone, Copy, Debug, PartialEq, Eq, Structural)]
pub enum GgmlType {
    F32,
    F16,
    Q4_0,
    Q4_1,
    Q5_0,
    Q5_1,
    Q8_0,
    Q8_1,
    Q2K,
    Q3K,
    Q4K,
    Q5K,
    Q6K,
    Q8K,
    Iq4Nl,
    Iq4Xs,
    Iq2Xxs,
    Iq2Xs,
    Iq2S,
    Iq3Xxs,
    Iq3S,
    Iq1S,
    Iq1M,
    Tq1_0,
    Tq2_0,
    Mxfp4,
    Nvfp4,
    I8,
    I16,
    I32,
    I64,
    F64,
    BF16,
}

/// The GGUF type id of each element type.
pub open spec fn spec_type_id(t: GgmlType) -> u32 {
    match t {
        GgmlType::F32 => 0,
        GgmlType::F16 => 1,
        GgmlType::Q4_0 => 2,
        GgmlType::Q4_1 => 3,
        GgmlType::Q5_0 => 6,
        GgmlType::Q5_1 => 7,
        GgmlType::Q8_0 => 8,
        GgmlType::Q8_1 => 9,
        GgmlType::Q2K => 10,
        GgmlType::Q3K => 11,
        GgmlType::Q4K => 12,
        GgmlType::Q5K => 13,
        GgmlType::Q6K => 14,
        GgmlType::Q8K => 15,
        GgmlType::Iq4Nl => 20,
        GgmlType::Iq4Xs => 23,
        GgmlType::Iq2Xxs => 16,
        GgmlType::Iq2Xs => 17,
        GgmlType::Iq2S => 22,
        GgmlType::Iq3Xxs => 18,
        GgmlType::Iq3S => 21,
        GgmlType::Iq1S => 19,
        GgmlType::Iq1M => 29,
        GgmlType::Tq1_0 => 34,
        GgmlType::Tq2_0 => 35,
        GgmlType::Mxfp4 => 39,
        GgmlType::Nvfp4 => 40,
        GgmlType::I8 => 24,
        GgmlType::I16 => 25,
        GgmlType::I32 => 26,
        GgmlType::I64 => 27,
        GgmlType::F64 => 28,
        GgmlType::BF16 => 30,
    }
}

/// (elements per block, bytes per block) of each element type.
pub open spec fn spec_block_layout(t: GgmlType) -> (usize, usize) {
    match t {
        GgmlType::F32 => (1, 4),
        GgmlType::F16 => (1, 2),
        GgmlType::Q4_0 => (32, 18),
        GgmlType::Q4_1 => (32, 20),
        GgmlType::Q5_0 => (32, 22),
        GgmlType::Q5_1 => (32, 24),
        GgmlType::Q8_0 => (32, 34),
        GgmlType::Q8_1 => (32, 36),
        GgmlType::Q2K => (256, 84),
        GgmlType::Q3K => (256, 110),
        GgmlType::Q4K => (256, 144),
        GgmlType::Q5K => (256, 176),
        GgmlType::Q6K => (256, 210),
        GgmlType::Q8K => (256, 292),
        GgmlType::Iq4Nl => (32, 18),
        GgmlType::Iq4Xs => (256, 136),
        GgmlType::Iq2Xxs => (256, 66),
        GgmlType::Iq2Xs => (256, 74),
        GgmlType::Iq2S => (256, 82),
        GgmlType::Iq3Xxs => (256, 98),
        GgmlType::Iq3S => (256, 110),
        GgmlType::Iq1S => (256, 50),
        GgmlType::Iq1M => (256, 56),
        GgmlType::Tq1_0 => (256, 54),
        GgmlType::Tq2_0 => (256, 66),
        GgmlType::Mxfp4 => (32, 17),
        GgmlType::Nvfp4 => (64, 36),
        GgmlType::I8 => (1, 1),
        GgmlType::I16 => (1, 2),
        GgmlType::I32 => (1, 4),
        GgmlType::I64 => (1, 8),
        GgmlType::F64 => (1, 8),
        GgmlType::BF16 => (1, 2),
    }
}

/// Type ids that ggml retired (Q4_2/Q4_3 and the runtime-repacked layouts).
pub open spec fn is_removed_type_id(id: u32) -> bool {
    id == 4 || id == 5 || (31 <= id <= 33) || (36 <= id <= 38)
}

/// Type ids that name a readable element type.
pub open spec fn is_known_type_id(id: u32) -> bool {
    exists|t: GgmlType| spec_type_id(t) == id
}

/// Distinct element types have distinct ids.
pub proof fn lemma_type_id_injective(a: GgmlType, b: GgmlType)
    requires
        spec_type_id(a) == spec_type_id(b),
    ensures
        a == b,
{
}

/// Every element type survives the trip through its id.
pub proof fn lemma_from_id_of_type_id(t: GgmlType)
    ensures
        is_known_type_id(spec_type_id(t)),
        forall|u: GgmlType| spec_type_id(u) == spec_type_id(t) ==> u == t,
{
    assert(spec_type_id(t) == spec_type_id(t));
    assert forall|u: GgmlType| spec_type_id(u) == spec_type_id(t) implies u == t by {
        lemma_type_id_injective(u, t);
    }
}

/// The readable type ids, listed.
pub proof fn lemma_known_type_ids(id: u32)
    ensures
        is_known_type_id(id) <==> (id == 0 || id == 1 || id == 2 || id == 3 || id == 6 || id == 7 || id == 8 || id == 9 || id == 10 || id == 11 || id == 12 || id == 13 || id == 14 || id == 15 || id == 16 || id == 17 || id == 18 || id == 19 || id == 20 || id == 21 || id == 22 || id == 23 || id == 24 || id == 25 || id == 26 || id == 27 || id == 28 || id == 29 || id == 30 || id == 34 || id == 35 || id == 39 || id == 40),
{
    if is_known_type_id(id) {
        let t = choose|t: GgmlType| spec_type_id(t) == id;
        match t {
            GgmlType::F32 => {},
            GgmlType::F16 => {},
            GgmlType::Q4_0 => {},
            GgmlType::Q4_1 => {},
            GgmlType::Q5_0 => {},
            GgmlType::Q5_1 => {},
            GgmlType::Q8_0 => {},
            GgmlType::Q8_1 => {},
            GgmlType::Q2K => {},
            GgmlType::Q3K => {},
            GgmlType::Q4K => {},
            GgmlType::Q5K => {},
            GgmlType::Q6K => {},
            GgmlType::Q8K => {},
            GgmlType::Iq4Nl => {},
            GgmlType::Iq4Xs => {},
            GgmlType::Iq2Xxs => {},
            GgmlType::Iq2Xs => {},
            GgmlType::Iq2S => {},
            GgmlType::Iq3Xxs => {},
            GgmlType::Iq3S => {},
            GgmlType::Iq1S => {},
            GgmlType::Iq1M => {},
            GgmlType::Tq1_0 => {},
            GgmlType::Tq2_0 => {},
            GgmlType::Mxfp4 => {},
            GgmlType::Nvfp4 => {},
            GgmlType::I8 => {},
            GgmlType::I16 => {},
            GgmlType::I32 => {},
            GgmlType::I64 => {},
            GgmlType::F64 => {},
            GgmlType::BF16 => {},
        }
    }
    if id == 0 { assert(spec_type_id(GgmlType::F32) == id); }
    if id == 1 { assert(spec_type_id(GgmlType::F16) == id); }
    if id == 2 { assert(spec_type_id(GgmlType::Q4_0) == id); }
    if id == 3 { assert(spec_type_id(GgmlType::Q4_1) == id); }
    if id == 6 { assert(spec_type_id(GgmlType::Q5_0) == id); }
    if id == 7 { assert(spec_type_id(GgmlType::Q5_1) == id); }
    if id == 8 { assert(spec_type_id(GgmlType::Q8_0) == id); }
    if id == 9 { assert(spec_type_id(GgmlType::Q8_1) == id); }
    if id == 10 { assert(spec_type_id(GgmlType::Q2K) == id); }
    if id == 11 { assert(spec_type_id(GgmlType::Q3K) == id); }
    if id == 12 { assert(spec_type_id(GgmlType::Q4K) == id); }
    if id == 13 { assert(spec_type_id(GgmlType::Q5K) == id); }
    if id == 14 { assert(spec_type_id(GgmlType::Q6K) == id); }
    if id == 15 { assert(spec_type_id(GgmlType::Q8K) == id); }
    if id == 20 { assert(spec_type_id(GgmlType::Iq4Nl) == id); }
    if id == 23 { assert(spec_type_id(GgmlType::Iq4Xs) == id); }
    if id == 16 { assert(spec_type_id(GgmlType::Iq2Xxs) == id); }
    if id == 17 { assert(spec_type_id(GgmlType::Iq2Xs) == id); }
    if id == 22 { assert(spec_type_id(GgmlType::Iq2S) == id); }
    if id == 18 { assert(spec_type_id(GgmlType::Iq3Xxs) == id); }
    if id == 21 { assert(spec_type_id(GgmlType::Iq3S) == id); }
    if id == 19 { assert(spec_type_id(GgmlType::Iq1S) == id); }
    if id == 29 { assert(spec_type_id(GgmlType::Iq1M) == id); }
    if id == 34 { assert(spec_type_id(GgmlType::Tq1_0) == id); }
    if id == 35 { assert(spec_type_id(GgmlType::Tq2_0) == id); }
    if id == 39 { assert(spec_type_id(GgmlType::Mxfp4) == id); }
    if id == 40 { assert(spec_type_id(GgmlType::Nvfp4) == id); }
    if id == 24 { assert(spec_type_id(GgmlType::I8) == id); }
    if id == 25 { assert(spec_type_id(GgmlType::I16) == id); }
    if id == 26 { assert(spec_type_id(GgmlType::I32) == id); }
    if id == 27 { assert(spec_type_id(GgmlType::I64) == id); }
    if id == 28 { assert(spec_type_id(GgmlType::F64) == id); }
    if id == 30 { assert(spec_type_id(GgmlType::BF16) == id); }
}

impl GgmlType {
    /// The element type with GGUF type id `id`.
    pub fn from_id(id: u32) -> (r: Result<GgmlType, MmnError>)
        ensures
            r is Ok <==> is_known_type_id(id),
            r matches Ok(t) ==> spec_type_id(t) == id,
            (id == 4 || id == 5) ==> (r matches Err(e)
                && e.message@ == "GGUF tensor type id (Q4_2/Q4_3) was removed from ggml and cannot be read"@),
            (31 <= id <= 33 || 36 <= id <= 38) ==> (r matches Err(e)
                && e.message@ == "GGUF tensor type id (repacked Q4_0_x_x / IQ4_NL_4_4) was removed from ggml; re-export the model without runtime repacking"@),
    {
        proof {
            lemma_known_type_ids(id);
        }
        let t = match id {
            0 => GgmlType::F32,
            1 => GgmlType::F16,
            2 => GgmlType::Q4_0,
            3 => GgmlType::Q4_1,
            6 => GgmlType::Q5_0,
            7 => GgmlType::Q5_1,
            8 => GgmlType::Q8_0,
            9 => GgmlType::Q8_1,
            10 => GgmlType::Q2K,
            11 => GgmlType::Q3K,
            12 => GgmlType::Q4K,
            13 => GgmlType::Q5K,
            14 => GgmlType::Q6K,
            15 => GgmlType::Q8K,
            20 => GgmlType::Iq4Nl,
            23 => GgmlType::Iq4Xs,
            16 => GgmlType::Iq2Xxs,
            17 => GgmlType::Iq2Xs,
            22 => GgmlType::Iq2S,
            18 => GgmlType::Iq3Xxs,
            21 => GgmlType::Iq3S,
            19 => GgmlType::Iq1S,
            29 => GgmlType::Iq1M,
            34 => GgmlType::Tq1_0,
            35 => GgmlType::Tq2_0,
            39 => GgmlType::Mxfp4,
            40 => GgmlType::Nvfp4,
            24 => GgmlType::I8,
            25 => GgmlType::I16,
            26 => GgmlType::I32,
            27 => GgmlType::I64,
            28 => GgmlType::F64,
            30 => GgmlType::BF16,
            4 | 5 => {
                return Err(MmnError::new(
                    "GGUF tensor type id (Q4_2/Q4_3) was removed from ggml and cannot be read",
                ));
            },
            31..=33 | 36..=38 => {
                return Err(MmnError::new(
                    "GGUF tensor type id (repacked Q4_0_x_x / IQ4_NL_4_4) was removed from ggml; re-export the model without runtime repacking",
                ));
            },
            _ => {
                return Err(MmnError::new(
                    "GGUF tensor type id unknown (supported: F32/F16/BF16/F64, Q4_0..Q8_1, Q2_K..Q8_K, IQ1_S/M, IQ2_XXS/XS/S, IQ3_XXS/S, IQ4_NL/XS, TQ1_0, TQ2_0, MXFP4, NVFP4, ints)",
                ));
            },
        };
        assert(spec_type_id(t) == id);
        Ok(t)
    }

    /// The GGUF type id of this element type.
    pub fn type_id(&self) -> (id: u32)
        ensures
            id == spec_type_id(*self),
    {
        match self {
            GgmlType::F32 => 0,
            GgmlType::F16 => 1,
            GgmlType::Q4_0 => 2,
            GgmlType::Q4_1 => 3,
            GgmlType::Q5_0 => 6,
            GgmlType::Q5_1 => 7,
            GgmlType::Q8_0 => 8,
            GgmlType::Q8_1 => 9,
            GgmlType::Q2K => 10,
            GgmlType::Q3K => 11,
            GgmlType::Q4K => 12,
            GgmlType::Q5K => 13,
            GgmlType::Q6K => 14,
            GgmlType::Q8K => 15,
            GgmlType::Iq4Nl => 20,
            GgmlType::Iq4Xs => 23,
            GgmlType::Iq2Xxs => 16,
            GgmlType::Iq2Xs => 17,
            GgmlType::Iq2S => 22,
            GgmlType::Iq3Xxs => 18,
            GgmlType::Iq3S => 21,
            GgmlType::Iq1S => 19,
            GgmlType::Iq1M => 29,
            GgmlType::Tq1_0 => 34,
            GgmlType::Tq2_0 => 35,
            GgmlType::Mxfp4 => 39,
            GgmlType::Nvfp4 => 40,
            GgmlType::I8 => 24,
            GgmlType::I16 => 25,
            GgmlType::I32 => 26,
            GgmlType::I64 => 27,
            GgmlType::F64 => 28,
            GgmlType::BF16 => 30,
        }
    }

    /// (elements per block, bytes per block).
    pub fn block_layout(&self) -> (layout: (usize, usize))
        ensures
            layout == spec_block_layout(*self),
    {
        match self {
            GgmlType::F32 => (1, 4),
            GgmlType::F16 => (1, 2),
            GgmlType::Q4_0 => (32, 18),
            GgmlType::Q4_1 => (32, 20),
            GgmlType::Q5_0 => (32, 22),
            GgmlType::Q5_1 => (32, 24),
            GgmlType::Q8_0 => (32, 34),
            GgmlType::Q8_1 => (32, 36),
            GgmlType::Q2K => (256, 84),
            GgmlType::Q3K => (256, 110),
            GgmlType::Q4K => (256, 144),
            GgmlType::Q5K => (256, 176),
            GgmlType::Q6K => (256, 210),
            GgmlType::Q8K => (256, 292),
            GgmlType::Iq4Nl => (32, 18),
            GgmlType::Iq4Xs => (256, 136),
            GgmlType::Iq2Xxs => (256, 66),
            GgmlType::Iq2Xs => (256, 74),
            GgmlType::Iq2S => (256, 82),
            GgmlType::Iq3Xxs => (256, 98),
            GgmlType::Iq3S => (256, 110),
            GgmlType::Iq1S => (256, 50),
            GgmlType::Iq1M => (256, 56),
            GgmlType::Tq1_0 => (256, 54),
            GgmlType::Tq2_0 => (256, 66),
            GgmlType::Mxfp4 => (32, 17),
            GgmlType::Nvfp4 => (64, 36),
            GgmlType::I8 => (1, 1),
            GgmlType::I16 => (1, 2),
            GgmlType::I32 => (1, 4),
            GgmlType::I64 => (1, 8),
            GgmlType::F64 => (1, 8),
            GgmlType::BF16 => (1, 2),
        }
    }

    /// Bytes needed to store `numel` elements of this type.
    pub fn data_len(&self, numel: usize) -> (r: Result<usize, MmnError>)
        requires
            numel / spec_block_layout(*self).0 * spec_block_layout(*self).1 <= usize::MAX,
        ensures
            r is Ok <==> numel % spec_block_layout(*self).0 == 0,
            r matches Ok(n) ==> n == numel / spec_block_layout(*self).0 * spec_block_layout(*self).1,
    {
        let (block_elems, block_bytes) = self.block_layout();
        if numel % block_elems != 0 {
            return Err(MmnError::new(
                "tensor element count is not a multiple of the block size of its type",
            ));
        }
        Ok(numel / block_elems * block_bytes)
    }
}

} // verus!
