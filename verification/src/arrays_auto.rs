//! Recognising which tensor container a buffer holds, by its content.

use vstd::prelude::*;
use vstd::string::*;
use vstd::utf8::encode_utf8;
use crate::bytes::{le32_at, le64_at, read_le64};
use crate::error::MmnError;
use crate::ggml_legacy::{is_ggml_legacy_bytes, MAGIC_GGJT, MAGIC_GGMF, MAGIC_GGML};
use crate::gguf::is_gguf_bytes;
use crate::hdf5::{hdf5_signature, is_hdf5_bytes};
use crate::onnx::{read_onnx_arrays_bytes, spec_read_onnx};
use crate::sharded::{is_shard_index_bytes, json_weight_map_is_object};
use crate::tflite::is_tflite_bytes;
use crate::torch_pt::{is_legacy_torch_bytes, magic_long_at};
use crate::zip::{is_zip_bytes, spec_central_directory, zip_entry_names, SpecCentral};
use vstd::utf8::valid_utf8;

verus! {

/// A tensor container format.
#[derive(Debug, Clone, Copy, PartialEq, Eq, Structural)]
pub enum ArrayFormat {
    Gguf,
    GgmlLegacy,
    TorchZip,
    Npz,
    KerasZip,
    Npy,
    Hdf5,
    Safetensors,
    LegacyTorch,
    FlaxMsgpack,
    Onnx,
    TfCheckpoint,
    Tflite,
    /// Generic pickle holding numpy arrays (PaddlePaddle `.pdparams`,
    /// sklearn model pickles, plain pickled ndarray dicts).
    Pickle,
    /// Sharded checkpoint index (`*.index.json` + shard files).
    ShardedIndex,
}

/// The short tag of each format.
pub open spec fn format_tag(f: ArrayFormat) -> Seq<char> {
    match f {
        ArrayFormat::Gguf => "gguf"@,
        ArrayFormat::GgmlLegacy => "ggml-legacy"@,
        ArrayFormat::TorchZip => "pt"@,
        ArrayFormat::Npz => "npz"@,
        ArrayFormat::KerasZip => "keras"@,
        ArrayFormat::Npy => "npy"@,
        ArrayFormat::Hdf5 => "h5"@,
        ArrayFormat::Safetensors => "safetensors"@,
        ArrayFormat::LegacyTorch => "pt-legacy"@,
        ArrayFormat::FlaxMsgpack => "flax"@,
        ArrayFormat::Onnx => "onnx"@,
        ArrayFormat::TfCheckpoint => "tf-checkpoint"@,
        ArrayFormat::Tflite => "tflite"@,
        ArrayFormat::Pickle => "pickle"@,
        ArrayFormat::ShardedIndex => "sharded"@,
    }
}

impl ArrayFormat {
    /// The short tag of the format.
    pub fn as_str(&self) -> (s: &'static str)
        ensures
            s@ == format_tag(*self),
    {
        match self {
            ArrayFormat::Gguf => "gguf",
            ArrayFormat::GgmlLegacy => "ggml-legacy",
            ArrayFormat::TorchZip => "pt",
            ArrayFormat::Npz => "npz",
            ArrayFormat::KerasZip => "keras",
            ArrayFormat::Npy => "npy",
            ArrayFormat::Hdf5 => "h5",
            ArrayFormat::Safetensors => "safetensors",
            ArrayFormat::LegacyTorch => "pt-legacy",
            ArrayFormat::FlaxMsgpack => "flax",
            ArrayFormat::Onnx => "onnx",
            ArrayFormat::TfCheckpoint => "tf-checkpoint",
            ArrayFormat::Tflite => "tflite",
            ArrayFormat::Pickle => "pickle",
            ArrayFormat::ShardedIndex => "sharded",
        }
    }
}

/// A safetensors container: a little-endian u64 header length, non-zero
/// and within the buffer, then a `{` opening the JSON header.
pub open spec fn safetensors_like(b: Seq<u8>) -> bool {
    b.len() >= 9 && le64_at(b, 0) > 0 && le64_at(b, 0) + 8 <= b.len() && b[8] == 0x7b
}

/// True when the buffer looks like a binary safetensors container.
fn looks_like_safetensors(bytes: &[u8]) -> (r: bool)
    ensures
        r == safetensors_like(bytes@),
{
    if bytes.len() < 9 {
        return false;
    }
    let header_len = read_le64(bytes, 0);
    header_len > 0 && header_len <= (bytes.len() - 8) as u64 && bytes[8] == 0x7B
}

/// A msgpack map the way every Flax pytree starts: a non-empty fixmap whose
/// first key is a fixstr or str8, or a map16 / map32 header.
pub open spec fn flax_like(b: Seq<u8>) -> bool {
    b.len() >= 1 && ((0x81 <= b[0] <= 0x8f && b.len() >= 2 && (0xa0 <= b[1] <= 0xbf || b[1] == 0xd9))
        || b[0] == 0xde || b[0] == 0xdf)
}

/// True when the buffer starts like a Flax msgpack checkpoint.
fn looks_like_flax_msgpack(bytes: &[u8]) -> (r: bool)
    ensures
        r == flax_like(bytes@),
{
    if bytes.len() == 0 {
        return false;
    }
    let tag = bytes[0];
    if 0x81 <= tag && tag <= 0x8F {
        bytes.len() >= 2 && ((0xA0 <= bytes[1] && bytes[1] <= 0xBF) || bytes[1] == 0xD9)
    } else {
        tag == 0xDE || tag == 0xDF
    }
}

/// The `.npy` magic `\x93NUMPY`.
pub open spec fn npy_like(b: Seq<u8>) -> bool {
    b.len() >= 6 && b[0] == 0x93 && b[1] == 0x4e && b[2] == 0x55 && b[3] == 0x4d && b[4] == 0x50 && b[5] == 0x59
}

fn looks_like_npy(bytes: &[u8]) -> (r: bool)
    ensures
        r == npy_like(bytes@),
{
    bytes.len() >= 6 && bytes[0] == 0x93 && bytes[1] == 0x4E && bytes[2] == 0x55 && bytes[3] == 0x4D
        && bytes[4] == 0x50 && bytes[5] == 0x59
}

/// A pickle PROTO opcode for protocol 2 to 5.
pub open spec fn pickle_like(b: Seq<u8>) -> bool {
    b.len() >= 2 && b[0] == 0x80 && 2 <= b[1] <= 5
}

/// `s` ends with `suffix`.
pub open spec fn ends_with(s: Seq<u8>, suffix: Seq<u8>) -> bool {
    suffix.len() <= s.len() && s.subrange(s.len() - suffix.len(), s.len() as int) == suffix
}

fn bytes_end_with(s: &[u8], suffix: &[u8]) -> (r: bool)
    ensures
        r == ends_with(s@, suffix@),
{
    if suffix.len() > s.len() {
        return false;
    }
    let n = s.len();
    let start = n - suffix.len();
    let mut i: usize = 0;
    while i < suffix.len()
        invariant
            n == s@.len(),
            start + suffix@.len() == s@.len(),
            i <= suffix@.len(),
            forall|k: int| 0 <= k < i ==> s@[start + k] == suffix@[k],
        decreases suffix@.len() - i,
    {
        if s[start + i] != suffix[i] {
            proof {
                if ends_with(s@, suffix@) {
                    assert(s@.subrange(start as int, s@.len() as int)[i as int] == s@[start + i]);
                }
            }
            return false;
        }
        i = i + 1;
    }
    proof {
        assert(s@.subrange(start as int, s@.len() as int) =~= suffix@);
    }
    true
}

/// Some entry name ends with `suffix`.
pub open spec fn some_name_ends(es: Seq<SpecCentral>, suffix: Seq<char>) -> bool {
    exists|i: int| 0 <= i < es.len() && #[trigger] ends_with(encode_utf8(es[i].name), encode_utf8(suffix))
}

fn any_name_ends(names: &Vec<String>, suffix: &str) -> (r: bool)
    ensures
        r == exists|i: int| 0 <= i < names@.len() && #[trigger] ends_with(encode_utf8(names@[i]@), encode_utf8(suffix@)),
{
    let mut i: usize = 0;
    while i < names.len()
        invariant
            i <= names@.len(),
            forall|k: int| 0 <= k < i ==> !#[trigger] ends_with(encode_utf8(names@[k]@), encode_utf8(suffix@)),
        decreases names@.len() - i,
    {
        if bytes_end_with(names[i].as_str().as_bytes(), suffix.as_bytes()) {
            return true;
        }
        i = i + 1;
    }
    false
}

/// Which container a ZIP archive with these entries holds.
pub open spec fn zip_kind(es: Seq<SpecCentral>) -> Option<ArrayFormat> {
    if some_name_ends(es, "data.pkl"@) || some_name_ends(es, "constants.pkl"@) {
        Some(ArrayFormat::TorchZip)
    } else if some_name_ends(es, ".h5"@) {
        Some(ArrayFormat::KerasZip)
    } else if some_name_ends(es, ".npy"@) {
        Some(ArrayFormat::Npz)
    } else {
        None
    }
}

/// The format detected for a buffer read from `path` (`None`: not
/// recognised, or a ZIP archive that does not parse or holds no tensors).
/// The checks run in this order; the first that matches decides.
pub open spec fn spec_detect(path: Seq<char>, b: Seq<u8>) -> Option<ArrayFormat> {
    if b.len() >= 4 && b[0] == 0x47 && b[1] == 0x47 && b[2] == 0x55 && b[3] == 0x46 {
        Some(ArrayFormat::Gguf)
    } else if b.len() >= 4 && (le32_at(b, 0) == MAGIC_GGML || le32_at(b, 0) == MAGIC_GGMF || le32_at(b, 0) == MAGIC_GGJT) {
        Some(ArrayFormat::GgmlLegacy)
    } else if b.len() >= 8 && b[4] == 0x54 && b[5] == 0x46 && b[6] == 0x4c && b[7] == 0x33 {
        Some(ArrayFormat::Tflite)
    } else if b.len() >= 4 && b[0] == 0x50 && b[1] == 0x4B && (b[2] == 3 || b[2] == 5) && b[3] == b[2] + 1 {
        match spec_central_directory(b) {
            Some(es) => zip_kind(es),
            None => None,
        }
    } else if npy_like(b) {
        Some(ArrayFormat::Npy)
    } else if b.len() >= 8 && b.subrange(0, 8) == hdf5_signature() {
        Some(ArrayFormat::Hdf5)
    } else if safetensors_like(b) {
        Some(ArrayFormat::Safetensors)
    } else if b.len() >= 16 && b[0] == 0x80 && b[1] <= 5
        && exists|i: int| 0 <= i && i + 12 <= b.len() && i + 12 <= 32 && #[trigger] magic_long_at(b, i) {
        Some(ArrayFormat::LegacyTorch)
    } else if pickle_like(b) {
        Some(ArrayFormat::Pickle)
    } else if flax_like(b) {
        Some(ArrayFormat::FlaxMsgpack)
    } else if b.len() > 0 && b[0] == 0x7b && valid_utf8(b) && json_weight_map_is_object(b) {
        Some(ArrayFormat::ShardedIndex)
    } else if ends_with(encode_utf8(path), encode_utf8(".index"@)) || ends_with(encode_utf8(path), encode_utf8(".ckpt"@)) {
        Some(ArrayFormat::TfCheckpoint)
    } else if spec_read_onnx(b) is Some {
        Some(ArrayFormat::Onnx)
    } else {
        None
    }
}

/// The ZIP local-header or end-of-directory magic.
pub open spec fn zip_magic(b: Seq<u8>) -> bool {
    b.len() >= 4 && b[0] == 0x50 && b[1] == 0x4B && (b[2] == 3 || b[2] == 5) && b[3] == b[2] + 1
}

/// Detect which array container a buffer holds (the path only decides the
/// TF-checkpoint case and goes into error text).
pub fn detect_array_format(path: &str, bytes: &[u8]) -> (r: Result<ArrayFormat, MmnError>)
    requires
        bytes@.len() <= usize::MAX / 8,
    ensures
        match spec_detect(path@, bytes@) {
            Some(f) => r == Ok::<ArrayFormat, MmnError>(f),
            None => r is Err,
        },
        r matches Err(e) ==> (zip_magic(bytes@) && spec_central_directory(bytes@) is Some
            ==> e.message@ == path@ + ": zip archive holds no recognizable tensors (no data.pkl, .npy, or .h5 entries)"@),
        r matches Err(e) ==> (!zip_magic(bytes@)
            ==> e.message@ == path@ + ": unrecognized tensor container (tried GGUF, legacy ggml/ggjt, TFLite, zip/pt/npz/keras, npy, HDF5, safetensors, legacy torch, Flax msgpack, ONNX)"@),
{
    if is_gguf_bytes(bytes) {
        return Ok(ArrayFormat::Gguf);
    }
    if is_ggml_legacy_bytes(bytes) {
        return Ok(ArrayFormat::GgmlLegacy);
    }
    if is_tflite_bytes(bytes) {
        return Ok(ArrayFormat::Tflite);
    }
    if is_zip_bytes(bytes) {
        let names = zip_entry_names(bytes)?;
        let ghost es = spec_central_directory(bytes@)->Some_0;
        proof {
            assert forall|suffix: Seq<char>| #![auto] some_name_ends(es, suffix) == exists|i: int| 0 <= i < names@.len()
                && #[trigger] ends_with(encode_utf8(names@[i]@), encode_utf8(suffix)) by {
                if some_name_ends(es, suffix) {
                    let i = choose|i: int| 0 <= i < es.len() && #[trigger] ends_with(encode_utf8(es[i].name), encode_utf8(suffix));
                    assert(names@[i]@ == es[i].name);
                }
                if exists|i: int| 0 <= i < names@.len() && #[trigger] ends_with(encode_utf8(names@[i]@), encode_utf8(suffix)) {
                    let i = choose|i: int| 0 <= i < names@.len() && #[trigger] ends_with(encode_utf8(names@[i]@), encode_utf8(suffix));
                    assert(names@[i]@ == es[i].name);
                }
            }
        }
        if any_name_ends(&names, "data.pkl") || any_name_ends(&names, "constants.pkl") {
            return Ok(ArrayFormat::TorchZip);
        }
        if any_name_ends(&names, ".h5") {
            return Ok(ArrayFormat::KerasZip);
        }
        if any_name_ends(&names, ".npy") {
            return Ok(ArrayFormat::Npz);
        }
        return Err(MmnError::with_detail(
            path,
            ": zip archive holds no recognizable tensors (no data.pkl, .npy, or .h5 entries)",
        ));
    }
    if looks_like_npy(bytes) {
        return Ok(ArrayFormat::Npy);
    }
    if is_hdf5_bytes(bytes) {
        return Ok(ArrayFormat::Hdf5);
    }
    if looks_like_safetensors(bytes) {
        return Ok(ArrayFormat::Safetensors);
    }
    if is_legacy_torch_bytes(bytes) {
        return Ok(ArrayFormat::LegacyTorch);
    }
    if bytes.len() >= 2 && bytes[0] == 0x80 && 2 <= bytes[1] && bytes[1] <= 5 {
        return Ok(ArrayFormat::Pickle);
    }
    if looks_like_flax_msgpack(bytes) {
        return Ok(ArrayFormat::FlaxMsgpack);
    }
    if is_shard_index_bytes(bytes) {
        return Ok(ArrayFormat::ShardedIndex);
    }
    let p = path.as_bytes();
    if bytes_end_with(p, ".index".as_bytes()) || bytes_end_with(p, ".ckpt".as_bytes()) {
        return Ok(ArrayFormat::TfCheckpoint);
    }
    if read_onnx_arrays_bytes(bytes).is_ok() {
        return Ok(ArrayFormat::Onnx);
    }
    Err(MmnError::with_detail(
        path,
        ": unrecognized tensor container (tried GGUF, legacy ggml/ggjt, TFLite, zip/pt/npz/keras, npy, HDF5, safetensors, legacy torch, Flax msgpack, ONNX)",
    ))
}

} // verus!
