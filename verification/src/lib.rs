//! Byte-level codecs and container readers/writers for model-weight
//! interchange: checksums, DEFLATE/zlib, ZIP, LZ4, Snappy, Zstandard, Blosc,
//! protobuf, MessagePack, pickle, GGUF and legacy GGML, HDF5, ONNX.

pub mod error;
pub mod checksum;
pub mod bytes;
pub mod hdf5;
pub mod pickle;
pub mod gguf_quant;
pub mod gguf_quant_iq;
pub mod proto;
pub mod lz4;
pub mod snappy;
pub mod inflate;
pub mod zip;
pub mod zip_law;
pub mod gguf;
pub mod gguf_law;
pub mod ggml_legacy;
pub mod tf_checkpoint;

pub mod msgpack;
pub mod deflate;
pub mod deflate_law;
pub mod tflite;
pub mod torch_pt;
pub mod onnx;
pub mod sharded;
pub mod arrays_auto;
pub mod text;
pub mod gguf_chatbot;
pub mod gguf_info;
pub mod zstd_bits;
pub mod zstd_fse;
pub mod zstd_huff;
pub mod zstd_lit;
pub mod zstd_seq;
pub mod zstd_block;
pub mod zstd;
pub mod hdf5_read;
pub mod hdf5_write;
pub mod hdf5_law;
pub mod blosclz;
pub mod blosc;
pub mod pickle_vm;
pub mod pickle_law;
pub mod pickle_tree_law;
pub mod npy;
pub mod npz;
pub mod npy_law;
pub mod names_law;
pub mod sentencepiece_law;
