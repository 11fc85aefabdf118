# mmn_io

Verified byte-level codecs and container readers/writers for model-weight
interchange, written in Verus.

- `src/` is the verified library. Every public function states its result
  exactly over a mathematical model of the bytes: checksums (CRC-32,
  CRC-32C, Adler-32), DEFLATE/zlib (`inflate`, `deflate`), ZIP, LZ4, Snappy,
  Zstandard, Blosc/BloscLZ, protobuf, MessagePack, pickle (writer and
  reader virtual machine), GGUF (header reader and writer) and legacy
  GGML, GGUF chatbot metadata (both directions) and tensor names, HDF5
  (reader and writer), NumPy `.npy`/`.npz` (reader and writer, with
  Fortran-order transposition), ONNX initializers, container detection.
  Floating-point values are carried as their IEEE-754 bit patterns.
- Laws relating functions are public proof functions, e.g.
  `gguf_law::lemma_read_written_gguf`, `msgpack::lemma_decode_encode`,
  `msgpack::lemma_value_consumes_encoding`, `deflate_law`, `pickle_law`,
  `pickle_tree_law` (nested tuples, lists and dicts), `zip_law`,
  `npy_law` (`.npy` and `.npz`), `hdf5_law` (datasets), `names_law`,
  `sentencepiece_law`.
- `tests/` runs the library on concrete inputs.
- `app/` holds what is not verified: file access and the conversion of
  stored element bytes to `f32`.
