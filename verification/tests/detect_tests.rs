use mmn_io::arrays_auto::{detect_array_format, ArrayFormat};
use mmn_io::deflate::deflate;
use mmn_io::hdf5::{adler32, is_hdf5_bytes, undo_deflate, undo_shuffle};
use mmn_io::sharded::is_shard_index_bytes;
use mmn_io::tflite::is_tflite_bytes;
use mmn_io::torch_pt::is_legacy_torch_bytes;
use mmn_io::zip::write_zip_stored;

#[test]
fn shuffle_filter_roundtrip_shape() {
    let original: Vec<u8> = (0..16).collect();
    let mut shuffled = vec![0u8; 16];
    for (i, chunk) in original.chunks(4).enumerate() {
        for (j, &b) in chunk.iter().enumerate() {
            shuffled[j * 4 + i] = b;
        }
    }
    assert_eq!(undo_shuffle(&shuffled, 4), original);
}

#[test]
fn shuffle_passes_through_odd_sizes() {
    let data: Vec<u8> = (0..10).collect();
    assert_eq!(undo_shuffle(&data, 4), data);
    assert_eq!(undo_shuffle(&data, 1), data);
}

#[test]
fn zlib_chunk_inflates_and_checks_adler() {
    let payload = b"hdf5 chunk payload, hdf5 chunk payload".to_vec();
    let mut raw = vec![0x78, 0x9C];
    raw.extend_from_slice(&deflate(&payload));
    raw.extend_from_slice(&adler32(&payload).to_be_bytes());
    assert_eq!(undo_deflate(&raw).unwrap(), payload);
    let last = raw.len() - 1;
    raw[last] ^= 1;
    assert!(undo_deflate(&raw).is_err());
    assert!(undo_deflate(&[0x77, 0, 0, 0, 0, 0]).is_err());
}

#[test]
fn signatures_are_recognised() {
    assert!(is_hdf5_bytes(b"\x89HDF\r\n\x1a\nrest"));
    assert!(!is_hdf5_bytes(b"\x89HDF\r\n"));
    assert!(is_tflite_bytes(b"\x1c\0\0\0TFL3...."));
    assert!(!is_tflite_bytes(b"TFL3"));
}

#[test]
fn legacy_torch_magic_found_in_window() {
    let mut bytes = vec![0x80, 0x02, 0x8a, 0x0a];
    bytes.extend_from_slice(&[0x6c, 0xfc, 0x9c, 0x46, 0xf9, 0x20, 0x6a, 0xa8, 0x50, 0x19]);
    bytes.extend_from_slice(&[0x2e; 8]);
    assert!(is_legacy_torch_bytes(&bytes));
    bytes[5] = 0;
    assert!(!is_legacy_torch_bytes(&bytes));
}

#[test]
fn shard_index_needs_weight_map_object() {
    assert!(is_shard_index_bytes(br#"{"weight_map": {"a": "x.safetensors"}}"#));
    assert!(!is_shard_index_bytes(br#"{"weight_map": 3}"#));
    assert!(!is_shard_index_bytes(br#"[1, 2]"#));
}

#[test]
fn detects_formats_by_content() {
    assert_eq!(detect_array_format("m.gguf", b"GGUF\x03\0\0\0").unwrap(), ArrayFormat::Gguf);
    assert_eq!(detect_array_format("m.h5", b"\x89HDF\r\n\x1a\n\0").unwrap(), ArrayFormat::Hdf5);
    assert_eq!(detect_array_format("m.npy", b"\x93NUMPY\x01\0").unwrap(), ArrayFormat::Npy);
    assert_eq!(detect_array_format("m.pkl", b"\x80\x04\x95").unwrap(), ArrayFormat::Pickle);
    assert_eq!(detect_array_format("m.msgpack", &[0x81, 0xA1, b'a', 0x01]).unwrap(), ArrayFormat::FlaxMsgpack);
    let mut st = 2u64.to_le_bytes().to_vec();
    st.extend_from_slice(b"{}");
    assert_eq!(detect_array_format("m.safetensors", &st).unwrap(), ArrayFormat::Safetensors);
    assert_eq!(detect_array_format("model.ckpt", b"xyz").unwrap(), ArrayFormat::TfCheckpoint);
    assert!(detect_array_format("model.bin", b"xyz").is_err());
    assert_eq!(ArrayFormat::TfCheckpoint.as_str(), "tf-checkpoint");
    assert_eq!(ArrayFormat::LegacyTorch.as_str(), "pt-legacy");
}

#[test]
fn zip_archives_are_classified_by_entry_names() {
    let torch = write_zip_stored(&[("archive/data.pkl".to_string(), vec![1, 2, 3])]).unwrap();
    assert_eq!(detect_array_format("m.pt", &torch).unwrap(), ArrayFormat::TorchZip);
    let npz = write_zip_stored(&[("w.npy".to_string(), vec![0])]).unwrap();
    assert_eq!(detect_array_format("m.npz", &npz).unwrap(), ArrayFormat::Npz);
    let other = write_zip_stored(&[("readme.txt".to_string(), vec![0])]).unwrap();
    assert!(detect_array_format("m.zip", &other).is_err());
}
