use mmn_io::gguf::{
    is_gguf_bytes, metadata_get, parse_gguf_header, read_gguf, write_gguf, GgufValue, GgufWriteTensor,
    DEFAULT_ALIGNMENT, GGUF_VERSION,
};
use mmn_io::gguf_quant::GgmlType;

fn f32_payload(values: &[f32]) -> Vec<u8> {
    values.iter().flat_map(|v| v.to_le_bytes()).collect()
}

fn sample_file() -> Vec<u8> {
    let values: Vec<f32> = (0..12).map(|i| i as f32 * 0.5).collect();
    let tensors = vec![GgufWriteTensor {
        name: "token_embd.weight".to_string(),
        shape: vec![4, 3],
        ggml_type: GgmlType::F32,
        payload: f32_payload(&values),
    }];
    let meta = vec![
        ("general.architecture".to_string(), GgufValue::String("mmn".to_string())),
        ("mmn.block_count".to_string(), GgufValue::U32(2)),
        ("mmn.rope.freq_base".to_string(), GgufValue::F32(10000.0f32.to_bits())),
        ("mmn.use_rope".to_string(), GgufValue::Bool(true)),
        (
            "tokenizer.ggml.tokens".to_string(),
            GgufValue::Array(vec![GgufValue::String("<s>".to_string()), GgufValue::String("hi".to_string())]),
        ),
    ];
    write_gguf(&meta, &tensors)
}

#[test]
fn roundtrip_metadata_and_tensor() {
    let bytes = sample_file();
    assert!(is_gguf_bytes(&bytes));
    let file = read_gguf(&bytes).unwrap();
    assert_eq!(file.version, GGUF_VERSION);
    assert_eq!(metadata_get(&file.metadata, "general.architecture").unwrap().as_str(), Some("mmn"));
    assert_eq!(metadata_get(&file.metadata, "mmn.block_count").unwrap().as_u64(), Some(2));
    assert_eq!(metadata_get(&file.metadata, "mmn.use_rope").unwrap().as_bool(), Some(true));
    let rope = match metadata_get(&file.metadata, "mmn.rope.freq_base").unwrap() {
        GgufValue::F32(bits) => f32::from_bits(*bits) as f64,
        other => panic!("expected f32, got {other:?}"),
    };
    assert!((rope - 10000.0).abs() < 1e-3);
    match metadata_get(&file.metadata, "tokenizer.ggml.tokens").unwrap() {
        GgufValue::Array(items) => assert_eq!(items.len(), 2),
        other => panic!("expected array, got {other:?}"),
    }
    let info = file.find_tensor("token_embd.weight").unwrap();
    assert_eq!(info.row_major_shape(), vec![4, 3]);
    let raw = file.tensor_bytes(info).unwrap();
    let values: Vec<f32> = raw.chunks(4).map(|c| f32::from_le_bytes([c[0], c[1], c[2], c[3]])).collect();
    assert_eq!(values.len(), 12);
    assert_eq!(values[3], 1.5);
}

#[test]
fn tensor_data_is_aligned() {
    let bytes = sample_file();
    let file = read_gguf(&bytes).unwrap();
    let info = file.find_tensor("token_embd.weight").unwrap();
    assert_eq!(info.offset as usize % DEFAULT_ALIGNMENT, 0);
    assert_eq!(file.alignment, DEFAULT_ALIGNMENT);
}

#[test]
fn bad_magic_and_version_error() {
    assert!(read_gguf(b"NOPE").is_err());
    let mut bytes = sample_file();
    bytes[4] = 99;
    let e = read_gguf(&bytes).err().unwrap();
    assert!(e.message().contains("version"));
}

#[test]
fn gguf_truncated_file_errors() {
    let bytes = sample_file();
    assert!(read_gguf(&bytes[..40]).is_err());
}

#[test]
fn reads_version_2_header() {
    let mut bytes = sample_file();
    bytes[4..8].copy_from_slice(&2u32.to_le_bytes());
    let file = read_gguf(&bytes).unwrap();
    assert_eq!(file.version, 2);
}

#[test]
fn version_error_names_the_version() {
    let mut bytes = sample_file();
    bytes[4] = 99;
    let e = parse_gguf_header(&bytes).err().unwrap();
    assert_eq!(e.message(), "GGUF version 99 not supported (versions 2 and 3 are)");
}

#[test]
fn alignment_entry_comes_first_and_data_start_is_aligned() {
    let bytes = sample_file();
    let header = parse_gguf_header(&bytes).unwrap();
    assert_eq!(header.metadata[0].0, "general.alignment");
    assert_eq!(header.metadata[0].1, GgufValue::U32(32));
    assert_eq!(header.metadata.len(), 6);
    assert_eq!(header.data_start % 32, 0);
    assert_eq!(header.tensors[0].dims, vec![3, 4]);
    assert_eq!(header.tensors[0].ggml_type, GgmlType::F32);
    assert_eq!(bytes.len(), header.data_start + 64);
}

#[test]
fn custom_alignment_is_honoured() {
    let meta = vec![("general.alignment".to_string(), GgufValue::U64(64))];
    let tensors = vec![GgufWriteTensor {
        name: "w".to_string(),
        shape: vec![2],
        ggml_type: GgmlType::F32,
        payload: f32_payload(&[1.0, 2.0]),
    }];
    let bytes = write_gguf(&meta, &tensors);
    let header = parse_gguf_header(&bytes).unwrap();
    // A later entry for a key replaces the earlier value.
    assert_eq!(header.metadata.len(), 1);
    assert_eq!(header.metadata[0].1, GgufValue::U64(64));
    assert_eq!(header.alignment, 64);
    assert_eq!(header.data_start % 64, 0);
}

#[test]
fn every_scalar_type_roundtrips() {
    let meta = vec![
        ("a".to_string(), GgufValue::U8(200)),
        ("b".to_string(), GgufValue::I8(-5)),
        ("c".to_string(), GgufValue::U16(60000)),
        ("d".to_string(), GgufValue::I16(-300)),
        ("e".to_string(), GgufValue::I32(-70000)),
        ("f".to_string(), GgufValue::U64(1 << 40)),
        ("g".to_string(), GgufValue::I64(-(1 << 40))),
        ("h".to_string(), GgufValue::F64(2.5f64.to_bits())),
        ("i".to_string(), GgufValue::Array(vec![GgufValue::Array(vec![GgufValue::U8(1)])])),
    ];
    let bytes = write_gguf(&meta, &[]);
    let file = read_gguf(&bytes).unwrap();
    for (k, v) in &meta {
        assert_eq!(metadata_get(&file.metadata, k), Some(v));
    }
    assert_eq!(metadata_get(&file.metadata, "b").unwrap().as_u64(), None);
    assert_eq!(metadata_get(&file.metadata, "a").unwrap().as_u64(), Some(200));
    assert!(file.find_tensor("missing").is_none());
    assert!(file.data.is_empty());
}

#[test]
fn deep_array_nesting_is_refused() {
    let mut v = GgufValue::U8(1);
    for _ in 0..6 {
        v = GgufValue::Array(vec![v]);
    }
    let bytes = write_gguf(&[("deep".to_string(), v)], &[]);
    assert!(read_gguf(&bytes).is_err());
}

#[test]
fn tensor_data_out_of_bounds_errors() {
    let bytes = sample_file();
    let mut file = read_gguf(&bytes).unwrap();
    let info = file.tensors[0].clone();
    file.data.truncate(10);
    assert!(file.tensor_bytes(&info).is_err());
}
