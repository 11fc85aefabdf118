use half::f16;
use mmn_io::ggml_legacy::{
    is_ggml_legacy_bytes, read_ggml_legacy_bytes, LegacyGgmlContainer, MAGIC_GGJT, MAGIC_GGMF, MAGIC_GGML,
};

/// Build a legacy file by hand, independently of the reader.
fn build(container: LegacyGgmlContainer, tensors: &[(&str, Vec<usize>, u32, Vec<u8>)]) -> Vec<u8> {
    let mut b: Vec<u8> = Vec::new();
    match container {
        LegacyGgmlContainer::Ggml => b.extend_from_slice(&MAGIC_GGML.to_le_bytes()),
        LegacyGgmlContainer::Ggmf => {
            b.extend_from_slice(&MAGIC_GGMF.to_le_bytes());
            b.extend_from_slice(&1u32.to_le_bytes());
        }
        LegacyGgmlContainer::Ggjt(v) => {
            b.extend_from_slice(&MAGIC_GGJT.to_le_bytes());
            b.extend_from_slice(&v.to_le_bytes());
        }
    }
    for h in [2i32, 8, 1, 1, 1, 2, 0] {
        b.extend_from_slice(&h.to_le_bytes());
    }
    for token in [b"<s>".as_slice(), b"hi".as_slice()] {
        b.extend_from_slice(&(token.len() as u32).to_le_bytes());
        b.extend_from_slice(token);
        if container.has_vocab_scores() {
            b.extend_from_slice(&(-1.5f32).to_le_bytes());
        }
    }
    for (name, ne, ftype, data) in tensors {
        b.extend_from_slice(&(ne.len() as u32).to_le_bytes());
        b.extend_from_slice(&(name.len() as u32).to_le_bytes());
        b.extend_from_slice(&ftype.to_le_bytes());
        for &d in ne {
            b.extend_from_slice(&(d as u32).to_le_bytes());
        }
        b.extend_from_slice(name.as_bytes());
        if container.aligned() {
            let pad = b.len().div_ceil(32) * 32 - b.len();
            b.extend(std::iter::repeat_n(0u8, pad));
        }
        b.extend_from_slice(data);
    }
    b
}

fn f32_bytes(values: &[f32]) -> Vec<u8> {
    values.iter().flat_map(|v| v.to_le_bytes()).collect()
}

fn f32_values(data: &[u8]) -> Vec<f32> {
    data.chunks_exact(4).map(|c| f32::from_le_bytes([c[0], c[1], c[2], c[3]])).collect()
}

#[test]
fn unversioned_ggml_reads_f32_tensor_without_scores() {
    let data = f32_bytes(&[1.0, -2.0, 3.0, 4.0]);
    let bytes = build(LegacyGgmlContainer::Ggml, &[("tok_embeddings.weight", vec![2, 2], 0, data)]);
    let file = read_ggml_legacy_bytes(&bytes).unwrap();
    assert_eq!(file.container, LegacyGgmlContainer::Ggml);
    assert_eq!(file.hparams[1], 8);
    assert_eq!(file.vocab.len(), 2);
    assert_eq!(file.vocab[0].0, b"<s>");
    assert_eq!(f32::from_bits(file.vocab[0].1), 0.0);
    assert_eq!(file.tensors.len(), 1);
    assert_eq!(file.tensors[0].name, "tok_embeddings.weight");
    assert_eq!(file.tensors[0].shape, vec![2, 2]);
    assert_eq!(f32_values(&file.tensors[0].data), vec![1.0, -2.0, 3.0, 4.0]);
}

#[test]
fn ggmf_reads_scores_and_f16() {
    let values = [0.5f32, -1.0, 2.0, 0.0];
    let data: Vec<u8> = values.iter().flat_map(|&v| f16::from_f32(v).to_le_bytes()).collect();
    let bytes = build(LegacyGgmlContainer::Ggmf, &[("norm.weight", vec![4], 1, data)]);
    let file = read_ggml_legacy_bytes(&bytes).unwrap();
    assert_eq!(f32::from_bits(file.vocab[1].1), -1.5);
    let back: Vec<f32> = file.tensors[0]
        .data
        .chunks_exact(2)
        .map(|c| f16::from_le_bytes([c[0], c[1]]).to_f32())
        .collect();
    assert_eq!(back, values);
}

#[test]
fn ggjt_alignment_pads_tensor_data() {
    let block = vec![7u8; 20];
    let bytes = build(LegacyGgmlContainer::Ggjt(1), &[("layers.0.wq.weight", vec![32], 2, block.clone())]);
    let file = read_ggml_legacy_bytes(&bytes).unwrap();
    assert_eq!(file.container, LegacyGgmlContainer::Ggjt(1));
    assert_eq!(file.tensors[0].ftype, 2);
    assert_eq!(file.tensors[0].data, block);
    assert_eq!((bytes.len() - 20) % 32, 0);
}

#[test]
fn ggjt_v2_sizes_q4_0_with_modern_blocks() {
    let block = vec![1u8; 18];
    let bytes = build(LegacyGgmlContainer::Ggjt(2), &[("layers.0.wk.weight", vec![32], 2, block.clone())]);
    let file = read_ggml_legacy_bytes(&bytes).unwrap();
    assert_eq!(file.tensors[0].data, block);
    // The original layout needs 20 bytes per block: two bytes are missing.
    let old = build(LegacyGgmlContainer::Ggjt(1), &[("w", vec![32], 2, block)]);
    assert!(read_ggml_legacy_bytes(&old).is_err());
}

#[test]
fn bad_versions_and_truncation_error() {
    let mut bytes = build(LegacyGgmlContainer::Ggjt(1), &[]);
    bytes[4..8].copy_from_slice(&9u32.to_le_bytes());
    assert!(read_ggml_legacy_bytes(&bytes).err().unwrap().message().contains("version"));
    let good = build(LegacyGgmlContainer::Ggml, &[("w", vec![2], 0, f32_bytes(&[1.0, 2.0]))]);
    assert!(read_ggml_legacy_bytes(&good[..good.len() - 3]).is_err());
    assert!(!is_ggml_legacy_bytes(b"GGUF"));
    assert!(is_ggml_legacy_bytes(&good));
}

#[test]
fn unsupported_ftype_and_bad_header_error() {
    let bytes = build(LegacyGgmlContainer::Ggml, &[("w", vec![32], 8, vec![0u8; 34])]);
    assert!(read_ggml_legacy_bytes(&bytes).is_err());
    let bytes = build(LegacyGgmlContainer::Ggml, &[("w", vec![1, 1, 1, 1, 1], 0, vec![0u8; 4])]);
    assert!(read_ggml_legacy_bytes(&bytes).is_err());
    let mut bytes = build(LegacyGgmlContainer::Ggml, &[]);
    bytes[4..8].copy_from_slice(&(-1i32).to_le_bytes());
    assert!(read_ggml_legacy_bytes(&bytes).is_err());
}
