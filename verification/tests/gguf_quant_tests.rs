use mmn_io::gguf_quant::GgmlType;
use mmn_io::gguf_quant_iq::ksigns;

#[test]
fn removed_type_ids_error_clearly() {
    for id in [4u32, 5, 31, 32, 33, 36, 37, 38] {
        let e = GgmlType::from_id(id).err().unwrap();
        assert!(e.message().contains("removed"), "{id}: {}", e.message());
    }
}

#[test]
fn iq_grid_type_ids_resolve() {
    assert_eq!(GgmlType::from_id(16).unwrap(), GgmlType::Iq2Xxs);
    assert_eq!(GgmlType::from_id(17).unwrap(), GgmlType::Iq2Xs);
    assert_eq!(GgmlType::from_id(18).unwrap(), GgmlType::Iq3Xxs);
    assert_eq!(GgmlType::from_id(19).unwrap(), GgmlType::Iq1S);
    assert_eq!(GgmlType::from_id(21).unwrap(), GgmlType::Iq3S);
    assert_eq!(GgmlType::from_id(22).unwrap(), GgmlType::Iq2S);
    assert_eq!(GgmlType::from_id(29).unwrap(), GgmlType::Iq1M);
    assert_eq!(GgmlType::from_id(40).unwrap(), GgmlType::Nvfp4);
}

#[test]
fn every_supported_type_id_roundtrips_through_from_id() {
    // Guards against dropping ids during refactors (IQ4_XS regression).
    for ty in [
        GgmlType::F32,
        GgmlType::F16,
        GgmlType::BF16,
        GgmlType::F64,
        GgmlType::Q4_0,
        GgmlType::Q4_1,
        GgmlType::Q5_0,
        GgmlType::Q5_1,
        GgmlType::Q8_0,
        GgmlType::Q8_1,
        GgmlType::Q2K,
        GgmlType::Q3K,
        GgmlType::Q4K,
        GgmlType::Q5K,
        GgmlType::Q6K,
        GgmlType::Q8K,
        GgmlType::Iq4Nl,
        GgmlType::Iq4Xs,
        GgmlType::Iq2Xxs,
        GgmlType::Iq2Xs,
        GgmlType::Iq2S,
        GgmlType::Iq3Xxs,
        GgmlType::Iq3S,
        GgmlType::Iq1S,
        GgmlType::Iq1M,
        GgmlType::Tq1_0,
        GgmlType::Tq2_0,
        GgmlType::Mxfp4,
        GgmlType::Nvfp4,
        GgmlType::I8,
        GgmlType::I16,
        GgmlType::I32,
        GgmlType::I64,
    ] {
        assert_eq!(GgmlType::from_id(ty.type_id()).unwrap(), ty, "{ty:?}");
    }
}

#[test]
fn iq_block_layouts_match_spec_sizes() {
    assert_eq!(GgmlType::Iq2Xxs.block_layout(), (256, 66));
    assert_eq!(GgmlType::Iq2Xs.block_layout(), (256, 74));
    assert_eq!(GgmlType::Iq2S.block_layout(), (256, 82));
    assert_eq!(GgmlType::Iq3Xxs.block_layout(), (256, 98));
    assert_eq!(GgmlType::Iq3S.block_layout(), (256, 110));
    assert_eq!(GgmlType::Iq1S.block_layout(), (256, 50));
    assert_eq!(GgmlType::Iq1M.block_layout(), (256, 56));
    assert_eq!(GgmlType::Nvfp4.block_layout(), (64, 36));
}

#[test]
fn k_quant_block_layouts_match_ggml_sizes() {
    assert_eq!(GgmlType::Q2K.block_layout(), (256, 84));
    assert_eq!(GgmlType::Q3K.block_layout(), (256, 110));
    assert_eq!(GgmlType::Q5K.block_layout(), (256, 176));
    assert_eq!(GgmlType::Q8K.block_layout(), (256, 292));
    assert_eq!(GgmlType::Iq4Nl.block_layout(), (32, 18));
    assert_eq!(GgmlType::Iq4Xs.block_layout(), (256, 136));
    assert_eq!(GgmlType::Tq1_0.block_layout(), (256, 54));
    assert_eq!(GgmlType::Tq2_0.block_layout(), (256, 66));
    assert_eq!(GgmlType::Mxfp4.block_layout(), (32, 17));
    assert_eq!(GgmlType::Q8_1.block_layout(), (32, 36));
}

#[test]
fn misaligned_block_count_errors() {
    // 33 elements cannot fill Q4_0 blocks of 32.
    assert!(GgmlType::Q4_0.data_len(33).is_err());
    assert_eq!(GgmlType::Q4_0.data_len(64).unwrap(), 36);
    assert_eq!(GgmlType::Q4K.data_len(512).unwrap(), 288);
    assert_eq!(GgmlType::Q6K.data_len(256).unwrap(), 210);
}

#[test]
fn unknown_type_id_errors() {
    assert!(GgmlType::from_id(999).is_err());
    assert_eq!(GgmlType::from_id(8).unwrap(), GgmlType::Q8_0);
    assert_eq!(GgmlType::Q6K.type_id(), 14);
}

#[test]
fn ksigns_matches_parity_construction() {
    // First entries of the reference table: 0x00, 0x81, 0x82, 0x03.
    assert_eq!(ksigns(0), 0x00);
    assert_eq!(ksigns(1), 0x81);
    assert_eq!(ksigns(2), 0x82);
    assert_eq!(ksigns(3), 0x03);
    assert_eq!(ksigns(127), 0xFF);
}

#[test]
fn ksigns_entries_have_even_parity() {
    for i in 0..128usize {
        let s = ksigns(i);
        assert_eq!(s & 0x7F, i as u8);
        assert_eq!(s.count_ones() % 2, 0);
    }
}

#[test]
fn simple_layouts_and_data_len() {
    assert_eq!(GgmlType::F32.block_layout(), (1, 4));
    assert_eq!(GgmlType::Q4_0.block_layout(), (32, 18));
    assert_eq!(GgmlType::F16.data_len(3).unwrap(), 6);
    assert_eq!(GgmlType::F64.type_id(), 28);
}
