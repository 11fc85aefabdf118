use mmn_io::gguf_chatbot::{gguf_name_to_mmn, mmn_name_to_gguf};
use mmn_io::gguf_info::{sentencepiece_token_bytes, sentencepiece_token_from_bytes};

#[test]
fn name_mapping_roundtrips() {
    for key in [
        "embed",
        "lm_head",
        "blocks.0.attn.q",
        "blocks.3.ffn2",
        "blocks.1.ln1.gamma",
        "blocks.2.ln2.beta",
    ] {
        let gguf = mmn_name_to_gguf(key).unwrap();
        let back = gguf_name_to_mmn(&gguf).unwrap();
        if key != "blocks.0.ffn" {
            assert_eq!(back, key, "via {gguf}");
        }
    }
    assert_eq!(gguf_name_to_mmn("blk.0.ffn_up.weight").as_deref(), Some("blocks.0.ffn.up"));
    assert_eq!(gguf_name_to_mmn("output_norm.weight").as_deref(), Some("final_norm.gamma"));
    assert_eq!(gguf_name_to_mmn("output_norm.bias").as_deref(), Some("final_norm.beta"));
    assert_eq!(gguf_name_to_mmn("unknown.weight"), None);
}

#[test]
fn block_indices_parse_like_usize() {
    assert_eq!(gguf_name_to_mmn("blk.007.attn_q.weight").as_deref(), Some("blocks.7.attn.q"));
    assert_eq!(gguf_name_to_mmn("blk.+12.ffn_down.weight").as_deref(), Some("blocks.12.ffn2"));
    assert_eq!(gguf_name_to_mmn("blk.x.attn_q.weight"), None);
    assert_eq!(gguf_name_to_mmn("blk..attn_q.weight"), None);
    assert_eq!(gguf_name_to_mmn("blk.99999999999999999999999.attn_q.weight"), None);
    assert_eq!(mmn_name_to_gguf("blocks.5.ffn").as_deref(), Some("blk.5.ffn_up.weight"));
    assert_eq!(mmn_name_to_gguf("blocks.5.nope"), None);
    assert_eq!(mmn_name_to_gguf("norm.weight"), None);
    assert_eq!(gguf_name_to_mmn("norm.weight").as_deref(), Some("final_norm.gamma"));
}

#[test]
fn sentencepiece_bytes_decode() {
    assert_eq!(sentencepiece_token_bytes("\u{2581}hello"), b" hello");
    assert_eq!(sentencepiece_token_bytes("<0x0A>"), vec![0x0A]);
    assert_eq!(sentencepiece_token_bytes("<s>"), b"<s>");
    assert_eq!(sentencepiece_token_bytes("plain"), b"plain");
}

#[test]
fn byte_fallback_tokens_roundtrip() {
    assert_eq!(sentencepiece_token_from_bytes(&[0x0A]), "<0x0A>");
    assert_eq!(sentencepiece_token_from_bytes(&[0xFF]), "<0xFF>");
    assert_eq!(sentencepiece_token_from_bytes(b" hello"), "\u{2581}hello");
    assert_eq!(sentencepiece_token_bytes(&sentencepiece_token_from_bytes(&[0x7F])), vec![0x7F]);
    assert_eq!(sentencepiece_token_bytes("<0x+F>"), vec![0x0F]);
    assert_eq!(sentencepiece_token_bytes("<0xZZ>"), b"<0xZZ>");
    assert_eq!(sentencepiece_token_from_bytes(&[0xC3, 0x28]), "\u{FFFD}(");
}

#[test]
fn fixed_names_round_trip() {
    for key in [
        "embed",
        "lm_head",
        "pos_embed",
        "loop_embed.weight",
        "final_norm.gamma",
        "final_norm.beta",
        "vision_patch_proj",
        "vision_patch_conv",
        "vision_cross_attn.q",
        "vision_cross_attn.k",
        "vision_cross_attn.v",
        "vision_cross_attn.out",
    ] {
        let gguf = mmn_name_to_gguf(key).unwrap();
        assert_eq!(gguf_name_to_mmn(&gguf).as_deref(), Some(key), "via {gguf}");
    }
    assert_eq!(mmn_name_to_gguf("blocks.4294967296.ln2.beta").as_deref(), Some("blk.4294967296.ffn_norm.bias"));
    assert_eq!(gguf_name_to_mmn("blk.4294967296.ffn_norm.bias").as_deref(), Some("blocks.4294967296.ln2.beta"));
    assert_eq!(gguf_name_to_mmn(&mmn_name_to_gguf("blocks.5.ffn").unwrap()).as_deref(), Some("blocks.5.ffn.up"));
}

#[test]
fn sentencepiece_pieces_read_back() {
    for piece in [&b" hello"[..], &[0x0A], &[0xFF], &[0x20], b"a b c", "\u{e9}t\u{e9} ".as_bytes(), b"<0x4>"] {
        let token = sentencepiece_token_from_bytes(piece);
        assert_eq!(sentencepiece_token_bytes(&token), piece.to_vec(), "via {token}");
    }
    assert_eq!(sentencepiece_token_from_bytes(b" hello"), "\u{2581}hello");
    assert_eq!(sentencepiece_token_from_bytes(&[0x0A]), "<0x0A>");
    assert_eq!(sentencepiece_token_from_bytes(&[0xFF]), "<0xFF>");
}
