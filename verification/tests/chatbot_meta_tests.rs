use mmn_io::gguf::{metadata_get, read_gguf, write_gguf, GgufValue, GgufWriteTensor};
use mmn_io::gguf_chatbot::{chatbot_gguf_metadata, gguf_meta_to_mmn, ChatbotConfig, RopeBase};
use mmn_io::gguf_quant::GgmlType;

fn config() -> ChatbotConfig {
    ChatbotConfig {
        d_model: 8,
        n_layer: 2,
        ffn_dim: 32,
        n_heads: 2,
        n_kv_heads: 1,
        head_dim: 4,
        vocab_size: 16,
        max_seq_len: 64,
        use_rope: true,
        rope_theta: 10000.0f32.to_bits(),
        init_seed: Some(7),
        vision: false,
        n_loops: 1,
        tie_embeddings: true,
        norm_kind: "rms".to_string(),
        ffn_kind: "gelu".to_string(),
        loop_embed: false,
        final_norm: true,
        lora_rank: None,
    }
}

#[test]
fn chatbot_metadata_entries_in_order() {
    let meta = chatbot_gguf_metadata(&config());
    let keys: Vec<&str> = meta.iter().map(|(k, _)| k.as_str()).collect();
    assert_eq!(
        keys,
        vec![
            "general.architecture",
            "general.name",
            "mmn.embedding_length",
            "mmn.block_count",
            "mmn.feed_forward_length",
            "mmn.attention.head_count",
            "mmn.attention.head_count_kv",
            "mmn.attention.key_length",
            "mmn.attention.value_length",
            "mmn.vocab_size",
            "mmn.context_length",
            "mmn.use_rope",
            "mmn.rope.freq_base",
            "mmn.seed",
            "mmn.tie_embeddings",
            "mmn.norm",
            "mmn.final_norm",
        ]
    );
    assert_eq!(meta[2].1, GgufValue::U32(8));
    assert_eq!(meta[7].1, GgufValue::U32(4));
    assert_eq!(meta[12].1, GgufValue::F32(10000.0f32.to_bits()));
    assert_eq!(meta[13].1, GgufValue::U64(7));
    assert_eq!(meta[15].1, GgufValue::String("rms".to_string()));
}

#[test]
fn chatbot_metadata_reads_back_as_mmn_meta() {
    let meta = chatbot_gguf_metadata(&config());
    let payload = vec![0u8; 16 * 8 * 4];
    let tensors = vec![GgufWriteTensor {
        name: "token_embd.weight".to_string(),
        shape: vec![8, 16],
        ggml_type: GgmlType::F32,
        payload,
    }];
    let bytes = write_gguf(&meta, &tensors);
    let file = read_gguf(&bytes).unwrap();
    assert_eq!(metadata_get(&file.metadata, "mmn.block_count").unwrap().as_u64(), Some(2));
    let shapes = vec![
        ("embed".to_string(), vec![16usize, 8]),
        ("blocks.0.attn.q".to_string(), vec![8usize, 8]),
        ("blocks.1.ffn2".to_string(), vec![8usize, 32]),
    ];
    let m = gguf_meta_to_mmn(&file, &shapes);
    assert_eq!(m.vocab_size, Some(16));
    assert_eq!(m.d_model, Some(8));
    assert_eq!(m.n_layer, 2);
    assert_eq!(m.ffn_dim, Some(32));
    assert_eq!(m.num_attention_heads, Some(2));
    assert_eq!(m.num_key_value_heads, Some(1));
    assert_eq!(m.head_dim, Some(4));
    assert!(m.use_rope);
    assert_eq!(m.rope_base, Some(RopeBase::F32(10000.0f32.to_bits())));
    assert!(!m.use_learned_pos_embed);
    assert_eq!(m.max_seq_len, None);
    assert_eq!(m.seed, Some(7));
    assert_eq!(m.n_loops, None);
    assert!(m.tie_embeddings);
    assert_eq!(m.norm.as_deref(), Some("rms"));
    assert_eq!(m.ffn_kind, None);
    assert!(!m.loop_embed);
    assert!(m.final_norm);
    assert_eq!(m.lora_rank, None);
    assert!(!m.vision);
}

#[test]
fn llama_metadata_infers_layers_and_head_dim() {
    let meta = vec![
        ("general.architecture".to_string(), GgufValue::String("llama".to_string())),
        ("llama.attention.head_count".to_string(), GgufValue::U32(4)),
        ("llama.lora_rank".to_string(), GgufValue::U32(0)),
    ];
    let bytes = write_gguf(&meta, &[]);
    let file = read_gguf(&bytes).unwrap();
    let shapes = vec![
        ("embed".to_string(), vec![100usize, 64]),
        ("blocks.0.attn.q".to_string(), vec![128usize, 64]),
        ("blocks.11.attn.k".to_string(), vec![32usize, 64]),
        ("blocks.3.ffn2".to_string(), vec![64usize, 256]),
        ("pos_embed".to_string(), vec![512usize, 64]),
        ("vision_patch_proj".to_string(), vec![64usize, 48]),
    ];
    let m = gguf_meta_to_mmn(&file, &shapes);
    assert_eq!(m.n_layer, 12);
    assert_eq!(m.d_model, Some(64));
    assert_eq!(m.head_dim, Some(32));
    assert!(m.use_rope);
    assert_eq!(m.rope_base, None);
    assert!(m.use_learned_pos_embed);
    assert_eq!(m.max_seq_len, Some(512));
    assert_eq!(m.lora_rank, None);
    assert!(!m.final_norm);
    assert!(m.vision);
}

#[test]
fn mmn_metadata_without_rope_keeps_it_off() {
    let meta = vec![("general.architecture".to_string(), GgufValue::String("mmn".to_string()))];
    let bytes = write_gguf(&meta, &[]);
    let file = read_gguf(&bytes).unwrap();
    let m = gguf_meta_to_mmn(&file, &Vec::new());
    assert!(!m.use_rope);
    assert_eq!(m.n_layer, 0);
    assert_eq!(m.vocab_size, None);
    assert!(!m.vision);
}
