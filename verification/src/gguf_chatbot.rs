//! Tensor-name bridge between GGUF (llama.cpp convention) and MMN
//! checkpoint keys.

use vstd::prelude::*;
use vstd::string::*;
use crate::gguf::GgufValue;
use crate::text::{chars_match, chars_of, decimal, parse_usize, parse_usize_at, push_char, push_decimal, str_equals};

verus! {

/// The GGUF names with a fixed MMN key.
pub open spec fn fixed_gguf_to_mmn(n: Seq<char>) -> Option<Seq<char>> {
    if n == "token_embd.weight"@ {
        Some("embed"@)
    } else if n == "output.weight"@ {
        Some("lm_head"@)
    } else if n == "position_embd.weight"@ {
        Some("pos_embed"@)
    } else if n == "loop_embd.weight"@ {
        Some("loop_embed.weight"@)
    } else if n == "output_norm.weight"@ {
        Some("final_norm.gamma"@)
    } else if n == "output_norm.bias"@ {
        Some("final_norm.beta"@)
    } else if n == "norm.weight"@ {
        Some("final_norm.gamma"@)
    } else if n == "v.patch_proj.weight"@ {
        Some("vision_patch_proj"@)
    } else if n == "v.patch_conv.weight"@ {
        Some("vision_patch_conv"@)
    } else if n == "v.cross_attn_q.weight"@ {
        Some("vision_cross_attn.q"@)
    } else if n == "v.cross_attn_k.weight"@ {
        Some("vision_cross_attn.k"@)
    } else if n == "v.cross_attn_v.weight"@ {
        Some("vision_cross_attn.v"@)
    } else if n == "v.cross_attn_out.weight"@ {
        Some("vision_cross_attn.out"@)
    } else {
        None
    }
}

/// The MMN keys with a fixed GGUF name.
pub open spec fn fixed_mmn_to_gguf(k: Seq<char>) -> Option<Seq<char>> {
    if k == "embed"@ {
        Some("token_embd.weight"@)
    } else if k == "lm_head"@ {
        Some("output.weight"@)
    } else if k == "pos_embed"@ {
        Some("position_embd.weight"@)
    } else if k == "loop_embed.weight"@ {
        Some("loop_embd.weight"@)
    } else if k == "final_norm.gamma"@ {
        Some("output_norm.weight"@)
    } else if k == "final_norm.beta"@ {
        Some("output_norm.bias"@)
    } else if k == "vision_patch_proj"@ {
        Some("v.patch_proj.weight"@)
    } else if k == "vision_patch_conv"@ {
        Some("v.patch_conv.weight"@)
    } else if k == "vision_cross_attn.q"@ {
        Some("v.cross_attn_q.weight"@)
    } else if k == "vision_cross_attn.k"@ {
        Some("v.cross_attn_k.weight"@)
    } else if k == "vision_cross_attn.v"@ {
        Some("v.cross_attn_v.weight"@)
    } else if k == "vision_cross_attn.out"@ {
        Some("v.cross_attn_out.weight"@)
    } else {
        None
    }
}

/// The per-block GGUF suffixes and their MMN counterparts.
pub open spec fn gguf_suffix_to_mmn(s: Seq<char>) -> Option<Seq<char>> {
    if s == "attn_q.weight"@ {
        Some("attn.q"@)
    } else if s == "attn_k.weight"@ {
        Some("attn.k"@)
    } else if s == "attn_v.weight"@ {
        Some("attn.v"@)
    } else if s == "attn_output.weight"@ {
        Some("attn.out"@)
    } else if s == "attn_qkv.weight"@ {
        Some("attn.qkv"@)
    } else if s == "ffn_gate.weight"@ {
        Some("ffn_gate"@)
    } else if s == "ffn_up.weight"@ {
        Some("ffn.up"@)
    } else if s == "ffn_down.weight"@ {
        Some("ffn2"@)
    } else if s == "attn_norm.weight"@ {
        Some("ln1.gamma"@)
    } else if s == "attn_norm.bias"@ {
        Some("ln1.beta"@)
    } else if s == "ffn_norm.weight"@ {
        Some("ln2.gamma"@)
    } else if s == "ffn_norm.bias"@ {
        Some("ln2.beta"@)
    } else {
        None
    }
}

/// The per-block MMN suffixes and their GGUF counterparts.
pub open spec fn mmn_suffix_to_gguf(s: Seq<char>) -> Option<Seq<char>> {
    if s == "attn.q"@ {
        Some("attn_q.weight"@)
    } else if s == "attn.k"@ {
        Some("attn_k.weight"@)
    } else if s == "attn.v"@ {
        Some("attn_v.weight"@)
    } else if s == "attn.out"@ {
        Some("attn_output.weight"@)
    } else if s == "ffn"@ {
        Some("ffn_up.weight"@)
    } else if s == "ffn_gate"@ {
        Some("ffn_gate.weight"@)
    } else if s == "ffn2"@ {
        Some("ffn_down.weight"@)
    } else if s == "ln1.gamma"@ {
        Some("attn_norm.weight"@)
    } else if s == "ln1.beta"@ {
        Some("attn_norm.bias"@)
    } else if s == "ln2.gamma"@ {
        Some("ffn_norm.weight"@)
    } else if s == "ln2.beta"@ {
        Some("ffn_norm.bias"@)
    } else {
        None
    }
}

/// Index of the first `.` at or after `i`.
pub open spec fn first_dot_from(cs: Seq<char>, i: int) -> Option<int>
    decreases cs.len() - i,
{
    if i < 0 || i >= cs.len() {
        None
    } else if cs[i] == '.' {
        Some(i)
    } else {
        first_dot_from(cs, i + 1)
    }
}

/// A per-block name `<prefix><index>.<suffix>`: the block index and the
/// suffix mapped through `table`, written back as `<out_prefix><index>.<mapped>`.
pub open spec fn block_name(n: Seq<char>, prefix: Seq<char>, out_prefix: Seq<char>, mapped: Option<Seq<char>>, dot: Option<int>) -> Option<Seq<char>> {
    match dot {
        None => None,
        Some(k) => match parse_usize(n.subrange(prefix.len() as int, k)) {
            None => None,
            Some(i) => match mapped {
                None => None,
                Some(ms) => Some(out_prefix + decimal(i) + seq!['.'] + ms),
            },
        },
    }
}

/// The MMN key for a GGUF tensor name.
pub open spec fn spec_gguf_name_to_mmn(n: Seq<char>) -> Option<Seq<char>> {
    match fixed_gguf_to_mmn(n) {
        Some(m) => Some(m),
        None => if n.len() >= 4 && n.subrange(0, 4) == seq!['b', 'l', 'k', '.'] {
            let dot = first_dot_from(n, 4);
            let mapped = match dot {
                Some(k) => gguf_suffix_to_mmn(n.subrange(k + 1, n.len() as int)),
                None => None,
            };
            block_name(n, seq!['b', 'l', 'k', '.'], "blocks."@, mapped, dot)
        } else {
            None
        },
    }
}

/// The GGUF tensor name for an MMN key.
pub open spec fn spec_mmn_name_to_gguf(k: Seq<char>) -> Option<Seq<char>> {
    match fixed_mmn_to_gguf(k) {
        Some(m) => Some(m),
        None => if k.len() >= 7 && k.subrange(0, 7) == seq!['b', 'l', 'o', 'c', 'k', 's', '.'] {
            let dot = first_dot_from(k, 7);
            let mapped = match dot {
                Some(d) => mmn_suffix_to_gguf(k.subrange(d + 1, k.len() as int)),
                None => None,
            };
            block_name(k, seq!['b', 'l', 'o', 'c', 'k', 's', '.'], "blk."@, mapped, dot)
        } else {
            None
        },
    }
}

fn fixed_gguf_to_mmn_of(name: &str) -> (r: Option<&'static str>)
    ensures
        match fixed_gguf_to_mmn(name@) {
            Some(m) => r matches Some(s) && s@ == m,
            None => r is None,
        },
{
    if str_equals(name, "token_embd.weight") {
        Some("embed")
    } else if str_equals(name, "output.weight") {
        Some("lm_head")
    } else if str_equals(name, "position_embd.weight") {
        Some("pos_embed")
    } else if str_equals(name, "loop_embd.weight") {
        Some("loop_embed.weight")
    } else if str_equals(name, "output_norm.weight") {
        Some("final_norm.gamma")
    } else if str_equals(name, "output_norm.bias") {
        Some("final_norm.beta")
    } else if str_equals(name, "norm.weight") {
        Some("final_norm.gamma")
    } else if str_equals(name, "v.patch_proj.weight") {
        Some("vision_patch_proj")
    } else if str_equals(name, "v.patch_conv.weight") {
        Some("vision_patch_conv")
    } else if str_equals(name, "v.cross_attn_q.weight") {
        Some("vision_cross_attn.q")
    } else if str_equals(name, "v.cross_attn_k.weight") {
        Some("vision_cross_attn.k")
    } else if str_equals(name, "v.cross_attn_v.weight") {
        Some("vision_cross_attn.v")
    } else if str_equals(name, "v.cross_attn_out.weight") {
        Some("vision_cross_attn.out")
    } else {
        None
    }
}

fn fixed_mmn_to_gguf_of(key: &str) -> (r: Option<&'static str>)
    ensures
        match fixed_mmn_to_gguf(key@) {
            Some(m) => r matches Some(s) && s@ == m,
            None => r is None,
        },
{
    if str_equals(key, "embed") {
        Some("token_embd.weight")
    } else if str_equals(key, "lm_head") {
        Some("output.weight")
    } else if str_equals(key, "pos_embed") {
        Some("position_embd.weight")
    } else if str_equals(key, "loop_embed.weight") {
        Some("loop_embd.weight")
    } else if str_equals(key, "final_norm.gamma") {
        Some("output_norm.weight")
    } else if str_equals(key, "final_norm.beta") {
        Some("output_norm.bias")
    } else if str_equals(key, "vision_patch_proj") {
        Some("v.patch_proj.weight")
    } else if str_equals(key, "vision_patch_conv") {
        Some("v.patch_conv.weight")
    } else if str_equals(key, "vision_cross_attn.q") {
        Some("v.cross_attn_q.weight")
    } else if str_equals(key, "vision_cross_attn.k") {
        Some("v.cross_attn_k.weight")
    } else if str_equals(key, "vision_cross_attn.v") {
        Some("v.cross_attn_v.weight")
    } else if str_equals(key, "vision_cross_attn.out") {
        Some("v.cross_attn_out.weight")
    } else {
        None
    }
}

fn gguf_suffix_of(cs: &Vec<char>, start: usize) -> (r: Option<&'static str>)
    requires
        start <= cs@.len(),
    ensures
        match gguf_suffix_to_mmn(cs@.subrange(start as int, cs@.len() as int)) {
            Some(m) => r matches Some(s) && s@ == m,
            None => r is None,
        },
{
    if chars_match(cs, start, "attn_q.weight") {
        Some("attn.q")
    } else if chars_match(cs, start, "attn_k.weight") {
        Some("attn.k")
    } else if chars_match(cs, start, "attn_v.weight") {
        Some("attn.v")
    } else if chars_match(cs, start, "attn_output.weight") {
        Some("attn.out")
    } else if chars_match(cs, start, "attn_qkv.weight") {
        Some("attn.qkv")
    } else if chars_match(cs, start, "ffn_gate.weight") {
        Some("ffn_gate")
    } else if chars_match(cs, start, "ffn_up.weight") {
        Some("ffn.up")
    } else if chars_match(cs, start, "ffn_down.weight") {
        Some("ffn2")
    } else if chars_match(cs, start, "attn_norm.weight") {
        Some("ln1.gamma")
    } else if chars_match(cs, start, "attn_norm.bias") {
        Some("ln1.beta")
    } else if chars_match(cs, start, "ffn_norm.weight") {
        Some("ln2.gamma")
    } else if chars_match(cs, start, "ffn_norm.bias") {
        Some("ln2.beta")
    } else {
        None
    }
}

fn mmn_suffix_of(cs: &Vec<char>, start: usize) -> (r: Option<&'static str>)
    requires
        start <= cs@.len(),
    ensures
        match mmn_suffix_to_gguf(cs@.subrange(start as int, cs@.len() as int)) {
            Some(m) => r matches Some(s) && s@ == m,
            None => r is None,
        },
{
    if chars_match(cs, start, "attn.q") {
        Some("attn_q.weight")
    } else if chars_match(cs, start, "attn.k") {
        Some("attn_k.weight")
    } else if chars_match(cs, start, "attn.v") {
        Some("attn_v.weight")
    } else if chars_match(cs, start, "attn.out") {
        Some("attn_output.weight")
    } else if chars_match(cs, start, "ffn") {
        Some("ffn_up.weight")
    } else if chars_match(cs, start, "ffn_gate") {
        Some("ffn_gate.weight")
    } else if chars_match(cs, start, "ffn2") {
        Some("ffn_down.weight")
    } else if chars_match(cs, start, "ln1.gamma") {
        Some("attn_norm.weight")
    } else if chars_match(cs, start, "ln1.beta") {
        Some("attn_norm.bias")
    } else if chars_match(cs, start, "ln2.gamma") {
        Some("ffn_norm.weight")
    } else if chars_match(cs, start, "ln2.beta") {
        Some("ffn_norm.bias")
    } else {
        None
    }
}

/// Index of the first `.` at or after `from`, or the length when there is none.
fn find_dot(cs: &Vec<char>, from: usize) -> (k: usize)
    requires
        from <= cs@.len(),
    ensures
        from <= k <= cs@.len(),
        first_dot_from(cs@, from as int) == if k < cs@.len() { Some(k as int) } else { None::<int> },
{
    let mut k = from;
    while k < cs.len() && cs[k] != '.'
        invariant
            from <= k <= cs@.len(),
            first_dot_from(cs@, from as int) == first_dot_from(cs@, k as int),
        decreases cs@.len() - k,
    {
        k = k + 1;
    }
    k
}

/// `<out_prefix><index>.<suffix>`.
fn assemble(out_prefix: &str, index: usize, suffix: &str) -> (s: String)
    ensures
        s@ == out_prefix@ + decimal(index as nat) + seq!['.'] + suffix@,
{
    let mut s = String::from_str(out_prefix);
    push_decimal(&mut s, index);
    push_char(&mut s, '.');
    s.append(suffix);
    s
}

/// Map a GGUF (llama.cpp-convention) tensor name to the MMN checkpoint key.
pub fn gguf_name_to_mmn(name: &str) -> (r: Option<String>)
    ensures
        match spec_gguf_name_to_mmn(name@) {
            Some(m) => r matches Some(s) && s@ == m,
            None => r is None,
        },
{
    match fixed_gguf_to_mmn_of(name) {
        Some(m) => return Some(String::from_str(m)),
        None => {},
    }
    let cs = chars_of(name);
    if !(cs.len() >= 4 && cs[0] == 'b' && cs[1] == 'l' && cs[2] == 'k' && cs[3] == '.') {
        proof {
            if cs@.len() >= 4 && cs@.subrange(0, 4) == seq!['b', 'l', 'k', '.'] {
                assert(cs@.subrange(0, 4)[0] == cs@[0]);
                assert(cs@.subrange(0, 4)[1] == cs@[1]);
                assert(cs@.subrange(0, 4)[2] == cs@[2]);
                assert(cs@.subrange(0, 4)[3] == cs@[3]);
            }
        }
        return None;
    }
    proof {
        assert(cs@.subrange(0, 4) =~= seq!['b', 'l', 'k', '.']);
    }
    let k = find_dot(&cs, 4);
    if k == cs.len() {
        return None;
    }
    let index = match parse_usize_at(&cs, 4, k) {
        Some(i) => i,
        None => return None,
    };
    let suffix = match gguf_suffix_of(&cs, k + 1) {
        Some(s) => s,
        None => return None,
    };
    Some(assemble("blocks.", index, suffix))
}

/// Map an MMN checkpoint key to the GGUF (llama.cpp-convention) tensor name.
pub fn mmn_name_to_gguf(key: &str) -> (r: Option<String>)
    ensures
        match spec_mmn_name_to_gguf(key@) {
            Some(m) => r matches Some(s) && s@ == m,
            None => r is None,
        },
{
    match fixed_mmn_to_gguf_of(key) {
        Some(m) => return Some(String::from_str(m)),
        None => {},
    }
    let cs = chars_of(key);
    if !(cs.len() >= 7 && cs[0] == 'b' && cs[1] == 'l' && cs[2] == 'o' && cs[3] == 'c' && cs[4] == 'k' && cs[5] == 's'
        && cs[6] == '.') {
        proof {
            if cs@.len() >= 7 && cs@.subrange(0, 7) == seq!['b', 'l', 'o', 'c', 'k', 's', '.'] {
                assert(cs@.subrange(0, 7)[0] == cs@[0]);
                assert(cs@.subrange(0, 7)[1] == cs@[1]);
                assert(cs@.subrange(0, 7)[2] == cs@[2]);
                assert(cs@.subrange(0, 7)[3] == cs@[3]);
                assert(cs@.subrange(0, 7)[4] == cs@[4]);
                assert(cs@.subrange(0, 7)[5] == cs@[5]);
                assert(cs@.subrange(0, 7)[6] == cs@[6]);
            }
        }
        return None;
    }
    proof {
        assert(cs@.subrange(0, 7) =~= seq!['b', 'l', 'o', 'c', 'k', 's', '.']);
    }
    let d = find_dot(&cs, 7);
    if d == cs.len() {
        return None;
    }
    let index = match parse_usize_at(&cs, 7, d) {
        Some(i) => i,
        None => return None,
    };
    let suffix = match mmn_suffix_of(&cs, d + 1) {
        Some(s) => s,
        None => return None,
    };
    Some(assemble("blk.", index, suffix))
}

} // verus!

verus! {

/// The plain fields of a chatbot model that its GGUF metadata records.
/// `rope_theta` is the bit pattern of the f32 RoPE base; `head_dim` is the
/// effective per-head dimension.
pub struct ChatbotConfig {
    pub d_model: usize,
    pub n_layer: usize,
    pub ffn_dim: usize,
    pub n_heads: usize,
    pub n_kv_heads: usize,
    pub head_dim: usize,
    pub vocab_size: usize,
    pub max_seq_len: usize,
    pub use_rope: bool,
    pub rope_theta: u32,
    pub init_seed: Option<u64>,
    pub vision: bool,
    pub n_loops: usize,
    pub tie_embeddings: bool,
    pub norm_kind: String,
    pub ffn_kind: String,
    pub loop_embed: bool,
    pub final_norm: bool,
    pub lora_rank: Option<usize>,
}

/// An entry whose value is a `u32`.
pub open spec fn u32_entry(k: Seq<char>, v: usize) -> (Seq<char>, crate::gguf::GVal) {
    (k, crate::gguf::GVal::U32(v as u32))
}

/// `m` with `e` appended when `b` holds.
pub open spec fn push_if(m: Seq<(Seq<char>, crate::gguf::GVal)>, b: bool, e: (Seq<char>, crate::gguf::GVal))
    -> Seq<(Seq<char>, crate::gguf::GVal)> {
    if b { m.push(e) } else { m }
}

/// The GGUF metadata of a chatbot: architecture and name, the shape
/// hyperparameters as `u32`s, the RoPE flag, then the optional entries in
/// order (RoPE base, seed, vision, loop count when not 1, tied embeddings,
/// norm kind when not `layer`, FFN kind when not `gelu`, loop embedding,
/// final norm, LoRA rank).
pub open spec fn spec_chatbot_meta(c: ChatbotConfig) -> Seq<(Seq<char>, crate::gguf::GVal)> {
    let base = seq![
        ("general.architecture"@, crate::gguf::GVal::Str("mmn"@)),
        ("general.name"@, crate::gguf::GVal::Str("MagicMindNet Chatbot"@)),
        u32_entry("mmn.embedding_length"@, c.d_model),
        u32_entry("mmn.block_count"@, c.n_layer),
        u32_entry("mmn.feed_forward_length"@, c.ffn_dim),
        u32_entry("mmn.attention.head_count"@, c.n_heads),
        u32_entry("mmn.attention.head_count_kv"@, c.n_kv_heads),
        u32_entry("mmn.attention.key_length"@, c.head_dim),
        u32_entry("mmn.attention.value_length"@, c.head_dim),
        u32_entry("mmn.vocab_size"@, c.vocab_size),
        u32_entry("mmn.context_length"@, c.max_seq_len),
        ("mmn.use_rope"@, crate::gguf::GVal::Bool(c.use_rope)),
    ];
    let m1 = push_if(base, c.use_rope, ("mmn.rope.freq_base"@, crate::gguf::GVal::F32(c.rope_theta)));
    let m2 = match c.init_seed {
        Some(s) => m1.push(("mmn.seed"@, crate::gguf::GVal::U64(s))),
        None => m1,
    };
    let m3 = push_if(m2, c.vision, ("mmn.vision"@, crate::gguf::GVal::Bool(true)));
    let m4 = push_if(m3, c.n_loops != 1, u32_entry("mmn.n_loops"@, c.n_loops));
    let m5 = push_if(m4, c.tie_embeddings, ("mmn.tie_embeddings"@, crate::gguf::GVal::Bool(true)));
    let m6 = push_if(m5, c.norm_kind@ != "layer"@, ("mmn.norm"@, crate::gguf::GVal::Str(c.norm_kind@)));
    let m7 = push_if(m6, c.ffn_kind@ != "gelu"@, ("mmn.ffn_kind"@, crate::gguf::GVal::Str(c.ffn_kind@)));
    let m8 = push_if(m7, c.loop_embed, ("mmn.loop_embed"@, crate::gguf::GVal::Bool(true)));
    let m9 = push_if(m8, c.final_norm, ("mmn.final_norm"@, crate::gguf::GVal::Bool(true)));
    match c.lora_rank {
        Some(r) => m9.push(u32_entry("mmn.lora_rank"@, r)),
        None => m9,
    }
}

/// Append the entry `(k, v)`.
fn push_entry(m: &mut Vec<(String, crate::gguf::GgufValue)>, k: &str, v: crate::gguf::GgufValue)
    ensures
        crate::gguf::meta_view(final(m)@) == crate::gguf::meta_view(old(m)@).push((k@, v@)),
{
    let ghost vv = v@;
    m.push((String::from_str(k), v));
    assert(crate::gguf::meta_view(m@) =~= crate::gguf::meta_view(old(m)@).push((k@, vv)));
}

/// A string metadata value.
fn str_value(s: &str) -> (v: crate::gguf::GgufValue)
    ensures
        v@ == crate::gguf::GVal::Str(s@),
{
    crate::gguf::GgufValue::String(String::from_str(s))
}

/// The GGUF metadata entries describing a chatbot model.
pub fn chatbot_gguf_metadata(c: &ChatbotConfig) -> (meta: Vec<(String, crate::gguf::GgufValue)>)
    ensures
        crate::gguf::meta_view(meta@) == spec_chatbot_meta(*c),
{
    let mut m: Vec<(String, GgufValue)> = Vec::new();
    push_entry(&mut m, "general.architecture", str_value("mmn"));
    push_entry(&mut m, "general.name", str_value("MagicMindNet Chatbot"));
    push_entry(&mut m, "mmn.embedding_length", GgufValue::U32(c.d_model as u32));
    push_entry(&mut m, "mmn.block_count", GgufValue::U32(c.n_layer as u32));
    push_entry(&mut m, "mmn.feed_forward_length", GgufValue::U32(c.ffn_dim as u32));
    push_entry(&mut m, "mmn.attention.head_count", GgufValue::U32(c.n_heads as u32));
    push_entry(&mut m, "mmn.attention.head_count_kv", GgufValue::U32(c.n_kv_heads as u32));
    push_entry(&mut m, "mmn.attention.key_length", GgufValue::U32(c.head_dim as u32));
    push_entry(&mut m, "mmn.attention.value_length", GgufValue::U32(c.head_dim as u32));
    push_entry(&mut m, "mmn.vocab_size", GgufValue::U32(c.vocab_size as u32));
    push_entry(&mut m, "mmn.context_length", GgufValue::U32(c.max_seq_len as u32));
    push_entry(&mut m, "mmn.use_rope", GgufValue::Bool(c.use_rope));
    proof {
        assert(crate::gguf::meta_view(m@) =~= seq![
            ("general.architecture"@, crate::gguf::GVal::Str("mmn"@)),
            ("general.name"@, crate::gguf::GVal::Str("MagicMindNet Chatbot"@)),
            u32_entry("mmn.embedding_length"@, c.d_model),
            u32_entry("mmn.block_count"@, c.n_layer),
            u32_entry("mmn.feed_forward_length"@, c.ffn_dim),
            u32_entry("mmn.attention.head_count"@, c.n_heads),
            u32_entry("mmn.attention.head_count_kv"@, c.n_kv_heads),
            u32_entry("mmn.attention.key_length"@, c.head_dim),
            u32_entry("mmn.attention.value_length"@, c.head_dim),
            u32_entry("mmn.vocab_size"@, c.vocab_size),
            u32_entry("mmn.context_length"@, c.max_seq_len),
            ("mmn.use_rope"@, crate::gguf::GVal::Bool(c.use_rope)),
        ]);
    }
    if c.use_rope {
        push_entry(&mut m, "mmn.rope.freq_base", GgufValue::F32(c.rope_theta));
    }
    match c.init_seed {
        Some(s) => push_entry(&mut m, "mmn.seed", GgufValue::U64(s)),
        None => {},
    }
    if c.vision {
        push_entry(&mut m, "mmn.vision", GgufValue::Bool(true));
    }
    if c.n_loops != 1 {
        push_entry(&mut m, "mmn.n_loops", GgufValue::U32(c.n_loops as u32));
    }
    if c.tie_embeddings {
        push_entry(&mut m, "mmn.tie_embeddings", GgufValue::Bool(true));
    }
    if !str_equals(c.norm_kind.as_str(), "layer") {
        let v = str_value(c.norm_kind.as_str());
        push_entry(&mut m, "mmn.norm", v);
    }
    if !str_equals(c.ffn_kind.as_str(), "gelu") {
        let v = str_value(c.ffn_kind.as_str());
        push_entry(&mut m, "mmn.ffn_kind", v);
    }
    if c.loop_embed {
        push_entry(&mut m, "mmn.loop_embed", GgufValue::Bool(true));
    }
    if c.final_norm {
        push_entry(&mut m, "mmn.final_norm", GgufValue::Bool(true));
    }
    match c.lora_rank {
        Some(r) => push_entry(&mut m, "mmn.lora_rank", GgufValue::U32(r as u32)),
        None => {},
    }
    m
}

} // verus!

verus! {

/// The number behind a RoPE base value: an f32 or f64 bit pattern, or a
/// non-negative integer.
#[derive(Debug, Clone, Copy, PartialEq, Eq, Structural)]
pub enum RopeBase {
    F32(u32),
    F64(u64),
    Int(u64),
}

/// The RoPE base a metadata value gives, if it is a number.
pub open spec fn rope_of(v: crate::gguf::GVal) -> Option<RopeBase> {
    match v {
        crate::gguf::GVal::F32(b) => Some(RopeBase::F32(b)),
        crate::gguf::GVal::F64(b) => Some(RopeBase::F64(b)),
        _ => match crate::gguf::gv_as_u64(v) {
            Some(x) => Some(RopeBase::Int(x)),
            None => None,
        },
    }
}

/// MMN checkpoint metadata recovered from a GGUF file. `None` and `false`
/// fields are absent from the checkpoint's meta; the RoPE theta is
/// `rope_base` (10000 when absent) when `use_rope` holds.
pub struct MmnMeta {
    pub vocab_size: Option<u64>,
    pub d_model: Option<u64>,
    pub n_layer: u64,
    pub ffn_dim: Option<u64>,
    pub num_attention_heads: Option<u64>,
    pub num_key_value_heads: Option<u64>,
    pub head_dim: Option<u64>,
    pub use_rope: bool,
    pub rope_base: Option<RopeBase>,
    pub use_learned_pos_embed: bool,
    pub max_seq_len: Option<u64>,
    pub seed: Option<u64>,
    pub n_loops: Option<u64>,
    pub tie_embeddings: bool,
    pub norm: Option<String>,
    pub ffn_kind: Option<String>,
    pub loop_embed: bool,
    pub final_norm: bool,
    pub lora_rank: Option<u64>,
    pub vision: bool,
}

pub type MetaSeq = Seq<(Seq<char>, crate::gguf::GVal)>;

/// The model architecture named by the metadata (`llama` when absent).
pub open spec fn arch_of(md: MetaSeq) -> Seq<char> {
    match crate::gguf::meta_lookup(md, "general.architecture"@) {
        Some(crate::gguf::GVal::Str(s)) => s,
        _ => "llama"@,
    }
}

/// A non-negative integer entry `{arch}{suffix}`.
pub open spec fn meta_u(md: MetaSeq, arch: Seq<char>, suffix: Seq<char>) -> Option<u64> {
    match crate::gguf::meta_lookup(md, arch + suffix) {
        Some(v) => crate::gguf::gv_as_u64(v),
        None => None,
    }
}

/// A boolean entry `{arch}{suffix}`.
pub open spec fn meta_b(md: MetaSeq, arch: Seq<char>, suffix: Seq<char>) -> Option<bool> {
    match crate::gguf::meta_lookup(md, arch + suffix) {
        Some(crate::gguf::GVal::Bool(b)) => Some(b),
        _ => None,
    }
}

/// A string entry `{arch}{suffix}`.
pub open spec fn meta_s(md: MetaSeq, arch: Seq<char>, suffix: Seq<char>) -> Option<Seq<char>> {
    match crate::gguf::meta_lookup(md, arch + suffix) {
        Some(crate::gguf::GVal::Str(s)) => Some(s),
        _ => None,
    }
}

/// The shape of the first tensor named `name`.
pub open spec fn shape_of(ss: Seq<(Seq<char>, Seq<usize>)>, name: Seq<char>) -> Option<Seq<usize>>
    decreases ss.len(),
{
    if ss.len() == 0 { None } else if ss[0].0 == name { Some(ss[0].1) } else { shape_of(ss.drop_first(), name) }
}

/// Position of the first `.` in `cs`, or its length.
pub open spec fn first_dot(cs: Seq<char>) -> int
    decreases cs.len(),
{
    if cs.len() == 0 { 0 } else if cs[0] == '.' { 0 } else { 1 + first_dot(cs.drop_first()) }
}

/// The block index of a `blocks.{i}...` tensor name.
pub open spec fn block_index(k: Seq<char>) -> Option<nat> {
    if k.len() >= 7 && k.take(7) == "blocks."@ {
        let rest = k.skip(7);
        crate::text::parse_usize(rest.take(first_dot(rest)))
    } else {
        None
    }
}

/// One more than the largest block index among the names, or 0.
pub open spec fn blocks_count(ss: Seq<(Seq<char>, Seq<usize>)>) -> int
    decreases ss.len(),
{
    if ss.len() == 0 {
        0
    } else {
        let m = blocks_count(ss.drop_last());
        match block_index(ss.last().0) {
            Some(i) => if i + 1 > m { (i + 1) as int } else { m },
            None => m,
        }
    }
}

/// Dimension `j` of a two-dimensional shape.
pub open spec fn dim2(s: Option<Seq<usize>>, j: int) -> Option<u64> {
    match s {
        Some(sh) => if sh.len() == 2 { Some(sh[j] as u64) } else { None },
        None => None,
    }
}

pub open spec fn spec_d_model(md: MetaSeq, ss: Seq<(Seq<char>, Seq<usize>)>) -> Option<u64> {
    match meta_u(md, arch_of(md), ".embedding_length"@) {
        Some(d) => Some(d),
        None => dim2(shape_of(ss, "embed"@), 1),
    }
}

/// The head dimension: the key length, else the value length, else the
/// one the first query projection implies when it differs from
/// `d_model / heads`.
pub open spec fn spec_head_dim(md: MetaSeq, ss: Seq<(Seq<char>, Seq<usize>)>) -> Option<u64> {
    let arch = arch_of(md);
    match meta_u(md, arch, ".attention.key_length"@) {
        Some(k) => Some(k),
        None => match meta_u(md, arch, ".attention.value_length"@) {
            Some(v) => Some(v),
            None => match (meta_u(md, arch, ".attention.head_count"@), shape_of(ss, "blocks.0.attn.q"@)) {
                (Some(nh64), Some(q)) => {
                    let nh = (nh64 as usize) as int;
                    if q.len() == 2 && nh > 0 && (q[0] as int) % nh == 0 {
                        let inferred = (q[0] as int) / nh;
                        let dm = match spec_d_model(md, ss) {
                            Some(d) => (d as usize) as int,
                            None => q[1] as int,
                        };
                        if inferred != dm / nh { Some(inferred as u64) } else { None }
                    } else {
                        None
                    }
                },
                _ => None,
            },
        },
    }
}

/// Everything [`gguf_meta_to_mmn`] states of its result.
pub open spec fn spec_mmn_meta(md: MetaSeq, ss: Seq<(Seq<char>, Seq<usize>)>, m: MmnMeta) -> bool {
    let arch = arch_of(md);
    let rope = match crate::gguf::meta_lookup(md, arch + ".rope.freq_base"@) {
        Some(v) => rope_of(v),
        None => None,
    };
    &&& m.vocab_size == dim2(shape_of(ss, "embed"@), 0)
    &&& m.d_model == spec_d_model(md, ss)
    &&& m.n_layer as int == match meta_u(md, arch, ".block_count"@) {
        Some(n) => n as int,
        None => blocks_count(ss),
    }
    &&& m.ffn_dim == meta_u(md, arch, ".feed_forward_length"@)
    &&& m.num_attention_heads == meta_u(md, arch, ".attention.head_count"@)
    &&& m.num_key_value_heads == meta_u(md, arch, ".attention.head_count_kv"@)
    &&& m.head_dim == spec_head_dim(md, ss)
    &&& m.rope_base == rope
    &&& m.use_rope == match meta_b(md, arch, ".use_rope"@) {
        Some(b) => b,
        None => rope is Some || arch != "mmn"@,
    }
    &&& m.use_learned_pos_embed == (dim2(shape_of(ss, "pos_embed"@), 0) is Some)
    &&& m.max_seq_len == dim2(shape_of(ss, "pos_embed"@), 0)
    &&& m.seed == meta_u(md, arch, ".seed"@)
    &&& m.n_loops == meta_u(md, arch, ".n_loops"@)
    &&& m.tie_embeddings == (meta_b(md, arch, ".tie_embeddings"@) == Some(true))
    &&& (match m.norm { Some(s) => meta_s(md, arch, ".norm"@) == Some(s@), None => meta_s(md, arch, ".norm"@) is None })
    &&& (match m.ffn_kind {
        Some(s) => meta_s(md, arch, ".ffn_kind"@) == Some(s@),
        None => meta_s(md, arch, ".ffn_kind"@) is None,
    })
    &&& m.loop_embed == (meta_b(md, arch, ".loop_embed"@) == Some(true))
    &&& m.final_norm == (meta_b(md, arch, ".final_norm"@) == Some(true) || shape_of(ss, "final_norm.gamma"@) is Some)
    &&& m.lora_rank == match meta_u(md, arch, ".lora_rank"@) {
        Some(r) => if r > 0 { Some(r) } else { None },
        None => None,
    }
    &&& m.vision == match meta_b(md, arch, ".vision"@) {
        Some(b) => b,
        None => shape_of(ss, "vision_patch_proj"@) is Some,
    }
}

/// The views of named shapes.
pub open spec fn shapes_view(ss: Seq<(String, Vec<usize>)>) -> Seq<(Seq<char>, Seq<usize>)> {
    Seq::new(ss.len(), |i: int| (ss[i].0@, ss[i].1@))
}


/// The key `{arch}{suffix}`.
fn arch_key(arch: &str, suffix: &str) -> (k: String)
    ensures
        k@ == arch@ + suffix@,
{
    let mut k = String::from_str(arch);
    k.append(suffix);
    k
}

/// The non-negative integer stored under `{arch}{suffix}`.
fn get_u(md: &Vec<(String, GgufValue)>, arch: &str, suffix: &str) -> (r: Option<u64>)
    ensures
        r == meta_u(crate::gguf::meta_view(md@), arch@, suffix@),
{
    let k = arch_key(arch, suffix);
    match crate::gguf::metadata_get(md, k.as_str()) {
        Some(v) => v.as_u64(),
        None => None,
    }
}

/// The flag stored under `{arch}{suffix}`.
fn get_b(md: &Vec<(String, GgufValue)>, arch: &str, suffix: &str) -> (r: Option<bool>)
    ensures
        r == meta_b(crate::gguf::meta_view(md@), arch@, suffix@),
{
    let k = arch_key(arch, suffix);
    match crate::gguf::metadata_get(md, k.as_str()) {
        Some(v) => v.as_bool(),
        None => None,
    }
}

/// The text stored under `{arch}{suffix}`.
fn get_s(md: &Vec<(String, GgufValue)>, arch: &str, suffix: &str) -> (r: Option<String>)
    ensures
        match r {
            Some(s) => meta_s(crate::gguf::meta_view(md@), arch@, suffix@) == Some(s@),
            None => meta_s(crate::gguf::meta_view(md@), arch@, suffix@) is None,
        },
{
    let k = arch_key(arch, suffix);
    match crate::gguf::metadata_get(md, k.as_str()) {
        Some(v) => match v.as_str() {
            Some(t) => Some(String::from_str(t)),
            None => None,
        },
        None => None,
    }
}

/// The RoPE base a metadata value gives.
fn rope_value(v: &GgufValue) -> (r: Option<RopeBase>)
    ensures
        r == rope_of(v@),
{
    match v {
        GgufValue::F32(b) => Some(RopeBase::F32(*b)),
        GgufValue::F64(b) => Some(RopeBase::F64(*b)),
        _ => match v.as_u64() {
            Some(x) => Some(RopeBase::Int(x)),
            None => None,
        },
    }
}

/// The shape of the first tensor named `name`.
fn find_shape<'a>(ss: &'a Vec<(String, Vec<usize>)>, name: &str) -> (r: Option<&'a Vec<usize>>)
    ensures
        match r {
            Some(v) => shape_of(shapes_view(ss@), name@) == Some(v@),
            None => shape_of(shapes_view(ss@), name@) is None,
        },
{
    let ghost sv = shapes_view(ss@);
    let mut i: usize = 0;
    proof {
        assert(sv.skip(0) =~= sv);
    }
    while i < ss.len()
        invariant
            sv == shapes_view(ss@),
            i <= ss@.len(),
            shape_of(sv, name@) == shape_of(sv.skip(i as int), name@),
        decreases ss@.len() - i,
    {
        proof {
            assert(sv.skip(i as int)[0] == sv[i as int]);
            assert(sv.skip(i as int).drop_first() =~= sv.skip(i + 1));
        }
        if str_equals(ss[i].0.as_str(), name) {
            return Some(&ss[i].1);
        }
        i = i + 1;
    }
    None
}

/// Dimension `j` of a two-dimensional shape.
fn dim2_of(s: Option<&Vec<usize>>, j: usize) -> (r: Option<u64>)
    requires
        j < 2,
    ensures
        r == dim2(
            match s {
                Some(v) => Some(v@),
                None => None,
            },
            j as int,
        ),
{
    match s {
        Some(v) => if v.len() == 2 { Some(v[j] as u64) } else { None },
        None => None,
    }
}

proof fn lemma_first_dot(cs: Seq<char>, j: int)
    requires
        0 <= j <= cs.len(),
        forall|k: int| 0 <= k < j ==> cs[k] != '.',
        j == cs.len() || cs[j] == '.',
    ensures
        first_dot(cs) == j,
    decreases j,
{
    if j > 0 {
        lemma_first_dot(cs.drop_first(), j - 1);
    }
}

/// The block index of a `blocks.{i}...` tensor name.
fn block_index_of(name: &str) -> (r: Option<usize>)
    ensures
        match block_index(name@) {
            Some(v) => r == Some(v as usize),
            None => r is None,
        },
{
    let cs = chars_of(name);
    let n = cs.len();
    proof {
        reveal_strlit("blocks.");
    }
    if n < 7 {
        return None;
    }
    let mut k: usize = 0;
    while k < 7
        invariant
            n == cs@.len(),
            n >= 7,
            k <= 7,
            cs@ == name@,
            "blocks."@.len() == 7,
            forall|t: int| 0 <= t < k ==> cs@[t] == "blocks."@[t],
        decreases 7 - k,
    {
        if cs[k] != "blocks.".get_char(k) {
            proof {
                assert(cs@.take(7)[k as int] != "blocks."@[k as int]);
                assert(name@.take(7) != "blocks."@);
            }
            return None;
        }
        k = k + 1;
    }
    proof {
        assert(cs@.take(7) =~= "blocks."@);
    }
    let ghost rest = cs@.skip(7);
    let mut j: usize = 7;
    while j < n && cs[j] != '.'
        invariant
            n == cs@.len(),
            7 <= j <= n,
            rest == cs@.skip(7),
            forall|t: int| 7 <= t < j ==> cs@[t] != '.',
        decreases n - j,
    {
        j = j + 1;
    }
    proof {
        lemma_first_dot(rest, j - 7);
        assert(rest.take(first_dot(rest)) =~= cs@.subrange(7, j as int));
    }
    parse_usize_at(&cs, 7, j)
}

/// Translate GGUF `{arch}.*` metadata, together with the names and shapes
/// of the file's tensors after renaming, into MMN checkpoint metadata.
pub fn gguf_meta_to_mmn(file: &crate::gguf::GgufFile, shapes: &Vec<(String, Vec<usize>)>) -> (m: MmnMeta)
    requires
        forall|k: int|
            0 <= k < shapes@.len() ==> block_index(#[trigger] shapes@[k].0@) != Some(usize::MAX as nat),
    ensures
        spec_mmn_meta(crate::gguf::meta_view(file.metadata@), shapes_view(shapes@), m),
{
    let md = &file.metadata;
    let ghost mv = crate::gguf::meta_view(md@);
    let ghost sv = shapes_view(shapes@);
    let arch: String = match crate::gguf::metadata_get(md, "general.architecture") {
        Some(v) => match v.as_str() {
            Some(s) => String::from_str(s),
            None => String::from_str("llama"),
        },
        None => String::from_str("llama"),
    };
    assert(arch@ == arch_of(mv));
    let a = arch.as_str();
    let embed = find_shape(shapes, "embed");
    let vocab_size = dim2_of(embed, 0);
    let d_model = match get_u(md, a, ".embedding_length") {
        Some(d) => Some(d),
        None => dim2_of(embed, 1),
    };
    let n_layer: u64 = match get_u(md, a, ".block_count") {
        Some(n) => n,
        None => {
            let mut best: u64 = 0;
            let mut i: usize = 0;
            proof {
                assert(sv.take(0) =~= Seq::<(Seq<char>, Seq<usize>)>::empty());
            }
            while i < shapes.len()
                invariant
                    sv == shapes_view(shapes@),
                    i <= shapes@.len(),
                    best as int == blocks_count(sv.take(i as int)),
                    forall|k: int|
                        0 <= k < shapes@.len() ==> block_index(#[trigger] shapes@[k].0@) != Some(
                            usize::MAX as nat,
                        ),
                decreases shapes@.len() - i,
            {
                proof {
                    assert(sv.take(i + 1).drop_last() =~= sv.take(i as int));
                    assert(sv.take(i + 1).last() == sv[i as int]);
                }
                match block_index_of(shapes[i].0.as_str()) {
                    Some(b) => {
                        let c = b as u64 + 1;
                        if c > best {
                            best = c;
                        }
                    },
                    None => {},
                }
                i = i + 1;
            }
            proof {
                assert(sv.take(i as int) =~= sv);
            }
            best
        },
    };
    let ffn_dim = get_u(md, a, ".feed_forward_length");
    let n_heads = get_u(md, a, ".attention.head_count");
    let n_kv = get_u(md, a, ".attention.head_count_kv");
    let head_dim: Option<u64> = match get_u(md, a, ".attention.key_length") {
        Some(k) => Some(k),
        None => match get_u(md, a, ".attention.value_length") {
            Some(v) => Some(v),
            None => match (n_heads, find_shape(shapes, "blocks.0.attn.q")) {
                (Some(nh64), Some(q)) => {
                    let nh = nh64 as usize;
                    if q.len() == 2 && nh > 0 && q[0] % nh == 0 {
                        let inferred = q[0] / nh;
                        let dm: usize = match d_model {
                            Some(d) => d as usize,
                            None => q[1],
                        };
                        if inferred != dm / nh {
                            Some(inferred as u64)
                        } else {
                            None
                        }
                    } else {
                        None
                    }
                },
                _ => None,
            },
        },
    };
    let rk = arch_key(a, ".rope.freq_base");
    let rope_base = match crate::gguf::metadata_get(md, rk.as_str()) {
        Some(v) => rope_value(v),
        None => None,
    };
    let use_rope = match get_b(md, a, ".use_rope") {
        Some(b) => b,
        None => rope_base.is_some() || !str_equals(a, "mmn"),
    };
    let pos = find_shape(shapes, "pos_embed");
    let max_seq_len = dim2_of(pos, 0);
    let final_norm = get_b(md, a, ".final_norm") == Some(true) || find_shape(shapes, "final_norm.gamma").is_some();
    let lora_rank = match get_u(md, a, ".lora_rank") {
        Some(r) => if r > 0 { Some(r) } else { None },
        None => None,
    };
    let vision = match get_b(md, a, ".vision") {
        Some(b) => b,
        None => find_shape(shapes, "vision_patch_proj").is_some(),
    };
    MmnMeta {
        vocab_size,
        d_model,
        n_layer,
        ffn_dim,
        num_attention_heads: n_heads,
        num_key_value_heads: n_kv,
        head_dim,
        use_rope,
        rope_base,
        use_learned_pos_embed: max_seq_len.is_some(),
        max_seq_len,
        seed: get_u(md, a, ".seed"),
        n_loops: get_u(md, a, ".n_loops"),
        tie_embeddings: get_b(md, a, ".tie_embeddings") == Some(true),
        norm: get_s(md, a, ".norm"),
        ffn_kind: get_s(md, a, ".ffn_kind"),
        loop_embed: get_b(md, a, ".loop_embed") == Some(true),
        final_norm,
        lora_rank,
        vision,
    }
}

} // verus!
