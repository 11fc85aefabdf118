//! The GGUF tensor-name maps undo each other on per-block keys.

use vstd::prelude::*;
use vstd::string::*;
use crate::gguf_chatbot::{
    first_dot_from, fixed_gguf_to_mmn, fixed_mmn_to_gguf, gguf_suffix_to_mmn, mmn_suffix_to_gguf, spec_gguf_name_to_mmn,
    spec_mmn_name_to_gguf,
};
use crate::text::{decimal, digit_char, digits_value, is_digit, parse_usize};

verus! {

/// Decimal numerals are made of digits, and read back as their number.
pub proof fn lemma_decimal_digits(n: nat)
    ensures
        decimal(n).len() >= 1,
        forall|j: int| 0 <= j < decimal(n).len() ==> is_digit(#[trigger] decimal(n)[j]),
        digits_value(decimal(n)) == Some(n),
    decreases n,
{
    if n >= 10 {
        lemma_decimal_digits(n / 10);
        let d = decimal(n);
        assert(d.drop_last() =~= decimal(n / 10));
        assert(is_digit(digit_char((n % 10) as int)));
    } else {
        assert(decimal(n) == seq![digit_char(n as int)]);
    }
}

/// A decimal index reads back through `usize::from_str`.
pub proof fn lemma_parse_decimal(i: usize)
    ensures
        parse_usize(decimal(i as nat)) == Some(i as nat),
        forall|j: int| 0 <= j < decimal(i as nat).len() ==> #[trigger] decimal(i as nat)[j] != '.',
        decimal(i as nat).len() >= 1,
{
    lemma_decimal_digits(i as nat);
    let d = decimal(i as nat);
    assert(is_digit(d[0]));
    assert forall|j: int| 0 <= j < d.len() implies #[trigger] d[j] != '.' by {
        assert(is_digit(d[j]));
    }
}

/// The first `.` at or after `from` in `p + d + "." + s`, where `d` has
/// none, is the one after `d`.
proof fn lemma_dot_after(n: Seq<char>, from: int, end: int)
    requires
        0 <= from <= end < n.len(),
        n[end] == '.',
        forall|j: int| from <= j < end ==> n[j] != '.',
    ensures
        first_dot_from(n, from) == Some(end),
    decreases end - from,
{
    if from < end {
        lemma_dot_after(n, from + 1, end);
    }
}

/// The per-block suffixes that come back unchanged through both maps.
pub open spec fn round_trip_suffix(s: Seq<char>) -> bool {
    mmn_suffix_to_gguf(s) is Some && s != "ffn"@
}

proof fn lemma_suffix_round_trip(s: Seq<char>)
    requires
        round_trip_suffix(s),
    ensures
        gguf_suffix_to_mmn(mmn_suffix_to_gguf(s)->Some_0) == Some(s),
{
    reveal_strlit("ffn2");
    reveal_strlit("ln1.gamma");
    reveal_strlit("ln2.gamma");
    reveal_strlit("ln1.beta");
    reveal_strlit("ln2.beta");
    reveal_strlit("ffn_gate");
    reveal_strlit("attn.k");
    reveal_strlit("ffn");
    reveal_strlit("attn.q");
    reveal_strlit("ffn_norm.bias");
    reveal_strlit("attn_norm.bias");
    reveal_strlit("ffn_gate.weight");
    reveal_strlit("attn_k.weight");
    reveal_strlit("ffn_norm.weight");
    reveal_strlit("attn_norm.weight");
    reveal_strlit("ffn_down.weight");
    reveal_strlit("ffn_up.weight");
    reveal_strlit("attn_q.weight");
    reveal_strlit("attn_output.weight");
    reveal_strlit("attn_v.weight");
    reveal_strlit("attn_qkv.weight");
    reveal_strlit("attn.out");
    reveal_strlit("attn.v");
    if s == "ffn2"@ {
        assert("ffn2"@.len() != "ffn_gate"@.len());
        assert("ffn2"@.len() != "attn.k"@.len());
        assert("ffn2"@.len() != "ffn"@.len());
        assert("ffn2"@.len() != "attn.q"@.len());
        assert("ffn2"@.len() != "attn.out"@.len());
        assert("ffn2"@.len() != "attn.v"@.len());
        assert(mmn_suffix_to_gguf(s) == Some("ffn_down.weight"@));
        assert("ffn_down.weight"@[4] != "ffn_gate.weight"@[4]);
        assert("ffn_down.weight"@.len() != "attn_k.weight"@.len());
        assert("ffn_down.weight"@.len() != "ffn_up.weight"@.len());
        assert("ffn_down.weight"@.len() != "attn_q.weight"@.len());
        assert("ffn_down.weight"@.len() != "attn_output.weight"@.len());
        assert("ffn_down.weight"@.len() != "attn_v.weight"@.len());
        assert("ffn_down.weight"@[0] != "attn_qkv.weight"@[0]);
        assert(gguf_suffix_to_mmn("ffn_down.weight"@) == Some("ffn2"@));
    } else if s == "ln1.gamma"@ {
        assert("ln1.gamma"@.len() != "ffn2"@.len());
        assert("ln1.gamma"@.len() != "ffn_gate"@.len());
        assert("ln1.gamma"@.len() != "attn.k"@.len());
        assert("ln1.gamma"@.len() != "ffn"@.len());
        assert("ln1.gamma"@.len() != "attn.q"@.len());
        assert("ln1.gamma"@.len() != "attn.out"@.len());
        assert("ln1.gamma"@.len() != "attn.v"@.len());
        assert(mmn_suffix_to_gguf(s) == Some("attn_norm.weight"@));
        assert("attn_norm.weight"@.len() != "ffn_gate.weight"@.len());
        assert("attn_norm.weight"@.len() != "attn_k.weight"@.len());
        assert("attn_norm.weight"@.len() != "ffn_down.weight"@.len());
        assert("attn_norm.weight"@.len() != "ffn_up.weight"@.len());
        assert("attn_norm.weight"@.len() != "attn_q.weight"@.len());
        assert("attn_norm.weight"@.len() != "attn_output.weight"@.len());
        assert("attn_norm.weight"@.len() != "attn_v.weight"@.len());
        assert("attn_norm.weight"@.len() != "attn_qkv.weight"@.len());
        assert(gguf_suffix_to_mmn("attn_norm.weight"@) == Some("ln1.gamma"@));
    } else if s == "ln2.gamma"@ {
        assert("ln2.gamma"@.len() != "ffn2"@.len());
        assert("ln2.gamma"@[2] != "ln1.gamma"@[2]);
        assert("ln2.gamma"@.len() != "ln1.beta"@.len());
        assert("ln2.gamma"@.len() != "ffn_gate"@.len());
        assert("ln2.gamma"@.len() != "attn.k"@.len());
        assert("ln2.gamma"@.len() != "ffn"@.len());
        assert("ln2.gamma"@.len() != "attn.q"@.len());
        assert("ln2.gamma"@.len() != "attn.out"@.len());
        assert("ln2.gamma"@.len() != "attn.v"@.len());
        assert(mmn_suffix_to_gguf(s) == Some("ffn_norm.weight"@));
        assert("ffn_norm.weight"@.len() != "attn_norm.bias"@.len());
        assert("ffn_norm.weight"@[4] != "ffn_gate.weight"@[4]);
        assert("ffn_norm.weight"@.len() != "attn_k.weight"@.len());
        assert("ffn_norm.weight"@.len() != "attn_norm.weight"@.len());
        assert("ffn_norm.weight"@[4] != "ffn_down.weight"@[4]);
        assert("ffn_norm.weight"@.len() != "ffn_up.weight"@.len());
        assert("ffn_norm.weight"@.len() != "attn_q.weight"@.len());
        assert("ffn_norm.weight"@.len() != "attn_output.weight"@.len());
        assert("ffn_norm.weight"@.len() != "attn_v.weight"@.len());
        assert("ffn_norm.weight"@[0] != "attn_qkv.weight"@[0]);
        assert(gguf_suffix_to_mmn("ffn_norm.weight"@) == Some("ln2.gamma"@));
    } else if s == "ln1.beta"@ {
        assert("ln1.beta"@.len() != "ffn2"@.len());
        assert("ln1.beta"@.len() != "ln1.gamma"@.len());
        assert("ln1.beta"@[0] != "ffn_gate"@[0]);
        assert("ln1.beta"@.len() != "attn.k"@.len());
        assert("ln1.beta"@.len() != "ffn"@.len());
        assert("ln1.beta"@.len() != "attn.q"@.len());
        assert("ln1.beta"@[0] != "attn.out"@[0]);
        assert("ln1.beta"@.len() != "attn.v"@.len());
        assert(mmn_suffix_to_gguf(s) == Some("attn_norm.bias"@));
        assert("attn_norm.bias"@.len() != "ffn_gate.weight"@.len());
        assert("attn_norm.bias"@.len() != "attn_k.weight"@.len());
        assert("attn_norm.bias"@.len() != "attn_norm.weight"@.len());
        assert("attn_norm.bias"@.len() != "ffn_down.weight"@.len());
        assert("attn_norm.bias"@.len() != "ffn_up.weight"@.len());
        assert("attn_norm.bias"@.len() != "attn_q.weight"@.len());
        assert("attn_norm.bias"@.len() != "attn_output.weight"@.len());
        assert("attn_norm.bias"@.len() != "attn_v.weight"@.len());
        assert("attn_norm.bias"@.len() != "attn_qkv.weight"@.len());
        assert(gguf_suffix_to_mmn("attn_norm.bias"@) == Some("ln1.beta"@));
    } else if s == "ln2.beta"@ {
        assert("ln2.beta"@.len() != "ffn2"@.len());
        assert("ln2.beta"@.len() != "ln1.gamma"@.len());
        assert("ln2.beta"@.len() != "ln2.gamma"@.len());
        assert("ln2.beta"@[2] != "ln1.beta"@[2]);
        assert("ln2.beta"@[0] != "ffn_gate"@[0]);
        assert("ln2.beta"@.len() != "attn.k"@.len());
        assert("ln2.beta"@.len() != "ffn"@.len());
        assert("ln2.beta"@.len() != "attn.q"@.len());
        assert("ln2.beta"@[0] != "attn.out"@[0]);
        assert("ln2.beta"@.len() != "attn.v"@.len());
        assert(mmn_suffix_to_gguf(s) == Some("ffn_norm.bias"@));
        assert("ffn_norm.bias"@.len() != "attn_norm.bias"@.len());
        assert("ffn_norm.bias"@.len() != "ffn_gate.weight"@.len());
        assert("ffn_norm.bias"@[0] != "attn_k.weight"@[0]);
        assert("ffn_norm.bias"@.len() != "ffn_norm.weight"@.len());
        assert("ffn_norm.bias"@.len() != "attn_norm.weight"@.len());
        assert("ffn_norm.bias"@.len() != "ffn_down.weight"@.len());
        assert("ffn_norm.bias"@[4] != "ffn_up.weight"@[4]);
        assert("ffn_norm.bias"@[0] != "attn_q.weight"@[0]);
        assert("ffn_norm.bias"@.len() != "attn_output.weight"@.len());
        assert("ffn_norm.bias"@[0] != "attn_v.weight"@[0]);
        assert("ffn_norm.bias"@.len() != "attn_qkv.weight"@.len());
        assert(gguf_suffix_to_mmn("ffn_norm.bias"@) == Some("ln2.beta"@));
    } else if s == "ffn_gate"@ {
        assert("ffn_gate"@.len() != "attn.k"@.len());
        assert("ffn_gate"@.len() != "ffn"@.len());
        assert("ffn_gate"@.len() != "attn.q"@.len());
        assert("ffn_gate"@[0] != "attn.out"@[0]);
        assert("ffn_gate"@.len() != "attn.v"@.len());
        assert(mmn_suffix_to_gguf(s) == Some("ffn_gate.weight"@));
        assert("ffn_gate.weight"@.len() != "attn_k.weight"@.len());
        assert("ffn_gate.weight"@.len() != "attn_q.weight"@.len());
        assert("ffn_gate.weight"@.len() != "attn_output.weight"@.len());
        assert("ffn_gate.weight"@.len() != "attn_v.weight"@.len());
        assert("ffn_gate.weight"@[0] != "attn_qkv.weight"@[0]);
        assert(gguf_suffix_to_mmn("ffn_gate.weight"@) == Some("ffn_gate"@));
    } else if s == "attn.k"@ {
        assert("attn.k"@[5] != "attn.q"@[5]);
        assert(mmn_suffix_to_gguf(s) == Some("attn_k.weight"@));
        assert("attn_k.weight"@[5] != "attn_q.weight"@[5]);
        assert(gguf_suffix_to_mmn("attn_k.weight"@) == Some("attn.k"@));
    } else if s == "attn.q"@ {
        assert(mmn_suffix_to_gguf(s) == Some("attn_q.weight"@));
        assert(gguf_suffix_to_mmn("attn_q.weight"@) == Some("attn.q"@));
    } else if s == "attn.out"@ {
        assert("attn.out"@.len() != "attn.k"@.len());
        assert("attn.out"@.len() != "attn.q"@.len());
        assert("attn.out"@.len() != "attn.v"@.len());
        assert(mmn_suffix_to_gguf(s) == Some("attn_output.weight"@));
        assert("attn_output.weight"@.len() != "attn_k.weight"@.len());
        assert("attn_output.weight"@.len() != "attn_q.weight"@.len());
        assert("attn_output.weight"@.len() != "attn_v.weight"@.len());
        assert(gguf_suffix_to_mmn("attn_output.weight"@) == Some("attn.out"@));
    } else if s == "attn.v"@ {
        assert("attn.v"@[5] != "attn.k"@[5]);
        assert("attn.v"@[5] != "attn.q"@[5]);
        assert(mmn_suffix_to_gguf(s) == Some("attn_v.weight"@));
        assert("attn_v.weight"@[5] != "attn_k.weight"@[5]);
        assert("attn_v.weight"@[5] != "attn_q.weight"@[5]);
        assert(gguf_suffix_to_mmn("attn_v.weight"@) == Some("attn.v"@));
    }
}

/// No fixed MMN key or fixed GGUF name starts with `b`.
proof fn lemma_fixed_not_b(n: Seq<char>)
    requires
        n.len() >= 1,
        n[0] == 'b',
    ensures
        fixed_mmn_to_gguf(n) is None,
        fixed_gguf_to_mmn(n) is None,
{
    reveal_strlit("final_norm.gamma");
    reveal_strlit("final_norm.beta");
    reveal_strlit("lm_head");
    reveal_strlit("embed");
    reveal_strlit("pos_embed");
    reveal_strlit("vision_patch_proj");
    reveal_strlit("vision_cross_attn.k");
    reveal_strlit("vision_cross_attn.q");
    reveal_strlit("output_norm.bias");
    reveal_strlit("token_embd.weight");
    reveal_strlit("position_embd.weight");
    reveal_strlit("loop_embd.weight");
    reveal_strlit("loop_embed.weight");
    reveal_strlit("v.patch_proj.weight");
    reveal_strlit("v.cross_attn_k.weight");
    reveal_strlit("norm.weight");
    reveal_strlit("output_norm.weight");
    reveal_strlit("v.cross_attn_q.weight");
    reveal_strlit("v.cross_attn_out.weight");
    reveal_strlit("output.weight");
    reveal_strlit("v.cross_attn_v.weight");
    reveal_strlit("v.patch_conv.weight");
    reveal_strlit("vision_cross_attn.out");
    reveal_strlit("vision_cross_attn.v");
    reveal_strlit("vision_patch_conv");
}

/// `prefix + decimal(i) + "." + s` maps through a block-name rule as
/// `parse` and `first_dot_from` see it.
proof fn lemma_block_shape(prefix: Seq<char>, i: usize, s: Seq<char>)
    ensures
        ({
            let n = prefix + decimal(i as nat) + seq!['.'] + s;
            let e = (prefix.len() + decimal(i as nat).len()) as int;
            &&& n.subrange(0, prefix.len() as int) == prefix
            &&& (forall|j: int| 0 <= j < prefix.len() ==> n[j] == prefix[j])
            &&& n.subrange(prefix.len() as int, e) == decimal(i as nat)
            &&& n[e] == '.'
            &&& n.subrange(e + 1, n.len() as int) == s
            &&& (forall|j: int| prefix.len() <= j < e ==> n[j] != '.')
        }),
{
    lemma_parse_decimal(i);
    let d = decimal(i as nat);
    let n = prefix + d + seq!['.'] + s;
    let e = (prefix.len() + d.len()) as int;
    assert(n.subrange(0, prefix.len() as int) =~= prefix);
    assert(n.subrange(prefix.len() as int, e) =~= d);
    assert(n.subrange(e + 1, n.len() as int) =~= s);
    assert forall|j: int| prefix.len() <= j < e implies n[j] != '.' by {
        assert(n[j] == d[j - prefix.len()]);
    }
}

/// Every per-block MMN key whose suffix the GGUF names keep apart comes
/// back unchanged from its GGUF name: `blocks.{i}.{s}` goes to
/// `blk.{i}.{t}` and back. (`blocks.{i}.ffn` comes back as
/// `blocks.{i}.ffn.up`, the name its GGUF tensor is read under.)
pub proof fn lemma_block_name_round_trip(i: usize, s: Seq<char>)
    requires
        round_trip_suffix(s),
    ensures
        spec_mmn_name_to_gguf("blocks."@ + decimal(i as nat) + seq!['.'] + s) matches Some(g)
            && spec_gguf_name_to_mmn(g) == Some("blocks."@ + decimal(i as nat) + seq!['.'] + s),
{
    reveal_strlit("blk.");
    reveal_strlit("blocks.");
    let d = decimal(i as nat);
    let k = "blocks."@ + d + seq!['.'] + s;
    lemma_parse_decimal(i);
    lemma_block_shape("blocks."@, i, s);
    assert(k[0] == 'b');
    lemma_fixed_not_b(k);
    assert("blocks."@ =~= seq!['b', 'l', 'o', 'c', 'k', 's', '.']);
    lemma_dot_after(k, 7, (7 + d.len()) as int);
    let t = mmn_suffix_to_gguf(s)->Some_0;
    let g = "blk."@ + d + seq!['.'] + t;
    assert(spec_mmn_name_to_gguf(k) == Some(g));
    lemma_block_shape("blk."@, i, t);
    assert(g[0] == 'b');
    lemma_fixed_not_b(g);
    assert("blk."@ =~= seq!['b', 'l', 'k', '.']);
    lemma_dot_after(g, 4, (4 + d.len()) as int);
    lemma_suffix_round_trip(s);
    assert(spec_gguf_name_to_mmn(g) == Some(k));
}


/// Every fixed MMN key comes back unchanged from its GGUF name.
pub proof fn lemma_fixed_name_round_trip(k: Seq<char>)
    requires
        fixed_mmn_to_gguf(k) is Some,
    ensures
        spec_mmn_name_to_gguf(k) matches Some(g) && spec_gguf_name_to_mmn(g) == Some(k),
{
    reveal_strlit("final_norm.gamma");
    reveal_strlit("final_norm.beta");
    reveal_strlit("lm_head");
    reveal_strlit("embed");
    reveal_strlit("pos_embed");
    reveal_strlit("vision_patch_proj");
    reveal_strlit("vision_cross_attn.k");
    reveal_strlit("vision_cross_attn.q");
    reveal_strlit("output_norm.bias");
    reveal_strlit("token_embd.weight");
    reveal_strlit("position_embd.weight");
    reveal_strlit("loop_embd.weight");
    reveal_strlit("loop_embed.weight");
    reveal_strlit("v.patch_proj.weight");
    reveal_strlit("v.cross_attn_k.weight");
    reveal_strlit("norm.weight");
    reveal_strlit("output_norm.weight");
    reveal_strlit("v.cross_attn_q.weight");
    reveal_strlit("v.cross_attn_out.weight");
    reveal_strlit("output.weight");
    reveal_strlit("v.cross_attn_v.weight");
    reveal_strlit("v.patch_conv.weight");
    reveal_strlit("vision_cross_attn.out");
    reveal_strlit("vision_cross_attn.v");
    reveal_strlit("vision_patch_conv");
    assert("vision_patch_conv"@[13] != "vision_patch_proj"@[13]);
    assert("v.patch_conv.weight"@[8] != "v.patch_proj.weight"@[8]);
    assert("vision_cross_attn.k"@[18] != "vision_cross_attn.q"@[18]);
    assert("vision_cross_attn.v"@[18] != "vision_cross_attn.q"@[18]);
    assert("vision_cross_attn.v"@[18] != "vision_cross_attn.k"@[18]);
    assert("v.cross_attn_k.weight"@[13] != "v.cross_attn_q.weight"@[13]);
    assert("v.cross_attn_v.weight"@[13] != "v.cross_attn_q.weight"@[13]);
    assert("v.cross_attn_v.weight"@[13] != "v.cross_attn_k.weight"@[13]);
}

} // verus!

