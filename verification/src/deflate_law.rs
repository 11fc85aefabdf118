//! Decoding what [`crate::deflate`] writes: the fixed-Huffman block it emits
//! inflates back to the input.

use vstd::prelude::*;
use vstd::arithmetic::div_mod::*;
use crate::deflate::{
    apply_token, bit_of, byte_bits, dist_index, dist_index_from, expand, fixed_block_bits,
    fixed_code, length_index, length_index_from, lsb_bits, msb_bits, packs, sym_bits, token_bits,
    token_ok, tokens_bits, tokens_ok, Token, lemma_bits_concat, lemma_dist_gap, lemma_length_gap,
    lemma_two_pow_add, lemma_two_pow_pos,
};
use crate::inflate::{
    bits_lsb, bits_msb, count_len, dist_base, dist_extra, first_code, fixed_dist_lengths,
    fixed_lit_lengths, huff_decode, huff_decode_from, inflate_from, inflate_symbols, length_base,
    length_extra, nbits, rank_of, spec_bit, spec_inflate, two_pow, lemma_bit_is_bit,
    lemma_count_take_step, lemma_symbol_of_rank, lemma_take_full,
};

verus! {


/// The stream bits from `p` on spell `bits`.
pub open spec fn stream_has(data: Seq<u8>, p: int, bits: Seq<bool>) -> bool {
    &&& 0 <= p
    &&& p + bits.len() <= nbits(data)
    &&& forall|j: int| 0 <= j < bits.len() ==> (spec_bit(data, p + j) == 1) == #[trigger] bits[j]
}

proof fn lemma_stream_split(data: Seq<u8>, p: int, a: Seq<bool>, b: Seq<bool>)
    requires
        stream_has(data, p, a + b),
    ensures
        stream_has(data, p, a),
        stream_has(data, p + a.len(), b),
{
    assert forall|j: int| 0 <= j < a.len() implies (spec_bit(data, p + j) == 1) == #[trigger] a[j] by {
        assert((a + b)[j] == a[j]);
    }
    assert forall|j: int| 0 <= j < b.len() implies (spec_bit(data, p + a.len() + j) == 1) == #[trigger] b[j] by {
        assert((a + b)[a.len() + j] == b[j]);
        assert(p + (a.len() + j) == p + a.len() + j);
    }
}

proof fn lemma_bit_shift(v: int, a: nat, b: nat)
    requires
        0 <= v,
    ensures
        bit_of(v / (two_pow(a) as int), b) == bit_of(v, a + b),
{
    lemma_two_pow_pos(a);
    lemma_two_pow_pos(b);
    lemma_two_pow_add(a, b);
    lemma_div_denominator(v, two_pow(a) as int, two_pow(b) as int);
}

/// Bits stored most significant first read back as their number.
proof fn lemma_msb_read(data: Seq<u8>, p: int, v: int, n: nat)
    requires
        0 <= v < two_pow(n),
        stream_has(data, p, msb_bits(v, n)),
    ensures
        bits_msb(data, p, n) == v,
    decreases n,
{
    if n == 0 {
        assert(two_pow(0) == 1);
    } else {
        let m = (n - 1) as nat;
        let h = v / 2;
        reveal_with_fuel(two_pow, 2);
        assert(two_pow(n) == 2 * two_pow(m));
        assert forall|j: int| 0 <= j < m implies (spec_bit(data, p + j) == 1) == #[trigger] msb_bits(h, m)[j] by {
            assert(msb_bits(v, n)[j] == bit_of(v, (n - 1 - j) as nat));
            lemma_bit_shift(v, 1, (m - 1 - j) as nat);
            assert((1 + (m - 1 - j)) as nat == (n - 1 - j) as nat);
        }
        lemma_msb_read(data, p, h, m);
        assert(msb_bits(v, n)[m as int] == bit_of(v, 0));
        assert(two_pow(0) == 1);
        assert(bit_of(v, 0) == (v % 2 == 1));
        assert((spec_bit(data, p + m) == 1) == msb_bits(v, n)[m as int]);
        lemma_bit_is_bit(data, p + m);
        assert(spec_bit(data, p + m) == v % 2);
        assert(bits_msb(data, p, n) == 2 * bits_msb(data, p, m) + spec_bit(data, p + m));
    }
}

/// Bits stored least significant first read back as their number.
proof fn lemma_lsb_read(data: Seq<u8>, p: int, v: int, n: nat)
    requires
        0 <= v < two_pow(n),
        stream_has(data, p, lsb_bits(v, n)),
    ensures
        bits_lsb(data, p, n) == v,
    decreases n,
{
    if n == 0 {
        assert(two_pow(0) == 1);
    } else {
        let m = (n - 1) as nat;
        let pm = two_pow(m) as int;
        lemma_two_pow_pos(m);
        let x = v % pm;
        let hi = v / pm;
        reveal_with_fuel(two_pow, 2);
        assert(two_pow(n) == 2 * two_pow(m));
        assert(v == x + hi * pm) by {
            lemma_fundamental_div_mod(v, pm);
            vstd::arithmetic::mul::lemma_mul_is_commutative(hi, pm);
        }
        assert(hi < 2) by {
            lemma_div_by_multiple_is_strongly_ordered(v, 2 * pm, 2, pm);
            lemma_div_by_multiple(2, pm);
        }
        lemma_bits_concat(x, hi, m, 1);
        assert((m + 1) as nat == n);
        assert forall|j: int| 0 <= j < m implies (spec_bit(data, p + j) == 1) == #[trigger] lsb_bits(x, m)[j] by {
            assert(lsb_bits(v, n)[j] == (lsb_bits(x, m) + lsb_bits(hi, 1))[j]);
        }
        lemma_lsb_read(data, p, x, m);
        assert(lsb_bits(v, n)[m as int] == (lsb_bits(x, m) + lsb_bits(hi, 1))[m as int]);
        assert(lsb_bits(hi, 1)[0] == bit_of(hi, 0));
        lemma_bit_is_bit(data, p + m);
        if hi == 1 {
            assert(spec_bit(data, p + m) == 1);
        } else {
            assert(spec_bit(data, p + m) == 0);
        }
    }
}

/// How many symbols of the fixed literal/length code, among the first `k`,
/// have each code length.
proof fn lemma_fixed_counts(k: int)
    requires
        0 <= k <= 288,
    ensures
        count_len(fixed_lit_lengths().take(k), 7) == (if k <= 256 { 0 } else if k <= 280 { k - 256 } else { 24 }),
        count_len(fixed_lit_lengths().take(k), 8) == (if k <= 144 { k } else if k <= 280 { 144 } else { 144 + k - 280 }),
        count_len(fixed_lit_lengths().take(k), 9) == (if k <= 144 { 0 } else if k <= 256 { k - 144 } else { 112 }),
        forall|l: int| 1 <= l <= 6 ==> #[trigger] count_len(fixed_lit_lengths().take(k), l) == 0,
    decreases k,
{
    let f = fixed_lit_lengths();
    if k == 0 {
        assert(f.take(0) =~= Seq::<u8>::empty());
    } else {
        lemma_fixed_counts(k - 1);
        lemma_count_take_step(f, k - 1, 7);
        lemma_count_take_step(f, k - 1, 8);
        lemma_count_take_step(f, k - 1, 9);
        assert forall|l: int| 1 <= l <= 6 implies #[trigger] count_len(f.take(k), l) == 0 by {
            lemma_count_take_step(f, k - 1, l);
        }
    }
}

/// How many distance symbols, among the first `k`, have each code length.
proof fn lemma_dist_counts(k: int)
    requires
        0 <= k <= 30,
    ensures
        count_len(fixed_dist_lengths().take(k), 5) == k,
        forall|l: int| 1 <= l <= 4 ==> #[trigger] count_len(fixed_dist_lengths().take(k), l) == 0,
    decreases k,
{
    let f = fixed_dist_lengths();
    if k == 0 {
        assert(f.take(0) =~= Seq::<u8>::empty());
    } else {
        lemma_dist_counts(k - 1);
        lemma_count_take_step(f, k - 1, 5);
        assert forall|l: int| 1 <= l <= 4 implies #[trigger] count_len(f.take(k), l) == 0 by {
            lemma_count_take_step(f, k - 1, l);
        }
    }
}

/// Small powers of two.
pub proof fn lemma_two_pow_small()
    ensures
        two_pow(0) == 1,
        two_pow(1) == 2,
        two_pow(2) == 4,
        two_pow(3) == 8,
        two_pow(4) == 16,
        two_pow(5) == 32,
        two_pow(6) == 64,
        two_pow(7) == 128,
        two_pow(8) == 256,
        two_pow(9) == 512,
        two_pow(10) == 1024,
        two_pow(11) == 2048,
        two_pow(12) == 4096,
        two_pow(13) == 8192,
{
    reveal_with_fuel(two_pow, 14);
}

/// The first `m` of the `L` most-significant-first bits of `c` read as
/// `c >> (L - m)`.
proof fn lemma_msb_prefix(data: Seq<u8>, p: int, c: int, l: nat, m: nat)
    requires
        0 <= c < two_pow(l),
        1 <= m <= l,
        stream_has(data, p, msb_bits(c, l)),
    ensures
        bits_msb(data, p, m) == c / (two_pow((l - m) as nat) as int),
        m == l ==> bits_msb(data, p, m) == c,
{
    let k = (l - m) as nat;
    let pk = two_pow(k) as int;
    lemma_two_pow_pos(k);
    lemma_two_pow_add(k, m);
    assert((k + m) as nat == l);
    let q = c / pk;
    assert(q < two_pow(m)) by {
        lemma_multiply_divide_lt(c, pk, two_pow(m) as int);
    }
    assert forall|j: int| 0 <= j < m implies (spec_bit(data, p + j) == 1) == #[trigger] msb_bits(q, m)[j] by {
        lemma_bit_shift(c, k, (m - 1 - j) as nat);
        assert((k + (m - 1 - j)) as nat == (l - 1 - j) as nat);
        assert(msb_bits(c, l)[j] == bit_of(c, (l - 1 - j) as nat));
    }
    lemma_msb_read(data, p, q, m);
    if m == l {
        assert(k == 0);
        assert(two_pow(0) == 1);
        assert(pk == 1);
        lemma_div_by_self(1);
        assert(c / 1 == c) by (nonlinear_arith);
    }
}

/// Counts and first codes of the two fixed codes.
proof fn lemma_fixed_tables()
    ensures
        count_len(fixed_lit_lengths(), 7) == 24,
        count_len(fixed_lit_lengths(), 8) == 152,
        count_len(fixed_lit_lengths(), 9) == 112,
        forall|l: int| 1 <= l <= 6 ==> #[trigger] count_len(fixed_lit_lengths(), l) == 0,
        forall|l: nat| 1 <= l <= 7 ==> #[trigger] first_code(fixed_lit_lengths(), l) == 0,
        first_code(fixed_lit_lengths(), 8) == 48,
        first_code(fixed_lit_lengths(), 9) == 400,
        count_len(fixed_dist_lengths(), 5) == 30,
        forall|l: int| 1 <= l <= 4 ==> #[trigger] count_len(fixed_dist_lengths(), l) == 0,
        forall|l: nat| 1 <= l <= 5 ==> #[trigger] first_code(fixed_dist_lengths(), l) == 0,
{
    let f = fixed_lit_lengths();
    let d = fixed_dist_lengths();
    lemma_fixed_counts(288);
    lemma_take_full(f);
    lemma_dist_counts(30);
    lemma_take_full(d);
    reveal_with_fuel(first_code, 10);
    assert(first_code(f, 2) == 0 && first_code(f, 3) == 0 && first_code(f, 4) == 0 && first_code(f, 5) == 0
        && first_code(f, 6) == 0 && first_code(f, 7) == 0);
    assert(first_code(d, 2) == 0 && first_code(d, 3) == 0 && first_code(d, 4) == 0 && first_code(d, 5) == 0);
}

proof fn lemma_decode_skip(lengths: Seq<u8>, data: Seq<u8>, p: int, m: nat)
    requires
        1 <= m <= 15,
        0 <= p,
        p + m <= nbits(data),
        !(first_code(lengths, m) <= bits_msb(data, p, m) < first_code(lengths, m) + count_len(lengths, m as int)),
    ensures
        huff_decode_from(lengths, data, p, m) == huff_decode_from(lengths, data, p, m + 1),
{
}

proof fn lemma_decode_hit(lengths: Seq<u8>, data: Seq<u8>, p: int, m: nat)
    requires
        1 <= m <= 15,
        0 <= p,
        p + m <= nbits(data),
        first_code(lengths, m) <= bits_msb(data, p, m) < first_code(lengths, m) + count_len(lengths, m as int),
    ensures
        huff_decode_from(lengths, data, p, m) == Some((
            symbol_of_rank_at(lengths, m, (bits_msb(data, p, m) - first_code(lengths, m)) as nat),
            p + m,
        )),
{
}

/// The symbol that `huff_decode_from` reports for code length `m` and rank `r`.
pub open spec fn symbol_of_rank_at(lengths: Seq<u8>, m: nat, r: nat) -> int {
    crate::inflate::symbol_of_rank(lengths, m as int, r)
}

/// A seven-bit fixed code (symbols 256 to 279) decodes to its symbol.
proof fn lemma_fixed_decode_7(data: Seq<u8>, p: int, sym: int)
    requires
        256 <= sym < 280,
        stream_has(data, p, sym_bits(sym)),
    ensures
        huff_decode(fixed_lit_lengths(), data, p) == Some((sym, p + 7)),
{
    let f = fixed_lit_lengths();
    let c = sym - 256;
    lemma_fixed_tables();
    lemma_fixed_counts(sym);
    lemma_symbol_of_rank(f, sym);
    lemma_two_pow_small();
    lemma_msb_prefix(data, p, c, 7, 7);
    assert(count_len(f, 1) == 0 && count_len(f, 2) == 0 && count_len(f, 3) == 0 && count_len(f, 4) == 0
        && count_len(f, 5) == 0 && count_len(f, 6) == 0);
    assert(first_code(f, 1) == 0 && first_code(f, 2) == 0 && first_code(f, 3) == 0 && first_code(f, 4) == 0
        && first_code(f, 5) == 0 && first_code(f, 6) == 0 && first_code(f, 7) == 0);
    lemma_decode_skip(f, data, p, 1);
    lemma_decode_skip(f, data, p, 2);
    lemma_decode_skip(f, data, p, 3);
    lemma_decode_skip(f, data, p, 4);
    lemma_decode_skip(f, data, p, 5);
    lemma_decode_skip(f, data, p, 6);
    assert(bits_msb(data, p, 7) == c);
    lemma_decode_hit(f, data, p, 7);
    assert(f[sym] == 7u8);
    assert(rank_of(f, sym) == sym - 256);
    assert(symbol_of_rank_at(f, 7, c as nat) == sym);
}

/// An eight-bit fixed code (symbols 0 to 143 and 280 to 287) decodes to its
/// symbol.
proof fn lemma_fixed_decode_8(data: Seq<u8>, p: int, sym: int)
    requires
        0 <= sym < 144 || 280 <= sym < 288,
        stream_has(data, p, sym_bits(sym)),
    ensures
        huff_decode(fixed_lit_lengths(), data, p) == Some((sym, p + 8)),
{
    let f = fixed_lit_lengths();
    let c = fixed_code(sym).0;
    lemma_fixed_tables();
    lemma_fixed_counts(sym);
    lemma_symbol_of_rank(f, sym);
    lemma_two_pow_small();
    lemma_msb_prefix(data, p, c, 8, 7);
    lemma_msb_prefix(data, p, c, 8, 8);
    assert(48 <= c < 200);
    assert(bits_msb(data, p, 7) == c / 2);
    assert(c / 2 >= 24);
    assert(bits_msb(data, p, 8) == c);
    assert(count_len(f, 1) == 0 && count_len(f, 2) == 0 && count_len(f, 3) == 0 && count_len(f, 4) == 0
        && count_len(f, 5) == 0 && count_len(f, 6) == 0);
    assert(first_code(f, 1) == 0 && first_code(f, 2) == 0 && first_code(f, 3) == 0 && first_code(f, 4) == 0
        && first_code(f, 5) == 0 && first_code(f, 6) == 0 && first_code(f, 7) == 0);
    lemma_decode_skip(f, data, p, 1);
    lemma_decode_skip(f, data, p, 2);
    lemma_decode_skip(f, data, p, 3);
    lemma_decode_skip(f, data, p, 4);
    lemma_decode_skip(f, data, p, 5);
    lemma_decode_skip(f, data, p, 6);
    lemma_decode_skip(f, data, p, 7);
    lemma_decode_hit(f, data, p, 8);
    assert(f[sym] == 8u8);
    assert(rank_of(f, sym) == c - 48);
    assert(symbol_of_rank_at(f, 8, (c - 48) as nat) == sym);
}

/// A nine-bit fixed code (symbols 144 to 255) decodes to its symbol.
proof fn lemma_fixed_decode_9(data: Seq<u8>, p: int, sym: int)
    requires
        144 <= sym < 256,
        stream_has(data, p, sym_bits(sym)),
    ensures
        huff_decode(fixed_lit_lengths(), data, p) == Some((sym, p + 9)),
{
    let f = fixed_lit_lengths();
    let c = fixed_code(sym).0;
    lemma_fixed_tables();
    lemma_fixed_counts(sym);
    lemma_symbol_of_rank(f, sym);
    lemma_two_pow_small();
    lemma_msb_prefix(data, p, c, 9, 7);
    lemma_msb_prefix(data, p, c, 9, 8);
    lemma_msb_prefix(data, p, c, 9, 9);
    assert(400 <= c < 512);
    assert(bits_msb(data, p, 7) == c / 4);
    assert(c / 4 >= 24);
    assert(bits_msb(data, p, 8) == c / 2);
    assert(c / 2 >= 200);
    assert(bits_msb(data, p, 9) == c);
    assert(count_len(f, 1) == 0 && count_len(f, 2) == 0 && count_len(f, 3) == 0 && count_len(f, 4) == 0
        && count_len(f, 5) == 0 && count_len(f, 6) == 0);
    assert(first_code(f, 1) == 0 && first_code(f, 2) == 0 && first_code(f, 3) == 0 && first_code(f, 4) == 0
        && first_code(f, 5) == 0 && first_code(f, 6) == 0 && first_code(f, 7) == 0);
    lemma_decode_skip(f, data, p, 1);
    lemma_decode_skip(f, data, p, 2);
    lemma_decode_skip(f, data, p, 3);
    lemma_decode_skip(f, data, p, 4);
    lemma_decode_skip(f, data, p, 5);
    lemma_decode_skip(f, data, p, 6);
    lemma_decode_skip(f, data, p, 7);
    lemma_decode_skip(f, data, p, 8);
    lemma_decode_hit(f, data, p, 9);
    assert(f[sym] == 9u8);
    assert(rank_of(f, sym) == c - 400);
    assert(symbol_of_rank_at(f, 9, (c - 400) as nat) == sym);
}

/// A fixed literal/length code in the stream decodes to its symbol.
proof fn lemma_fixed_lit_decode(data: Seq<u8>, p: int, sym: int)
    requires
        0 <= sym < 288,
        stream_has(data, p, sym_bits(sym)),
    ensures
        huff_decode(fixed_lit_lengths(), data, p) == Some((sym, p + fixed_code(sym).1)),
{
    if sym < 144 || sym >= 280 {
        lemma_fixed_decode_8(data, p, sym);
    } else if sym < 256 {
        lemma_fixed_decode_9(data, p, sym);
    } else {
        lemma_fixed_decode_7(data, p, sym);
    }
}

/// A fixed distance code in the stream decodes to its symbol.
proof fn lemma_fixed_dist_decode(data: Seq<u8>, p: int, d: int)
    requires
        0 <= d < 30,
        stream_has(data, p, msb_bits(d, 5)),
    ensures
        huff_decode(fixed_dist_lengths(), data, p) == Some((d, p + 5)),
{
    let f = fixed_dist_lengths();
    lemma_fixed_tables();
    lemma_dist_counts(d);
    lemma_symbol_of_rank(f, d);
    lemma_two_pow_small();
    lemma_msb_prefix(data, p, d, 5, 5);
    assert(count_len(f, 1) == 0 && count_len(f, 2) == 0 && count_len(f, 3) == 0 && count_len(f, 4) == 0);
    assert(first_code(f, 1) == 0 && first_code(f, 2) == 0 && first_code(f, 3) == 0 && first_code(f, 4) == 0
        && first_code(f, 5) == 0);
    lemma_decode_skip(f, data, p, 1);
    lemma_decode_skip(f, data, p, 2);
    lemma_decode_skip(f, data, p, 3);
    lemma_decode_skip(f, data, p, 4);
    assert(bits_msb(data, p, 5) == d);
    lemma_decode_hit(f, data, p, 5);
    assert(f[d] == 5u8);
    assert(rank_of(f, d) == d);
    assert(symbol_of_rank_at(f, 5, d as nat) == d);
}

proof fn lemma_length_index_from(len: int, i: int)
    requires
        3 <= len <= 258,
        0 <= i <= 28,
        forall|j: int| i < j <= 28 ==> length_base(j) > len,
    ensures
        0 <= length_index_from(len, i) <= i,
        length_base(length_index_from(len, i)) <= len,
        length_index_from(len, i) < 28 ==> length_base(length_index_from(len, i) + 1) > len,
    decreases i,
{
    if i > 0 && length_base(i) > len {
        lemma_length_index_from(len, i - 1);
    }
}

/// The length symbol of a codable match length, and the extra bits it needs.
proof fn lemma_length_index(len: int)
    requires
        3 <= len <= 258,
    ensures
        0 <= length_index(len) <= 28,
        length_base(length_index(len)) <= len,
        len - length_base(length_index(len)) < two_pow(length_extra(length_index(len))),
{
    lemma_length_index_from(len, 28);
    let li = length_index(len);
    lemma_two_pow_small();
    if li < 28 {
        lemma_length_gap(li);
    }
}

proof fn lemma_dist_index_from(d: int, i: int)
    requires
        1 <= d <= 32768,
        0 <= i <= 29,
        forall|j: int| i < j <= 29 ==> dist_base(j) > d,
    ensures
        0 <= dist_index_from(d, i) <= i,
        dist_base(dist_index_from(d, i)) <= d,
        dist_index_from(d, i) < 29 ==> dist_base(dist_index_from(d, i) + 1) > d,
    decreases i,
{
    if i > 0 && dist_base(i) > d {
        lemma_dist_index_from(d, i - 1);
    }
}

/// The distance symbol of a codable distance, and the extra bits it needs.
proof fn lemma_dist_index(d: int)
    requires
        1 <= d <= 32768,
    ensures
        0 <= dist_index(d) <= 29,
        dist_base(dist_index(d)) <= d,
        d - dist_base(dist_index(d)) < two_pow(dist_extra(dist_index(d))),
{
    lemma_dist_index_from(d, 29);
    let di = dist_index(d);
    lemma_two_pow_small();
    if di < 29 {
        lemma_dist_gap(di);
    }
}

/// Decoding one token of a fixed block carries on from just past its bits.
proof fn lemma_token_step(data: Seq<u8>, p: int, acc: Seq<u8>, t: Token)
    requires
        token_ok(acc, t),
        stream_has(data, p, token_bits(t)),
    ensures
        inflate_symbols(fixed_lit_lengths(), fixed_dist_lengths(), data, p, acc)
            == inflate_symbols(fixed_lit_lengths(), fixed_dist_lengths(), data, p + token_bits(t).len(), apply_token(acc, t)),
{
    match t {
        Token::Literal(b) => {
            lemma_fixed_lit_decode(data, p, b as int);
        },
        Token::Copy(len, dist) => {
            let li = length_index(len as int);
            let di = dist_index(dist as int);
            lemma_length_index(len as int);
            lemma_dist_index(dist as int);
            let a = sym_bits(257 + li);
            let b = lsb_bits(len - length_base(li), length_extra(li));
            let c = msb_bits(di, 5);
            let d = lsb_bits(dist - dist_base(di), dist_extra(di));
            assert(token_bits(t) == a + b + c + d);
            lemma_stream_split(data, p, a + b + c, d);
            lemma_stream_split(data, p, a + b, c);
            lemma_stream_split(data, p, a, b);
            lemma_fixed_lit_decode(data, p, 257 + li);
            let p1 = p + a.len();
            lemma_lsb_read(data, p1, len - length_base(li), length_extra(li));
            let p2 = p1 + b.len();
            lemma_fixed_dist_decode(data, p2, di);
            let p3 = p2 + 5;
            lemma_lsb_read(data, p3, dist - dist_base(di), dist_extra(di));
            assert(a.len() == fixed_code(257 + li).1);
            assert(c.len() == 5);
        },
    }
}

/// The end-of-block code finishes the block with what was decoded so far.
proof fn lemma_end_of_block(data: Seq<u8>, p: int, acc: Seq<u8>)
    requires
        stream_has(data, p, sym_bits(256)),
    ensures
        inflate_symbols(fixed_lit_lengths(), fixed_dist_lengths(), data, p, acc) == Some((acc, p + 7)),
{
    lemma_fixed_lit_decode(data, p, 256);
}

proof fn lemma_tokens_ok_prefix(ts: Seq<Token>, k: int)
    requires
        tokens_ok(ts),
        0 <= k <= ts.len(),
    ensures
        tokens_ok(ts.take(k)),
    decreases ts.len() - k,
{
    if k < ts.len() {
        lemma_tokens_ok_prefix(ts, k + 1);
        assert(ts.take(k + 1).drop_last() =~= ts.take(k));
    } else {
        assert(ts.take(k) =~= ts);
    }
}

proof fn lemma_tokens_bits_prefix(ts: Seq<Token>, k: int)
    requires
        0 <= k <= ts.len(),
    ensures
        tokens_bits(ts.take(k)).len() <= tokens_bits(ts).len(),
        tokens_bits(ts).subrange(0, tokens_bits(ts.take(k)).len() as int) == tokens_bits(ts.take(k)),
    decreases ts.len() - k,
{
    if k < ts.len() {
        lemma_tokens_bits_prefix(ts, k + 1);
        assert(ts.take(k + 1).drop_last() =~= ts.take(k));
        let short = tokens_bits(ts.take(k));
        let long = tokens_bits(ts.take(k + 1));
        assert(long == short + token_bits(ts[k]));
        assert(tokens_bits(ts).subrange(0, short.len() as int) =~= long.subrange(0, short.len() as int));
    } else {
        assert(ts.take(k) =~= ts);
        assert(tokens_bits(ts).subrange(0, tokens_bits(ts).len() as int) =~= tokens_bits(ts));
    }
}

/// Decoding a fixed block from the bit where token `i` starts gives the
/// whole expansion, ending past the end-of-block code.
proof fn lemma_tokens_decode(data: Seq<u8>, ts: Seq<Token>, i: int, q: int)
    requires
        0 <= i <= ts.len(),
        tokens_ok(ts),
        stream_has(data, q, tokens_bits(ts) + sym_bits(256)),
    ensures
        inflate_symbols(fixed_lit_lengths(), fixed_dist_lengths(), data, q + tokens_bits(ts.take(i)).len(), expand(ts.take(i)))
            == Some((expand(ts), q + tokens_bits(ts).len() + 7)),
    decreases ts.len() - i,
{
    let all = tokens_bits(ts);
    lemma_stream_split(data, q, all, sym_bits(256));
    if i == ts.len() {
        assert(ts.take(i) =~= ts);
        lemma_end_of_block(data, q + all.len(), expand(ts));
    } else {
        let t = ts[i];
        let pre = ts.take(i);
        let pre1 = ts.take(i + 1);
        assert(pre1.drop_last() =~= pre);
        assert(pre1.last() == t);
        let a = tokens_bits(pre);
        assert(tokens_bits(pre1) == a + token_bits(t));
        lemma_tokens_bits_prefix(ts, i + 1);
        assert forall|j: int| 0 <= j < token_bits(t).len() implies (spec_bit(data, q + a.len() + j) == 1) == #[trigger] token_bits(t)[j] by {
            assert((a + token_bits(t))[a.len() + j] == token_bits(t)[j]);
            assert(all.subrange(0, (a + token_bits(t)).len() as int)[a.len() + j] == all[a.len() + j]);
            assert(q + (a.len() + j) == q + a.len() + j);
        }
        lemma_tokens_ok_prefix(ts, i + 1);
        lemma_token_step(data, q + a.len(), expand(pre), t);
        lemma_tokens_decode(data, ts, i + 1, q);
        assert(q + a.len() + token_bits(t).len() == q + tokens_bits(pre1).len());
    }
}

/// A byte string that packs the fixed block of `ts` inflates to the bytes
/// the tokens stand for.
pub proof fn lemma_inflate_fixed_block(bytes: Seq<u8>, ts: Seq<Token>)
    requires
        tokens_ok(ts),
        packs(bytes, fixed_block_bits(ts)),
    ensures
        spec_inflate(bytes) == Some(expand(ts)),
{
    let bits = fixed_block_bits(ts);
    assert forall|j: int| 0 <= j < bits.len() implies (spec_bit(bytes, 0 + j) == 1) == #[trigger] bits[j] by {
        assert(byte_bits(bytes).take(bits.len() as int)[j] == byte_bits(bytes)[j]);
    }
    assert(stream_has(bytes, 0, bits));
    let h1 = seq![true];
    let h2 = lsb_bits(1, 2);
    let body = tokens_bits(ts) + sym_bits(256);
    assert(bits =~= h1 + h2 + body);
    lemma_stream_split(bytes, 0, h1 + h2, body);
    lemma_stream_split(bytes, 0, h1, h2);
    lemma_two_pow_small();
    lemma_lsb_read(bytes, 1, 1, 2);
    assert(h1[0]);
    assert(spec_bit(bytes, 0) == 1);
    lemma_tokens_decode(bytes, ts, 0, 3);
    assert(ts.take(0) =~= Seq::<Token>::empty());
    assert(inflate_from(bytes, 0, Seq::empty()) == Some(expand(ts)));
}

} // verus!
