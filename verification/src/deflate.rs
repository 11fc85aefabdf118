//! DEFLATE (RFC 1951) compressor: one fixed-Huffman block, greedy LZ77
//! matching over hash chains. Its output is what [`crate::inflate`] reads.

use vstd::prelude::*;
use vstd::arithmetic::div_mod::*;
use crate::bytes::back_copy;
use crate::inflate::{
    dist_base, dist_base_of, dist_extra, dist_extra_of, length_base, length_base_of, length_extra,
    length_extra_of, spec_bit, spec_inflate, two_pow,
};
use crate::deflate_law::lemma_inflate_fixed_block;

verus! {

/// Bit `i` of the non-negative number `v`.
pub open spec fn bit_of(v: int, i: nat) -> bool {
    (v / (two_pow(i) as int)) % 2 == 1
}

/// The low `n` bits of `v`, least significant first.
pub open spec fn lsb_bits(v: int, n: nat) -> Seq<bool> {
    Seq::new(n, |i: int| bit_of(v, i as nat))
}

/// The low `n` bits of `v`, most significant first.
pub open spec fn msb_bits(v: int, n: nat) -> Seq<bool> {
    Seq::new(n, |i: int| bit_of(v, (n - 1 - i) as nat))
}

/// The bits of a byte string in DEFLATE order: each byte from its least
/// significant bit up.
pub open spec fn byte_bits(bytes: Seq<u8>) -> Seq<bool> {
    Seq::new(8 * bytes.len(), |i: int| spec_bit(bytes, i) == 1)
}

pub(crate) proof fn lemma_two_pow_add(a: nat, b: nat)
    ensures
        two_pow(a + b) == two_pow(a) * two_pow(b),
    decreases a,
{
    if a > 0 {
        let a1 = (a - 1) as nat;
        lemma_two_pow_add(a1, b);
        assert((a + b - 1) as nat == a1 + b);
        assert(two_pow(a + b) == 2 * two_pow(a1 + b));
        assert(two_pow(a) == 2 * two_pow(a1));
        let x = two_pow(a1) as int;
        let y = two_pow(b) as int;
        assert(2 * (x * y) == (2 * x) * y) by (nonlinear_arith);
    } else {
        assert(two_pow(0) == 1);
        assert(a + b == b);
    }
}

pub(crate) proof fn lemma_two_pow_pos(a: nat)
    ensures
        two_pow(a) >= 1,
    decreases a,
{
    if a > 0 {
        lemma_two_pow_pos((a - 1) as nat);
    }
}

/// The bits of `x + v * 2^c` are the `c` bits of `x` followed by those of `v`.
pub(crate) proof fn lemma_bits_concat(x: int, v: int, c: nat, n: nat)
    requires
        0 <= x < two_pow(c),
        0 <= v,
    ensures
        lsb_bits(x + v * two_pow(c), c + n) == lsb_bits(x, c) + lsb_bits(v, n),
{
    let y = x + v * two_pow(c);
    lemma_two_pow_pos(c);
    assert forall|i: int| 0 <= i < c + n implies #[trigger] lsb_bits(y, c + n)[i] == (lsb_bits(x, c) + lsb_bits(v, n))[i] by {
        if i < c {
            let k = (c - i) as nat;
            lemma_two_pow_add(i as nat, k);
            lemma_two_pow_pos(i as nat);
            lemma_two_pow_pos(k);
            let pi = two_pow(i as nat) as int;
            let pk = two_pow(k) as int;
            assert(v * two_pow(c) == (v * pk) * pi) by {
                vstd::arithmetic::mul::lemma_mul_is_associative(v, pk, pi);
                vstd::arithmetic::mul::lemma_mul_is_commutative(pk, pi);
            }
            lemma_hoist_over_denominator(x, v * pk, pi as nat);
            assert(y / pi == x / pi + v * pk);
            assert(two_pow(k) == 2 * two_pow((k - 1) as nat));
            assert(v * pk == 2 * (v * two_pow((k - 1) as nat))) by {
                vstd::arithmetic::mul::lemma_mul_is_associative(v, 2, two_pow((k - 1) as nat) as int);
                vstd::arithmetic::mul::lemma_mul_is_commutative(v, 2);
                vstd::arithmetic::mul::lemma_mul_is_associative(2, v, two_pow((k - 1) as nat) as int);
            }
            lemma_mod_multiples_vanish(v * two_pow((k - 1) as nat), x / pi, 2);
            assert((x / pi + v * pk) % 2 == (x / pi) % 2);
        } else {
            let j = (i - c) as nat;
            lemma_two_pow_add(c, j);
            lemma_two_pow_pos(j);
            let pc = two_pow(c) as int;
            let pj = two_pow(j) as int;
            lemma_div_denominator(y, pc, pj);
            assert(y == pc * v + x) by {
                vstd::arithmetic::mul::lemma_mul_is_commutative(v, pc);
            }
            lemma_div_multiples_vanish_fancy(v, x, pc);
            assert(y / pc == v);
            assert(c + j == i);
        }
    }
    assert(lsb_bits(y, c + n) =~= lsb_bits(x, c) + lsb_bits(v, n));
}

/// Bit `k` of a byte, as the stream reader sees it.
proof fn lemma_byte_bit(b: u8, k: u8)
    requires
        k < 8,
    ensures
        ((b >> k) & 1u8) as nat == (b as int / (two_pow(k as nat) as int)) % 2,
{
    reveal_with_fuel(two_pow, 9);
    assert(two_pow(0) == 1 && two_pow(1) == 2 && two_pow(2) == 4 && two_pow(3) == 8 && two_pow(4) == 16
        && two_pow(5) == 32 && two_pow(6) == 64 && two_pow(7) == 128);
    assert(((b >> 0u8) & 1u8) == b % 2 && ((b >> 1u8) & 1u8) == (b / 2) % 2
        && ((b >> 2u8) & 1u8) == (b / 4) % 2 && ((b >> 3u8) & 1u8) == (b / 8) % 2
        && ((b >> 4u8) & 1u8) == (b / 16) % 2 && ((b >> 5u8) & 1u8) == (b / 32) % 2
        && ((b >> 6u8) & 1u8) == (b / 64) % 2 && ((b >> 7u8) & 1u8) == (b / 128) % 2) by (bit_vector);
    if k == 0 {
    } else if k == 1 {
    } else if k == 2 {
    } else if k == 3 {
    } else if k == 4 {
    } else if k == 5 {
    } else if k == 6 {
    } else {
        assert(k == 7);
    }
}

/// Appending a byte appends its eight bits.
proof fn lemma_byte_bits_push(bytes: Seq<u8>, b: u8)
    ensures
        byte_bits(bytes.push(b)) == byte_bits(bytes) + lsb_bits(b as int, 8),
{
    let s2 = bytes.push(b);
    assert forall|i: int| 0 <= i < 8 * s2.len() implies #[trigger] byte_bits(s2)[i] == (byte_bits(bytes) + lsb_bits(b as int, 8))[i] by {
        if i < 8 * bytes.len() {
            assert(i / 8 < bytes.len());
            assert(s2[i / 8] == bytes[i / 8]);
        } else {
            let k = i - 8 * bytes.len();
            assert(i / 8 == bytes.len());
            assert(i % 8 == k);
            lemma_byte_bit(b, k as u8);
        }
    }
    assert(byte_bits(s2) =~= byte_bits(bytes) + lsb_bits(b as int, 8));
}

/// LSB-first bit packer.
struct BitWriter {
    out: Vec<u8>,
    bit_buf: u32,
    bit_count: u32,
}

impl BitWriter {
    spec fn wf(&self) -> bool {
        &&& self.bit_count < 8
        &&& self.bit_buf < two_pow(self.bit_count as nat)
    }

    /// Every bit written so far.
    spec fn written(&self) -> Seq<bool> {
        byte_bits(self.out@) + lsb_bits(self.bit_buf as int, self.bit_count as nat)
    }

    fn new() -> (w: Self)
        ensures
            w.wf(),
            w.written() == Seq::<bool>::empty(),
    {
        let w = BitWriter { out: Vec::new(), bit_buf: 0, bit_count: 0 };
        assert(w.written() =~= Seq::<bool>::empty());
        w
    }

    /// Write the low `n` bits of `value`, least significant first.
    fn bits(&mut self, value: u32, n: u32)
        requires
            old(self).wf(),
            n <= 16,
            value < two_pow(n as nat),
        ensures
            final(self).wf(),
            final(self).written() == old(self).written() + lsb_bits(value as int, n as nat),
    {
        let c = self.bit_count;
        let scale = pow2_u32(c);
        proof {
            lemma_append_bits(self.bit_buf as int, value as int, c as nat, n as nat);
        }
        self.bit_buf = self.bit_buf + value * scale;
        self.bit_count = c + n;
        proof {
            assert(self.written() =~= old(self).written() + lsb_bits(value as int, n as nat));
        }
        while self.bit_count >= 8
            invariant
                self.bit_count < 24,
                self.bit_buf < two_pow(self.bit_count as nat),
                self.written() == old(self).written() + lsb_bits(value as int, n as nat),
            decreases self.bit_count,
        {
            let byte = (self.bit_buf % 256) as u8;
            let rest = self.bit_buf / 256;
            let k = self.bit_count;
            proof {
                lemma_flush_byte(self.out@, self.bit_buf as int, k as nat);
            }
            self.out.push(byte);
            self.bit_buf = rest;
            self.bit_count = k - 8;
            proof {
                assert(self.written() =~= old(self).written() + lsb_bits(value as int, n as nat));
            }
        }
    }

    /// Write the low `len` bits of `code`, most significant first (how
    /// DEFLATE stores Huffman codes).
    fn code(&mut self, code: u32, len: u32)
        requires
            old(self).wf(),
            len <= 16,
        ensures
            final(self).wf(),
            final(self).written() == old(self).written() + msb_bits(code as int, len as nat),
    {
        let mut i: u32 = 0;
        while i < len
            invariant
                self.wf(),
                i <= len <= 16,
                self.written() == old(self).written() + msb_bits(code as int, len as nat).take(i as int),
            decreases len - i,
        {
            let shift = len - 1 - i;
            let scale = pow2_u32(shift);
            proof {
                lemma_two_pow_mono_local(0, shift as nat);
            }
            let bit = (code / scale) % 2;
            proof {
                reveal_with_fuel(two_pow, 2);
                assert(two_pow(0) == 1 && two_pow(1) == 2);
                assert(lsb_bits(bit as int, 1)[0] == (bit == 1));
                assert(msb_bits(code as int, len as nat)[i as int] == bit_of(code as int, shift as nat));
                assert(msb_bits(code as int, len as nat).take(i + 1) =~= msb_bits(code as int, len as nat).take(i as int)
                    + lsb_bits(bit as int, 1));
            }
            self.bits(bit, 1);
            i = i + 1;
        }
        proof {
            assert(msb_bits(code as int, len as nat).take(len as int) =~= msb_bits(code as int, len as nat));
        }
    }

    /// The packed bytes; a final partial byte is padded with zero bits.
    fn finish(self) -> (out: Vec<u8>)
        requires
            self.wf(),
        ensures
            out@.len() == (self.written().len() + 7) / 8,
            byte_bits(out@).take(self.written().len() as int) == self.written(),
            forall|i: int| self.written().len() <= i < 8 * out@.len() ==> !#[trigger] byte_bits(out@)[i],
    {
        let mut out = self.out;
        if self.bit_count > 0 {
            proof {
                lemma_two_pow_mono_local(self.bit_count as nat, 8);
                reveal_with_fuel(two_pow, 9);
            }
            assert(self.bit_buf < 256);
            let byte = self.bit_buf as u8;
            proof {
                lemma_pad_byte(out@, self.bit_buf as int, byte, self.bit_count as nat);
            }
            out.push(byte);
        } else {
            proof {
                assert(self.written() =~= byte_bits(out@));
                assert(byte_bits(out@).take(self.written().len() as int) =~= self.written());
            }
        }
        out
    }
}

/// Putting `n` bits of `v` above the `c` buffered bits of `x`.
proof fn lemma_append_bits(x: int, v: int, c: nat, n: nat)
    requires
        0 <= x < two_pow(c),
        0 <= v < two_pow(n),
        c < 8,
        n <= 16,
    ensures
        x + v * two_pow(c) < two_pow(c + n),
        x + v * two_pow(c) < 0x100_0000,
        lsb_bits(x + v * two_pow(c), c + n) == lsb_bits(x, c) + lsb_bits(v, n),
{
    lemma_bits_concat(x, v, c, n);
    lemma_two_pow_add(c, n);
    lemma_two_pow_mono_local(c + n, 24);
    lemma_two_pow_24();
    let pc = two_pow(c) as int;
    let pn = two_pow(n) as int;
    assert(x + v * pc < pc * pn) by (nonlinear_arith)
        requires x < pc, v < pn, pc >= 1, v >= 0;
    vstd::arithmetic::mul::lemma_mul_is_commutative(pc, pn);
}

/// Moving the low byte of a buffer of `k >= 8` bits out to the byte string.
proof fn lemma_flush_byte(out: Seq<u8>, buf: int, k: nat)
    requires
        8 <= k < 24,
        0 <= buf < two_pow(k),
    ensures
        buf / 256 < two_pow((k - 8) as nat),
        byte_bits(out.push((buf % 256) as u8)) + lsb_bits(buf / 256, (k - 8) as nat) == byte_bits(out) + lsb_bits(buf, k),
{
    reveal_with_fuel(two_pow, 9);
    assert(two_pow(8) == 256);
    lemma_two_pow_add(8, (k - 8) as nat);
    let byte = (buf % 256) as u8;
    let rest = buf / 256;
    assert(buf == byte + rest * 256);
    lemma_bits_concat(byte as int, rest, 8, (k - 8) as nat);
    lemma_byte_bits_push(out, byte);
    let pr = two_pow((k - 8) as nat) as int;
    assert(rest < pr) by (nonlinear_arith)
        requires buf < 256 * pr, rest == buf / 256, buf >= 0;
    assert(byte_bits(out.push(byte)) + lsb_bits(rest, (k - 8) as nat) =~= byte_bits(out) + lsb_bits(buf, k));
}

/// The last, partial byte: its `c` buffered bits, then zero bits.
proof fn lemma_pad_byte(out: Seq<u8>, buf: int, b: u8, c: nat)
    requires
        0 < c < 8,
        0 <= buf < two_pow(c),
        b as int == buf,
    ensures
        byte_bits(out.push(b)).take((8 * out.len() + c) as int) == byte_bits(out) + lsb_bits(buf, c),
        forall|i: int| 8 * out.len() + c <= i < 8 * out.len() + 8 ==> !#[trigger] byte_bits(out.push(b))[i],
{
    lemma_two_pow_mono_local(c, 8);
    reveal_with_fuel(two_pow, 9);
    lemma_byte_bits_push(out, b);
    assert forall|k: int| 0 <= k < 8 implies #[trigger] lsb_bits(buf, 8)[k] == (k < c && lsb_bits(buf, c)[k]) by {
        if k >= c {
            lemma_two_pow_mono_local(c, k as nat);
            lemma_basic_div(buf, two_pow(k as nat) as int);
        }
    }
    assert(byte_bits(out.push(b)).take((8 * out.len() + c) as int) =~= byte_bits(out) + lsb_bits(buf, c));
}

proof fn lemma_two_pow_24()
    ensures
        two_pow(24) == 0x100_0000,
{
    reveal_with_fuel(two_pow, 25);
}

pub(crate) proof fn lemma_two_pow_mono_local(a: nat, b: nat)
    requires
        a <= b,
    ensures
        1 <= two_pow(a) <= two_pow(b),
    decreases b,
{
    if b > 0 {
        if a < b {
            lemma_two_pow_mono_local(a, (b - 1) as nat);
        } else {
            lemma_two_pow_mono_local((b - 1) as nat, (b - 1) as nat);
        }
    }
}

/// `2^k` for a shift below 24.
pub(crate) fn pow2_u32(k: u32) -> (r: u32)
    requires
        k < 24,
    ensures
        r as nat == two_pow(k as nat),
{
    let mut r: u32 = 1;
    let mut i: u32 = 0;
    while i < k
        invariant
            i <= k < 24,
            r as nat == two_pow(i as nat),
        decreases k - i,
    {
        proof {
            lemma_two_pow_mono_local((i + 1) as nat, 23);
            reveal_with_fuel(two_pow, 24);
        }
        r = r * 2;
        i = i + 1;
    }
    r
}

// ---------------------------------------------------------------------------
// The compressed stream as a sequence of LZ77 tokens

/// One LZ77 token: a literal byte, or a copy of `length` bytes from
/// `distance` bytes back.
pub enum Token {
    Literal(u8),
    Copy(nat, nat),
}

/// Fixed literal/length code of symbol `sym` (RFC 1951, 3.2.6): the code and
/// its length in bits.
pub open spec fn fixed_code(sym: int) -> (int, nat) {
    if sym < 144 {
        (0x30 + sym, 8)
    } else if sym < 256 {
        (0x190 + sym - 144, 9)
    } else if sym < 280 {
        (sym - 256, 7)
    } else {
        (0xc0 + sym - 280, 8)
    }
}

/// The bits of the fixed code of `sym`, as stored in the stream.
pub open spec fn sym_bits(sym: int) -> Seq<bool> {
    msb_bits(fixed_code(sym).0, fixed_code(sym).1)
}

/// Largest length-symbol index `j <= i` whose base does not exceed `len`.
pub open spec fn length_index_from(len: int, i: int) -> int
    decreases i,
{
    if i <= 0 || length_base(i) <= len { i } else { length_index_from(len, i - 1) }
}

/// Index of the length symbol that codes a match of `len` bytes.
pub open spec fn length_index(len: int) -> int {
    length_index_from(len, 28)
}

/// Largest distance-symbol index `j <= i` whose base does not exceed `d`.
pub open spec fn dist_index_from(d: int, i: int) -> int
    decreases i,
{
    if i <= 0 || dist_base(i) <= d { i } else { dist_index_from(d, i - 1) }
}

/// Index of the distance symbol that codes distance `d`.
pub open spec fn dist_index(d: int) -> int {
    dist_index_from(d, 29)
}

/// The bits that code one token in a fixed-Huffman block.
pub open spec fn token_bits(t: Token) -> Seq<bool> {
    match t {
        Token::Literal(b) => sym_bits(b as int),
        Token::Copy(len, dist) => {
            let li = length_index(len as int);
            let di = dist_index(dist as int);
            sym_bits(257 + li) + lsb_bits(len - length_base(li), length_extra(li)) + msb_bits(di, 5)
                + lsb_bits(dist - dist_base(di), dist_extra(di))
        },
    }
}

/// The bits of a run of tokens.
pub open spec fn tokens_bits(ts: Seq<Token>) -> Seq<bool>
    decreases ts.len(),
{
    if ts.len() == 0 { seq![] } else { tokens_bits(ts.drop_last()) + token_bits(ts.last()) }
}

/// A single, final, fixed-Huffman block holding `ts`: the header bits
/// (BFINAL = 1, BTYPE = 01), the tokens, and the end-of-block symbol.
pub open spec fn fixed_block_bits(ts: Seq<Token>) -> Seq<bool> {
    seq![true] + lsb_bits(1, 2) + tokens_bits(ts) + sym_bits(256)
}

/// `out` followed by what the token produces.
pub open spec fn apply_token(out: Seq<u8>, t: Token) -> Seq<u8> {
    match t {
        Token::Literal(b) => out.push(b),
        Token::Copy(len, dist) => back_copy(out, dist as int, len),
    }
}

/// The bytes a run of tokens stands for.
pub open spec fn expand(ts: Seq<Token>) -> Seq<u8>
    decreases ts.len(),
{
    if ts.len() == 0 { seq![] } else { apply_token(expand(ts.drop_last()), ts.last()) }
}

/// A copy has a codable length and reaches back no further than what came
/// before it and than the 32 KiB window.
pub open spec fn token_ok(out: Seq<u8>, t: Token) -> bool {
    match t {
        Token::Literal(_) => true,
        Token::Copy(len, dist) => 3 <= len <= 258 && 1 <= dist <= 32768 && dist <= out.len(),
    }
}

/// Every token of the run is [`token_ok`] where it stands.
pub open spec fn tokens_ok(ts: Seq<Token>) -> bool
    decreases ts.len(),
{
    ts.len() == 0 || (tokens_ok(ts.drop_last()) && token_ok(expand(ts.drop_last()), ts.last()))
}

/// `bytes` carries exactly `bits`, padded with zero bits to a byte boundary.
pub open spec fn packs(bytes: Seq<u8>, bits: Seq<bool>) -> bool {
    &&& bytes.len() == (bits.len() + 7) / 8
    &&& byte_bits(bytes).take(bits.len() as int) == bits
    &&& forall|i: int| bits.len() <= i < 8 * bytes.len() ==> !#[trigger] byte_bits(bytes)[i]
}

/// Fixed-table code of one literal/length symbol: `(code, bit length)`.
fn fixed_litlen_code(symbol: u16) -> (r: (u32, u32))
    requires
        symbol < 288,
    ensures
        r.0 as int == fixed_code(symbol as int).0,
        r.1 as nat == fixed_code(symbol as int).1,
        r.1 <= 9,
{
    if symbol <= 143 {
        (0x30 + symbol as u32, 8)
    } else if symbol <= 255 {
        (0x190 + (symbol - 144) as u32, 9)
    } else if symbol <= 279 {
        ((symbol - 256) as u32, 7)
    } else {
        (0xC0 + (symbol - 280) as u32, 8)
    }
}

/// Hash of the three bytes at `pos`, below 2^15.
/// Hash of the three bytes at a position (15 bits).
pub open spec fn spec_hash3(a: u8, b: u8, c: u8) -> usize {
    ((a as usize).wrapping_mul(506_832_829) ^ (b as usize).wrapping_mul(2_654_435_761)
        ^ (c as usize).wrapping_mul(40_503)) & 0x7FFF
}

fn hash3(data: &[u8], pos: usize) -> (h: usize)
    requires
        pos + 3 <= data@.len(),
    ensures
        h < 0x8000,
        h == spec_hash3(data@[pos as int], data@[pos + 1], data@[pos + 2]),
{
    let a = data[pos] as usize;
    let b = data[pos + 1] as usize;
    let c = data[pos + 2] as usize;
    let x = a.wrapping_mul(506_832_829) ^ b.wrapping_mul(2_654_435_761) ^ c.wrapping_mul(40_503);
    let h = x & 0x7FFF;
    assert(x & 0x7FFF < 0x8000) by (bit_vector);
    h
}

pub(crate) proof fn lemma_length_gap(i: int)
    requires
        0 <= i < 28,
    ensures
        length_base(i + 1) - length_base(i) <= two_pow(length_extra(i)),
{
    reveal_with_fuel(two_pow, 6);
}

pub(crate) proof fn lemma_dist_gap(i: int)
    requires
        0 <= i < 29,
    ensures
        dist_base(i + 1) - dist_base(i) <= two_pow(dist_extra(i)),
{
    reveal_with_fuel(two_pow, 14);
}

/// Write the length symbol and extra bits of a match of `length` bytes.
fn emit_length(w: &mut BitWriter, length: usize)
    requires
        old(w).wf(),
        3 <= length <= 258,
    ensures
        final(w).wf(),
        final(w).written() == old(w).written() + sym_bits(257 + length_index(length as int))
            + lsb_bits(length - length_base(length_index(length as int)), length_extra(length_index(length as int))),
{
    let mut i: usize = 28;
    while i > 0 && length_base_of(i) as usize > length
        invariant
            i <= 28,
            length_index(length as int) == length_index_from(length as int, i as int),
            forall|j: int| i < j <= 28 ==> length_base(j) > length,
        decreases i,
    {
        i = i - 1;
    }
    let base = length_base_of(i) as usize;
    let extra = length_extra_of(i);
    proof {
        reveal_with_fuel(two_pow, 2);
        if i < 28 {
            lemma_length_gap(i as int);
        }
        lemma_two_pow_mono_local(0, extra as nat);
        reveal_with_fuel(two_pow, 6);
    }
    let (huff, nbits) = fixed_litlen_code((257 + i) as u16);
    w.code(huff, nbits);
    w.bits((length - base) as u32, extra);
    proof {
        assert(final(w).written() =~= old(w).written() + sym_bits(257 + length_index(length as int))
            + lsb_bits(length - length_base(length_index(length as int)), length_extra(length_index(length as int))));
    }
}

/// Write the distance code and extra bits of a match `distance` bytes back.
fn emit_distance(w: &mut BitWriter, distance: usize)
    requires
        old(w).wf(),
        1 <= distance <= 32768,
    ensures
        final(w).wf(),
        final(w).written() == old(w).written() + msb_bits(dist_index(distance as int), 5)
            + lsb_bits(distance - dist_base(dist_index(distance as int)), dist_extra(dist_index(distance as int))),
{
    let mut i: usize = 29;
    while i > 0 && dist_base_of(i) as usize > distance
        invariant
            i <= 29,
            dist_index(distance as int) == dist_index_from(distance as int, i as int),
            forall|j: int| i < j <= 29 ==> dist_base(j) > distance,
        decreases i,
    {
        i = i - 1;
    }
    let base = dist_base_of(i) as usize;
    let extra = dist_extra_of(i);
    proof {
        if i < 29 {
            lemma_dist_gap(i as int);
        }
        lemma_two_pow_mono_local(0, extra as nat);
        reveal_with_fuel(two_pow, 14);
    }
    w.code(i as u32, 5);
    w.bits((distance - base) as u32, extra);
    proof {
        assert(final(w).written() =~= old(w).written() + msb_bits(dist_index(distance as int), 5)
            + lsb_bits(distance - dist_base(dist_index(distance as int)), dist_extra(dist_index(distance as int))));
    }
}

/// A back-reference over a repeat found in `s` continues `s`.
proof fn lemma_copy_continues(s: Seq<u8>, pos: int, dist: int, len: nat)
    requires
        1 <= dist <= pos,
        pos + len <= s.len(),
        forall|k: int| 0 <= k < len ==> #[trigger] s[pos - dist + k] == s[pos + k],
    ensures
        back_copy(s.take(pos), dist, len) == s.take(pos + len),
    decreases len,
{
    if len > 0 {
        let out = s.take(pos);
        assert(s[pos - dist + 0] == s[pos + 0]);
        assert(out.push(out[out.len() - dist]) =~= s.take(pos + 1));
        assert forall|k: int| 0 <= k < len - 1 implies #[trigger] s[pos + 1 - dist + k] == s[pos + 1 + k] by {
            assert(s[pos - dist + (k + 1)] == s[pos + (k + 1)]);
        }
        lemma_copy_continues(s, pos + 1, dist, (len - 1) as nat);
    }
}

/// No chain entry.
pub open spec fn nil() -> usize {
    usize::MAX
}

/// Length of the common run of `data` at `c` and at `p`, from `len` on,
/// up to `limit`.
pub open spec fn match_len(data: Seq<u8>, c: int, p: int, limit: int, len: int) -> int
    decreases limit - len,
{
    if len < limit && data[c + len] == data[p + len] { match_len(data, c, p, limit, len + 1) } else { len }
}

/// Walking the hash chain from `cand` (at most 32 links, 32 KiB back):
/// the longest match found, the earliest candidate winning ties, stopping
/// at a match of `limit` bytes. `(length, distance)`.
pub open spec fn chain_search(data: Seq<u8>, prev: Seq<usize>, pos: int, cand: usize, chain: int, limit: int,
    best_len: int, best_dist: int) -> (int, int)
    decreases 32 - chain,
{
    if cand == nil() || pos - cand >= 0x8000 || chain >= 32 {
        (best_len, best_dist)
    } else {
        let len = match_len(data, cand as int, pos, limit, 0);
        if len > best_len {
            if len == limit {
                (len, pos - cand)
            } else {
                chain_search(data, prev, pos, prev[cand as int], chain + 1, limit, len, pos - cand)
            }
        } else {
            chain_search(data, prev, pos, prev[cand as int], chain + 1, limit, best_len, best_dist)
        }
    }
}

/// Chaining positions `p..end` (those with three bytes left) into the
/// hash table.
pub open spec fn insert_range(data: Seq<u8>, head: Seq<usize>, prev: Seq<usize>, p: int, end: int)
    -> (Seq<usize>, Seq<usize>)
    decreases end - p,
{
    if p < end && data.len() - p >= 3 {
        let h = spec_hash3(data[p], data[p + 1], data[p + 2]) as int;
        insert_range(data, head.update(h, p as usize), prev.update(p, head[h]), p + 1, end)
    } else {
        (head, prev)
    }
}

/// The compressor's state before position `pos`.
pub struct DState {
    pub pos: int,
    pub head: Seq<usize>,
    pub prev: Seq<usize>,
    pub tokens: Seq<Token>,
}

/// One compressor step: chain the position, search for a match of at least
/// three bytes, and emit it (chaining the bytes it covers) or a literal.
pub open spec fn d_step(data: Seq<u8>, st: DState) -> DState {
    let pos = st.pos;
    let (bl, bd, head1, prev1) = if data.len() - pos >= 3 {
        let h = spec_hash3(data[pos], data[pos + 1], data[pos + 2]) as int;
        let old = st.head[h];
        let limit = if data.len() - pos < 258 { data.len() - pos } else { 258 };
        let (bl, bd) = chain_search(data, st.prev, pos, old, 0, limit, 0, 0);
        (bl, bd, st.head.update(h, pos as usize), st.prev.update(pos, old))
    } else {
        (0, 0, st.head, st.prev)
    };
    if bl >= 3 {
        let (head2, prev2) = insert_range(data, head1, prev1, pos + 1, pos + bl);
        DState { pos: pos + bl, head: head2, prev: prev2, tokens: st.tokens.push(Token::Copy(bl as nat, bd as nat)) }
    } else {
        DState { pos: pos + 1, head: head1, prev: prev1, tokens: st.tokens.push(Token::Literal(data[pos])) }
    }
}

/// Compressor steps until the end of the data: the tokens.
pub open spec fn d_run(data: Seq<u8>, st: DState) -> Seq<Token>
    decreases data.len() - st.pos,
{
    if st.pos < 0 || st.pos >= data.len() {
        st.tokens
    } else {
        let st2 = d_step(data, st);
        if st2.pos <= st.pos || st2.pos > data.len() { st.tokens } else { d_run(data, st2) }
    }
}

/// The tokens the compressor chooses for `data`: greedy matching over hash
/// chains (window 32 KiB, chains of 32 links, matches of 3 to 258 bytes).
pub open spec fn spec_deflate_tokens(data: Seq<u8>) -> Seq<Token> {
    d_run(data, DState {
        pos: 0,
        head: Seq::new(0x8000, |i: int| nil()),
        prev: Seq::new(data.len(), |i: int| nil()),
        tokens: seq![],
    })
}

/// Compress `data` into a single fixed-Huffman DEFLATE block, matching
/// greedily over hash chains (window 32 KiB, matches of 3 to 258 bytes).
pub fn deflate(data: &[u8]) -> (out: Vec<u8>)
    ensures
        packs(out@, fixed_block_bits(spec_deflate_tokens(data@))),
        tokens_ok(spec_deflate_tokens(data@)),
        expand(spec_deflate_tokens(data@)) == data@,
        spec_inflate(out@) == Some(data@),
{
    let mut w = BitWriter::new();
    w.bits(1, 1);
    w.bits(1, 2);
    let ghost header = seq![true] + lsb_bits(1, 2);
    proof {
        reveal_with_fuel(two_pow, 3);
        assert(two_pow(0) == 1);
        assert(bit_of(1, 0));
        assert(lsb_bits(1, 1) =~= seq![true]);
        assert(w.written() =~= header);
    }
    let mut head: Vec<usize> = vec![usize::MAX; 0x8000];
    let mut prev: Vec<usize> = vec![usize::MAX; data.len()];
    let ghost mut ts: Seq<Token> = seq![];
    let n = data.len();
    let mut pos: usize = 0;
    proof {
        assert(head@ =~= Seq::new(0x8000, |i: int| nil()));
        assert(prev@ =~= Seq::new(data@.len(), |i: int| nil()));
    }
    while pos < n
        invariant
            n == data@.len(),
            w.wf(),
            pos <= data@.len(),
            head@.len() == 0x8000,
            prev@.len() == data@.len(),
            forall|h: int| 0 <= h < 0x8000 ==> #[trigger] head@[h] == usize::MAX || head@[h] < pos,
            forall|i: int| 0 <= i < data@.len() ==> #[trigger] prev@[i] == usize::MAX || prev@[i] < i,
            tokens_ok(ts),
            expand(ts) == data@.take(pos as int),
            w.written() == header + tokens_bits(ts),
            d_run(data@, DState { pos: pos as int, head: head@, prev: prev@, tokens: ts }) == spec_deflate_tokens(data@),
        decreases data@.len() - pos,
    {
        let ghost st = DState { pos: pos as int, head: head@, prev: prev@, tokens: ts };
        let mut best_len: usize = 0;
        let mut best_dist: usize = 0;
        if data.len() - pos >= 3 {
            let h = hash3(data, pos);
            let old_head = head[h];
            let mut candidate = old_head;
            let mut chain: usize = 0;
            let limit = if data.len() - pos < 258 { data.len() - pos } else { 258 };
            let ghost goal = chain_search(data@, prev@, pos as int, old_head, 0, limit as int, 0, 0);
            let mut done = false;
            while !done && candidate != usize::MAX && pos - candidate < 0x8000 && chain < 32
                invariant
                    n == data@.len(),
                    pos < data@.len(),
                    limit <= data@.len() - pos,
                    limit <= 258,
                    prev@.len() == data@.len(),
                    forall|i: int| 0 <= i < data@.len() ==> #[trigger] prev@[i] == usize::MAX || prev@[i] < i,
                    candidate == usize::MAX || candidate < pos,
                    best_len <= limit,
                    best_len > 0 ==> 1 <= best_dist <= pos && best_dist < 0x8000,
                    forall|k: int| 0 <= k < best_len ==> #[trigger] data@[pos - best_dist + k] == data@[pos + k],
                    chain <= 32,
                    !done ==> chain_search(data@, prev@, pos as int, candidate, chain as int, limit as int,
                        best_len as int, best_dist as int) == goal,
                    done ==> (best_len as int, best_dist as int) == goal,
                decreases (32 - chain) * 2 + (if done { 0int } else { 1int }),
            {
                let mut len: usize = 0;
                while len < limit && data[candidate + len] == data[pos + len]
                    invariant
                        n == data@.len(),
                        candidate < pos,
                        len <= limit <= data@.len() - pos,
                        forall|k: int| 0 <= k < len ==> #[trigger] data@[candidate + k] == data@[pos + k],
                        match_len(data@, candidate as int, pos as int, limit as int, len as int)
                            == match_len(data@, candidate as int, pos as int, limit as int, 0),
                    decreases limit - len,
                {
                    len = len + 1;
                }
                if len > best_len {
                    best_len = len;
                    best_dist = pos - candidate;
                    proof {
                        assert forall|k: int| 0 <= k < best_len implies #[trigger] data@[pos - best_dist + k] == data@[pos + k] by {
                            assert(data@[candidate + k] == data@[pos + k]);
                        }
                    }
                    if len == limit {
                        done = true;
                    }
                }
                if !done {
                    candidate = prev[candidate];
                    chain = chain + 1;
                }
            }
            proof {
                if !done {
                    assert(chain_search(data@, prev@, pos as int, candidate, chain as int, limit as int,
                        best_len as int, best_dist as int) == (best_len as int, best_dist as int));
                }
            }
            prev.set(pos, old_head);
            head.set(h, pos);
        }
        let ghost head1 = head@;
        let ghost prev1 = prev@;
        if best_len >= 3 {
            emit_length(&mut w, best_len);
            emit_distance(&mut w, best_dist);
            proof {
                let t = Token::Copy(best_len as nat, best_dist as nat);
                lemma_copy_continues(data@, pos as int, best_dist as int, best_len as nat);
                assert(ts.push(t).drop_last() =~= ts);
                ts = ts.push(t);
                assert(w.written() =~= header + tokens_bits(ts));
            }
            let end = pos + best_len;
            let mut p = pos + 1;
            while p < end && data.len() - p >= 3
                invariant
                    n == data@.len(),
                    pos < p <= end,
                    end <= data@.len(),
                    head@.len() == 0x8000,
                    prev@.len() == data@.len(),
                    forall|h: int| 0 <= h < 0x8000 ==> #[trigger] head@[h] == usize::MAX || head@[h] < p,
                    forall|i: int| 0 <= i < data@.len() ==> #[trigger] prev@[i] == usize::MAX || prev@[i] < i,
                    insert_range(data@, head@, prev@, p as int, end as int)
                        == insert_range(data@, head1, prev1, pos + 1, end as int),
                decreases end - p,
            {
                let h = hash3(data, p);
                let link = head[h];
                prev.set(p, link);
                head.set(h, p);
                p = p + 1;
            }
            proof {
                assert(insert_range(data@, head@, prev@, p as int, end as int) == (head@, prev@));
                assert(d_step(data@, st) == DState { pos: end as int, head: head@, prev: prev@, tokens: ts });
            }
            pos = end;
        } else {
            let (huff, nbits) = fixed_litlen_code(data[pos] as u16);
            w.code(huff, nbits);
            proof {
                let t = Token::Literal(data@[pos as int]);
                assert(ts.push(t).drop_last() =~= ts);
                ts = ts.push(t);
                assert(data@.take(pos + 1) =~= data@.take(pos as int).push(data@[pos as int]));
                assert(w.written() =~= header + tokens_bits(ts));
                assert(d_step(data@, st) == DState { pos: pos + 1, head: head@, prev: prev@, tokens: ts });
            }
            pos = pos + 1;
        }
    }
    let (eob, eob_bits) = fixed_litlen_code(256);
    w.code(eob, eob_bits);
    proof {
        assert(data@.take(pos as int) =~= data@);
        assert(ts == spec_deflate_tokens(data@));
        assert(w.written() =~= fixed_block_bits(ts));
    }
    let out = w.finish();
    proof {
        assert(tokens_ok(ts) && expand(ts) == data@ && packs(out@, fixed_block_bits(ts)));
        lemma_inflate_fixed_block(out@, ts);
    }
    out
}

} // verus!
