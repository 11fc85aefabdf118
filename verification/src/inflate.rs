//! DEFLATE (RFC 1951) decompressor: stored, fixed-Huffman and
//! dynamic-Huffman blocks.

use vstd::prelude::*;
use crate::bytes::{back_copy, le16_at, lemma_back_copy_len, push_all, push_back_copy, read_le16};
use crate::error::MmnError;

verus! {

/// Longest Huffman code in DEFLATE.
pub const MAX_BITS: usize = 15;

/// `2^n`.
pub open spec fn two_pow(n: nat) -> nat
    decreases n,
{
    if n == 0 { 1 } else { 2 * two_pow((n - 1) as nat) }
}

/// Bit `i` of the stream, least-significant bit of each byte first.
pub open spec fn spec_bit(data: Seq<u8>, i: int) -> nat {
    ((data[i / 8] >> ((i % 8) as u8)) & 1u8) as nat
}

/// The `n` bits at `p` read as a little-endian number (extra bits, headers).
pub open spec fn bits_lsb(data: Seq<u8>, p: int, n: nat) -> nat
    decreases n,
{
    if n == 0 { 0 } else { bits_lsb(data, p, (n - 1) as nat) + spec_bit(data, p + n - 1) * two_pow((n - 1) as nat) }
}

/// The `n` bits at `p` read most-significant first (Huffman codes).
pub open spec fn bits_msb(data: Seq<u8>, p: int, n: nat) -> nat
    decreases n,
{
    if n == 0 { 0 } else { 2 * bits_msb(data, p, (n - 1) as nat) + spec_bit(data, p + n - 1) }
}

/// Number of bits in the stream.
pub open spec fn nbits(data: Seq<u8>) -> int {
    8 * data.len() as int
}

// ---------------------------------------------------------------------------
// Canonical Huffman codes (RFC 1951, 3.2.2)

/// How many symbols have code length `len`.
pub open spec fn count_len(lengths: Seq<u8>, len: int) -> nat
    decreases lengths.len(),
{
    if lengths.len() == 0 {
        0
    } else {
        count_len(lengths.drop_last(), len) + if lengths.last() == len { 1nat } else { 0nat }
    }
}

/// Position of symbol `s` among the symbols sharing its code length.
pub open spec fn rank_of(lengths: Seq<u8>, s: int) -> nat {
    count_len(lengths.take(s), lengths[s] as int)
}

/// The smallest code of length `len` (`next_code[len]` in the RFC).
pub open spec fn first_code(lengths: Seq<u8>, len: nat) -> nat
    decreases len,
{
    if len <= 1 { 0 } else { 2 * (first_code(lengths, (len - 1) as nat) + count_len(lengths, len - 1)) }
}

/// Number of symbols whose code is shorter than `len` (lengths `1..len`).
pub open spec fn shorter_count(lengths: Seq<u8>, len: nat) -> nat
    decreases len,
{
    if len <= 1 { 0 } else { shorter_count(lengths, (len - 1) as nat) + count_len(lengths, len - 1) }
}

/// The symbol with code length `len` and rank `r`.
pub open spec fn symbol_of_rank(lengths: Seq<u8>, len: int, r: nat) -> int {
    choose|s: int| 0 <= s < lengths.len() && lengths[s] == len && rank_of(lengths, s) == r
}

/// Canonical decoding, trying code lengths from `len` up: the symbol whose
/// code equals the next bits and where the code after it starts.
pub open spec fn huff_decode_from(lengths: Seq<u8>, data: Seq<u8>, p: int, len: nat) -> Option<(int, int)>
    decreases 16 - len,
{
    if len < 1 || len > 15 || p < 0 || p + len > nbits(data) {
        None
    } else {
        let v = bits_msb(data, p, len);
        let f = first_code(lengths, len);
        if f <= v < f + count_len(lengths, len as int) {
            Some((symbol_of_rank(lengths, len as int, (v - f) as nat), p + len))
        } else {
            huff_decode_from(lengths, data, p, len + 1)
        }
    }
}

/// The symbol coded at bit `p` under the canonical code with these lengths.
pub open spec fn huff_decode(lengths: Seq<u8>, data: Seq<u8>, p: int) -> Option<(int, int)> {
    huff_decode_from(lengths, data, p, 1)
}

proof fn lemma_count_len_append(lengths: Seq<u8>, x: u8, len: int)
    ensures
        count_len(lengths.push(x), len) == count_len(lengths, len) + if x == len { 1nat } else { 0nat },
{
    assert(lengths.push(x).drop_last() =~= lengths);
}

proof fn lemma_count_len_bound(lengths: Seq<u8>, len: int)
    ensures
        count_len(lengths, len) <= lengths.len(),
    decreases lengths.len(),
{
    if lengths.len() > 0 {
        lemma_count_len_bound(lengths.drop_last(), len);
    }
}

/// Counts of a prefix grow by one exactly at the symbols of that length.
pub(crate) proof fn lemma_count_take_step(lengths: Seq<u8>, i: int, len: int)
    requires
        0 <= i < lengths.len(),
    ensures
        count_len(lengths.take(i + 1), len) == count_len(lengths.take(i), len)
            + if lengths[i] == len { 1nat } else { 0nat },
{
    assert(lengths.take(i + 1).drop_last() =~= lengths.take(i));
}

proof fn lemma_count_take_mono(lengths: Seq<u8>, a: int, b: int, len: int)
    requires
        0 <= a <= b <= lengths.len(),
    ensures
        count_len(lengths.take(a), len) <= count_len(lengths.take(b), len),
    decreases b - a,
{
    if a < b {
        lemma_count_take_mono(lengths, a, b - 1, len);
        lemma_count_take_step(lengths, b - 1, len);
    }
}

/// Distinct symbols of one length have distinct ranks.
proof fn lemma_rank_injective(lengths: Seq<u8>, s: int, t: int)
    requires
        0 <= s < lengths.len(),
        0 <= t < lengths.len(),
        lengths[s] == lengths[t],
        rank_of(lengths, s) == rank_of(lengths, t),
    ensures
        s == t,
{
    if s < t {
        lemma_count_take_step(lengths, s, lengths[s] as int);
        lemma_count_take_mono(lengths, s + 1, t, lengths[s] as int);
    } else if t < s {
        lemma_count_take_step(lengths, t, lengths[t] as int);
        lemma_count_take_mono(lengths, t + 1, s, lengths[t] as int);
    }
}

/// The symbol of a given length and rank is the one named by `symbol_of_rank`.
pub(crate) proof fn lemma_symbol_of_rank(lengths: Seq<u8>, s: int)
    requires
        0 <= s < lengths.len(),
    ensures
        symbol_of_rank(lengths, lengths[s] as int, rank_of(lengths, s)) == s,
{
    let len = lengths[s] as int;
    let r = rank_of(lengths, s);
    assert(0 <= s < lengths.len() && lengths[s] == len && rank_of(lengths, s) == r);
    let t = symbol_of_rank(lengths, len, r);
    lemma_rank_injective(lengths, s, t);
}

pub(crate) proof fn lemma_take_full(lengths: Seq<u8>)
    ensures
        lengths.take(lengths.len() as int) == lengths,
{
    assert(lengths.take(lengths.len() as int) =~= lengths);
}

/// Every rank below the count of a length is taken by some symbol of that length.
proof fn lemma_rank_exists(lengths: Seq<u8>, n: int, len: int, r: nat)
    requires
        0 <= n <= lengths.len(),
        r < count_len(lengths.take(n), len),
    ensures
        exists|s: int| 0 <= s < n && lengths[s] == len && rank_of(lengths, s) == r,
    decreases n,
{
    lemma_count_take_step(lengths, n - 1, len);
    if r < count_len(lengths.take(n - 1), len) {
        lemma_rank_exists(lengths, n - 1, len, r);
        let s = choose|s: int| 0 <= s < n - 1 && lengths[s] == len && rank_of(lengths, s) == r;
        assert(0 <= s < n && lengths[s] == len && rank_of(lengths, s) == r);
    } else {
        assert(lengths[n - 1] == len);
        assert(rank_of(lengths, n - 1) == r);
    }
}

/// A symbol's rank stays below the count of its length.
proof fn lemma_rank_bound(lengths: Seq<u8>, s: int)
    requires
        0 <= s < lengths.len(),
    ensures
        rank_of(lengths, s) < count_len(lengths, lengths[s] as int),
{
    lemma_count_take_step(lengths, s, lengths[s] as int);
    lemma_count_take_mono(lengths, s + 1, lengths.len() as int, lengths[s] as int);
    lemma_take_full(lengths);
}

// ---------------------------------------------------------------------------
// Bit reader

/// LSB-first bit reader over a byte slice.
struct BitReader<'a> {
    data: &'a [u8],
    byte_pos: usize,
    bit_pos: u32,
}

impl<'a> BitReader<'a> {
    /// Absolute bit position.
    spec fn pos(&self) -> int {
        self.byte_pos * 8 + self.bit_pos
    }

    spec fn wf(&self) -> bool {
        &&& self.bit_pos < 8
        &&& self.byte_pos <= self.data@.len()
        &&& self.byte_pos == self.data@.len() ==> self.bit_pos == 0
        &&& self.data@.len() <= usize::MAX / 8
    }

    fn new(data: &'a [u8]) -> (r: Self)
        requires
            data@.len() <= usize::MAX / 8,
        ensures
            r.wf(),
            r.data@ == data@,
            r.pos() == 0,
    {
        BitReader { data, byte_pos: 0, bit_pos: 0 }
    }

    fn take_bit(&mut self) -> (r: Result<u32, MmnError>)
        requires
            old(self).wf(),
        ensures
            final(self).wf(),
            final(self).data@ == old(self).data@,
            old(self).pos() < nbits(old(self).data@) ==> (r matches Ok(b) && b == spec_bit(old(self).data@, old(self).pos())
                && final(self).pos() == old(self).pos() + 1),
            old(self).pos() >= nbits(old(self).data@) ==> r is Err,
    {
        if self.byte_pos >= self.data.len() {
            return Err(MmnError::new("deflate stream truncated"));
        }
        let byte = self.data[self.byte_pos];
        let bit = (byte >> (self.bit_pos as u8)) & 1u8;
        proof {
            let p = self.pos();
            assert(p / 8 == self.byte_pos as int);
            assert(p % 8 == self.bit_pos as int);
        }
        self.bit_pos = self.bit_pos + 1;
        if self.bit_pos == 8 {
            self.bit_pos = 0;
            self.byte_pos = self.byte_pos + 1;
        }
        Ok(bit as u32)
    }

    fn take_bits(&mut self, n: u32) -> (r: Result<u32, MmnError>)
        requires
            old(self).wf(),
            n <= 16,
        ensures
            final(self).wf(),
            final(self).data@ == old(self).data@,
            old(self).pos() + n <= nbits(old(self).data@) ==> (r matches Ok(v) && v == bits_lsb(old(self).data@, old(self).pos(), n as nat)
                && final(self).pos() == old(self).pos() + n),
            old(self).pos() + n > nbits(old(self).data@) ==> r is Err,
    {
        let mut out: u32 = 0;
        let mut mult: u32 = 1;
        let mut i: u32 = 0;
        let ghost p0 = self.pos();
        while i < n
            invariant
                self.wf(),
                self.data@ == old(self).data@,
                p0 == old(self).pos(),
                i <= n <= 16,
                self.pos() == p0 + i,
                mult == two_pow(i as nat),
                out == bits_lsb(self.data@, p0, i as nat),
                out < mult,
            decreases n - i,
        {
            let bit = match self.take_bit() {
                Ok(b) => b,
                Err(e) => return Err(e),
            };
            proof {
                lemma_bit_is_bit(self.data@, p0 + i);
                assert(two_pow(15) == 32768) by {
                    reveal_with_fuel(two_pow, 16);
                }
                lemma_two_pow_mono(i as nat, 15);
            }
            if bit == 1 {
                out = out + mult;
            }
            proof {
                assert(two_pow(16) == 65536) by {
                    reveal_with_fuel(two_pow, 17);
                }
                lemma_two_pow_mono(i as nat + 1, 16);
            }
            proof {
                let sb = spec_bit(self.data@, p0 + i);
                assert(sb == bit);
                if bit == 1 {
                    assert(sb * two_pow(i as nat) == mult);
                } else {
                    assert(sb == 0);
                    assert(sb * two_pow(i as nat) == 0);
                }
                assert(bits_lsb(self.data@, p0, (i + 1) as nat) == bits_lsb(self.data@, p0, i as nat)
                    + sb * two_pow(i as nat));
            }
            mult = mult * 2;
            i = i + 1;
        }
        Ok(out)
    }

    fn align_to_byte(&mut self)
        requires
            old(self).wf(),
        ensures
            final(self).wf(),
            final(self).data@ == old(self).data@,
            final(self).bit_pos == 0,
            final(self).pos() == if old(self).pos() % 8 == 0 { old(self).pos() } else { old(self).pos() + 8 - old(self).pos() % 8 },
    {
        if self.bit_pos != 0 {
            self.bit_pos = 0;
            self.byte_pos = self.byte_pos + 1;
        }
    }

    fn take_bytes(&mut self, n: usize) -> (r: Result<&'a [u8], MmnError>)
        requires
            old(self).wf(),
            old(self).bit_pos == 0,
        ensures
            final(self).wf(),
            final(self).data@ == old(self).data@,
            old(self).byte_pos + n <= old(self).data@.len() ==> (r matches Ok(s)
                && s@ == old(self).data@.subrange(old(self).byte_pos as int, old(self).byte_pos + n)
                && final(self).byte_pos == old(self).byte_pos + n && final(self).bit_pos == 0),
            old(self).byte_pos + n > old(self).data@.len() ==> r is Err,
    {
        if n > self.data.len() - self.byte_pos {
            return Err(MmnError::new("deflate stored block truncated"));
        }
        let end = self.byte_pos + n;
        let slice = sub_slice(self.data, self.byte_pos, end);
        self.byte_pos = end;
        Ok(slice)
    }
}

// ---------------------------------------------------------------------------
// Decoding tables

proof fn lemma_shorter_step(lengths: Seq<u8>, l: nat)
    requires
        l >= 1,
    ensures
        shorter_count(lengths, l + 1) == shorter_count(lengths, l) + count_len(lengths, l as int),
{
}

/// Code-length groups occupy disjoint, ordered ranges of the sorted symbol table.
proof fn lemma_shorter_mono(lengths: Seq<u8>, a: nat, b: nat)
    requires
        1 <= a < b,
    ensures
        shorter_count(lengths, a) + count_len(lengths, a as int) <= shorter_count(lengths, b),
    decreases b,
{
    if a + 1 < b {
        lemma_shorter_mono(lengths, a, (b - 1) as nat);
    }
}

proof fn lemma_shorter_bound(lengths: Seq<u8>, l: nat)
    requires
        1 <= l <= 16,
    ensures
        shorter_count(lengths, l) <= shorter_count(lengths, 16),
{
    if l < 16 {
        lemma_shorter_mono(lengths, l, 16);
    }
}

/// Every code length is at most 15 bits.
pub open spec fn lengths_ok(lengths: Seq<u8>) -> bool {
    forall|i: int| 0 <= i < lengths.len() ==> lengths[i] <= 15
}

/// Canonical Huffman decoding table (counts per length + symbols sorted by length).
struct Huffman {
    counts: Vec<u16>,
    symbols: Vec<u16>,
    lengths: Ghost<Seq<u8>>,
}

impl Huffman {
    spec fn wf(&self) -> bool {
        let lens = self.lengths@;
        &&& lens.len() <= 320
        &&& lengths_ok(lens)
        &&& self.counts@.len() == 16
        &&& forall|l: int| 1 <= l <= 15 ==> self.counts@[l] == count_len(lens, l)
        &&& self.symbols@.len() == shorter_count(lens, 16)
        &&& forall|l: int, r: nat|
            1 <= l <= 15 && r < count_len(lens, l) ==> self.symbols@[(shorter_count(lens, l as nat) + r) as int]
                == #[trigger] symbol_of_rank(lens, l, r)
    }

    fn from_lengths(lengths: &[u8]) -> (r: Result<Huffman, MmnError>)
        requires
            lengths@.len() <= 320,
        ensures
            r is Ok <==> lengths_ok(lengths@),
            r matches Ok(h) ==> h.wf() && h.lengths@ == lengths@,
    {
        let counts = match count_lengths(lengths) {
            Some(c) => c,
            None => return Err(MmnError::new("deflate code length exceeds 15 bits")),
        };
        let offsets = group_offsets(lengths, &counts);
        let symbols = sort_symbols(lengths, &counts, offsets);
        Ok(Huffman { counts, symbols, lengths: Ghost(lengths@) })
    }

    /// Decode one symbol, reading its code bits most-significant first.
    #[verifier::spinoff_prover]
    #[verifier::rlimit(40)]
    fn decode(&self, reader: &mut BitReader<'_>) -> (r: Result<u16, MmnError>)
        requires
            self.wf(),
            old(reader).wf(),
        ensures
            final(reader).wf(),
            final(reader).data@ == old(reader).data@,
            match huff_decode(self.lengths@, old(reader).data@, old(reader).pos()) {
                Some((sym, q)) => r matches Ok(x) && x == sym && final(reader).pos() == q,
                None => r is Err,
            },
    {
        let ghost lens = self.lengths@;
        let ghost data = reader.data@;
        let ghost p0 = reader.pos();
        let mut code: u32 = 0;
        let mut first: u32 = 0;
        let mut index: u32 = 0;
        let mut len: usize = 1;
        proof {
            reveal_with_fuel(two_pow, 2);
            lemma_shorter_count_bound(lens, 16);
        }
        while len <= MAX_BITS
            invariant
                self.wf(),
                lens == self.lengths@,
                reader.wf(),
                reader.data@ == data,
                data == old(reader).data@,
                p0 == old(reader).pos(),
                shorter_count(lens, 16) <= 320,
                1 <= len <= 16,
                reader.pos() == p0 + len - 1,
                code == 2 * bits_msb(data, p0, (len - 1) as nat),
                first == first_code(lens, len as nat),
                index == shorter_count(lens, len as nat),
                first <= code,
                code < two_pow(len as nat),
                huff_decode(lens, data, p0) == huff_decode_from(lens, data, p0, len as nat),
            decreases 16 - len,
        {
            let bit = match reader.take_bit() {
                Ok(b) => b,
                Err(e) => return Err(e),
            };
            proof {
                lemma_bit_is_bit(data, p0 + len - 1);
                assert(bits_msb(data, p0, len as nat) == 2 * bits_msb(data, p0, (len - 1) as nat) + spec_bit(data, p0 + len - 1));
                assert(two_pow(16) == 65536) by {
                    reveal_with_fuel(two_pow, 17);
                }
                lemma_two_pow_mono(len as nat, 16);
                lemma_shorter_bound(lens, len as nat);
                lemma_count_len_bound(lens, len as int);
                assert(two_pow((len + 1) as nat) == 2 * two_pow(len as nat));
            }
            code = code + bit;
            let count = self.counts[len] as u32;
            if code - first < count {
                proof {
                    let rr = (code - first) as nat;
                    lemma_shorter_step(lens, len as nat);
                    lemma_shorter_bound(lens, (len + 1) as nat);
                    assert(self.symbols@[(shorter_count(lens, len as nat) + rr) as int] == symbol_of_rank(lens, len as int, rr));
                }
                let sym = self.symbols[(index + (code - first)) as usize];
                return Ok(sym);
            }
            proof {
                lemma_shorter_step(lens, len as nat);
                lemma_shorter_bound(lens, (len + 1) as nat);
            }
            index = index + count;
            first = (first + count) * 2;
            code = code * 2;
            len = len + 1;
        }
        Err(MmnError::new("invalid deflate Huffman code"))
    }
}

/// How many symbols have each code length (`None` if a length exceeds 15).
fn count_lengths(lengths: &[u8]) -> (r: Option<Vec<u16>>)
    requires
        lengths@.len() <= 320,
    ensures
        r is Some <==> lengths_ok(lengths@),
        r matches Some(counts) ==> counts@.len() == 16
            && forall|l: int| 0 <= l < 16 ==> counts@[l] == count_len(lengths@, l),
{
    let ghost lens = lengths@;
    let n = lengths.len();
    let mut counts: Vec<u16> = Vec::new();
    let mut z: usize = 0;
    while z < 16
        invariant
            z <= 16,
            counts@.len() == z,
            forall|l: int| 0 <= l < z ==> counts@[l] == 0,
        decreases 16 - z,
    {
        counts.push(0);
        z = z + 1;
    }
    proof {
        assert(lens.take(0) =~= Seq::<u8>::empty());
    }
    let mut i: usize = 0;
    while i < n
        invariant
            lengths@ == lens,
            n == lens.len(),
            n <= 320,
            i <= n,
            counts@.len() == 16,
            forall|l: int| 0 <= l < 16 ==> counts@[l] == count_len(lens.take(i as int), l),
            forall|k: int| 0 <= k < i ==> lens[k] <= 15,
        decreases n - i,
    {
        let len = lengths[i];
        if len as usize > MAX_BITS {
            return None;
        }
        proof {
            assert forall|l: int| 0 <= l < 16 implies count_len(lens.take(i + 1), l) == count_len(lens.take(i as int), l)
                + if lens[i as int] == l { 1nat } else { 0nat } by {
                lemma_count_take_step(lens, i as int, l);
            }
            lemma_count_len_bound(lens.take(i as int), len as int);
        }
        let c = counts[len as usize];
        counts.set(len as usize, c + 1);
        i = i + 1;
    }
    proof {
        lemma_take_full(lens);
    }
    Some(counts)
}

/// `offsets[l]` = index of the first length-`l` symbol in the sorted table.
fn group_offsets(lengths: &[u8], counts: &Vec<u16>) -> (offsets: Vec<u16>)
    requires
        lengths@.len() <= 320,
        counts@.len() == 16,
        forall|l: int| 0 <= l < 16 ==> counts@[l] == count_len(lengths@, l),
    ensures
        offsets@.len() == 17,
        forall|l: int| 1 <= l <= 16 ==> offsets@[l] == shorter_count(lengths@, l as nat),
{
    let ghost lens = lengths@;
    let mut offsets: Vec<u16> = Vec::new();
    offsets.push(0);
    offsets.push(0);
    let mut len: usize = 1;
    while len <= MAX_BITS
        invariant
            1 <= len <= 16,
            lens == lengths@,
            lens.len() <= 320,
            counts@.len() == 16,
            forall|l: int| 0 <= l < 16 ==> counts@[l] == count_len(lens, l),
            offsets@.len() == len + 1,
            forall|l: int| 1 <= l <= len ==> offsets@[l] == shorter_count(lens, l as nat),
        decreases 16 - len,
    {
        proof {
            lemma_shorter_step(lens, len as nat);
            lemma_count_total(lens, len as nat);
        }
        let next = offsets[len] + counts[len];
        offsets.push(next);
        len = len + 1;
    }
    offsets
}

/// Symbols sorted by (code length, symbol), zero-length symbols left out.
fn sort_symbols(lengths: &[u8], counts: &Vec<u16>, offsets: Vec<u16>) -> (symbols: Vec<u16>)
    requires
        lengths@.len() <= 320,
        lengths_ok(lengths@),
        counts@.len() == 16,
        forall|l: int| 0 <= l < 16 ==> counts@[l] == count_len(lengths@, l),
        offsets@.len() == 17,
        forall|l: int| 1 <= l <= 16 ==> offsets@[l] == shorter_count(lengths@, l as nat),
    ensures
        symbols@.len() == shorter_count(lengths@, 16),
        forall|l: int, r: nat|
            1 <= l <= 15 && r < count_len(lengths@, l) ==> symbols@[(shorter_count(lengths@, l as nat) + r) as int]
                == #[trigger] symbol_of_rank(lengths@, l, r),
{
    let ghost lens = lengths@;
    let n = lengths.len();
    let mut offsets = offsets;
    let total = offsets[16] as usize;
    let mut symbols: Vec<u16> = Vec::new();
    let mut k: usize = 0;
    while k < total
        invariant
            k <= total,
            symbols@.len() == k,
        decreases total - k,
    {
        symbols.push(0);
        k = k + 1;
    }
    proof {
        assert(lens.take(0) =~= Seq::<u8>::empty());
    }
    let mut s: usize = 0;
    while s < n
        invariant
            n == lens.len(),
            n <= 320,
            s <= n,
            lengths_ok(lens),
            lengths@ == lens,
            offsets@.len() == 17,
            symbols@.len() == shorter_count(lens, 16),
            forall|l: int| 1 <= l <= 15 ==> offsets@[l] == shorter_count(lens, l as nat) + count_len(lens.take(s as int), l),
            forall|l: int, r: nat|
                1 <= l <= 15 && r < count_len(lens.take(s as int), l) ==> symbols@[(shorter_count(lens, l as nat) + r) as int]
                    == #[trigger] symbol_of_rank(lens, l, r),
        decreases n - s,
    {
        let len = lengths[s];
        proof {
            assert forall|l: int| 0 <= l < 16 implies count_len(lens.take(s + 1), l) == count_len(lens.take(s as int), l)
                + if lens[s as int] == l { 1nat } else { 0nat } by {
                lemma_count_take_step(lens, s as int, l);
            }
        }
        if len != 0 {
            let ghost l0 = len as int;
            let ghost idx = shorter_count(lens, l0 as nat) + count_len(lens.take(s as int), l0);
            proof {
                assert(rank_of(lens, s as int) == count_len(lens.take(s as int), l0));
                lemma_rank_bound(lens, s as int);
                lemma_symbol_of_rank(lens, s as int);
                lemma_count_total(lens, l0 as nat);
                lemma_shorter_bound(lens, (l0 + 1) as nat);
                lemma_shorter_step(lens, l0 as nat);
                assert(idx < symbols@.len());
                assert forall|l: int, r: nat|
                    1 <= l <= 15 && r < count_len(lens.take(s as int), l) && l != l0
                    implies #[trigger] symbol_of_rank(lens, l, r) == symbol_of_rank(lens, l, r)
                        && shorter_count(lens, l as nat) + r != idx by {
                    lemma_count_take_mono(lens, s as int, n as int, l);
                    lemma_take_full(lens);
                    if l < l0 {
                        lemma_shorter_mono(lens, l as nat, l0 as nat);
                    } else {
                        lemma_shorter_mono(lens, l0 as nat, l as nat);
                    }
                }
            }
            let at = offsets[len as usize];
            let ghost prev = symbols@;
            symbols.set(at as usize, s as u16);
            offsets.set(len as usize, at + 1);
            proof {
                assert forall|l: int, r: nat|
                    1 <= l <= 15 && r < count_len(lens.take(s + 1), l) implies symbols@[(shorter_count(lens, l as nat) + r) as int]
                        == #[trigger] symbol_of_rank(lens, l, r) by {
                    if l != l0 {
                        lemma_count_take_step(lens, s as int, l);
                        assert(r < count_len(lens.take(s as int), l));
                        lemma_count_take_mono(lens, s as int, n as int, l);
                        lemma_take_full(lens);
                        if l < l0 {
                            lemma_shorter_mono(lens, l as nat, l0 as nat);
                        } else {
                            lemma_shorter_mono(lens, l0 as nat, l as nat);
                        }
                        lemma_shorter_mono(lens, l as nat, 16);
                        assert(shorter_count(lens, l as nat) + r != idx);
                        assert(prev[(shorter_count(lens, l as nat) + r) as int] == symbol_of_rank(lens, l, r));
                    } else if r < count_len(lens.take(s as int), l) {
                        lemma_count_take_mono(lens, s as int, n as int, l);
                        lemma_take_full(lens);
                        lemma_shorter_mono(lens, l as nat, 16);
                        assert(shorter_count(lens, l as nat) + r != idx);
                        assert(prev[(shorter_count(lens, l as nat) + r) as int] == symbol_of_rank(lens, l, r));
                    } else {
                        lemma_count_take_step(lens, s as int, l);
                        assert(r == rank_of(lens, s as int));
                        assert(shorter_count(lens, l as nat) + r == idx);
                        assert(symbols@[idx as int] == s as u16);
                        assert(symbol_of_rank(lens, l0, rank_of(lens, s as int)) == s);
                    }
                }
            }
        }
        s = s + 1;
    }
    proof {
        lemma_take_full(lens);
    }
    symbols
}

proof fn lemma_shorter_count_bound(lengths: Seq<u8>, l: nat)
    requires
        l <= 16,
    ensures
        shorter_count(lengths, l) <= lengths.len(),
    decreases l,
{
    if l > 1 {
        lemma_shorter_count_bound(lengths, (l - 1) as nat);
        lemma_count_total(lengths, (l - 1) as nat);
    }
}

/// The symbols of lengths `1..l` are no more than all symbols.
proof fn lemma_count_total(lengths: Seq<u8>, l: nat)
    requires
        1 <= l <= 16,
    ensures
        shorter_count(lengths, l) + count_len(lengths, l as int) <= lengths.len(),
{
    lemma_count_group_total(lengths, l);
}

/// `shorter_count(l) + count_len(l)` counts the symbols with lengths in `1..=l`.
proof fn lemma_count_group_total(lengths: Seq<u8>, l: nat)
    requires
        1 <= l <= 16,
    ensures
        shorter_count(lengths, l) + count_len(lengths, l as int) == count_range(lengths, 1, l as int),
        count_range(lengths, 1, l as int) <= lengths.len(),
    decreases l,
{
    lemma_count_range_bound(lengths, 1, l as int);
    if l > 1 {
        lemma_count_group_total(lengths, (l - 1) as nat);
        lemma_count_range_split(lengths, 1, l as int);
    } else {
        lemma_count_range_split(lengths, 1, 1);
        lemma_count_range_empty(lengths, 1, 0);
    }
}

/// Number of symbols whose length lies in `lo..=hi`.
pub open spec fn count_range(lengths: Seq<u8>, lo: int, hi: int) -> nat
    decreases lengths.len(),
{
    if lengths.len() == 0 {
        0
    } else {
        count_range(lengths.drop_last(), lo, hi) + if lo <= lengths.last() <= hi { 1nat } else { 0nat }
    }
}

proof fn lemma_count_range_empty(lengths: Seq<u8>, lo: int, hi: int)
    requires
        hi < lo,
    ensures
        count_range(lengths, lo, hi) == 0,
    decreases lengths.len(),
{
    if lengths.len() > 0 {
        lemma_count_range_empty(lengths.drop_last(), lo, hi);
    }
}

proof fn lemma_count_range_bound(lengths: Seq<u8>, lo: int, hi: int)
    ensures
        count_range(lengths, lo, hi) <= lengths.len(),
    decreases lengths.len(),
{
    if lengths.len() > 0 {
        lemma_count_range_bound(lengths.drop_last(), lo, hi);
    }
}

proof fn lemma_count_range_split(lengths: Seq<u8>, lo: int, hi: int)
    requires
        lo <= hi,
    ensures
        count_range(lengths, lo, hi) == count_range(lengths, lo, hi - 1) + count_len(lengths, hi),
    decreases lengths.len(),
{
    if lengths.len() > 0 {
        lemma_count_range_split(lengths.drop_last(), lo, hi);
    }
}

pub(crate) proof fn lemma_bit_is_bit(data: Seq<u8>, i: int)
    ensures
        spec_bit(data, i) <= 1,
{
    let b = data[i / 8];
    let k = (i % 8) as u8;
    assert((b >> k) & 1u8 <= 1u8) by (bit_vector);
}

proof fn lemma_two_pow_mono(a: nat, b: nat)
    requires
        a <= b,
    ensures
        1 <= two_pow(a) <= two_pow(b),
    decreases b,
{
    if b > 0 {
        if a < b {
            lemma_two_pow_mono(a, (b - 1) as nat);
        } else {
            lemma_two_pow_mono((b - 1) as nat, (b - 1) as nat);
        }
    }
}

/// The sub-slice `s[start..end]`.
fn sub_slice<'a>(s: &'a [u8], start: usize, end: usize) -> (r: &'a [u8])
    requires
        start <= end <= s@.len(),
    ensures
        r@ == s@.subrange(start as int, end as int),
{
    &s[start..end]
}

} // verus!

verus! {

// ---------------------------------------------------------------------------
// RFC 1951 tables

/// Base match length of length symbol `257 + i`.
pub open spec fn length_base(i: int) -> nat {
    if i == 0 { 3 } else
    if i == 1 { 4 } else
    if i == 2 { 5 } else
    if i == 3 { 6 } else
    if i == 4 { 7 } else
    if i == 5 { 8 } else
    if i == 6 { 9 } else
    if i == 7 { 10 } else
    if i == 8 { 11 } else
    if i == 9 { 13 } else
    if i == 10 { 15 } else
    if i == 11 { 17 } else
    if i == 12 { 19 } else
    if i == 13 { 23 } else
    if i == 14 { 27 } else
    if i == 15 { 31 } else
    if i == 16 { 35 } else
    if i == 17 { 43 } else
    if i == 18 { 51 } else
    if i == 19 { 59 } else
    if i == 20 { 67 } else
    if i == 21 { 83 } else
    if i == 22 { 99 } else
    if i == 23 { 115 } else
    if i == 24 { 131 } else
    if i == 25 { 163 } else
    if i == 26 { 195 } else
    if i == 27 { 227 } else { 258 }
}

/// Extra bits of length symbol `257 + i`.
pub open spec fn length_extra(i: int) -> nat {
    if i == 0 { 0 } else
    if i == 1 { 0 } else
    if i == 2 { 0 } else
    if i == 3 { 0 } else
    if i == 4 { 0 } else
    if i == 5 { 0 } else
    if i == 6 { 0 } else
    if i == 7 { 0 } else
    if i == 8 { 1 } else
    if i == 9 { 1 } else
    if i == 10 { 1 } else
    if i == 11 { 1 } else
    if i == 12 { 2 } else
    if i == 13 { 2 } else
    if i == 14 { 2 } else
    if i == 15 { 2 } else
    if i == 16 { 3 } else
    if i == 17 { 3 } else
    if i == 18 { 3 } else
    if i == 19 { 3 } else
    if i == 20 { 4 } else
    if i == 21 { 4 } else
    if i == 22 { 4 } else
    if i == 23 { 4 } else
    if i == 24 { 5 } else
    if i == 25 { 5 } else
    if i == 26 { 5 } else
    if i == 27 { 5 } else { 0 }
}

/// Base distance of distance symbol `i`.
pub open spec fn dist_base(i: int) -> nat {
    if i == 0 { 1 } else
    if i == 1 { 2 } else
    if i == 2 { 3 } else
    if i == 3 { 4 } else
    if i == 4 { 5 } else
    if i == 5 { 7 } else
    if i == 6 { 9 } else
    if i == 7 { 13 } else
    if i == 8 { 17 } else
    if i == 9 { 25 } else
    if i == 10 { 33 } else
    if i == 11 { 49 } else
    if i == 12 { 65 } else
    if i == 13 { 97 } else
    if i == 14 { 129 } else
    if i == 15 { 193 } else
    if i == 16 { 257 } else
    if i == 17 { 385 } else
    if i == 18 { 513 } else
    if i == 19 { 769 } else
    if i == 20 { 1025 } else
    if i == 21 { 1537 } else
    if i == 22 { 2049 } else
    if i == 23 { 3073 } else
    if i == 24 { 4097 } else
    if i == 25 { 6145 } else
    if i == 26 { 8193 } else
    if i == 27 { 12289 } else
    if i == 28 { 16385 } else { 24577 }
}

/// Extra bits of distance symbol `i`.
pub open spec fn dist_extra(i: int) -> nat {
    if i == 0 { 0 } else
    if i == 1 { 0 } else
    if i == 2 { 0 } else
    if i == 3 { 0 } else
    if i == 4 { 1 } else
    if i == 5 { 1 } else
    if i == 6 { 2 } else
    if i == 7 { 2 } else
    if i == 8 { 3 } else
    if i == 9 { 3 } else
    if i == 10 { 4 } else
    if i == 11 { 4 } else
    if i == 12 { 5 } else
    if i == 13 { 5 } else
    if i == 14 { 6 } else
    if i == 15 { 6 } else
    if i == 16 { 7 } else
    if i == 17 { 7 } else
    if i == 18 { 8 } else
    if i == 19 { 8 } else
    if i == 20 { 9 } else
    if i == 21 { 9 } else
    if i == 22 { 10 } else
    if i == 23 { 10 } else
    if i == 24 { 11 } else
    if i == 25 { 11 } else
    if i == 26 { 12 } else
    if i == 27 { 12 } else
    if i == 28 { 13 } else { 13 }
}

/// Position of the `i`-th stored code-length code length.
pub open spec fn clen_order(i: int) -> nat {
    if i == 0 { 16 } else
    if i == 1 { 17 } else
    if i == 2 { 18 } else
    if i == 3 { 0 } else
    if i == 4 { 8 } else
    if i == 5 { 7 } else
    if i == 6 { 9 } else
    if i == 7 { 6 } else
    if i == 8 { 10 } else
    if i == 9 { 5 } else
    if i == 10 { 11 } else
    if i == 11 { 4 } else
    if i == 12 { 12 } else
    if i == 13 { 3 } else
    if i == 14 { 13 } else
    if i == 15 { 2 } else
    if i == 16 { 14 } else
    if i == 17 { 1 } else { 15 }
}

/// Base match length of length symbol `257 + i`.
pub(crate) fn length_base_of(i: usize) -> (v: u16)
    requires
        i < 29,
    ensures
        v as nat == length_base(i as int),
{
    match i {
        0 => 3,
        1 => 4,
        2 => 5,
        3 => 6,
        4 => 7,
        5 => 8,
        6 => 9,
        7 => 10,
        8 => 11,
        9 => 13,
        10 => 15,
        11 => 17,
        12 => 19,
        13 => 23,
        14 => 27,
        15 => 31,
        16 => 35,
        17 => 43,
        18 => 51,
        19 => 59,
        20 => 67,
        21 => 83,
        22 => 99,
        23 => 115,
        24 => 131,
        25 => 163,
        26 => 195,
        27 => 227,
        _ => 258,
    }
}

/// Extra bits of length symbol `257 + i`.
pub(crate) fn length_extra_of(i: usize) -> (v: u32)
    requires
        i < 29,
    ensures
        v as nat == length_extra(i as int),
{
    match i {
        0 => 0,
        1 => 0,
        2 => 0,
        3 => 0,
        4 => 0,
        5 => 0,
        6 => 0,
        7 => 0,
        8 => 1,
        9 => 1,
        10 => 1,
        11 => 1,
        12 => 2,
        13 => 2,
        14 => 2,
        15 => 2,
        16 => 3,
        17 => 3,
        18 => 3,
        19 => 3,
        20 => 4,
        21 => 4,
        22 => 4,
        23 => 4,
        24 => 5,
        25 => 5,
        26 => 5,
        27 => 5,
        _ => 0,
    }
}

/// Base distance of distance symbol `i`.
pub(crate) fn dist_base_of(i: usize) -> (v: u16)
    requires
        i < 30,
    ensures
        v as nat == dist_base(i as int),
{
    match i {
        0 => 1,
        1 => 2,
        2 => 3,
        3 => 4,
        4 => 5,
        5 => 7,
        6 => 9,
        7 => 13,
        8 => 17,
        9 => 25,
        10 => 33,
        11 => 49,
        12 => 65,
        13 => 97,
        14 => 129,
        15 => 193,
        16 => 257,
        17 => 385,
        18 => 513,
        19 => 769,
        20 => 1025,
        21 => 1537,
        22 => 2049,
        23 => 3073,
        24 => 4097,
        25 => 6145,
        26 => 8193,
        27 => 12289,
        28 => 16385,
        _ => 24577,
    }
}

/// Extra bits of distance symbol `i`.
pub(crate) fn dist_extra_of(i: usize) -> (v: u32)
    requires
        i < 30,
    ensures
        v as nat == dist_extra(i as int),
{
    match i {
        0 => 0,
        1 => 0,
        2 => 0,
        3 => 0,
        4 => 1,
        5 => 1,
        6 => 2,
        7 => 2,
        8 => 3,
        9 => 3,
        10 => 4,
        11 => 4,
        12 => 5,
        13 => 5,
        14 => 6,
        15 => 6,
        16 => 7,
        17 => 7,
        18 => 8,
        19 => 8,
        20 => 9,
        21 => 9,
        22 => 10,
        23 => 10,
        24 => 11,
        25 => 11,
        26 => 12,
        27 => 12,
        28 => 13,
        _ => 13,
    }
}

/// Position of the `i`-th stored code-length code length.
fn clen_order_of(i: usize) -> (v: usize)
    requires
        i < 19,
    ensures
        v as nat == clen_order(i as int),
{
    match i {
        0 => 16,
        1 => 17,
        2 => 18,
        3 => 0,
        4 => 8,
        5 => 7,
        6 => 9,
        7 => 6,
        8 => 10,
        9 => 5,
        10 => 11,
        11 => 4,
        12 => 12,
        13 => 3,
        14 => 13,
        15 => 2,
        16 => 14,
        17 => 1,
        _ => 15,
    }
}

} // verus!

verus! {

// ---------------------------------------------------------------------------
// Compressed blocks

/// Decoding of the literal/length and distance symbols of a compressed block
/// from bit `p`, appending to `out`: the output and the bit just past the
/// end-of-block symbol.
pub open spec fn inflate_symbols(lit: Seq<u8>, dist: Seq<u8>, data: Seq<u8>, p: int, out: Seq<u8>) -> Option<(Seq<u8>, int)>
    decreases nbits(data) - p,
{
    match huff_decode(lit, data, p) {
        None => None,
        Some((sym, p1)) => if p1 <= p || p1 > nbits(data) {
            None
        } else if sym < 256 {
            inflate_symbols(lit, dist, data, p1, out.push(sym as u8))
        } else if sym == 256 {
            Some((out, p1))
        } else if sym <= 285 {
            match length_match(dist, data, p1, sym - 257, out) {
                None => None,
                Some((out2, p4)) => if p4 <= p1 || p4 > nbits(data) {
                    None
                } else {
                    inflate_symbols(lit, dist, data, p4, out2)
                },
            }
        } else {
            None
        },
    }
}

/// A length symbol `257 + idx` whose code ended at bit `p1`: its extra bits,
/// the distance code and extra bits, and the back-reference they describe.
pub open spec fn length_match(dist: Seq<u8>, data: Seq<u8>, p1: int, idx: int, out: Seq<u8>) -> Option<(Seq<u8>, int)> {
    let eb = length_extra(idx);
    if p1 + eb > nbits(data) {
        None
    } else {
        let length = length_base(idx) + bits_lsb(data, p1, eb);
        match huff_decode(dist, data, p1 + eb) {
            None => None,
            Some((ds, p3)) => if ds >= 30 {
                None
            } else {
                let deb = dist_extra(ds);
                if p3 + deb > nbits(data) {
                    None
                } else {
                    let distance = dist_base(ds) + bits_lsb(data, p3, deb);
                    if distance > out.len() {
                        None
                    } else {
                        Some((back_copy(out, distance as int, length), p3 + deb))
                    }
                }
            },
        }
    }
}

/// Code lengths of the fixed literal/length code.
pub open spec fn fixed_lit_lengths() -> Seq<u8> {
    Seq::new(288, |i: int| if i < 144 { 8u8 } else if i < 256 { 9u8 } else if i < 280 { 7u8 } else { 8u8 })
}

/// Code lengths of the fixed distance code.
pub open spec fn fixed_dist_lengths() -> Seq<u8> {
    Seq::new(30, |i: int| 5u8)
}

proof fn lemma_huff_decode_from_advances(lengths: Seq<u8>, data: Seq<u8>, p: int, len: nat)
    ensures
        huff_decode_from(lengths, data, p, len) matches Some((s, q)) ==> p < q <= nbits(data)
            && q <= p + 15,
    decreases 16 - len,
{
    if !(len < 1 || len > 15 || p < 0 || p + len > nbits(data)) {
        lemma_huff_decode_from_advances(lengths, data, p, len + 1);
    }
}

/// A decoded symbol occupies at least one and at most fifteen bits of the stream.
proof fn lemma_huff_decode_advances(lengths: Seq<u8>, data: Seq<u8>, p: int)
    ensures
        huff_decode(lengths, data, p) matches Some((s, q)) ==> p < q <= nbits(data) && q <= p + 15,
{
    lemma_huff_decode_from_advances(lengths, data, p, 1);
}

proof fn lemma_bits_lsb_bound(data: Seq<u8>, p: int, n: nat)
    ensures
        bits_lsb(data, p, n) < two_pow(n),
    decreases n,
{
    if n > 0 {
        lemma_bits_lsb_bound(data, p, (n - 1) as nat);
        lemma_bit_is_bit(data, p + n - 1);
        if spec_bit(data, p + n - 1) == 1 {
            assert(spec_bit(data, p + n - 1) * two_pow((n - 1) as nat) == two_pow((n - 1) as nat));
        } else {
            let b = spec_bit(data, p + n - 1);
            let t = two_pow((n - 1) as nat);
            assert(b * t == 0) by (nonlinear_arith)
                requires b == 0;
        }
    }
}

/// Decode the symbols of one compressed block into `out`.
fn inflate_block(reader: &mut BitReader<'_>, out: &mut Vec<u8>, litlen: &Huffman, dist: &Huffman) -> (r: Result<(), MmnError>)
    requires
        old(reader).wf(),
        litlen.wf(),
        dist.wf(),
        old(reader).data@.len() <= usize::MAX / 8,
    ensures
        final(reader).wf(),
        final(reader).data@ == old(reader).data@,
        match inflate_symbols(litlen.lengths@, dist.lengths@, old(reader).data@, old(reader).pos(), old(out)@) {
            Some((o, q)) => r is Ok && final(out)@ == o && final(reader).pos() == q,
            None => r is Err,
        },
{
    let ghost data = reader.data@;
    let ghost target = inflate_symbols(litlen.lengths@, dist.lengths@, data, reader.pos(), out@);
    loop
        invariant
            reader.wf(),
            reader.data@ == data,
            data == old(reader).data@,
            litlen.wf(),
            dist.wf(),
            data.len() <= usize::MAX / 8,
            target == inflate_symbols(litlen.lengths@, dist.lengths@, old(reader).data@, old(reader).pos(), old(out)@),
            target == inflate_symbols(litlen.lengths@, dist.lengths@, data, reader.pos(), out@),
        decreases nbits(data) - reader.pos(),
    {
        let ghost p = reader.pos();
        proof {
            lemma_huff_decode_advances(litlen.lengths@, data, p);
        }
        let symbol = match litlen.decode(reader) {
            Ok(s) => s,
            Err(e) => return Err(e),
        };
        if symbol < 256 {
            out.push(symbol as u8);
        } else if symbol == 256 {
            return Ok(());
        } else if symbol <= 285 {
            let ghost p1 = reader.pos();
            match copy_length_match(reader, out, dist, (symbol - 257) as usize) {
                Ok(()) => {},
                Err(e) => return Err(e),
            }
        } else {
            return Err(MmnError::new("invalid deflate literal/length symbol"));
        }
    }
}

} // verus!

verus! {

proof fn lemma_table_bounds(i: int)
    ensures
        0 <= i < 29 ==> length_extra(i) <= 5 && length_base(i) + two_pow(length_extra(i)) <= 259
            && length_base(i) >= 3,
        0 <= i < 30 ==> dist_extra(i) <= 13 && dist_base(i) + two_pow(dist_extra(i)) <= 32769
            && dist_base(i) >= 1,
{
    reveal_with_fuel(two_pow, 14);
}

/// Read the extra bits and distance of a length symbol `257 + idx` and copy
/// the match into `out`.
fn copy_length_match(reader: &mut BitReader<'_>, out: &mut Vec<u8>, dist: &Huffman, idx: usize) -> (r: Result<(), MmnError>)
    requires
        old(reader).wf(),
        dist.wf(),
        idx < 29,
        old(reader).data@.len() <= usize::MAX / 8,
    ensures
        final(reader).wf(),
        final(reader).data@ == old(reader).data@,
        match length_match(dist.lengths@, old(reader).data@, old(reader).pos(), idx as int, old(out)@) {
            Some((o, q)) => r is Ok && final(out)@ == o && final(reader).pos() == q
                && q > old(reader).pos(),
            None => r is Err,
        },
{
    let ghost data = reader.data@;
    let ghost p1 = reader.pos();
    proof {
        lemma_table_bounds(idx as int);
    }
    let eb = length_extra_of(idx);
    let extra = match reader.take_bits(eb) {
        Ok(v) => v,
        Err(e) => return Err(e),
    };
    proof {
        lemma_bits_lsb_bound(data, p1, eb as nat);
        lemma_huff_decode_advances(dist.lengths@, data, reader.pos());
    }
    let length = length_base_of(idx) as usize + extra as usize;
    let dist_symbol = match dist.decode(reader) {
        Ok(s) => s as usize,
        Err(e) => return Err(e),
    };
    if dist_symbol >= 30 {
        return Err(MmnError::new("invalid deflate distance symbol"));
    }
    let ghost p3 = reader.pos();
    proof {
        lemma_table_bounds(dist_symbol as int);
    }
    let deb = dist_extra_of(dist_symbol);
    let dextra = match reader.take_bits(deb) {
        Ok(v) => v,
        Err(e) => return Err(e),
    };
    proof {
        lemma_bits_lsb_bound(data, p3, deb as nat);
    }
    let distance = dist_base_of(dist_symbol) as usize + dextra as usize;
    if distance > out.len() {
        return Err(MmnError::new("deflate back-reference before output start"));
    }
    push_back_copy(out, distance, length);
    proof {
        lemma_back_copy_len(old(out)@, distance as int, length as nat);
    }
    Ok(())
}

} // verus!

verus! {

// ---------------------------------------------------------------------------
// Block headers

/// Code-length code lengths of a dynamic header: the first `k` 3-bit values
/// read from bit `q`, placed in the RFC's permuted order.
pub open spec fn clen_table(data: Seq<u8>, q: int, k: nat) -> Seq<u8>
    decreases k,
{
    if k == 0 {
        Seq::new(19, |i: int| 0u8)
    } else {
        clen_table(data, q, (k - 1) as nat).update(clen_order(k - 1) as int, bits_lsb(data, q + 3 * (k - 1), 3) as u8)
    }
}

/// The literal/length and distance code lengths of a dynamic block, decoded
/// from bit `p` with the code-length code, until `total` lengths are known.
pub open spec fn code_lengths_from(clen: Seq<u8>, data: Seq<u8>, p: int, acc: Seq<u8>, total: nat) -> Option<(Seq<u8>, int)>
    decreases nbits(data) - p,
{
    if acc.len() >= total {
        Some((acc, p))
    } else {
        match huff_decode(clen, data, p) {
            None => None,
            Some((sym, p1)) => if p1 <= p || p1 > nbits(data) {
                None
            } else if sym <= 15 {
                code_lengths_from(clen, data, p1, acc.push(sym as u8), total)
            } else if sym == 16 {
                if acc.len() == 0 || p1 + 2 > nbits(data) {
                    None
                } else {
                    let rep = bits_lsb(data, p1, 2) + 3;
                    if acc.len() + rep > total {
                        None
                    } else {
                        code_lengths_from(clen, data, p1 + 2, acc + Seq::new(rep, |k: int| acc.last()), total)
                    }
                }
            } else if sym == 17 || sym == 18 {
                let nb: nat = if sym == 17 { 3 } else { 7 };
                let base: nat = if sym == 17 { 3 } else { 11 };
                if p1 + nb > nbits(data) {
                    None
                } else {
                    let rep = bits_lsb(data, p1, nb) + base;
                    if acc.len() + rep > total {
                        None
                    } else {
                        code_lengths_from(clen, data, p1 + nb, acc + Seq::new(rep, |k: int| 0u8), total)
                    }
                }
            } else {
                None
            },
        }
    }
}

/// A dynamic block header at bit `p`: literal/length code lengths, distance
/// code lengths, and the bit where the compressed symbols begin.
pub open spec fn dynamic_header(data: Seq<u8>, p: int) -> Option<(Seq<u8>, Seq<u8>, int)> {
    if p + 14 > nbits(data) {
        None
    } else {
        let hlit = bits_lsb(data, p, 5) + 257;
        let hdist = bits_lsb(data, p + 5, 5) + 1;
        let hclen = bits_lsb(data, p + 10, 4) + 4;
        let q = p + 14;
        if hlit > 286 || hdist > 30 || q + 3 * hclen > nbits(data) {
            None
        } else {
            let clen = clen_table(data, q, hclen);
            match code_lengths_from(clen, data, q + 3 * hclen, Seq::empty(), (hlit + hdist) as nat) {
                None => None,
                Some((ls, r)) => Some((ls.take(hlit as int), ls.skip(hlit as int), r)),
            }
        }
    }
}

proof fn lemma_clen_table(data: Seq<u8>, q: int, k: nat)
    requires
        k <= 19,
    ensures
        clen_table(data, q, k).len() == 19,
        forall|i: int| 0 <= i < 19 ==> clen_table(data, q, k)[i] <= 7,
    decreases k,
{
    if k > 0 {
        lemma_clen_table(data, q, (k - 1) as nat);
        lemma_bits_lsb_bound(data, q + 3 * (k - 1), 3);
        reveal_with_fuel(two_pow, 4);
        lemma_clen_order_range(k - 1);
    }
}

proof fn lemma_clen_order_range(i: int)
    requires
        0 <= i < 19,
    ensures
        0 <= clen_order(i) < 19,
{
}

fn fixed_tables() -> (r: Result<(Huffman, Huffman), MmnError>)
    ensures
        r matches Ok((lit, dist)) && lit.wf() && dist.wf() && lit.lengths@ == fixed_lit_lengths()
            && dist.lengths@ == fixed_dist_lengths(),
{
    let mut litlen: Vec<u8> = Vec::new();
    let mut i: usize = 0;
    while i < 288
        invariant
            i <= 288,
            litlen@ == fixed_lit_lengths().take(i as int),
        decreases 288 - i,
    {
        let v: u8 = if i < 144 { 8 } else if i < 256 { 9 } else if i < 280 { 7 } else { 8 };
        litlen.push(v);
        i = i + 1;
        assert(litlen@ =~= fixed_lit_lengths().take(i as int));
    }
    let mut dist: Vec<u8> = Vec::new();
    let mut j: usize = 0;
    while j < 30
        invariant
            j <= 30,
            dist@ == fixed_dist_lengths().take(j as int),
        decreases 30 - j,
    {
        dist.push(5);
        j = j + 1;
        assert(dist@ =~= fixed_dist_lengths().take(j as int));
    }
    proof {
        assert(litlen@ =~= fixed_lit_lengths());
        assert(dist@ =~= fixed_dist_lengths());
    }
    let lit = match Huffman::from_lengths(litlen.as_slice()) {
        Ok(h) => h,
        Err(e) => return Err(e),
    };
    let d = match Huffman::from_lengths(dist.as_slice()) {
        Ok(h) => h,
        Err(e) => return Err(e),
    };
    Ok((lit, d))
}

/// Decode the literal/length and distance code lengths of a dynamic block.
fn read_code_lengths(reader: &mut BitReader<'_>, clen: &Huffman, total: usize) -> (r: Result<Vec<u8>, MmnError>)
    requires
        old(reader).wf(),
        clen.wf(),
        total <= 316,
        forall|i: int| 0 <= i < clen.lengths@.len() ==> clen.lengths@[i] <= 15,
        clen.lengths@.len() == 19,
    ensures
        final(reader).wf(),
        final(reader).data@ == old(reader).data@,
        match code_lengths_from(clen.lengths@, old(reader).data@, old(reader).pos(), Seq::empty(), total as nat) {
            Some((ls, q)) => r matches Ok(v) && v@ == ls && final(reader).pos() == q,
            None => r is Err,
        },
{
    let ghost data = reader.data@;
    let ghost target = code_lengths_from(clen.lengths@, data, reader.pos(), Seq::empty(), total as nat);
    let mut lengths: Vec<u8> = Vec::new();
    let mut z: usize = 0;
    while z < total
        invariant
            z <= total,
            lengths@.len() == z,
            forall|k: int| 0 <= k < z ==> lengths@[k] == 0,
        decreases total - z,
    {
        lengths.push(0);
        z = z + 1;
    }
    let mut i: usize = 0;
    proof {
        assert(lengths@.take(0) =~= Seq::<u8>::empty());
    }
    while i < total
        invariant
            reader.wf(),
            reader.data@ == data,
            data == old(reader).data@,
            clen.wf(),
            total <= 316,
            i <= total,
            lengths@.len() == total,
            forall|k: int| i <= k < total ==> lengths@[k] == 0,
            target == code_lengths_from(clen.lengths@, old(reader).data@, old(reader).pos(), Seq::empty(), total as nat),
            target == code_lengths_from(clen.lengths@, data, reader.pos(), lengths@.take(i as int), total as nat),
        decreases nbits(data) - reader.pos(),
    {
        let ghost p = reader.pos();
        let ghost acc = lengths@.take(i as int);
        proof {
            lemma_huff_decode_advances(clen.lengths@, data, p);
        }
        let symbol = match clen.decode(reader) {
            Ok(s) => s,
            Err(e) => return Err(e),
        };
        let ghost p1 = reader.pos();
        if symbol <= 15 {
            lengths.set(i, symbol as u8);
            i = i + 1;
            proof {
                assert(lengths@.take(i as int) =~= acc.push(symbol as u8));
            }
        } else if symbol == 16 {
            if i == 0 {
                return Err(MmnError::new("deflate repeat with no previous length"));
            }
            let prev = lengths[i - 1];
            let bits = match reader.take_bits(2) {
                Ok(v) => v,
                Err(e) => return Err(e),
            };
            proof {
                lemma_bits_lsb_bound(data, p1, 2);
                reveal_with_fuel(two_pow, 3);
                assert(acc.last() == prev);
            }
            let repeat = bits as usize + 3;
            if repeat > total - i {
                return Err(MmnError::new("deflate length repeat overflow"));
            }
            let start = i;
            let mut k: usize = 0;
            while k < repeat
                invariant
                    start + repeat <= total,
                    lengths@.len() == total,
                    k <= repeat,
                    i == start + k,
                    forall|j: int| i <= j < total ==> lengths@[j] == 0,
                    lengths@.take(i as int) =~= acc + Seq::new(k as nat, |x: int| prev),
                decreases repeat - k,
            {
                let ghost before = lengths@;
                proof {
                    assert(before.take(i as int) =~= acc + Seq::new(k as nat, |x: int| prev));
                }
                lengths.set(i, prev);
                i = i + 1;
                k = k + 1;
                proof {
                    let want = acc + Seq::new(k as nat, |x: int| prev);
                    assert forall|j: int| 0 <= j < i implies #[trigger] lengths@.take(i as int)[j] == want[j] by {
                        if j < i - 1 {
                            assert(lengths@[j] == before[j]);
                            assert(before.take(i - 1)[j] == before[j]);
                        }
                    }
                    assert(lengths@.take(i as int) =~= want);
                }
            }
            proof {
                assert(Seq::new(repeat as nat, |x: int| prev) =~= Seq::new((bits_lsb(data, p1, 2) + 3) as nat, |x: int| acc.last()));
            }
        } else if symbol == 17 || symbol == 18 {
            let nb: u32 = if symbol == 17 { 3 } else { 7 };
            let bits = match reader.take_bits(nb) {
                Ok(v) => v,
                Err(e) => return Err(e),
            };
            proof {
                lemma_bits_lsb_bound(data, p1, nb as nat);
                reveal_with_fuel(two_pow, 8);
            }
            let repeat = bits as usize + if symbol == 17 { 3usize } else { 11usize };
            if repeat > total - i {
                return Err(MmnError::new("deflate zero-run overflow"));
            }
            i = i + repeat;
            proof {
                assert(lengths@.take(i as int) =~= acc + Seq::new(repeat as nat, |x: int| 0u8));
            }
        } else {
            return Err(MmnError::new("invalid deflate code-length symbol"));
        }
    }
    proof {
        assert(lengths@.take(i as int) =~= lengths@);
    }
    Ok(lengths)
}

} // verus!

verus! {

proof fn lemma_huff_decode_from_symbol(lengths: Seq<u8>, data: Seq<u8>, p: int, len: nat)
    ensures
        huff_decode_from(lengths, data, p, len) matches Some((sym, q)) ==> 0 <= sym < lengths.len(),
    decreases 16 - len,
{
    if !(len < 1 || len > 15 || p < 0 || p + len > nbits(data)) {
        let v = bits_msb(data, p, len);
        let f = first_code(lengths, len);
        if f <= v < f + count_len(lengths, len as int) {
            lemma_take_full(lengths);
            lemma_rank_exists(lengths, lengths.len() as int, len as int, (v - f) as nat);
        } else {
            lemma_huff_decode_from_symbol(lengths, data, p, len + 1);
        }
    }
}

/// A decoded symbol is one of the code's symbols.
proof fn lemma_huff_decode_symbol(lengths: Seq<u8>, data: Seq<u8>, p: int)
    ensures
        huff_decode(lengths, data, p) matches Some((sym, q)) ==> 0 <= sym < lengths.len(),
{
    lemma_huff_decode_from_symbol(lengths, data, p, 1);
}

proof fn lemma_code_lengths_ok(clen: Seq<u8>, data: Seq<u8>, p: int, acc: Seq<u8>, total: nat)
    requires
        lengths_ok(acc),
        acc.len() <= total,
    ensures
        code_lengths_from(clen, data, p, acc, total) matches Some((ls, q)) ==> lengths_ok(ls) && ls.len() == total,
    decreases nbits(data) - p,
{
    if acc.len() >= total {
    } else {
        match huff_decode(clen, data, p) {
            None => {},
            Some((sym, p1)) => {
                lemma_huff_decode_symbol(clen, data, p);
                if p1 <= p || p1 > nbits(data) {
                } else if sym <= 15 {
                    let nxt = acc.push(sym as u8);
                    assert(lengths_ok(nxt)) by {
                        assert forall|i: int| 0 <= i < nxt.len() implies nxt[i] <= 15 by {
                            if i < acc.len() {
                                assert(nxt[i] == acc[i]);
                            }
                        }
                    }
                    lemma_code_lengths_ok(clen, data, p1, nxt, total);
                } else if sym == 16 {
                    if !(acc.len() == 0 || p1 + 2 > nbits(data)) {
                        let rep = bits_lsb(data, p1, 2) + 3;
                        if acc.len() + rep <= total {
                            let nxt = acc + Seq::new(rep, |k: int| acc.last());
                            assert(lengths_ok(nxt)) by {
                                assert forall|i: int| 0 <= i < nxt.len() implies nxt[i] <= 15 by {
                                    if i >= acc.len() {
                                        assert(nxt[i] == acc[acc.len() - 1]);
                                    }
                                }
                            }
                            lemma_code_lengths_ok(clen, data, p1 + 2, nxt, total);
                        }
                    }
                } else if sym == 17 || sym == 18 {
                    let nb: nat = if sym == 17 { 3 } else { 7 };
                    let base: nat = if sym == 17 { 3 } else { 11 };
                    if p1 + nb <= nbits(data) {
                        let rep = bits_lsb(data, p1, nb) + base;
                        if acc.len() + rep <= total {
                            let nxt = acc + Seq::new(rep, |k: int| 0u8);
                            assert(lengths_ok(nxt)) by {
                                assert forall|i: int| 0 <= i < nxt.len() implies nxt[i] <= 15 by {
                                    if i >= acc.len() {
                                        assert(nxt[i] == 0u8);
                                    }
                                }
                            }
                            lemma_code_lengths_ok(clen, data, p1 + nb, nxt, total);
                        }
                    }
                }
            },
        }
    }
}

} // verus!

verus! {

fn dynamic_tables(reader: &mut BitReader<'_>) -> (r: Result<(Huffman, Huffman), MmnError>)
    requires
        old(reader).wf(),
    ensures
        final(reader).wf(),
        final(reader).data@ == old(reader).data@,
        match dynamic_header(old(reader).data@, old(reader).pos()) {
            Some((l1, l2, q)) => r matches Ok((a, b)) && a.wf() && b.wf() && a.lengths@ == l1 && b.lengths@ == l2
                && final(reader).pos() == q,
            None => r is Err,
        },
{
    let ghost data = reader.data@;
    let ghost p = reader.pos();
    let b1 = match reader.take_bits(5) {
        Ok(v) => v,
        Err(e) => return Err(e),
    };
    let b2 = match reader.take_bits(5) {
        Ok(v) => v,
        Err(e) => return Err(e),
    };
    let b3 = match reader.take_bits(4) {
        Ok(v) => v,
        Err(e) => return Err(e),
    };
    proof {
        lemma_bits_lsb_bound(data, p, 5);
        lemma_bits_lsb_bound(data, p + 5, 5);
        lemma_bits_lsb_bound(data, p + 10, 4);
        reveal_with_fuel(two_pow, 6);
    }
    let hlit = b1 as usize + 257;
    let hdist = b2 as usize + 1;
    let hclen = b3 as usize + 4;
    if hlit > 286 || hdist > 30 {
        return Err(MmnError::new("invalid deflate dynamic header counts"));
    }
    let ghost q = reader.pos();
    let mut clen_lengths: Vec<u8> = Vec::new();
    let mut z: usize = 0;
    while z < 19
        invariant
            z <= 19,
            clen_lengths@.len() == z,
            forall|k: int| 0 <= k < z ==> clen_lengths@[k] == 0,
        decreases 19 - z,
    {
        clen_lengths.push(0);
        z = z + 1;
    }
    proof {
        assert(clen_lengths@ =~= clen_table(data, q, 0));
    }
    let mut k: usize = 0;
    while k < hclen
        invariant
            reader.wf(),
            reader.data@ == data,
            data == old(reader).data@,
            p == old(reader).pos(),
            q == p + 14,
            hlit == bits_lsb(data, p, 5) + 257,
            hdist == bits_lsb(data, p + 5, 5) + 1,
            hclen == bits_lsb(data, p + 10, 4) + 4,
            hlit <= 286,
            hdist <= 30,
            hclen <= 19,
            k <= hclen,
            reader.pos() == q + 3 * k,
            clen_lengths@ == clen_table(data, q, k as nat),
        decreases hclen - k,
    {
        let ghost pk = reader.pos();
        let v = match reader.take_bits(3) {
            Ok(v) => v,
            Err(e) => return Err(e),
        };
        proof {
            lemma_bits_lsb_bound(data, pk, 3);
            reveal_with_fuel(two_pow, 4);
            lemma_clen_order_range(k as int);
            lemma_clen_table(data, q, k as nat);
        }
        clen_lengths.set(clen_order_of(k), v as u8);
        k = k + 1;
    }
    proof {
        lemma_clen_table(data, q, hclen as nat);
    }
    let clen_table_h = match Huffman::from_lengths(clen_lengths.as_slice()) {
        Ok(h) => h,
        Err(e) => return Err(e),
    };
    let ghost r0 = reader.pos();
    let lengths = match read_code_lengths(reader, &clen_table_h, hlit + hdist) {
        Ok(v) => v,
        Err(e) => return Err(e),
    };
    proof {
        lemma_code_lengths_ok(clen_table_h.lengths@, data, r0, Seq::empty(), (hlit + hdist) as nat);
        let ls = lengths@;
        assert(lengths_ok(ls.take(hlit as int)));
        assert(lengths_ok(ls.skip(hlit as int))) by {
            assert forall|i: int| 0 <= i < ls.skip(hlit as int).len() implies ls.skip(hlit as int)[i] <= 15 by {
                assert(ls.skip(hlit as int)[i] == ls[hlit + i]);
            }
        }
    }
    let lit_slice = sub_slice(lengths.as_slice(), 0, hlit);
    let dist_slice = sub_slice(lengths.as_slice(), hlit, hlit + hdist);
    proof {
        assert(lit_slice@ =~= lengths@.take(hlit as int));
        assert(dist_slice@ =~= lengths@.skip(hlit as int));
    }
    let litlen = match Huffman::from_lengths(lit_slice) {
        Ok(h) => h,
        Err(e) => return Err(e),
    };
    let dist = match Huffman::from_lengths(dist_slice) {
        Ok(h) => h,
        Err(e) => return Err(e),
    };
    Ok((litlen, dist))
}

// ---------------------------------------------------------------------------
// Stream

/// The stored block whose header bits end at `q`: its payload appended to
/// `out`, and the bit just past it.
pub open spec fn stored_block(data: Seq<u8>, q: int, out: Seq<u8>) -> Option<(Seq<u8>, int)> {
    let b = if q % 8 == 0 { q / 8 } else { q / 8 + 1 };
    if b + 4 > data.len() {
        None
    } else {
        let len = le16_at(data, b);
        let nlen = le16_at(data, b + 2);
        if len + nlen != 65535 || b + 4 + len > data.len() {
            None
        } else {
            Some((out + data.subrange(b + 4, b + 4 + len), 8 * (b + 4 + len)))
        }
    }
}

/// The body of a block of type `btype` whose header ends at bit `q`.
pub open spec fn block_body(data: Seq<u8>, q: int, out: Seq<u8>, btype: nat) -> Option<(Seq<u8>, int)> {
    if btype == 0 {
        stored_block(data, q, out)
    } else if btype == 1 {
        inflate_symbols(fixed_lit_lengths(), fixed_dist_lengths(), data, q, out)
    } else if btype == 2 {
        match dynamic_header(data, q) {
            None => None,
            Some((l1, l2, r)) => inflate_symbols(l1, l2, data, r, out),
        }
    } else {
        None
    }
}

/// Decoding of the blocks starting at bit `p`, after producing `out`.
pub open spec fn inflate_from(data: Seq<u8>, p: int, out: Seq<u8>) -> Option<Seq<u8>>
    decreases nbits(data) - p,
{
    if p < 0 || p + 3 > nbits(data) {
        None
    } else {
        let is_final = spec_bit(data, p) == 1;
        let btype = bits_lsb(data, p + 1, 2);
        let q = p + 3;
        match block_body(data, q, out, btype) {
            None => None,
            Some((o, next)) => if is_final {
                Some(o)
            } else if next <= p || next > nbits(data) {
                None
            } else {
                inflate_from(data, next, o)
            },
        }
    }
}

/// The raw DEFLATE stream `data` decompressed (RFC 1951).
pub open spec fn spec_inflate(data: Seq<u8>) -> Option<Seq<u8>> {
    inflate_from(data, 0, Seq::empty())
}

proof fn lemma_inflate_symbols_advance(lit: Seq<u8>, dist: Seq<u8>, data: Seq<u8>, p: int, out: Seq<u8>)
    ensures
        inflate_symbols(lit, dist, data, p, out) matches Some((o, q)) ==> p < q <= nbits(data),
    decreases nbits(data) - p,
{
    match huff_decode(lit, data, p) {
        None => {},
        Some((sym, p1)) => {
            if p1 <= p || p1 > nbits(data) {
            } else if sym < 256 {
                lemma_inflate_symbols_advance(lit, dist, data, p1, out.push(sym as u8));
            } else if sym == 256 {
            } else if sym <= 285 {
                match length_match(dist, data, p1, sym - 257, out) {
                    None => {},
                    Some((out2, p4)) => {
                        if !(p4 <= p1 || p4 > nbits(data)) {
                            lemma_inflate_symbols_advance(lit, dist, data, p4, out2);
                        }
                    },
                }
            }
        },
    }
}

/// Copy the payload of a stored block whose 3 header bits were just read.
fn copy_stored_block(reader: &mut BitReader<'_>, out: &mut Vec<u8>) -> (r: Result<(), MmnError>)
    requires
        old(reader).wf(),
    ensures
        final(reader).wf(),
        final(reader).data@ == old(reader).data@,
        match stored_block(old(reader).data@, old(reader).pos(), old(out)@) {
            Some((o, q)) => r is Ok && final(out)@ == o && final(reader).pos() == q,
            None => r is Err,
        },
{
    let ghost data = reader.data@;
    let ghost q = reader.pos();
    reader.align_to_byte();
    let header = match reader.take_bytes(4) {
        Ok(h) => h,
        Err(e) => return Err(e),
    };
    let len = read_le16(header, 0);
    let nlen = read_le16(header, 2);
    proof {
        let b = if q % 8 == 0 { q / 8 } else { q / 8 + 1 };
        assert(header@ == data.subrange(b, b + 4));
        assert(le16_at(header@, 0) == le16_at(data, b));
        assert(le16_at(header@, 2) == le16_at(data, b + 2));
    }
    if len != 65535 - nlen {
        return Err(MmnError::new("deflate stored block LEN/NLEN mismatch"));
    }
    let payload = match reader.take_bytes(len as usize) {
        Ok(s) => s,
        Err(e) => return Err(e),
    };
    push_all(out, payload);
    Ok(())
}

/// Decode the body of one block of type `block_type`.
fn decode_block_body(reader: &mut BitReader<'_>, out: &mut Vec<u8>, block_type: u32) -> (r: Result<(), MmnError>)
    requires
        old(reader).wf(),
        old(reader).data@.len() <= usize::MAX / 8,
    ensures
        final(reader).wf(),
        final(reader).data@ == old(reader).data@,
        match block_body(old(reader).data@, old(reader).pos(), old(out)@, block_type as nat) {
            Some((o, q)) => r is Ok && final(out)@ == o && final(reader).pos() == q
                && q > old(reader).pos(),
            None => r is Err,
        },
{
    let ghost data = reader.data@;
    let ghost q = reader.pos();
    let ghost before = out@;
    if block_type == 0 {
        copy_stored_block(reader, out)
    } else if block_type == 1 {
        let (litlen, dist) = match fixed_tables() {
            Ok(t) => t,
            Err(e) => return Err(e),
        };
        proof {
            lemma_inflate_symbols_advance(fixed_lit_lengths(), fixed_dist_lengths(), data, q, before);
        }
        inflate_block(reader, out, &litlen, &dist)
    } else if block_type == 2 {
        let (litlen, dist) = match dynamic_tables(reader) {
            Ok(t) => t,
            Err(e) => return Err(e),
        };
        proof {
            lemma_inflate_symbols_advance(litlen.lengths@, dist.lengths@, data, reader.pos(), before);
            lemma_dynamic_header_advance(data, q);
        }
        inflate_block(reader, out, &litlen, &dist)
    } else {
        Err(MmnError::new("invalid deflate block type 3"))
    }
}

proof fn lemma_dynamic_header_advance(data: Seq<u8>, p: int)
    ensures
        dynamic_header(data, p) matches Some((l1, l2, q)) ==> q > p,
{
    if !(p + 14 > nbits(data)) {
        let hlit = bits_lsb(data, p, 5) + 257;
        let hdist = bits_lsb(data, p + 5, 5) + 1;
        let hclen = bits_lsb(data, p + 10, 4) + 4;
        let q = p + 14;
        if !(hlit > 286 || hdist > 30 || q + 3 * hclen > nbits(data)) {
            lemma_code_lengths_advance(clen_table(data, q, hclen), data, q + 3 * hclen, Seq::empty(), (hlit + hdist) as nat);
        }
    }
}

proof fn lemma_code_lengths_advance(clen: Seq<u8>, data: Seq<u8>, p: int, acc: Seq<u8>, total: nat)
    ensures
        code_lengths_from(clen, data, p, acc, total) matches Some((ls, q)) ==> q >= p,
    decreases nbits(data) - p,
{
    if acc.len() < total {
        match huff_decode(clen, data, p) {
            None => {},
            Some((sym, p1)) => {
                if p1 <= p || p1 > nbits(data) {
                } else if sym <= 15 {
                    lemma_code_lengths_advance(clen, data, p1, acc.push(sym as u8), total);
                } else if sym == 16 {
                    if !(acc.len() == 0 || p1 + 2 > nbits(data)) {
                        let rep = bits_lsb(data, p1, 2) + 3;
                        if acc.len() + rep <= total {
                            lemma_code_lengths_advance(clen, data, p1 + 2, acc + Seq::new(rep, |k: int| acc.last()), total);
                        }
                    }
                } else if sym == 17 || sym == 18 {
                    let nb: nat = if sym == 17 { 3 } else { 7 };
                    let base: nat = if sym == 17 { 3 } else { 11 };
                    if p1 + nb <= nbits(data) {
                        let rep = bits_lsb(data, p1, nb) + base;
                        if acc.len() + rep <= total {
                            lemma_code_lengths_advance(clen, data, p1 + nb, acc + Seq::new(rep, |k: int| 0u8), total);
                        }
                    }
                }
            },
        }
    }
}

/// Decompress a raw DEFLATE stream (RFC 1951, no zlib/gzip wrapper).
pub fn inflate(data: &[u8]) -> (r: Result<Vec<u8>, MmnError>)
    requires
        data@.len() <= usize::MAX / 8,
    ensures
        match spec_inflate(data@) {
            Some(out) => r matches Ok(v) && v@ == out,
            None => r is Err,
        },
{
    let mut reader = BitReader::new(data);
    let mut out: Vec<u8> = Vec::with_capacity(data.len() * 3);
    loop
        invariant
            reader.wf(),
            reader.data@ == data@,
            data@.len() <= usize::MAX / 8,
            spec_inflate(data@) == inflate_from(data@, reader.pos(), out@),
        decreases nbits(data@) - reader.pos(),
    {
        let ghost p = reader.pos();
        let ghost before = out@;
        let is_final = match reader.take_bit() {
            Ok(b) => b == 1,
            Err(e) => return Err(e),
        };
        let block_type = match reader.take_bits(2) {
            Ok(v) => v,
            Err(e) => return Err(e),
        };
        let ghost q = reader.pos();
        match decode_block_body(&mut reader, &mut out, block_type) {
            Ok(()) => {},
            Err(e) => return Err(e),
        }
        if is_final {
            return Ok(out);
        }
    }
}

} // verus!
