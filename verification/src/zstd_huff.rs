//! Huffman-coded literals of Zstandard (RFC 8878, 4.2): tree descriptions
//! (direct or FSE-compressed weights), the decoding table built from the
//! weights, and the decoding of one backward literal stream.

use vstd::prelude::*;
use crate::error::MmnError;
use crate::inflate::two_pow;
use crate::zstd_bits::{back_start, back_value, back_rest, BackwardBits, lemma_two_pow_mono_z};
use crate::zstd_fse::{FseEntry, FseTable, high_bit, spec_fse_description, parse_fse_description};
use crate::deflate::pow2_u32;

verus! {

/// A literals decoding table: `2^table_log` cells of (symbol, code length).
pub struct HuffmanTable {
    pub table_log: usize,
    pub entries: Vec<(u8, u8)>,
}

impl HuffmanTable {
    /// At most 11 bits, one cell per `table_log`-bit window, no code longer
    /// than the window.
    pub open spec fn wf(&self) -> bool {
        &&& 1 <= self.table_log <= 11
        &&& self.entries@.len() == two_pow(self.table_log as nat)
        &&& forall|i: int| 0 <= i < self.entries@.len() ==> #[trigger] self.entries@[i].1 <= self.table_log
    }
}

/// The share of the table a weight stands for: `2^(w-1)` cells, none for 0.
pub open spec fn weight_value(w: u8) -> nat {
    if w == 0 { 0 } else { two_pow((w - 1) as nat) }
}

pub open spec fn weight_sum(ws: Seq<u8>) -> nat
    decreases ws.len(),
{
    if ws.len() == 0 { 0 } else { weight_sum(ws.drop_last()) + weight_value(ws.last()) }
}

/// `n` cells holding one symbol and its code length.
pub open spec fn huff_run(sym: u8, nb: u8, n: nat) -> Seq<(u8, u8)> {
    Seq::new(n, |i: int| (sym, nb))
}

/// The cells of the symbols of weight `w` from symbol `s` on, then those of
/// every heavier weight up to `tl + 1`: each symbol of weight `w` takes
/// `2^(w-1)` cells with code length `tl + 1 - w`.
pub open spec fn huff_fill(all: Seq<u8>, tl: int, w: int, s: int) -> Seq<(u8, u8)>
    decreases tl + 2 - w, all.len() - s,
{
    if w < 1 || w > tl + 1 || s < 0 {
        Seq::empty()
    } else if s >= all.len() {
        huff_fill(all, tl, w + 1, 0)
    } else if all[s] == w {
        huff_run(s as u8, (tl + 1 - w) as u8, two_pow((w - 1) as nat)) + huff_fill(all, tl, w, s + 1)
    } else {
        huff_fill(all, tl, w, s + 1)
    }
}

/// Whether `v` is a power of two.
pub open spec fn is_pow2(v: int) -> bool {
    v >= 1 && two_pow(high_bit(v) as nat) == v
}

/// The decoding table for explicit `weights` (the last symbol's weight is
/// implied: it completes the sum to a power of two). `None`: all weights
/// zero, a weight above 12 (its share alone exceeds 11 bits), more than 11
/// bits, a remainder that is no power of two, or cells that do not fill the
/// table exactly.
pub open spec fn spec_huffman_table(weights: Seq<u8>) -> Option<(int, Seq<(u8, u8)>)> {
    let sum = weight_sum(weights) as int;
    if exists|i: int| 0 <= i < weights.len() && #[trigger] weights[i] > 12 {
        None
    } else if sum == 0 {
        None
    } else {
        let tl = high_bit(sum) + 1;
        if tl > 11 {
            None
        } else {
            let rest = two_pow(tl as nat) - sum;
            if !is_pow2(rest) {
                None
            } else {
                let all = weights.push((high_bit(rest) + 1) as u8);
                let cells = huff_fill(all, tl, 1, 0);
                if cells.len() != two_pow(tl as nat) { None } else { Some((tl, cells)) }
            }
        }
    }
}

proof fn lemma_two_pow_small()
    ensures
        two_pow(11) == 2048,
        two_pow(12) == 4096,
{
    reveal_with_fuel(two_pow, 13);
}

proof fn lemma_weight_sum_bound(ws: Seq<u8>)
    requires
        forall|i: int| 0 <= i < ws.len() ==> #[trigger] ws[i] <= 12,
    ensures
        weight_sum(ws) <= ws.len() * 2048,
    decreases ws.len(),
{
    if ws.len() > 0 {
        let w = ws.last();
        assert(ws.drop_last().len() == ws.len() - 1);
        assert forall|i: int| 0 <= i < ws.drop_last().len() implies #[trigger] ws.drop_last()[i] <= 12 by {
            assert(ws.drop_last()[i] == ws[i]);
        }
        lemma_weight_sum_bound(ws.drop_last());
        assert(ws[ws.len() - 1] <= 12);
        if w > 0 {
            lemma_two_pow_mono_z((w - 1) as nat, 11);
            lemma_two_pow_small();
        }
    }
}

proof fn lemma_huff_fill_nb(all: Seq<u8>, tl: int, w: int, s: int)
    requires
        0 <= tl <= 11,
    ensures
        forall|i: int| 0 <= i < huff_fill(all, tl, w, s).len() ==> #[trigger] huff_fill(all, tl, w, s)[i].1 <= tl,
    decreases tl + 2 - w, all.len() - s,
{
    if w < 1 || w > tl + 1 || s < 0 {
    } else if s >= all.len() {
        lemma_huff_fill_nb(all, tl, w + 1, 0);
        assert(huff_fill(all, tl, w, s) == huff_fill(all, tl, w + 1, 0));
    } else if all[s] == w {
        lemma_huff_fill_nb(all, tl, w, s + 1);
        let run = huff_run(s as u8, (tl + 1 - w) as u8, two_pow((w - 1) as nat));
        let rest = huff_fill(all, tl, w, s + 1);
        assert(huff_fill(all, tl, w, s) == run + rest);
        assert forall|i: int| 0 <= i < (run + rest).len() implies #[trigger] (run + rest)[i].1 <= tl by {
            if i < run.len() {
                assert((run + rest)[i] == run[i]);
                assert(0 <= tl + 1 - w <= 11);
                assert(run[i].1 == (tl + 1 - w) as u8);
            } else {
                assert((run + rest)[i] == rest[i - run.len()]);
            }
        }
    } else {
        lemma_huff_fill_nb(all, tl, w, s + 1);
        assert(huff_fill(all, tl, w, s) == huff_fill(all, tl, w, s + 1));
    }
}

proof fn lemma_high_bit_facts(v: int)
    requires
        1 <= v < 0x1_0000_0000,
    ensures
        0 <= high_bit(v) < 32,
        two_pow(high_bit(v) as nat) <= v < 2 * two_pow(high_bit(v) as nat),
{
    crate::zstd_fse::lemma_high_bit_bound(v);
}

/// Build the literals decoding table from explicit weights.
pub fn huffman_from_weights(weights: &[u8]) -> (r: Result<HuffmanTable, MmnError>)
    requires
        weights@.len() <= 256,
    ensures
        match spec_huffman_table(weights@) {
            Some((tl, cells)) => r matches Ok(t) && t.table_log == tl && t.entries@ == cells && t.wf(),
            None => r is Err,
        },
{
    let n = weights.len();
    let mut i: usize = 0;
    let mut sum: u64 = 0;
    while i < n
        invariant
            n == weights@.len() <= 256,
            i <= n,
            forall|j: int| 0 <= j < i ==> #[trigger] weights@[j] <= 12,
            sum == weight_sum(weights@.subrange(0, i as int)),
            sum <= i * 2048,
        decreases n - i,
    {
        let w = weights[i];
        if w > 12 {
            return Err(MmnError::new("zstd Huffman weight too large"));
        }
        proof {
            lemma_two_pow_small();
            assert(weights@.subrange(0, i as int + 1).drop_last() =~= weights@.subrange(0, i as int));
            if w > 0 {
                lemma_two_pow_mono_z((w - 1) as nat, 11);
            }
        }
        if w > 0 {
            sum = sum + pow2_u32((w - 1) as u32) as u64;
        }
        i = i + 1;
    }
    proof {
        assert(weights@.subrange(0, n as int) =~= weights@);
    }
    if sum == 0 {
        return Err(MmnError::new("zstd Huffman weights sum to zero"));
    }
    proof {
        lemma_high_bit_facts(sum as int);
    }
    let hb = crate::zstd_fse::high_bit_of(sum as u32);
    if hb >= 11 {
        return Err(MmnError::new("zstd Huffman table log exceeds 11"));
    }
    let tl: usize = hb as usize + 1;
    proof {
        assert(two_pow(tl as nat) == 2 * two_pow(hb as nat));
        lemma_two_pow_mono_z(tl as nat, 11);
        lemma_two_pow_small();
    }
    let total: u64 = pow2_u32(tl as u32) as u64;
    let rest = total - sum;
    proof {
        lemma_high_bit_facts(rest as int);
        if high_bit(rest as int) >= 12 {
            lemma_two_pow_mono_z(12, high_bit(rest as int) as nat);
        }
    }
    let rb = crate::zstd_fse::high_bit_of(rest as u32);
    if pow2_u32(rb) as u64 != rest {
        return Err(MmnError::new("zstd Huffman weights leave an invalid remainder"));
    }
    let mut all: Vec<u8> = crate::bytes::copy_range(weights, 0, weights.len());
    all.push((rb + 1) as u8);
    let ghost goal = huff_fill(all@, tl as int, 1, 0);
    let mut entries: Vec<(u8, u8)> = Vec::new();
    let mut w: usize = 1;
    while w <= tl + 1
        invariant
            1 <= w <= tl + 2,
            1 <= tl <= 11,
            all@.len() <= 257,
            entries@ + huff_fill(all@, tl as int, w as int, 0) == goal,
        decreases tl + 2 - w,
    {
        let mut s: usize = 0;
        while s < all.len()
            invariant
                1 <= w <= tl + 1,
                1 <= tl <= 11,
                s <= all@.len() <= 257,
                entries@ + huff_fill(all@, tl as int, w as int, s as int) == goal,
            decreases all@.len() - s,
        {
            let ghost e0 = entries@;
            let ghost tail = huff_fill(all@, tl as int, w as int, s as int + 1);
            if all[s] as usize == w {
                proof {
                    lemma_two_pow_mono_z((w - 1) as nat, 11);
                    lemma_two_pow_small();
                }
                let span = pow2_u32((w - 1) as u32) as usize;
                let nb = (tl + 1 - w) as u8;
                let sym = s as u8;
                let mut j: usize = 0;
                while j < span
                    invariant
                        j <= span,
                        entries@ == e0 + huff_run(sym, nb, j as nat),
                    decreases span - j,
                {
                    entries.push((sym, nb));
                    j = j + 1;
                    proof {
                        assert(entries@ =~= e0 + huff_run(sym, nb, j as nat));
                    }
                }
                proof {
                    let run = huff_run(sym, nb, span as nat);
                    assert(huff_fill(all@, tl as int, w as int, s as int) == run + tail);
                    assert((e0 + run) + tail =~= e0 + (run + tail));
                }
            }
            s = s + 1;
        }
        proof {
            assert(huff_fill(all@, tl as int, w as int, all@.len() as int) == huff_fill(all@, tl as int, w as int + 1, 0));
            assert(goal == entries@ + huff_fill(all@, tl as int, w as int + 1, 0));
        }
        w = w + 1;
    }
    proof {
        assert(weights@.subrange(0, weights@.len() as int) =~= weights@);
        assert(huff_fill(all@, tl as int, w as int, 0) =~= Seq::<(u8, u8)>::empty());
        assert(entries@ =~= goal);
        lemma_huff_fill_nb(all@, tl as int, 1, 0);
        assert(all@ =~= weights@.push((high_bit(rest as int) + 1) as u8));
        assert(!(exists|k: int| 0 <= k < weights@.len() && #[trigger] weights@[k] > 12));
    }
    if entries.len() as u64 != total {
        return Err(MmnError::new("zstd Huffman table underfilled"));
    }
    Ok(HuffmanTable { table_log: tl, entries })
}


/// Weights stored four bits each after the header byte, high nibble first.
pub open spec fn direct_weights(bytes: Seq<u8>, n: int) -> Seq<u8> {
    Seq::new(n as nat, |i: int| if i % 2 == 0 { bytes[1 + i / 2] / 16 } else { bytes[1 + i / 2] % 16 })
}

/// FSE-coded weights: two states take turns, each emitting its symbol and
/// then reloading from the backward stream; once a reload needs more bits
/// than are left, the other state's symbol ends the list. `None`: a state
/// outside the table, or more than 255 weights before the end.
pub open spec fn fse_weights(cells: Seq<FseEntry>, stream: Seq<u8>, rem: int, st0: int, st1: int, cur: int, ws: Seq<u8>) -> Option<Seq<u8>>
    decreases 256 - ws.len(),
{
    let s = if cur == 0 { st0 } else { st1 };
    if ws.len() > 255 || s < 0 || s >= cells.len() {
        None
    } else {
        let e = cells[s];
        let ws1 = ws.push(e.symbol as u8);
        if ws1.len() > 255 {
            None
        } else if e.nb_bits as int > rem {
            let o = if cur == 0 { st1 } else { st0 };
            if o < 0 || o >= cells.len() { None } else { Some(ws1.push(cells[o].symbol as u8)) }
        } else {
            let ns = e.baseline as int + back_value(stream, rem, e.nb_bits as nat) as int;
            fse_weights(cells, stream, back_rest(rem, e.nb_bits as nat),
                if cur == 0 { ns } else { st0 }, if cur == 0 { st1 } else { ns }, 1 - cur, ws1)
        }
    }
}

/// The weights of a tree description and the bytes it takes: a header of
/// 128 or more gives `header - 127` direct weights; a smaller one is the
/// length of an FSE-compressed list (a table description, then a backward
/// stream).
pub open spec fn spec_tree_weights(bytes: Seq<u8>) -> Option<(Seq<u8>, int)> {
    if bytes.len() == 0 {
        None
    } else {
        let h = bytes[0] as int;
        if h >= 128 {
            let n = h - 127;
            let packed = (n + 1) / 2;
            if 1 + packed > bytes.len() { None } else { Some((direct_weights(bytes, n), 1 + packed)) }
        } else if 1 + h > bytes.len() {
            None
        } else {
            let comp = bytes.subrange(1, 1 + h);
            match spec_fse_description(comp, 6, 255) {
                None => None,
                Some((cells, log, used)) => {
                    let stream = comp.subrange(used, comp.len() as int);
                    match back_start(stream) {
                        None => None,
                        Some(r0) => {
                            let s0 = back_value(stream, r0, log as nat) as int;
                            let r1 = back_rest(r0, log as nat);
                            let s1 = back_value(stream, r1, log as nat) as int;
                            let r2 = back_rest(r1, log as nat);
                            match fse_weights(cells, stream, r2, s0, s1, 0, Seq::empty()) {
                                None => None,
                                Some(ws) => Some((ws, 1 + h)),
                            }
                        },
                    }
                },
            }
        }
    }
}

/// A tree description: the table's log, its cells, and the bytes it took.
pub open spec fn spec_parse_huffman(bytes: Seq<u8>) -> Option<(int, Seq<(u8, u8)>, int)> {
    match spec_tree_weights(bytes) {
        None => None,
        Some((ws, used)) => match spec_huffman_table(ws) {
            None => None,
            Some((tl, cells)) => Some((tl, cells, used)),
        },
    }
}

fn decode_fse_weights(table: &FseTable, stream: &[u8]) -> (r: Result<Vec<u8>, MmnError>)
    requires
        table.wf(),
        stream@.len() <= usize::MAX / 16,
    ensures
        match back_start(stream@) {
            None => r is Err,
            Some(r0) => {
                let log = table.accuracy_log as nat;
                let s0 = back_value(stream@, r0, log) as int;
                let r1 = back_rest(r0, log);
                let s1 = back_value(stream@, r1, log) as int;
                let r2 = back_rest(r1, log);
                match fse_weights(table.entries@, stream@, r2, s0, s1, 0, Seq::empty()) {
                    None => r is Err,
                    Some(ws) => r matches Ok(v) && v@ == ws,
                }
            },
        },
        r matches Ok(v) ==> v@.len() <= 256,
{
    let mut bits = BackwardBits::new(stream)?;
    let al = table.accuracy_log;
    let mut st0: u64 = bits.read(al);
    let mut st1: u64 = bits.read(al);
    let mut cur: usize = 0;
    let mut weights: Vec<u8> = Vec::new();
    let ghost goal = fse_weights(table.entries@, stream@, bits.remaining as int, st0 as int, st1 as int, 0, Seq::empty());
    loop
        invariant
            table.wf(),
            bits.wf(),
            bits.bytes@ == stream@,
            cur < 2,
            weights@.len() <= 255,
            goal == fse_weights(table.entries@, stream@, bits.remaining as int, st0 as int, st1 as int, cur as int, weights@),
            al == table.accuracy_log,
            back_start(stream@) matches Some(r0) && goal == fse_weights(table.entries@, stream@,
                back_rest(back_rest(r0, al as nat), al as nat), back_value(stream@, r0, al as nat) as int,
                back_value(stream@, back_rest(r0, al as nat), al as nat) as int, 0, Seq::empty()),
        decreases 256 - weights@.len(),
    {
        let s = if cur == 0 { st0 } else { st1 };
        if s >= table.entries.len() as u64 {
            return Err(MmnError::new("zstd Huffman weight state outside its table"));
        }
        let e = table.entries[s as usize];
        weights.push(e.symbol as u8);
        if weights.len() > 255 {
            return Err(MmnError::new("zstd Huffman has too many weights"));
        }
        if e.nb_bits as usize > bits.remaining {
            let o = if cur == 0 { st1 } else { st0 };
            if o >= table.entries.len() as u64 {
                return Err(MmnError::new("zstd Huffman weight state outside its table"));
            }
            weights.push(table.entries[o as usize].symbol as u8);
            return Ok(weights);
        }
        proof {
            assert(e.nb_bits <= table.accuracy_log);
        }
        let v = bits.read(e.nb_bits as usize);
        proof {
            lemma_two_pow_mono_z(e.nb_bits as nat, 12);
            lemma_two_pow_small();
        }
        let ns = e.baseline as u64 + v;
        if cur == 0 {
            st0 = ns;
        } else {
            st1 = ns;
        }
        cur = 1 - cur;
    }
}

/// Parse a tree description into its decoding table; also gives the bytes
/// the description took.
pub fn parse_huffman(bytes: &[u8]) -> (r: Result<(HuffmanTable, usize), MmnError>)
    requires
        bytes@.len() <= usize::MAX / 16,
    ensures
        match spec_parse_huffman(bytes@) {
            Some((tl, cells, used)) => r matches Ok((t, n)) && t.table_log == tl && t.entries@ == cells
                && n == used && t.wf() && n <= bytes@.len(),
            None => r is Err,
        },
{
    if bytes.len() == 0 {
        return Err(MmnError::new("zstd Huffman header missing"));
    }
    let header = bytes[0] as usize;
    if header >= 128 {
        let n = header - 127;
        let packed = (n + 1) / 2;
        if 1 + packed > bytes.len() {
            return Err(MmnError::new("zstd Huffman weights truncated"));
        }
        let mut weights: Vec<u8> = Vec::new();
        let mut i: usize = 0;
        while i < n
            invariant
                n <= 128,
                packed == (n + 1) / 2,
                1 + packed <= bytes@.len(),
                i <= n,
                weights@ == direct_weights(bytes@, n as int).take(i as int),
            decreases n - i,
        {
            let byte = bytes[1 + i / 2];
            weights.push(if i % 2 == 0 { byte / 16 } else { byte % 16 });
            i = i + 1;
            proof {
                assert(weights@ =~= direct_weights(bytes@, n as int).take(i as int));
            }
        }
        proof {
            assert(weights@ =~= direct_weights(bytes@, n as int));
        }
        let table = huffman_from_weights(weights.as_slice())?;
        Ok((table, 1 + packed))
    } else {
        if 1 + header > bytes.len() {
            return Err(MmnError::new("zstd Huffman FSE weights truncated"));
        }
        let compressed = crate::bytes::copy_range(bytes, 1, 1 + header);
        let (table, used) = parse_fse_description(compressed.as_slice(), 6, 255)?;
        let stream = crate::bytes::copy_range(compressed.as_slice(), used, compressed.len());
        let weights = decode_fse_weights(&table, stream.as_slice())?;
        let t = huffman_from_weights(weights.as_slice())?;
        Ok((t, 1 + header))
    }
}

/// Symbols decoded from a backward stream: the current window names a
/// cell, whose symbol is emitted; the window then shifts by the cell's code
/// length and takes that many new bits, until `out_len` symbols are out.
pub open spec fn huff_decode(cells: Seq<(u8, u8)>, tl: nat, stream: Seq<u8>, rem: int, window: int, out_len: int, out: Seq<u8>) -> Seq<u8>
    decreases out_len - out.len(),
{
    let c = cells[window];
    let out1 = out.push(c.0);
    if out1.len() >= out_len {
        out1
    } else {
        huff_decode(cells, tl, stream, back_rest(rem, c.1 as nat),
            (window * two_pow(c.1 as nat) + back_value(stream, rem, c.1 as nat)) % (two_pow(tl) as int), out_len, out1)
    }
}

/// One literal stream of `out_len` symbols (`None`: no sentinel bit).
pub open spec fn spec_huff_stream(cells: Seq<(u8, u8)>, tl: nat, stream: Seq<u8>, out_len: int) -> Option<Seq<u8>> {
    if out_len <= 0 {
        Some(Seq::empty())
    } else {
        match back_start(stream) {
            None => None,
            Some(r0) => Some(huff_decode(cells, tl, stream, back_rest(r0, tl), back_value(stream, r0, tl) as int, out_len, Seq::empty())),
        }
    }
}

/// Decode one Huffman-coded literal stream of known size.
pub fn huffman_decode_stream(table: &HuffmanTable, stream: &[u8], out_len: usize) -> (r: Result<Vec<u8>, MmnError>)
    requires
        table.wf(),
        stream@.len() <= usize::MAX / 16,
    ensures
        match spec_huff_stream(table.entries@, table.table_log as nat, stream@, out_len as int) {
            Some(o) => r matches Ok(v) && v@ == o,
            None => r is Err,
        },
        r matches Ok(v) ==> v@.len() == out_len,
{
    if out_len == 0 {
        return Ok(Vec::new());
    }
    let mut bits = BackwardBits::new(stream)?;
    let tl = table.table_log;
    proof {
        lemma_two_pow_mono_z(tl as nat, 11);
        lemma_two_pow_small();
    }
    let size: u64 = pow2_u32(tl as u32) as u64;
    let mut window: u64 = bits.read(tl);
    let mut out: Vec<u8> = Vec::new();
    let ghost goal = huff_decode(table.entries@, tl as nat, stream@, bits.remaining as int, window as int, out_len as int, Seq::empty());
    loop
        invariant
            table.wf(),
            tl == table.table_log,
            size == two_pow(tl as nat),
            size <= 2048,
            bits.wf(),
            bits.bytes@ == stream@,
            window < size,
            out@.len() < out_len,
            spec_huff_stream(table.entries@, table.table_log as nat, stream@, out_len as int) == Some(goal),
            goal == huff_decode(table.entries@, tl as nat, stream@, bits.remaining as int, window as int, out_len as int, out@),
        decreases out_len - out@.len(),
    {
        let (symbol, nb) = table.entries[window as usize];
        out.push(symbol);
        if out.len() == out_len {
            return Ok(out);
        }
        proof {
            assert(table.entries@[window as int].1 <= table.table_log);
            lemma_two_pow_mono_z(nb as nat, 11);
            lemma_two_pow_small();
        }
        let v = bits.read(nb as usize);
        let p = pow2_u32(nb as u32) as u64;
        proof {
            assert(window * p < 2048 * 2048) by (nonlinear_arith)
                requires window < 2048, p <= 2048;
        }
        let shifted = window * p;
        window = (shifted + v) % size;
    }
}

} // verus!
