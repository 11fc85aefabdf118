//! Finite State Entropy tables of Zstandard (RFC 8878, 4.1): building a
//! decoding table from normalized counts.

use vstd::prelude::*;
use crate::error::MmnError;
use crate::inflate::{bits_lsb, nbits, two_pow};
use crate::zstd_bits::ForwardBits;
use crate::zstd_bits::lemma_two_pow_mono_z;
use crate::deflate::pow2_u32;

verus! {

/// One decoding-table cell: the symbol, how many bits to read for the next
/// state, and the base that those bits are added to.
#[derive(Clone, Copy)]
pub struct FseEntry {
    pub symbol: u16,
    pub nb_bits: u8,
    pub baseline: u16,
}

/// Index of the highest set bit of `v` (for `v >= 1`).
pub open spec fn high_bit(v: int) -> int
    decreases v,
{
    if v < 2 { 0 } else { 1 + high_bit(v / 2) }
}

/// The threshold below which "less than one" symbols live, decremented the
/// way a `usize` wraps.
pub open spec fn dec_wrap(t: int) -> int {
    if t == 0 { usize::MAX as int } else { t - 1 }
}

/// First pass: every symbol of count -1, in order from `s`, takes the slot
/// at the threshold, which then moves down. `None`: a slot outside the table.
pub open spec fn place_low(counts: Seq<i32>, s: int, ht: int, syms: Seq<u16>) -> Option<(Seq<u16>, int)>
    decreases counts.len() - s,
{
    if s < 0 || s >= counts.len() {
        Some((syms, ht))
    } else if counts[s] == -1 {
        if ht >= syms.len() {
            None
        } else {
            place_low(counts, s + 1, dec_wrap(ht), syms.update(ht, s as u16))
        }
    } else {
        place_low(counts, s + 1, ht, syms)
    }
}

/// The first spread position from `q` on that is not above the threshold,
/// stepping by `step` (`None`: none within `fuel` more steps).
pub open spec fn slot_walk(q: int, step: int, size: int, ht: int, fuel: nat) -> Option<int>
    decreases fuel,
{
    if q <= ht {
        Some(q)
    } else if fuel == 0 {
        None
    } else {
        slot_walk((q + step) % size, step, size, ht, (fuel - 1) as nat)
    }
}

/// Second pass: symbol `s` (then the ones after it) placed `k` more times
/// along the spread, starting at position `p`. The result is the table and
/// the final position.
pub open spec fn spread(counts: Seq<i32>, s: int, k: int, p: int, step: int, size: int, ht: int, syms: Seq<u16>) -> Option<(Seq<u16>, int)>
    decreases counts.len() - s, k,
{
    if s < 0 || s >= counts.len() {
        Some((syms, p))
    } else if k <= 0 {
        let nk = if s + 1 < counts.len() && counts[s + 1] > 0 { counts[s + 1] as int } else { 0 };
        spread(counts, s + 1, nk, p, step, size, ht, syms)
    } else if p < 0 || p >= syms.len() {
        None
    } else {
        match slot_walk((p + step) % size, step, size, ht, size as nat) {
            None => None,
            Some(q) => spread(counts, s, k - 1, q, step, size, ht, syms.update(p, s as u16)),
        }
    }
}

/// A table of `size` slots, all holding symbol 0.
pub open spec fn zero_slots(size: int) -> Seq<u16> {
    Seq::new(size as nat, |i: int| 0u16)
}

/// The state each symbol starts from: its count, or 1 for a count of -1.
pub open spec fn start_states(counts: Seq<i32>) -> Seq<int> {
    Seq::new(counts.len(), |s: int| if counts[s] == -1 { 1 } else if counts[s] > 0 { counts[s] as int } else { 0 })
}

/// Third pass: cells `i..` filled in order; each takes its symbol's next
/// state and derives the bits to read and the baseline from it.
pub open spec fn fill_cells(syms: Seq<u16>, log: int, next: Seq<int>, i: int, cells: Seq<FseEntry>) -> Option<Seq<FseEntry>>
    decreases syms.len() - i,
{
    if i < 0 || i >= syms.len() {
        Some(cells)
    } else {
        let s = syms[i] as int;
        if s >= next.len() {
            None
        } else {
            let state = next[s];
            if state < 1 || high_bit(state) > log {
                None
            } else {
                let nb = log - high_bit(state);
                let baseline = state * two_pow(nb as nat) - two_pow(log as nat);
                fill_cells(syms, log, next.update(s, state + 1), i + 1,
                    cells.push(FseEntry { symbol: s as u16, nb_bits: nb as u8, baseline: baseline as u16 }))
            }
        }
    }
}

/// The decoding table for normalized `counts` at accuracy `log` (`None`:
/// counts that do not fill the table exactly).
pub open spec fn spec_fse_table(counts: Seq<i32>, log: int) -> Option<Seq<FseEntry>> {
    let size = two_pow(log as nat) as int;
    let step = size / 2 + size / 8 + 3;
    match place_low(counts, 0, size - 1, zero_slots(size as int)) {
        None => None,
        Some((syms, ht)) => {
            let k0 = if counts.len() > 0 && counts[0] > 0 { counts[0] as int } else { 0 };
            match spread(counts, 0, k0, 0, step, size, ht, syms) {
                None => None,
                Some((syms2, p)) => if p != 0 {
                    None
                } else {
                    fill_cells(syms2, log, start_states(counts), 0, Seq::empty())
                },
            }
        },
    }
}

/// Counts a table can be built from: at most 256 symbols, each count from
/// -1 up to 4096.
pub open spec fn counts_in_range(counts: Seq<i32>) -> bool {
    counts.len() <= 256 && forall|s: int| 0 <= s < counts.len() ==> -1 <= #[trigger] counts[s] <= 0x1000
}

/// Index of the highest set bit of a non-zero value.
pub(crate) fn high_bit_of(v: u32) -> (h: u32)
    requires
        v >= 1,
    ensures
        h as int == high_bit(v as int),
        h < 32,
{
    let mut h: u32 = 0;
    let mut x = v;
    proof {
        lemma_high_bit_bound(v as int);
    }
    while x >= 2
        invariant
            1 <= x <= v,
            h + high_bit(x as int) == high_bit(v as int),
            high_bit(v as int) < 32,
        decreases x,
    {
        proof {
            lemma_high_bit_bound(x as int / 2);
        }
        x = x / 2;
        h = h + 1;
    }
    h
}

pub(crate) proof fn lemma_high_bit_bound(v: int)
    requires
        v >= 1,
        v < 0x1_0000_0000,
    ensures
        0 <= high_bit(v) < 32,
        two_pow(high_bit(v) as nat) <= v < 2 * two_pow(high_bit(v) as nat),
    decreases v,
{
    if v >= 2 {
        lemma_high_bit_bound(v / 2);
        let h = high_bit(v / 2);
        assert(((h + 1) as nat - 1) as nat == h as nat);
        assert(two_pow((h + 1) as nat) == 2 * two_pow(h as nat));
        assert(high_bit(v) < 32) by {
            if high_bit(v) >= 32 {
                lemma_two_pow_mono_z(32, high_bit(v) as nat);
                crate::zstd_bits::lemma_two_pow_32();
            }
        }
    } else {
        assert(two_pow(0) == 1);
    }
}

/// A decoding table with its accuracy.
pub struct FseTable {
    pub accuracy_log: usize,
    pub entries: Vec<FseEntry>,
}

impl FseTable {
    /// Every cell reads at most `accuracy_log` bits, itself at most 12.
    pub open spec fn wf(&self) -> bool {
        &&& self.accuracy_log <= 12
        &&& forall|i: int| 0 <= i < self.entries@.len() ==> #[trigger] self.entries@[i].nb_bits <= self.accuracy_log
    }
}

proof fn lemma_high_bit_nonneg(v: int)
    ensures
        high_bit(v) >= 0,
    decreases v,
{
    if v >= 2 {
        lemma_high_bit_nonneg(v / 2);
    }
}

proof fn lemma_fill_nb(syms: Seq<u16>, log: int, next: Seq<int>, i: int, cells: Seq<FseEntry>)
    requires
        0 <= log <= 12,
        forall|j: int| 0 <= j < cells.len() ==> #[trigger] cells[j].nb_bits <= log,
    ensures
        fill_cells(syms, log, next, i, cells) matches Some(c) ==> forall|j: int| 0 <= j < c.len() ==> #[trigger] c[j].nb_bits <= log,
    decreases syms.len() - i,
{
    if 0 <= i < syms.len() {
        let s = syms[i] as int;
        if s < next.len() {
            let state = next[s];
            if state >= 1 && high_bit(state) <= log {
                lemma_high_bit_nonneg(state);
                let nb = log - high_bit(state);
                let baseline = state * two_pow(nb as nat) - two_pow(log as nat);
                let e = FseEntry { symbol: s as u16, nb_bits: nb as u8, baseline: baseline as u16 };
                assert(e.nb_bits == nb);
                let c2 = cells.push(e);
                assert forall|j: int| 0 <= j < c2.len() implies #[trigger] c2[j].nb_bits <= log by {
                    if j < cells.len() {
                        assert(c2[j] == cells[j]);
                    }
                }
                lemma_fill_nb(syms, log, next.update(s, state + 1), i + 1, c2);
            }
        }
    }
}

/// The next spread position after `p`.
fn next_slot_of(p: usize, step: usize, size: usize, ht: usize) -> (r: Option<usize>)
    requires
        size >= 1,
        p < size,
        step < size + 8,
        size <= 0x1000,
    ensures
        match slot_walk((p + step) % (size as int), step as int, size as int, ht as int, size as nat) {
            Some(q) => r == Some(q as usize) && 0 <= q < size,
            None => r is None,
        },
{
    let mut q = (p + step) % size;
    let mut fuel = size;
    while q > ht
        invariant
            size >= 1,
            q < size,
            step < size + 8,
            size <= 0x1000,
            fuel <= size,
            slot_walk((p + step) % (size as int), step as int, size as int, ht as int, size as nat)
                == slot_walk(q as int, step as int, size as int, ht as int, fuel as nat),
        decreases fuel,
    {
        if fuel == 0 {
            return None;
        }
        fuel = fuel - 1;
        q = (q + step) % size;
    }
    Some(q)
}

fn place_low_exec(counts: &[i32], size: usize) -> (r: Result<(Vec<u16>, usize), MmnError>)
    requires
        1 <= size <= 0x1000,
        counts_in_range(counts@),
    ensures
        match place_low(counts@, 0, size - 1, zero_slots(size as int)) {
            Some((syms, ht)) => r matches Ok((v, t)) && v@ == syms && t as int == ht,
            None => r is Err,
        },
        r matches Ok((v, _)) ==> v@.len() == size,
{
    let mut syms: Vec<u16> = vec![0u16; size];
    let ghost init = syms@;
    proof {
        assert(init =~= zero_slots(size as int));
    }
    let mut ht: usize = size - 1;
    let mut s: usize = 0;
    while s < counts.len()
        invariant
            counts_in_range(counts@),
            s <= counts@.len(),
            syms@.len() == size,
            init == zero_slots(size as int),
            place_low(counts@, 0, size - 1, init) == place_low(counts@, s as int, ht as int, syms@),
        decreases counts@.len() - s,
    {
        if counts[s] == -1 {
            if ht >= size {
                return Err(MmnError::new("zstd FSE table has too many low-probability symbols"));
            }
            syms.set(ht, s as u16);
            ht = if ht == 0 { usize::MAX } else { ht - 1 };
        }
        s = s + 1;
    }
    Ok((syms, ht))
}

fn spread_exec(counts: &[i32], syms0: Vec<u16>, ht: usize, size: usize) -> (r: Result<(Vec<u16>, usize), MmnError>)
    requires
        1 <= size <= 0x1000,
        counts_in_range(counts@),
        syms0@.len() == size,
    ensures
        match spread(counts@, 0, if counts@.len() > 0 && counts@[0] > 0 { counts@[0] as int } else { 0 }, 0,
            (size / 2 + size / 8 + 3) as int, size as int, ht as int, syms0@) {
            Some((syms, p)) => r matches Ok((v, q)) && v@ == syms && q as int == p,
            None => r is Err,
        },
        r matches Ok((v, _)) ==> v@.len() == size,
{
    let step = size / 2 + size / 8 + 3;
    let mut syms = syms0;
    let mut p: usize = 0;
    let mut s: usize = 0;
    let ghost k0: int = if counts@.len() > 0 && counts@[0] > 0 { counts@[0] as int } else { 0 };
    let ghost goal = spread(counts@, 0, k0, 0, step as int, size as int, ht as int, syms0@);
    while s < counts.len()
        invariant
            counts_in_range(counts@),
            s <= counts@.len(),
            syms@.len() == size,
            p < size,
            step == size / 2 + size / 8 + 3,
            1 <= size <= 0x1000,
            k0 == if counts@.len() > 0 && counts@[0] > 0 { counts@[0] as int } else { 0 },
            goal == spread(counts@, 0, k0, 0, step as int, size as int, ht as int, syms0@),
            goal == spread(counts@, s as int, if s < counts@.len() && counts@[s as int] > 0 { counts@[s as int] as int } else { 0 },
                p as int, step as int, size as int, ht as int, syms@),
        decreases counts@.len() - s,
    {
        let c = counts[s];
        let mut k: i32 = if c > 0 { c } else { 0 };
        while k > 0
            invariant
                counts_in_range(counts@),
                s < counts@.len(),
                0 <= k <= 0x1000,
                syms@.len() == size,
                p < size,
                step == size / 2 + size / 8 + 3,
                1 <= size <= 0x1000,
                k0 == if counts@.len() > 0 && counts@[0] > 0 { counts@[0] as int } else { 0 },
                goal == spread(counts@, 0, k0, 0, step as int, size as int, ht as int, syms0@),
                goal == spread(counts@, s as int, k as int, p as int, step as int, size as int, ht as int, syms@),
            decreases k,
        {
            let q = match next_slot_of(p, step, size, ht) {
                Some(q) => q,
                None => return Err(MmnError::new("zstd FSE spread found no free slot")),
            };
            syms.set(p, s as u16);
            p = q;
            k = k - 1;
        }
        s = s + 1;
    }
    Ok((syms, p))
}

fn fill_exec(syms: &Vec<u16>, log: usize, counts: &[i32]) -> (r: Result<Vec<FseEntry>, MmnError>)
    requires
        log <= 12,
        syms@.len() == two_pow(log as nat),
        counts_in_range(counts@),
    ensures
        match fill_cells(syms@, log as int, start_states(counts@), 0, Seq::empty()) {
            Some(cells) => r matches Ok(v) && v@ == cells,
            None => r is Err,
        },
{
    let size = syms.len();
    let mut next: Vec<u32> = Vec::with_capacity(counts.len());
    let mut j: usize = 0;
    while j < counts.len()
        invariant
            counts_in_range(counts@),
            j <= counts@.len(),
            next@.len() == j,
            forall|t: int| 0 <= t < j ==> next@[t] as int == start_states(counts@)[t],
        decreases counts@.len() - j,
    {
        let c = counts[j];
        next.push(if c == -1 { 1 } else if c > 0 { c as u32 } else { 0 });
        j = j + 1;
    }
    proof {
        lemma_two_pow_mono_z(log as nat, 12);
        assert(two_pow(12) == 4096) by {
            reveal_with_fuel(two_pow, 13);
        }
    }
    let mut cells: Vec<FseEntry> = Vec::with_capacity(size);
    let mut i: usize = 0;
    proof {
        assert(Seq::new(next@.len(), |t: int| next@[t] as int) =~= start_states(counts@));
        assert(cells@ =~= Seq::<FseEntry>::empty());
    }
    while i < size
        invariant
            log <= 12,
            size == syms@.len(),
            size == two_pow(log as nat),
            size <= 4096,
            i <= size,
            next@.len() == counts@.len(),
            forall|t: int| 0 <= t < next@.len() ==> next@[t] <= 0x1000 + i,
            fill_cells(syms@, log as int, start_states(counts@), 0, Seq::empty())
                == fill_cells(syms@, log as int, Seq::new(next@.len(), |t: int| next@[t] as int), i as int, cells@),
        decreases size - i,
    {
        let sym = syms[i] as usize;
        let ghost nv = Seq::new(next@.len(), |t: int| next@[t] as int);
        if sym >= next.len() {
            return Err(MmnError::new("zstd FSE table names an unknown symbol"));
        }
        let state = next[sym];
        if state < 1 {
            return Err(MmnError::new("zstd FSE table state is zero"));
        }
        let hb = high_bit_of(state);
        if hb as usize > log {
            return Err(MmnError::new("zstd FSE table state too large"));
        }
        let nb = (log - hb as usize) as u32;
        proof {
            lemma_high_bit_bound(state as int);
            lemma_two_pow_add_z(high_bit(state as int) as nat, nb as nat);
            assert(high_bit(state as int) + nb == log);
            assert(two_pow(12) == 4096) by {
                reveal_with_fuel(two_pow, 13);
            }
            lemma_two_pow_mono_z(nb as nat, 12);
            let pn = two_pow(nb as nat) as int;
            let ph = two_pow(high_bit(state as int) as nat) as int;
            assert(state * pn < 2 * two_pow(log as nat)) by (nonlinear_arith)
                requires state < 2 * ph, ph * pn == two_pow(log as nat), pn >= 1;
            assert(state * pn >= two_pow(log as nat)) by (nonlinear_arith)
                requires state >= ph, ph * pn == two_pow(log as nat), pn >= 1;
        }
        let scaled = state * pow2_u32(nb);
        let baseline = (scaled - size as u32) as u16;
        cells.push(FseEntry { symbol: sym as u16, nb_bits: nb as u8, baseline });
        next.set(sym, state + 1);
        proof {
            assert(Seq::new(next@.len(), |t: int| next@[t] as int) =~= nv.update(sym as int, state + 1));
        }
        i = i + 1;
    }
    Ok(cells)
}

pub(crate) proof fn lemma_two_pow_add_z(a: nat, b: nat)
    ensures
        two_pow(a + b) == two_pow(a) * two_pow(b),
    decreases a,
{
    crate::deflate::lemma_two_pow_add(a, b);
}

/// Build a decoding table from normalized counts (spread, then fill).
pub fn build_fse_table(counts: &[i32], accuracy_log: usize) -> (r: Result<FseTable, MmnError>)
    requires
        accuracy_log <= 12,
        counts_in_range(counts@),
    ensures
        match spec_fse_table(counts@, accuracy_log as int) {
            Some(cells) => r matches Ok(t) && t.entries@ == cells && t.accuracy_log == accuracy_log,
            None => r is Err,
        },
        r matches Ok(t) ==> t.wf(),
{
    proof {
        lemma_two_pow_mono_z(accuracy_log as nat, 12);
        assert(two_pow(12) == 4096) by {
            reveal_with_fuel(two_pow, 13);
        }
        lemma_two_pow_mono_z(0, accuracy_log as nat);
    }
    let size = pow2_u32(accuracy_log as u32) as usize;
    let (syms, ht) = place_low_exec(counts, size)?;
    let (syms2, p) = spread_exec(counts, syms, ht, size)?;
    if p != 0 {
        return Err(MmnError::new("zstd FSE table spread did not return to zero"));
    }
    let entries = fill_exec(&syms2, accuracy_log, counts)?;
    proof {
        lemma_fill_nb(syms2@, accuracy_log as int, start_states(counts@), 0, Seq::empty());
        assert(Seq::new(counts@.len(), |t: int| start_states(counts@)[t]) =~= start_states(counts@));
    }
    Ok(FseTable { accuracy_log, entries })
}

// ---------------------------------------------------------------------------
// Table descriptions (RFC 8878, 4.1.1)

/// `counts` extended by `n` zeros.
pub open spec fn push_zeros(counts: Seq<i32>, n: int) -> Seq<i32> {
    counts + Seq::new(n as nat, |i: int| 0i32)
}

/// After a zero count: 2-bit repeat fields from `pos`, each adding that many
/// zeros, until one is below 3. Gives the counts and the position after.
pub open spec fn zero_runs(data: Seq<u8>, pos: int, counts: Seq<i32>) -> Option<(Seq<i32>, int)>
    decreases nbits(data) - pos,
{
    if pos < 0 || pos + 2 > nbits(data) {
        None
    } else {
        let r = bits_lsb(data, pos, 2) as int;
        let c = push_zeros(counts, r);
        if r != 3 { Some((c, pos + 2)) } else { zero_runs(data, pos + 2, c) }
    }
}

/// One count read at `pos` with `rem` probability points left: the count
/// and the position after it.
pub open spec fn read_count(data: Seq<u8>, pos: int, rem: int) -> Option<(int, int)> {
    let nb = high_bit(rem) + 1;
    if pos < 0 || nb < 2 || pos + nb > nbits(data) {
        None
    } else {
        let value = bits_lsb(data, pos, nb as nat) as int;
        let half = two_pow((nb - 1) as nat) as int;
        let lower = value % half;
        let threshold = 2 * half - 1 - rem;
        if lower < threshold {
            Some((lower - 1, pos + nb - 1))
        } else if value >= half {
            Some((value - threshold - 1, pos + nb))
        } else {
            Some((value - 1, pos + nb))
        }
    }
}

/// The counts of a table description, from `pos` on, with `rem` points left
/// and `counts` read so far: all counts and the position after the last.
pub open spec fn read_counts(data: Seq<u8>, pos: int, rem: int, counts: Seq<i32>, max_symbols: int) -> Option<(Seq<i32>, int)>
    decreases nbits(data) - pos,
{
    if !(rem > 1 && counts.len() <= max_symbols) {
        Some((counts, pos))
    } else {
        match read_count(data, pos, rem) {
            None => None,
            Some((proba, p1)) => {
                let c1 = counts.push(proba as i32);
                let rem1 = rem - if proba < 0 { -proba } else { proba };
                if p1 <= pos || p1 > nbits(data) {
                    None
                } else if proba == 0 {
                    match zero_runs(data, p1, c1) {
                        None => None,
                        Some((c2, p2)) => if p2 <= pos || p2 > nbits(data) {
                            None
                        } else {
                            read_counts(data, p2, rem1, c2, max_symbols)
                        },
                    }
                } else {
                    read_counts(data, p1, rem1, c1, max_symbols)
                }
            },
        }
    }
}

/// A table description: the table, its accuracy, and the bytes it took.
pub open spec fn spec_fse_description(data: Seq<u8>, max_accuracy: int, max_symbols: int) -> Option<(Seq<FseEntry>, int, int)> {
    if 4 > nbits(data) {
        None
    } else {
        let log = bits_lsb(data, 0, 4) as int + 5;
        if log > max_accuracy {
            None
        } else {
            match read_counts(data, 4, two_pow(log as nat) as int + 1, Seq::empty(), max_symbols) {
                None => None,
                Some((counts, pos)) => if counts.len() > max_symbols + 1 {
                    None
                } else {
                    match spec_fse_table(counts, log) {
                        None => None,
                        Some(t) => Some((t, log, (pos + 7) / 8)),
                    }
                },
            }
        }
    }
}


proof fn lemma_two_pow_small()
    ensures
        two_pow(4) == 16,
        two_pow(9) == 512,
        two_pow(10) == 1024,
        two_pow(12) == 4096,
{
    reveal_with_fuel(two_pow, 13);
}

/// One count of a table description, read at the reader's position with
/// `rem` probability points left.
fn read_count_exec(bits: &mut ForwardBits, rem: u32) -> (r: Result<i32, MmnError>)
    requires
        old(bits).wf(),
        2 <= rem <= 513,
    ensures
        final(bits).bytes@ == old(bits).bytes@,
        match read_count(old(bits).bytes@, old(bits).pos as int, rem as int) {
            Some((proba, p1)) => r matches Ok(v) && v as int == proba && final(bits).pos as int == p1
                && final(bits).wf() && -1 <= proba <= rem - 1,
            None => r is Err,
        },
{
    proof {
        lemma_high_bit_bound(rem as int);
        lemma_two_pow_small();
        if high_bit(rem as int) >= 10 {
            lemma_two_pow_mono_z(10, high_bit(rem as int) as nat);
        }
    }
    let hb = high_bit_of(rem);
    let nb = hb as usize + 1;
    let ghost p0 = bits.pos as int;
    let value = bits.read(nb)?;
    let half: u64 = pow2_u32(hb) as u64;
    proof {
        assert(two_pow(nb as nat) == 2 * two_pow(hb as nat));
        assert(((nb - 1) as nat) == hb as nat);
    }
    let lower = value % half;
    let threshold: u64 = 2 * half - 1 - rem as u64;
    let decoded: u64 = if lower < threshold {
        bits.pos = bits.pos - 1;
        lower
    } else if value >= half {
        value - threshold
    } else {
        value
    };
    Ok(decoded as i32 - 1)
}

/// Parse an FSE table description from the start of `bytes` (accuracy
/// nibble, then the counts) and build its table; also gives the number of
/// bytes the description took.
pub fn parse_fse_description(bytes: &[u8], max_accuracy: usize, max_symbols: usize) -> (r: Result<(FseTable, usize), MmnError>)
    requires
        bytes@.len() <= usize::MAX / 16,
        max_accuracy <= 9,
        max_symbols <= 255,
    ensures
        match spec_fse_description(bytes@, max_accuracy as int, max_symbols as int) {
            Some((cells, log, used)) => r matches Ok((t, n)) && t.entries@ == cells && t.accuracy_log == log
                && n == used && n <= bytes@.len() && t.wf(),
            None => r is Err,
        },
{
    let mut bits = ForwardBits { bytes, pos: 0 };
    proof {
        lemma_two_pow_small();
    }
    let al = bits.read(4)?;
    let log = al as usize + 5;
    if log > max_accuracy {
        return Err(MmnError::new("zstd FSE accuracy exceeds its limit"));
    }
    proof {
        lemma_two_pow_mono_z(log as nat, 9);
        lemma_two_pow_mono_z(0, log as nat);
    }
    let size: u32 = pow2_u32(log as u32);
    let mut rem: u32 = size + 1;
    let mut counts: Vec<i32> = Vec::new();
    let ghost goal = read_counts(bytes@, 4, size as int + 1, Seq::empty(), max_symbols as int);
    while rem > 1 && counts.len() <= max_symbols
        invariant
            bits.wf(),
            bits.bytes@ == bytes@,
            1 <= rem <= size + 1,
            size <= 512,
            max_symbols <= 255,
            forall|t: int| 0 <= t < counts@.len() ==> -1 <= #[trigger] counts@[t] <= size,
            goal == read_counts(bytes@, bits.pos as int, rem as int, counts@, max_symbols as int),
            4 <= nbits(bytes@),
            log as int == bits_lsb(bytes@, 0, 4) as int + 5,
            log <= max_accuracy,
            size == two_pow(log as nat),
            goal == read_counts(bytes@, 4, two_pow(log as nat) as int + 1, Seq::empty(), max_symbols as int),
        decreases nbits(bytes@) - bits.pos,
    {
        let ghost pos0 = bits.pos as int;
        let ghost rem0 = rem as int;
        let ghost c0 = counts@;
        let proba = read_count_exec(&mut bits, rem)?;
        counts.push(proba);
        rem = if proba < 0 { rem - 1 } else { rem - proba as u32 };
        let ghost p1 = bits.pos as int;
        let ghost c1 = counts@;
        if proba == 0 {
            let mut more = true;
            while more
                invariant
                    bits.wf(),
                    bits.bytes@ == bytes@,
                    p1 <= bits.pos,
                    !more ==> p1 + 2 <= bits.pos,
                    forall|t: int| 0 <= t < counts@.len() ==> -1 <= #[trigger] counts@[t] <= size,
                    zero_runs(bytes@, p1, c1) == if more {
                        zero_runs(bytes@, bits.pos as int, counts@)
                    } else {
                        Some((counts@, bits.pos as int))
                    },
                    goal == read_counts(bytes@, pos0, rem0, c0, max_symbols as int),
                    read_count(bytes@, pos0, rem0) == Some((0int, p1)),
                    c1 == c0.push(0i32),
                    rem0 > 1,
                    rem0 == rem,
                    c0.len() <= max_symbols,
                    pos0 < p1 <= nbits(bytes@),
                    4 <= nbits(bytes@),
                    log as int == bits_lsb(bytes@, 0, 4) as int + 5,
                    log <= max_accuracy,
                    size == two_pow(log as nat),
                    goal == read_counts(bytes@, 4, two_pow(log as nat) as int + 1, Seq::empty(), max_symbols as int),
                decreases nbits(bytes@) - bits.pos + (if more { 1int } else { 0int }),
            {
                let ghost cb = counts@;
                let repeat = bits.read(2)?;
                let mut z: u64 = 0;
                while z < repeat
                    invariant
                        z <= repeat,
                        counts@ == push_zeros(cb, z as int),
                    decreases repeat - z,
                {
                    counts.push(0);
                    z = z + 1;
                    proof {
                        assert(counts@ =~= push_zeros(cb, z as int));
                    }
                }
                proof {
                    assert(counts@ =~= push_zeros(cb, repeat as int));
                    assert forall|t: int| 0 <= t < counts@.len() implies -1 <= #[trigger] counts@[t] <= size by {
                        if t >= cb.len() {
                            assert(counts@[t] == 0);
                        } else {
                            assert(counts@[t] == cb[t]);
                        }
                    }
                }
                if repeat != 3 {
                    more = false;
                }
            }
        }
        proof {
            assert(c1 =~= c0.push(proba));
        }
    }
    if counts.len() > max_symbols + 1 {
        return Err(MmnError::new("zstd FSE description has too many symbols"));
    }
    let used = (bits.pos + 7) / 8;
    let table = build_fse_table(&counts, log)?;
    Ok((table, used))
}

} // verus!
