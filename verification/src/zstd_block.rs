//! Compressed Zstandard blocks (RFC 8878, 3.1.1.3): the literals section,
//! the sequences header, the three decoding tables (predefined, RLE,
//! described or repeated), and the sequences run against the output.

use vstd::prelude::*;
use crate::error::MmnError;
use crate::bytes::push_all;
use crate::zstd_bits::{back_start, back_value, back_rest, BackwardBits};
use crate::zstd_fse::{FseEntry, FseTable, counts_in_range, spec_fse_table, spec_fse_description, build_fse_table, parse_fse_description};
use crate::zstd_huff::HuffmanTable;
use crate::zstd_lit::{huff_view, huff_ok, spec_literals, decode_literals};
use crate::zstd_seq::{SeqCtx, SeqState, SeqRegs, seq_run, regs_view, fse_view, exec_sequence, push_range};

verus! {

/// Predefined literal-length distribution (accuracy 6).
pub open spec fn ll_default() -> Seq<i32> {
    seq![4i32, 3, 2, 2, 2, 2, 2, 2, 2, 2, 2, 2, 2, 1, 1, 1, 2, 2, 2, 2, 2, 2, 2, 2, 2, 3, 2, 1, 1,
        1, 1, 1, -1i32, -1i32, -1i32, -1i32]
}

/// Predefined offset distribution (accuracy 5).
pub open spec fn of_default() -> Seq<i32> {
    seq![1i32, 1, 1, 1, 1, 1, 2, 2, 2, 1, 1, 1, 1, 1, 1, 1, 1, 1, 1, 1, 1, 1, 1, 1, -1i32, -1i32,
        -1i32, -1i32, -1i32]
}

/// Predefined match-length distribution (accuracy 6).
pub open spec fn ml_default() -> Seq<i32> {
    seq![1i32, 4, 3, 2, 2, 2, 2, 2, 2, 1, 1, 1, 1, 1, 1, 1, 1, 1, 1, 1, 1, 1, 1, 1, 1, 1, 1, 1, 1,
        1, 1, 1, 1, 1, 1, 1, 1, 1, 1, 1, 1, 1, 1, 1, 1, 1, -1i32, -1i32, -1i32, -1i32, -1i32, -1i32, -1i32]
}

proof fn lemma_defaults_in_range()
    ensures
        counts_in_range(ll_default()),
        counts_in_range(of_default()),
        counts_in_range(ml_default()),
{
    assert(ll_default().len() == 36);
    assert(of_default().len() == 29);
    assert(ml_default().len() == 53);
}

fn ll_default_counts() -> (v: Vec<i32>)
    ensures
        v@ == ll_default(),
{
    let v: Vec<i32> = vec![4, 3, 2, 2, 2, 2, 2, 2, 2, 2, 2, 2, 2, 1, 1, 1, 2, 2, 2, 2, 2, 2, 2, 2, 2, 3, 2, 1, 1,
        1, 1, 1, -1, -1, -1, -1];
    proof {
        assert(v@ =~= ll_default());
    }
    v
}

fn of_default_counts() -> (v: Vec<i32>)
    ensures
        v@ == of_default(),
{
    let v: Vec<i32> = vec![1, 1, 1, 1, 1, 1, 2, 2, 2, 1, 1, 1, 1, 1, 1, 1, 1, 1, 1, 1, 1, 1, 1, 1, -1, -1,
        -1, -1, -1];
    proof {
        assert(v@ =~= of_default());
    }
    v
}

fn ml_default_counts() -> (v: Vec<i32>)
    ensures
        v@ == ml_default(),
{
    let v: Vec<i32> = vec![1, 4, 3, 2, 2, 2, 2, 2, 2, 1, 1, 1, 1, 1, 1, 1, 1, 1, 1, 1, 1, 1, 1, 1, 1, 1, 1, 1, 1,
        1, 1, 1, 1, 1, 1, 1, 1, 1, 1, 1, 1, 1, 1, 1, 1, 1, -1, -1, -1, -1, -1, -1, -1];
    proof {
        assert(v@ =~= ml_default());
    }
    v
}

pub open spec fn opt_fse_view(t: Option<FseTable>) -> Option<(int, Seq<FseEntry>)> {
    match t {
        Some(x) => Some(fse_view(x)),
        None => None,
    }
}

/// One of a block's three tables, chosen by its 2-bit mode: the predefined
/// distribution, a single symbol (one RLE byte), a table description, or
/// the previous block's table. Gives the table and the position after it.
pub open spec fn spec_load(mode: int, rest: Seq<u8>, pos: int, default: Seq<i32>, dlog: int, max_log: int, max_sym: int,
    prev: Option<(int, Seq<FseEntry>)>) -> Option<((int, Seq<FseEntry>), int)> {
    if mode == 0 {
        match spec_fse_table(default, dlog) {
            Some(c) => Some(((dlog, c), pos)),
            None => None,
        }
    } else if mode == 1 {
        if pos >= rest.len() {
            None
        } else {
            Some(((0, seq![FseEntry { symbol: rest[pos] as u16, nb_bits: 0, baseline: 0 }]), pos + 1))
        }
    } else if mode == 2 {
        match spec_fse_description(rest.subrange(pos, rest.len() as int), max_log, max_sym) {
            Some((c, log, used)) => Some(((log, c), pos + used)),
            None => None,
        }
    } else {
        match prev {
            Some(t) => Some((t, pos)),
            None => None,
        }
    }
}

fn load_table(mode: u8, rest: &[u8], pos: usize, default: &[i32], dlog: usize, max_log: usize, max_sym: usize,
    prev: Option<FseTable>) -> (r: Result<(FseTable, usize), MmnError>)
    requires
        mode < 4,
        pos <= rest@.len() <= usize::MAX / 16,
        counts_in_range(default@),
        dlog <= 12,
        max_log <= 9,
        max_sym <= 255,
        prev matches Some(t) ==> t.wf(),
    ensures
        match spec_load(mode as int, rest@, pos as int, default@, dlog as int, max_log as int, max_sym as int, opt_fse_view(prev)) {
            Some((v, p)) => r matches Ok((t, q)) && fse_view(t) == v && q == p && t.wf() && q <= rest@.len(),
            None => r is Err,
        },
{
    if mode == 0 {
        let t = build_fse_table(default, dlog)?;
        Ok((t, pos))
    } else if mode == 1 {
        if pos >= rest.len() {
            return Err(MmnError::new("zstd RLE symbol missing"));
        }
        let symbol = rest[pos] as u16;
        let entries: Vec<FseEntry> = vec![FseEntry { symbol, nb_bits: 0, baseline: 0 }];
        proof {
            assert(entries@ =~= seq![FseEntry { symbol: rest@[pos as int] as u16, nb_bits: 0, baseline: 0 }]);
        }
        Ok((FseTable { accuracy_log: 0, entries }, pos + 1))
    } else if mode == 2 {
        let (t, used) = parse_fse_description(&rest[pos..rest.len()], max_log, max_sym)?;
        Ok((t, pos + used))
    } else {
        match prev {
            Some(t) => Ok((t, pos)),
            None => Err(MmnError::new("zstd repeat mode without a previous table")),
        }
    }
}

/// The sequence count and the header's length.
pub open spec fn seq_count(rest: Seq<u8>) -> Option<(int, int)> {
    if rest.len() == 0 {
        None
    } else {
        let b0 = rest[0] as int;
        if b0 < 128 {
            Some((b0, 1))
        } else if b0 < 255 {
            if rest.len() < 2 { None } else { Some(((b0 - 128) * 256 + rest[1], 2)) }
        } else {
            if rest.len() < 3 { None } else { Some((rest[1] + rest[2] * 256 + 0x7F00, 3)) }
        }
    }
}

/// The three tables of a block: literal lengths, offsets, match lengths.
pub type TableViews = ((int, Seq<FseEntry>), (int, Seq<FseEntry>), (int, Seq<FseEntry>));

/// What carries from one block of a frame to the next.
pub struct BlockState {
    pub rep: (int, int, int),
    pub tables: Option<TableViews>,
    pub huff: Option<(int, Seq<(u8, u8)>)>,
}

/// The sequences of a block, after its literals: the output with the
/// sequences run and the leftover literals appended, and what carries on.
pub open spec fn spec_sequences(rest: Seq<u8>, lits: Seq<u8>, out: Seq<u8>, bs: BlockState,
    huff1: Option<(int, Seq<(u8, u8)>)>) -> Option<(Seq<u8>, BlockState)> {
    match seq_count(rest) {
        None => None,
        Some((num, p0)) => if num == 0 {
            Some((out + lits, BlockState { rep: bs.rep, tables: bs.tables, huff: huff1 }))
        } else if p0 >= rest.len() {
            None
        } else {
            let modes = rest[p0] as int;
            let (pl, po, pm) = match bs.tables {
                Some((a, b, c)) => (Some(a), Some(b), Some(c)),
                None => (None, None, None),
            };
            match spec_load(modes / 64, rest, p0 + 1, ll_default(), 6, 9, 35, pl) {
                None => None,
                Some((ll, p2)) => match spec_load((modes / 16) % 4, rest, p2, of_default(), 5, 8, 31, po) {
                    None => None,
                    Some((of, p3)) => match spec_load((modes / 4) % 4, rest, p3, ml_default(), 6, 9, 52, pm) {
                        None => None,
                        Some((ml, p4)) => {
                            let stream = rest.subrange(p4, rest.len() as int);
                            match back_start(stream) {
                                None => None,
                                Some(r0) => {
                                    let lls = back_value(stream, r0, ll.0 as nat) as int;
                                    let r1 = back_rest(r0, ll.0 as nat);
                                    let ofs = back_value(stream, r1, of.0 as nat) as int;
                                    let r2 = back_rest(r1, of.0 as nat);
                                    let mls = back_value(stream, r2, ml.0 as nat) as int;
                                    let r3 = back_rest(r2, ml.0 as nat);
                                    let c = SeqCtx { ll: ll.1, of: of.1, ml: ml.1, stream, lits };
                                    let init = SeqState { ll_s: lls, of_s: ofs, ml_s: mls, rem: r3, rep: bs.rep, lit_pos: 0, out };
                                    match seq_run(c, 0, num, init) {
                                        None => None,
                                        Some(st) => Some((st.out + lits.subrange(st.lit_pos, lits.len() as int),
                                            BlockState { rep: st.rep, tables: Some((ll, of, ml)), huff: huff1 })),
                                    }
                                },
                            }
                        },
                    },
                },
            }
        },
    }
}

/// A compressed block appended to `out`, with what carries to the next one.
pub open spec fn spec_block(block: Seq<u8>, out: Seq<u8>, bs: BlockState) -> Option<(Seq<u8>, BlockState)> {
    match spec_literals(block, bs.huff) {
        None => None,
        Some((lits, used, huff1)) => spec_sequences(block.subrange(used, block.len() as int), lits, out, bs, huff1),
    }
}

/// The three tables of the previous block.
pub struct SeqTables {
    pub ll: FseTable,
    pub of: FseTable,
    pub ml: FseTable,
}

/// What one block of a frame hands the next.
pub struct DecodeState {
    pub rep0: u64,
    pub rep1: u64,
    pub rep2: u64,
    pub tables: Option<SeqTables>,
    pub huff: Option<HuffmanTable>,
}

pub open spec fn tables_view(t: Option<SeqTables>) -> Option<TableViews> {
    match t {
        Some(t) => Some((fse_view(t.ll), fse_view(t.of), fse_view(t.ml))),
        None => None,
    }
}

pub open spec fn tables_ok(t: Option<SeqTables>) -> bool {
    t matches Some(x) ==> x.ll.wf() && x.of.wf() && x.ml.wf()
}

impl DecodeState {
    pub open spec fn wf(&self) -> bool {
        &&& huff_ok(self.huff)
        &&& tables_ok(self.tables)
    }

    pub open spec fn view(&self) -> BlockState {
        BlockState {
            rep: (self.rep0 as int, self.rep1 as int, self.rep2 as int),
            tables: tables_view(self.tables),
            huff: huff_view(self.huff),
        }
    }
}

fn run_sequences(ll: &FseTable, of: &FseTable, ml: &FseTable, stream: &[u8], lits: &[u8], out: &mut Vec<u8>,
    num: usize, rep: (u64, u64, u64)) -> (r: Result<(u64, u64, u64, usize), MmnError>)
    requires
        ll.wf(),
        of.wf(),
        ml.wf(),
        stream@.len() <= usize::MAX / 16,
    ensures
        match back_start(stream@) {
            None => r is Err,
            Some(r0) => {
                let lls = back_value(stream@, r0, ll.accuracy_log as nat) as int;
                let r1 = back_rest(r0, ll.accuracy_log as nat);
                let ofs = back_value(stream@, r1, of.accuracy_log as nat) as int;
                let r2 = back_rest(r1, of.accuracy_log as nat);
                let mls = back_value(stream@, r2, ml.accuracy_log as nat) as int;
                let r3 = back_rest(r2, ml.accuracy_log as nat);
                let c = SeqCtx { ll: ll.entries@, of: of.entries@, ml: ml.entries@, stream: stream@, lits: lits@ };
                let init = SeqState { ll_s: lls, of_s: ofs, ml_s: mls, rem: r3, rep: (rep.0 as int, rep.1 as int, rep.2 as int), lit_pos: 0, out: old(out)@ };
                match seq_run(c, 0, num as int, init) {
                    None => r is Err,
                    Some(st) => r matches Ok((a, b, d, lp)) && final(out)@ == st.out && st.rep == (a as int, b as int, d as int)
                        && lp == st.lit_pos && lp <= lits@.len(),
                }
            },
        },
{
    let mut bits = BackwardBits::new(stream)?;
    let ghost r0 = bits.remaining as int;
    proof {
        reveal_with_fuel(crate::inflate::two_pow, 13);
        crate::zstd_bits::lemma_two_pow_mono_z(ll.accuracy_log as nat, 12);
        crate::zstd_bits::lemma_two_pow_mono_z(of.accuracy_log as nat, 12);
        crate::zstd_bits::lemma_two_pow_mono_z(ml.accuracy_log as nat, 12);
    }
    let lls = bits.read(ll.accuracy_log) as usize;
    let ofs = bits.read(of.accuracy_log) as usize;
    let mls = bits.read(ml.accuracy_log) as usize;
    let mut regs = SeqRegs { ll_s: lls, of_s: ofs, ml_s: mls, rep0: rep.0, rep1: rep.1, rep2: rep.2, lit_pos: 0 };
    let ghost c = SeqCtx { ll: ll.entries@, of: of.entries@, ml: ml.entries@, stream: stream@, lits: lits@ };
    let ghost goal = seq_run(c, 0, num as int, regs_view(regs, bits.remaining as int, out@));
    let mut i: usize = 0;
    while i < num
        invariant
            ll.wf(),
            of.wf(),
            ml.wf(),
            bits.wf(),
            bits.bytes@ == stream@,
            c == (SeqCtx { ll: ll.entries@, of: of.entries@, ml: ml.entries@, stream: stream@, lits: lits@ }),
            i <= num,
            goal == seq_run(c, i as int, num as int, regs_view(regs, bits.remaining as int, out@)),
            regs.lit_pos <= lits@.len(),
            back_start(stream@) == Some(r0),
            goal == seq_run(c, 0, num as int, SeqState {
                ll_s: back_value(stream@, r0, ll.accuracy_log as nat) as int,
                of_s: back_value(stream@, back_rest(r0, ll.accuracy_log as nat), of.accuracy_log as nat) as int,
                ml_s: back_value(stream@, back_rest(back_rest(r0, ll.accuracy_log as nat), of.accuracy_log as nat), ml.accuracy_log as nat) as int,
                rem: back_rest(back_rest(back_rest(r0, ll.accuracy_log as nat), of.accuracy_log as nat), ml.accuracy_log as nat),
                rep: (rep.0 as int, rep.1 as int, rep.2 as int),
                lit_pos: 0,
                out: old(out)@,
            }),
        decreases num - i,
    {
        let update = i + 1 < num;
        regs = exec_sequence(ll, of, ml, &mut bits, lits, out, regs, update)?;
        i = i + 1;
    }
    Ok((regs.rep0, regs.rep1, regs.rep2, regs.lit_pos))
}


fn decode_sequences(rest: &[u8], lits: &[u8], out: &mut Vec<u8>, rep: (u64, u64, u64), tables: Option<SeqTables>,
    huff1: Option<HuffmanTable>) -> (r: Result<DecodeState, MmnError>)
    requires
        rest@.len() <= usize::MAX / 16,
        tables_ok(tables),
        huff_ok(huff1),
    ensures
        match spec_sequences(rest@, lits@, old(out)@,
            BlockState { rep: (rep.0 as int, rep.1 as int, rep.2 as int), tables: tables_view(tables), huff: None }, huff_view(huff1)) {
            Some((o, bs)) => r matches Ok(s2) && final(out)@ == o && s2.view() == bs && s2.wf(),
            None => r is Err,
        },
{
    let n = rest.len();
    if n == 0 {
        return Err(MmnError::new("zstd sequences header missing"));
    }
    let b0 = rest[0];
    let num: usize;
    let p0: usize;
    if b0 < 128 {
        num = b0 as usize;
        p0 = 1;
    } else if b0 < 255 {
        if n < 2 {
            return Err(MmnError::new("zstd sequence count truncated"));
        }
        num = (b0 as usize - 128) * 256 + rest[1] as usize;
        p0 = 2;
    } else {
        if n < 3 {
            return Err(MmnError::new("zstd sequence count truncated"));
        }
        num = rest[1] as usize + rest[2] as usize * 256 + 0x7F00;
        p0 = 3;
    }
    proof {
        assert(seq_count(rest@) == Some((num as int, p0 as int)));
    }
    if num == 0 {
        push_all(out, lits);
        return Ok(DecodeState { rep0: rep.0, rep1: rep.1, rep2: rep.2, tables, huff: huff1 });
    }
    if p0 >= n {
        return Err(MmnError::new("zstd sequence modes missing"));
    }
    let modes = rest[p0];
    let (pl, po, pm) = match tables {
        Some(t) => (Some(t.ll), Some(t.of), Some(t.ml)),
        None => (None, None, None),
    };
    proof {
        lemma_defaults_in_range();
    }
    let dl = ll_default_counts();
    let (ll, p2) = load_table(modes / 64, rest, p0 + 1, dl.as_slice(), 6, 9, 35, pl)?;
    let dof = of_default_counts();
    let (of, p3) = load_table((modes / 16) % 4, rest, p2, dof.as_slice(), 5, 8, 31, po)?;
    let dml = ml_default_counts();
    let (ml, p4) = load_table((modes / 4) % 4, rest, p3, dml.as_slice(), 6, 9, 52, pm)?;
    let stream = &rest[p4..n];
    let (a, b, c, lp) = run_sequences(&ll, &of, &ml, stream, lits, out, num, rep)?;
    push_range(out, lits, lp, lits.len());
    Ok(DecodeState { rep0: a, rep1: b, rep2: c, tables: Some(SeqTables { ll, of, ml }), huff: huff1 })
}

/// Decode a compressed block onto `out`; gives what the next block of the
/// frame starts from.
pub fn decode_compressed_block(block: &[u8], out: &mut Vec<u8>, st: DecodeState) -> (r: Result<DecodeState, MmnError>)
    requires
        block@.len() <= usize::MAX / 16,
        st.wf(),
    ensures
        match spec_block(block@, old(out)@, st.view()) {
            Some((o, bs)) => r matches Ok(s2) && final(out)@ == o && s2.view() == bs && s2.wf(),
            None => r is Err,
        },
{
    let DecodeState { rep0, rep1, rep2, tables, huff } = st;
    let (lits, used, huff1) = decode_literals(block, huff)?;
    let rest = &block[used..block.len()];
    decode_sequences(rest, lits.as_slice(), out, (rep0, rep1, rep2), tables, huff1)
}

} // verus!
