//! The sequences section of a compressed Zstandard block (RFC 8878,
//! 3.1.1.3.2 and 3.1.1.4): code tables, the three FSE decoders, repeat
//! offsets, and the execution of each sequence against the output.

use vstd::prelude::*;
use crate::error::MmnError;
use crate::inflate::two_pow;
use crate::bytes::{back_copy, push_back_copy};
use crate::zstd_bits::{back_value, back_rest, BackwardBits, lemma_two_pow_mono_z};
use crate::zstd_fse::{FseEntry, FseTable};

verus! {

/// Literal-length code: its baseline and the extra bits that follow.
pub open spec fn ll_code(c: int) -> Option<(int, int)> {
    if 0 <= c <= 15 { Some((c, 0)) }
    else if c == 16 { Some((16, 1)) }
    else if c == 17 { Some((18, 1)) }
    else if c == 18 { Some((20, 1)) }
    else if c == 19 { Some((22, 1)) }
    else if c == 20 { Some((24, 2)) }
    else if c == 21 { Some((28, 2)) }
    else if c == 22 { Some((32, 3)) }
    else if c == 23 { Some((40, 3)) }
    else if c == 24 { Some((48, 4)) }
    else if c == 25 { Some((64, 6)) }
    else if c == 26 { Some((128, 7)) }
    else if c == 27 { Some((256, 8)) }
    else if c == 28 { Some((512, 9)) }
    else if c == 29 { Some((1024, 10)) }
    else if c == 30 { Some((2048, 11)) }
    else if c == 31 { Some((4096, 12)) }
    else if c == 32 { Some((8192, 13)) }
    else if c == 33 { Some((16384, 14)) }
    else if c == 34 { Some((32768, 15)) }
    else if c == 35 { Some((65536, 16)) }
    else { None }
}

/// Match-length code: its baseline and the extra bits that follow.
pub open spec fn ml_code(c: int) -> Option<(int, int)> {
    if 0 <= c <= 31 { Some((c + 3, 0)) }
    else if c == 32 { Some((35, 1)) }
    else if c == 33 { Some((37, 1)) }
    else if c == 34 { Some((39, 1)) }
    else if c == 35 { Some((41, 1)) }
    else if c == 36 { Some((43, 2)) }
    else if c == 37 { Some((47, 2)) }
    else if c == 38 { Some((51, 3)) }
    else if c == 39 { Some((59, 3)) }
    else if c == 40 { Some((67, 4)) }
    else if c == 41 { Some((83, 4)) }
    else if c == 42 { Some((99, 5)) }
    else if c == 43 { Some((131, 7)) }
    else if c == 44 { Some((259, 8)) }
    else if c == 45 { Some((515, 9)) }
    else if c == 46 { Some((1027, 10)) }
    else if c == 47 { Some((2051, 11)) }
    else if c == 48 { Some((4099, 12)) }
    else if c == 49 { Some((8195, 13)) }
    else if c == 50 { Some((16387, 14)) }
    else if c == 51 { Some((32771, 15)) }
    else if c == 52 { Some((65539, 16)) }
    else { None }
}

/// Literal-length code to (baseline, extra bits).
pub fn ll_code_value(code: u16) -> (r: Option<(u32, u32)>)
    ensures
        match ll_code(code as int) {
            Some((b, e)) => r == Some((b as u32, e as u32)),
            None => r is None,
        },
{
    match code {
        0..=15 => Some((code as u32, 0)),
        16 => Some((16, 1)),
        17 => Some((18, 1)),
        18 => Some((20, 1)),
        19 => Some((22, 1)),
        20 => Some((24, 2)),
        21 => Some((28, 2)),
        22 => Some((32, 3)),
        23 => Some((40, 3)),
        24 => Some((48, 4)),
        25 => Some((64, 6)),
        26 => Some((128, 7)),
        27 => Some((256, 8)),
        28 => Some((512, 9)),
        29 => Some((1024, 10)),
        30 => Some((2048, 11)),
        31 => Some((4096, 12)),
        32 => Some((8192, 13)),
        33 => Some((16384, 14)),
        34 => Some((32768, 15)),
        35 => Some((65536, 16)),
        _ => None,
    }
}

/// Match-length code to (baseline, extra bits).
pub fn ml_code_value(code: u16) -> (r: Option<(u32, u32)>)
    ensures
        match ml_code(code as int) {
            Some((b, e)) => r == Some((b as u32, e as u32)),
            None => r is None,
        },
{
    match code {
        0..=31 => Some((code as u32 + 3, 0)),
        32 => Some((35, 1)),
        33 => Some((37, 1)),
        34 => Some((39, 1)),
        35 => Some((41, 1)),
        36 => Some((43, 2)),
        37 => Some((47, 2)),
        38 => Some((51, 3)),
        39 => Some((59, 3)),
        40 => Some((67, 4)),
        41 => Some((83, 4)),
        42 => Some((99, 5)),
        43 => Some((131, 7)),
        44 => Some((259, 8)),
        45 => Some((515, 9)),
        46 => Some((1027, 10)),
        47 => Some((2051, 11)),
        48 => Some((4099, 12)),
        49 => Some((8195, 13)),
        50 => Some((16387, 14)),
        51 => Some((32771, 15)),
        52 => Some((65539, 16)),
        _ => None,
    }
}

/// A decoding table seen as its accuracy and its cells.
pub open spec fn fse_view(t: FseTable) -> (int, Seq<FseEntry>) {
    (t.accuracy_log as int, t.entries@)
}

/// What the three decoders and the repeat offsets hold between sequences.
pub struct SeqState {
    pub ll_s: int,
    pub of_s: int,
    pub ml_s: int,
    pub rem: int,
    pub rep: (int, int, int),
    pub lit_pos: int,
    pub out: Seq<u8>,
}

/// What stays fixed while a block's sequences run.
pub struct SeqCtx {
    pub ll: Seq<FseEntry>,
    pub of: Seq<FseEntry>,
    pub ml: Seq<FseEntry>,
    pub stream: Seq<u8>,
    pub lits: Seq<u8>,
}

/// The offset an offset value stands for, and the repeat offsets after it:
/// values above 3 are new offsets; 1 to 3 pick a repeat offset (shifted by
/// one when the literal length is zero, the fourth choice being the first
/// repeat offset minus one). `None`: an offset of zero.
pub open spec fn resolve_offset(of_value: int, lit_len: int, rep: (int, int, int)) -> Option<(int, (int, int, int))> {
    if of_value > 3 {
        Some((of_value - 3, (of_value - 3, rep.0, rep.1)))
    } else {
        let idx = of_value - 1 + if lit_len == 0 { 1int } else { 0int };
        let off = if idx == 0 { rep.0 } else if idx == 1 { rep.1 } else if idx == 2 { rep.2 } else { rep.0 - 1 };
        if off <= 0 {
            None
        } else if idx == 0 {
            Some((off, rep))
        } else if idx == 1 {
            Some((off, (off, rep.0, rep.2)))
        } else {
            Some((off, (off, rep.0, rep.1)))
        }
    }
}

/// The repeat-offset table of Zstandard: with a literal length above zero,
/// offset values 1, 2, 3 name the first, second and third repeat offset;
/// with a literal length of zero they name the second, the third, and the
/// first minus one. The offset picked moves to the front of the history and
/// the others keep their order; the first repeat offset picked with a
/// nonzero literal length leaves the history as it is. Values above 3 are
/// the new offset `value - 3`, pushed in front of the history.
pub proof fn lemma_repeat_offset_table(of_value: int, lit_len: int, rep: (int, int, int))
    requires
        of_value >= 1,
        lit_len >= 0,
        rep.0 >= 1,
        rep.1 >= 1,
        rep.2 >= 1,
    ensures
        of_value > 3 ==> resolve_offset(of_value, lit_len, rep) == Some((of_value - 3, (of_value - 3, rep.0, rep.1))),
        lit_len > 0 && of_value == 1 ==> resolve_offset(of_value, lit_len, rep) == Some((rep.0, rep)),
        lit_len > 0 && of_value == 2 ==> resolve_offset(of_value, lit_len, rep) == Some((rep.1, (rep.1, rep.0, rep.2))),
        lit_len > 0 && of_value == 3 ==> resolve_offset(of_value, lit_len, rep) == Some((rep.2, (rep.2, rep.0, rep.1))),
        lit_len == 0 && of_value == 1 ==> resolve_offset(of_value, lit_len, rep) == Some((rep.1, (rep.1, rep.0, rep.2))),
        lit_len == 0 && of_value == 2 ==> resolve_offset(of_value, lit_len, rep) == Some((rep.2, (rep.2, rep.0, rep.1))),
        lit_len == 0 && of_value == 3 && rep.0 > 1 ==> resolve_offset(of_value, lit_len, rep) == Some((rep.0 - 1, (rep.0 - 1, rep.0, rep.1))),
        lit_len == 0 && of_value == 3 && rep.0 == 1 ==> resolve_offset(of_value, lit_len, rep) is None,
{
}

/// One sequence: read the offset, match-length and literal-length codes'
/// extra bits, copy the literals, then the match; when `update`, reload the
/// three states (literal length, match length, offset, in that order).
pub open spec fn seq_step(c: SeqCtx, update: bool, st: SeqState) -> Option<SeqState> {
    if !(0 <= st.of_s < c.of.len() && 0 <= st.ml_s < c.ml.len() && 0 <= st.ll_s < c.ll.len()) {
        None
    } else {
        let of_code = c.of[st.of_s].symbol as int;
        if of_code > 31 {
            None
        } else {
            let of_value = (two_pow(of_code as nat) + back_value(c.stream, st.rem, of_code as nat)) as int;
            let r1 = back_rest(st.rem, of_code as nat);
            match ml_code(c.ml[st.ml_s].symbol as int) {
                None => None,
                Some((mb, me)) => {
                    let match_len = mb + back_value(c.stream, r1, me as nat);
                    let r2 = back_rest(r1, me as nat);
                    match ll_code(c.ll[st.ll_s].symbol as int) {
                        None => None,
                        Some((lb, le)) => {
                            let lit_len = lb + back_value(c.stream, r2, le as nat);
                            let r3 = back_rest(r2, le as nat);
                            match resolve_offset(of_value, lit_len, st.rep) {
                                None => None,
                                Some((off, rep2)) => {
                                    if st.lit_pos + lit_len > c.lits.len() {
                                        None
                                    } else {
                                        let out1 = st.out + c.lits.subrange(st.lit_pos, st.lit_pos + lit_len);
                                        if off > out1.len() || out1.len() + match_len > usize::MAX {
                                            None
                                        } else {
                                            let out2 = back_copy(out1, off, match_len as nat);
                                            let lp = st.lit_pos + lit_len;
                                            if update {
                                                let le_ = c.ll[st.ll_s];
                                                let ll2 = le_.baseline + back_value(c.stream, r3, le_.nb_bits as nat);
                                                let r4 = back_rest(r3, le_.nb_bits as nat);
                                                let me_ = c.ml[st.ml_s];
                                                let ml2 = me_.baseline + back_value(c.stream, r4, me_.nb_bits as nat);
                                                let r5 = back_rest(r4, me_.nb_bits as nat);
                                                let oe = c.of[st.of_s];
                                                let of2 = oe.baseline + back_value(c.stream, r5, oe.nb_bits as nat);
                                                let r6 = back_rest(r5, oe.nb_bits as nat);
                                                Some(SeqState { ll_s: ll2, of_s: of2, ml_s: ml2, rem: r6, rep: rep2, lit_pos: lp, out: out2 })
                                            } else {
                                                Some(SeqState { ll_s: st.ll_s, of_s: st.of_s, ml_s: st.ml_s, rem: r3, rep: rep2, lit_pos: lp, out: out2 })
                                            }
                                        }
                                    }
                                },
                            }
                        },
                    }
                },
            }
        }
    }
}

/// Sequences `i..num`, the states reloaded after every one but the last.
pub open spec fn seq_run(c: SeqCtx, i: int, num: int, st: SeqState) -> Option<SeqState>
    decreases num - i,
{
    if i >= num {
        Some(st)
    } else {
        match seq_step(c, i + 1 < num, st) {
            None => None,
            Some(st2) => seq_run(c, i + 1, num, st2),
        }
    }
}

/// The registers of the sequence decoder.
#[derive(Clone, Copy)]
pub struct SeqRegs {
    pub ll_s: usize,
    pub of_s: usize,
    pub ml_s: usize,
    pub rep0: u64,
    pub rep1: u64,
    pub rep2: u64,
    pub lit_pos: usize,
}

pub open spec fn regs_view(r: SeqRegs, rem: int, out: Seq<u8>) -> SeqState {
    SeqState {
        ll_s: r.ll_s as int,
        of_s: r.of_s as int,
        ml_s: r.ml_s as int,
        rem,
        rep: (r.rep0 as int, r.rep1 as int, r.rep2 as int),
        lit_pos: r.lit_pos as int,
        out,
    }
}

proof fn lemma_two_pow_consts()
    ensures
        two_pow(12) == 4096,
        two_pow(16) == 65536,
        two_pow(31) == 0x8000_0000,
        two_pow(32) == 0x1_0000_0000,
{
    reveal_with_fuel(two_pow, 33);
}

fn pow2_u64(k: u32) -> (r: u64)
    requires
        k <= 32,
    ensures
        r as nat == two_pow(k as nat),
{
    let mut r: u64 = 1;
    let mut i: u32 = 0;
    while i < k
        invariant
            i <= k <= 32,
            r as nat == two_pow(i as nat),
        decreases k - i,
    {
        proof {
            lemma_two_pow_mono_z(i as nat, 32);
            lemma_two_pow_consts();
        }
        r = r * 2;
        i = i + 1;
    }
    r
}

pub(crate) fn push_range(out: &mut Vec<u8>, src: &[u8], start: usize, end: usize)
    requires
        start <= end <= src@.len(),
    ensures
        final(out)@ == old(out)@ + src@.subrange(start as int, end as int),
{
    let mut i: usize = start;
    while i < end
        invariant
            start <= i <= end <= src@.len(),
            out@ == old(out)@ + src@.subrange(start as int, i as int),
        decreases end - i,
    {
        out.push(src[i]);
        i = i + 1;
        assert(out@ =~= old(out)@ + src@.subrange(start as int, i as int));
    }
}

/// The offset a value stands for, with the repeat offsets after it.
fn resolve_offset_exec(of_value: u64, lit_len: usize, r: SeqRegs) -> (res: Option<(u64, SeqRegs)>)
    requires
        1 <= of_value < 0x1_0000_0000,
    ensures
        match resolve_offset(of_value as int, lit_len as int, (r.rep0 as int, r.rep1 as int, r.rep2 as int)) {
            Some((off, rep)) => res matches Some((o, r2)) && o == off && (r2.rep0 as int, r2.rep1 as int, r2.rep2 as int) == rep
                && r2.ll_s == r.ll_s && r2.of_s == r.of_s && r2.ml_s == r.ml_s && r2.lit_pos == r.lit_pos,
            None => res is None,
        },
{
    let mut r2 = r;
    if of_value > 3 {
        let off = of_value - 3;
        r2.rep2 = r.rep1;
        r2.rep1 = r.rep0;
        r2.rep0 = off;
        return Some((off, r2));
    }
    let idx: u64 = of_value - 1 + if lit_len == 0 { 1u64 } else { 0u64 };
    let off: u64 = if idx == 0 {
        r.rep0
    } else if idx == 1 {
        r.rep1
    } else if idx == 2 {
        r.rep2
    } else {
        if r.rep0 == 0 {
            return None;
        }
        r.rep0 - 1
    };
    if off == 0 {
        return None;
    }
    if idx == 1 {
        r2.rep0 = off;
        r2.rep1 = r.rep0;
    } else if idx >= 2 {
        r2.rep0 = off;
        r2.rep1 = r.rep0;
        r2.rep2 = r.rep1;
    }
    Some((off, r2))
}

/// Run one sequence (see `seq_step`).
pub(crate) fn exec_sequence(ll: &FseTable, of: &FseTable, ml: &FseTable, bits: &mut BackwardBits, lits: &[u8],
    out: &mut Vec<u8>, r: SeqRegs, update: bool) -> (res: Result<SeqRegs, MmnError>)
    requires
        ll.wf(),
        of.wf(),
        ml.wf(),
        old(bits).wf(),
    ensures
        final(bits).bytes@ == old(bits).bytes@,
        ({
            let c = SeqCtx { ll: ll.entries@, of: of.entries@, ml: ml.entries@, stream: old(bits).bytes@, lits: lits@ };
            match seq_step(c, update, regs_view(r, old(bits).remaining as int, old(out)@)) {
                Some(st) => res matches Ok(r2) && regs_view(r2, final(bits).remaining as int, final(out)@) == st && final(bits).wf(),
                None => res is Err,
            }
        }),
{
    if !(r.of_s < of.entries.len() && r.ml_s < ml.entries.len() && r.ll_s < ll.entries.len()) {
        return Err(MmnError::new("zstd sequence state outside its table"));
    }
    let of_code = of.entries[r.of_s].symbol as usize;
    if of_code > 31 {
        return Err(MmnError::new("zstd offset code too large"));
    }
    proof {
        lemma_two_pow_consts();
        lemma_two_pow_mono_z(of_code as nat, 31);
    }
    let of_extra = bits.read(of_code);
    let of_value: u64 = pow2_u64(of_code as u32) + of_extra;
    let (mb, me) = match ml_code_value(ml.entries[r.ml_s].symbol) {
        Some(v) => v,
        None => return Err(MmnError::new("zstd match-length code invalid")),
    };
    let ml_extra = bits.read(me as usize);
    proof {
        lemma_two_pow_mono_z(me as nat, 16);
    }
    let match_len: usize = mb as usize + ml_extra as usize;
    let (lb, le) = match ll_code_value(ll.entries[r.ll_s].symbol) {
        Some(v) => v,
        None => return Err(MmnError::new("zstd literal-length code invalid")),
    };
    let ll_extra = bits.read(le as usize);
    proof {
        lemma_two_pow_mono_z(le as nat, 16);
    }
    let lit_len: usize = lb as usize + ll_extra as usize;
    let ghost r3 = bits.remaining as int;
    let (off, r2) = match resolve_offset_exec(of_value, lit_len, r) {
        Some(v) => v,
        None => return Err(MmnError::new("zstd repeat offset is zero")),
    };
    if r.lit_pos > lits.len() || lit_len > lits.len() - r.lit_pos {
        return Err(MmnError::new("zstd sequence literals overrun"));
    }
    push_range(out, lits, r.lit_pos, r.lit_pos + lit_len);
    if off > out.len() as u64 || match_len > usize::MAX - out.len() {
        return Err(MmnError::new("zstd match offset beyond output"));
    }
    push_back_copy(out, off as usize, match_len);
    let mut r3v = r2;
    r3v.lit_pos = r.lit_pos + lit_len;
    if update {
        let e = ll.entries[r.ll_s];
        proof {
            assert(e.nb_bits <= ll.accuracy_log);
        }
        let v = bits.read(e.nb_bits as usize);
        proof {
            lemma_two_pow_mono_z(e.nb_bits as nat, 12);
        }
        r3v.ll_s = e.baseline as usize + v as usize;
        let e = ml.entries[r.ml_s];
        proof {
            assert(e.nb_bits <= ml.accuracy_log);
        }
        let v = bits.read(e.nb_bits as usize);
        proof {
            lemma_two_pow_mono_z(e.nb_bits as nat, 12);
        }
        r3v.ml_s = e.baseline as usize + v as usize;
        let e = of.entries[r.of_s];
        proof {
            assert(e.nb_bits <= of.accuracy_log);
        }
        let v = bits.read(e.nb_bits as usize);
        proof {
            lemma_two_pow_mono_z(e.nb_bits as nat, 12);
        }
        r3v.of_s = e.baseline as usize + v as usize;
    }
    Ok(r3v)
}

} // verus!
