//! Reading pickle streams (protocols 2 to 4, the opcode subset `torch.save`
//! emits for state dicts): a stack machine with a memo, building a value
//! tree. Floats are kept as their IEEE-754 bit patterns.

use vstd::prelude::*;
use vstd::utf8::{decode_utf8, valid_utf8};
use crate::error::MmnError;
use crate::bytes::{le16_at, le32_at, read_le16, read_le32, copy_range};
use crate::msgpack::utf8_string;
use crate::text::{chars_of, str_equals};

verus! {

/// A pickle value (the subset tensor archives use).
#[derive(Debug, PartialEq)]
pub enum PickleValue {
    PyNone,
    Bool(bool),
    Int(i64),
    /// A float, as the bits of its IEEE-754 double.
    Float(u64),
    Str(String),
    Bytes(Vec<u8>),
    Tuple(Vec<PickleValue>),
    List(Vec<PickleValue>),
    Dict(Vec<(PickleValue, PickleValue)>),
    /// `module.name` reference pushed by GLOBAL / STACK_GLOBAL.
    Global(String, String),
    /// Result of REDUCE: `callable(*args)` left symbolic.
    Reduce(Box<PickleValue>, Box<PickleValue>),
    /// Persistent-ID reference (torch storage descriptors).
    PersId(Box<PickleValue>),
    /// Stack marker; never part of a result.
    Mark,
}

/// The mathematical value of a `PickleValue`.
pub enum PV {
    PyNone,
    Bool(bool),
    Int(i64),
    Float(u64),
    Str(Seq<char>),
    Bytes(Seq<u8>),
    Tuple(Seq<PV>),
    List(Seq<PV>),
    Dict(Seq<(PV, PV)>),
    Global(Seq<char>, Seq<char>),
    Reduce(Box<PV>, Box<PV>),
    PersId(Box<PV>),
    Mark,
}

pub open spec fn pv(v: PickleValue) -> PV
    decreases v,
{
    match v {
        PickleValue::PyNone => PV::PyNone,
        PickleValue::Bool(b) => PV::Bool(b),
        PickleValue::Int(n) => PV::Int(n),
        PickleValue::Float(b) => PV::Float(b),
        PickleValue::Str(s) => PV::Str(s@),
        PickleValue::Bytes(b) => PV::Bytes(b@),
        PickleValue::Tuple(items) => PV::Tuple(Seq::new(items@.len(), |i: int| if 0 <= i < items@.len() { pv(items@[i]) } else { PV::PyNone })),
        PickleValue::List(items) => PV::List(Seq::new(items@.len(), |i: int| if 0 <= i < items@.len() { pv(items@[i]) } else { PV::PyNone })),
        PickleValue::Dict(pairs) => PV::Dict(Seq::new(pairs@.len(), |i: int| if 0 <= i < pairs@.len() {
            (pv(pairs@[i].0), pv(pairs@[i].1))
        } else {
            (PV::PyNone, PV::PyNone)
        })),
        PickleValue::Global(m, n) => PV::Global(m@, n@),
        PickleValue::Reduce(c, a) => PV::Reduce(Box::new(pv(*c)), Box::new(pv(*a))),
        PickleValue::PersId(p) => PV::PersId(Box::new(pv(*p))),
        PickleValue::Mark => PV::Mark,
    }
}

pub open spec fn pvs(s: Seq<PickleValue>) -> Seq<PV> {
    Seq::new(s.len(), |i: int| pv(s[i]))
}

pub open spec fn pv_pairs(s: Seq<(PickleValue, PickleValue)>) -> Seq<(PV, PV)> {
    Seq::new(s.len(), |i: int| (pv(s[i].0), pv(s[i].1)))
}

/// The machine between opcodes: read position, stack, memo.
pub struct VmState {
    pub pos: int,
    pub stack: Seq<PV>,
    pub memo: Seq<Option<PV>>,
}

pub enum Step {
    Next(VmState),
    /// STOP: the value popped and the position after it.
    Done(PV, int),
}

// ---------------------------------------------------------------------------
// Operands

pub open spec fn fits(bytes: Seq<u8>, pos: int, n: int) -> bool {
    0 <= pos && 0 <= n && pos + n <= bytes.len()
}

/// Index of the first newline at or after `i` (`None`: there is none).
pub open spec fn newline_at(bytes: Seq<u8>, i: int) -> Option<int>
    decreases bytes.len() - i,
{
    if i < 0 || i >= bytes.len() { None } else if bytes[i] == 0x0A { Some(i) } else { newline_at(bytes, i + 1) }
}

/// A text line from `pos`: its characters (it must be UTF-8) and the
/// position after the newline.
pub open spec fn spec_line(bytes: Seq<u8>, pos: int) -> Option<(Seq<char>, int)> {
    match newline_at(bytes, pos) {
        None => None,
        Some(e) => if valid_utf8(bytes.subrange(pos, e)) { Some((decode_utf8(bytes.subrange(pos, e)), e + 1)) } else { None },
    }
}

/// `cs` without its trailing `L`s.
pub open spec fn trim_l(cs: Seq<char>) -> Seq<char>
    decreases cs.len(),
{
    if cs.len() > 0 && cs.last() == 'L' { trim_l(cs.drop_last()) } else { cs }
}

pub open spec fn dec_digits(cs: Seq<char>) -> Option<int>
    decreases cs.len(),
{
    if cs.len() == 0 {
        Some(0)
    } else if '0' <= cs.last() && cs.last() <= '9' {
        match dec_digits(cs.drop_last()) {
            Some(v) => Some(10 * v + (cs.last() as int - '0' as int)),
            None => None,
        }
    } else {
        None
    }
}

/// An `i64` in decimal: an optional sign and at least one digit, in range.
pub open spec fn parse_i64(cs: Seq<char>) -> Option<i64> {
    let neg = cs.len() > 0 && cs[0] == '-';
    let body = if cs.len() > 0 && (cs[0] == '-' || cs[0] == '+') { cs.drop_first() } else { cs };
    if body.len() == 0 {
        None
    } else {
        match dec_digits(body) {
            None => None,
            Some(v) => {
                let x = if neg { -v } else { v };
                if i64::MIN <= x <= i64::MAX { Some(x as i64) } else { None }
            },
        }
    }
}

/// Little-endian unsigned value of `s`.
pub open spec fn le_value(s: Seq<u8>) -> int
    decreases s.len(),
{
    if s.len() == 0 { 0 } else { s[0] + 256 * le_value(s.drop_first()) }
}

pub open spec fn pow256(n: nat) -> int
    decreases n,
{
    if n == 0 { 1 } else { 256 * pow256((n - 1) as nat) }
}

/// LONG1 operand of `n <= 8` bytes: two's complement, little-endian.
pub open spec fn long1_value(raw: Seq<u8>) -> int {
    let n = raw.len();
    let v = le_value(raw);
    if n > 0 && raw[n - 1] >= 0x80 { v - pow256(n) } else { v }
}

/// Big-endian value of 8 bytes (a BINFLOAT's bits).
pub open spec fn be64_value(s: Seq<u8>) -> int
    decreases s.len(),
{
    if s.len() == 0 { 0 } else { be64_value(s.drop_last()) * 256 + s.last() }
}

// ---------------------------------------------------------------------------
// Stack helpers

/// Index of the topmost mark.
pub open spec fn last_mark(stack: Seq<PV>) -> Option<int>
    decreases stack.len(),
{
    if stack.len() == 0 {
        None
    } else if stack.last() is Mark {
        Some(stack.len() - 1)
    } else {
        last_mark(stack.drop_last())
    }
}

/// The items above the topmost mark and the stack below it.
pub open spec fn pop_mark(stack: Seq<PV>) -> Option<(Seq<PV>, Seq<PV>)> {
    match last_mark(stack) {
        None => None,
        Some(m) => Some((stack.subrange(m + 1, stack.len() as int), stack.take(m))),
    }
}

/// Consecutive items taken as key/value pairs.
pub open spec fn pairs_of(items: Seq<PV>) -> Seq<(PV, PV)> {
    Seq::new(items.len() / 2, |i: int| (items[2 * i], items[2 * i + 1]))
}

/// SETITEM(S): the dict below gains the pairs; an OrderedDict under
/// construction (a REDUCE) becomes a plain dict of them.
pub open spec fn set_items(stack: Seq<PV>, pairs: Seq<(PV, PV)>) -> Option<Seq<PV>> {
    if stack.len() == 0 {
        None
    } else {
        match stack.last() {
            PV::Dict(existing) => Some(stack.drop_last().push(PV::Dict(existing + pairs))),
            PV::Reduce(_, _) => Some(stack.drop_last().push(PV::Dict(pairs))),
            _ => None,
        }
    }
}

/// REDUCE, with `collections.OrderedDict()` read as an empty dict.
pub open spec fn reduce_value(callable: PV, args: PV) -> PV {
    if callable matches PV::Global(m, n) && m == "collections"@ && n == "OrderedDict"@ {
        PV::Dict(Seq::empty())
    } else {
        PV::Reduce(Box::new(callable), Box::new(args))
    }
}

pub open spec fn memo_put(st: VmState, idx: int, pos: int) -> Option<Step> {
    if st.stack.len() == 0 {
        None
    } else if idx >= st.memo.len() && idx > 0x100_0000 {
        None
    } else {
        let memo = if idx >= st.memo.len() {
            st.memo + Seq::new((idx + 1 - st.memo.len()) as nat, |i: int| None::<PV>)
        } else {
            st.memo
        };
        Some(Step::Next(VmState { pos, stack: st.stack, memo: memo.update(idx, Some(st.stack.last())) }))
    }
}

pub open spec fn memo_get(st: VmState, idx: int, pos: int) -> Option<Step> {
    if 0 <= idx < st.memo.len() && st.memo[idx] is Some {
        Some(Step::Next(VmState { pos, stack: st.stack.push(st.memo[idx]->0), memo: st.memo }))
    } else {
        None
    }
}

pub open spec fn push(st: VmState, pos: int, v: PV) -> Option<Step> {
    Some(Step::Next(VmState { pos, stack: st.stack.push(v), memo: st.memo }))
}

pub open spec fn with_stack(st: VmState, pos: int, stack: Seq<PV>) -> Option<Step> {
    Some(Step::Next(VmState { pos, stack, memo: st.memo }))
}


// ---------------------------------------------------------------------------
// Opcodes

/// Opcodes that only rearrange the stack (no operand bytes).
pub open spec fn op_stack(op: int, p: int, st: VmState) -> Option<Step> {
    let s = st.stack;
    let n = s.len();
    if op == 0x28 {
        push(st, p, PV::Mark)
    } else if op == 0x2E {
        if n == 0 { None } else { Some(Step::Done(s.last(), p)) }
    } else if op == 0x30 || op == 0x62 {
        if n == 0 { None } else { with_stack(st, p, s.drop_last()) }
    } else if op == 0x4E {
        push(st, p, PV::PyNone)
    } else if op == 0x88 {
        push(st, p, PV::Bool(true))
    } else if op == 0x89 {
        push(st, p, PV::Bool(false))
    } else if op == 0x7D || op == 0x8F {
        push(st, p, PV::Dict(Seq::empty()))
    } else if op == 0x5D {
        push(st, p, PV::List(Seq::empty()))
    } else if op == 0x29 {
        push(st, p, PV::Tuple(Seq::empty()))
    } else if op == 0x85 {
        if n < 1 { None } else { with_stack(st, p, s.drop_last().push(PV::Tuple(seq![s[n - 1]]))) }
    } else if op == 0x86 {
        if n < 2 { None } else { with_stack(st, p, s.take(n - 2).push(PV::Tuple(seq![s[n - 2], s[n - 1]]))) }
    } else if op == 0x87 {
        if n < 3 { None } else { with_stack(st, p, s.take(n - 3).push(PV::Tuple(seq![s[n - 3], s[n - 2], s[n - 1]]))) }
    } else if op == 0x74 || op == 0x6C {
        match pop_mark(s) {
            None => None,
            Some((items, below)) => with_stack(st, p, below.push(if op == 0x74 { PV::Tuple(items) } else { PV::List(items) })),
        }
    } else if op == 0x61 {
        if n < 2 {
            None
        } else {
            match s[n - 2] {
                PV::List(items) => with_stack(st, p, s.take(n - 2).push(PV::List(items.push(s[n - 1])))),
                _ => None,
            }
        }
    } else if op == 0x65 {
        match pop_mark(s) {
            None => None,
            Some((items, below)) => if below.len() == 0 {
                None
            } else {
                match below.last() {
                    PV::List(existing) => with_stack(st, p, below.drop_last().push(PV::List(existing + items))),
                    _ => None,
                }
            },
        }
    } else if op == 0x73 {
        if n < 2 {
            None
        } else {
            match set_items(s.take(n - 2), seq![(s[n - 2], s[n - 1])]) {
                None => None,
                Some(s2) => with_stack(st, p, s2),
            }
        }
    } else if op == 0x75 {
        match pop_mark(s) {
            None => None,
            Some((flat, below)) => if flat.len() % 2 == 1 {
                None
            } else {
                match set_items(below, pairs_of(flat)) {
                    None => None,
                    Some(s2) => with_stack(st, p, s2),
                }
            },
        }
    } else if op == 0x93 {
        if n < 2 {
            None
        } else {
            match (s[n - 2], s[n - 1]) {
                (PV::Str(m), PV::Str(nm)) => with_stack(st, p, s.take(n - 2).push(PV::Global(m, nm))),
                _ => None,
            }
        }
    } else if op == 0x52 {
        if n < 2 { None } else { with_stack(st, p, s.take(n - 2).push(reduce_value(s[n - 2], s[n - 1]))) }
    } else if op == 0x51 {
        if n < 1 { None } else { with_stack(st, p, s.drop_last().push(PV::PersId(Box::new(s[n - 1])))) }
    } else {
        None
    }
}

pub open spec fn is_stack_op(op: int) -> bool {
    op == 0x28 || op == 0x2E || op == 0x30 || op == 0x62 || op == 0x4E || op == 0x88 || op == 0x89 || op == 0x7D
    || op == 0x8F || op == 0x5D || op == 0x29 || op == 0x85 || op == 0x86 || op == 0x87 || op == 0x74 || op == 0x6C
    || op == 0x61 || op == 0x65 || op == 0x73 || op == 0x75 || op == 0x93 || op == 0x52 || op == 0x51
}

/// Opcodes with operand bytes that push a number, a string or bytes.
pub open spec fn op_value(bytes: Seq<u8>, op: int, p: int, st: VmState) -> Option<Step> {
    if op == 0x4B {
        if !fits(bytes, p, 1) { None } else { push(st, p + 1, PV::Int(bytes[p] as i64)) }
    } else if op == 0x4D {
        if !fits(bytes, p, 2) { None } else { push(st, p + 2, PV::Int(le16_at(bytes, p) as i64)) }
    } else if op == 0x4A {
        if !fits(bytes, p, 4) {
            None
        } else {
            let v = le32_at(bytes, p);
            push(st, p + 4, PV::Int((if v >= 0x8000_0000 { v - 0x1_0000_0000 } else { v }) as i64))
        }
    } else if op == 0x8A {
        if !fits(bytes, p, 1) || !fits(bytes, p + 1, bytes[p] as int) {
            None
        } else {
            let n = bytes[p] as int;
            let raw = bytes.subrange(p + 1, p + 1 + n);
            push(st, p + 1 + n, if n > 8 { PV::Bytes(raw) } else { PV::Int(long1_value(raw) as i64) })
        }
    } else if op == 0x47 {
        if !fits(bytes, p, 8) { None } else { push(st, p + 8, PV::Float(be64_value(bytes.subrange(p, p + 8)) as u64)) }
    } else if op == 0x55 || op == 0x8C || op == 0x43 {
        if !fits(bytes, p, 1) || !fits(bytes, p + 1, bytes[p] as int) {
            None
        } else {
            let n = bytes[p] as int;
            let raw = bytes.subrange(p + 1, p + 1 + n);
            if op == 0x43 {
                push(st, p + 1 + n, PV::Bytes(raw))
            } else if valid_utf8(raw) {
                push(st, p + 1 + n, PV::Str(decode_utf8(raw)))
            } else if op == 0x55 {
                push(st, p + 1 + n, PV::Bytes(raw))
            } else {
                None
            }
        }
    } else if op == 0x58 || op == 0x42 {
        if !fits(bytes, p, 4) || !fits(bytes, p + 4, le32_at(bytes, p)) {
            None
        } else {
            let n = le32_at(bytes, p);
            let raw = bytes.subrange(p + 4, p + 4 + n);
            if op == 0x42 {
                push(st, p + 4 + n, PV::Bytes(raw))
            } else if valid_utf8(raw) {
                push(st, p + 4 + n, PV::Str(decode_utf8(raw)))
            } else {
                None
            }
        }
    } else if op == 0x8E {
        if !fits(bytes, p, 8) {
            None
        } else {
            let n = (le32_at(bytes, p + 4) * 0x1_0000_0000 + le32_at(bytes, p)) as usize as int;
            if !fits(bytes, p + 8, n) { None } else { push(st, p + 8 + n, PV::Bytes(bytes.subrange(p + 8, p + 8 + n))) }
        }
    } else {
        None
    }
}

pub open spec fn is_value_op(op: int) -> bool {
    op == 0x4B || op == 0x4D || op == 0x4A || op == 0x8A || op == 0x47 || op == 0x55 || op == 0x8C || op == 0x43
    || op == 0x58 || op == 0x42 || op == 0x8E
}

/// Text-line opcodes: LONG (decimal, trailing `L`s dropped), GLOBAL
/// (module and name lines), PERSID (a line).
pub open spec fn op_line(bytes: Seq<u8>, op: int, p: int, st: VmState) -> Option<Step> {
    match spec_line(bytes, p) {
        None => None,
        Some((l1, q1)) => if op == 0x4C {
            match parse_i64(trim_l(l1)) {
                None => None,
                Some(v) => push(st, q1, PV::Int(v)),
            }
        } else if op == 0x50 {
            push(st, q1, PV::PersId(Box::new(PV::Str(l1))))
        } else {
            match spec_line(bytes, q1) {
                None => None,
                Some((l2, q2)) => push(st, q2, PV::Global(l1, l2)),
            }
        },
    }
}

/// PROTO (at most 5), FRAME (its length skipped), and the memo opcodes.
pub open spec fn op_meta(bytes: Seq<u8>, op: int, p: int, st: VmState) -> Option<Step> {
    if op == 0x80 {
        if !fits(bytes, p, 1) || bytes[p] > 5 { None } else { with_stack(st, p + 1, st.stack) }
    } else if op == 0x95 {
        if !fits(bytes, p, 8) { None } else { with_stack(st, p + 8, st.stack) }
    } else if op == 0x71 || op == 0x68 {
        if !fits(bytes, p, 1) {
            None
        } else if op == 0x71 {
            memo_put(st, bytes[p] as int, p + 1)
        } else {
            memo_get(st, bytes[p] as int, p + 1)
        }
    } else if op == 0x72 || op == 0x6A {
        if !fits(bytes, p, 4) {
            None
        } else if op == 0x72 {
            memo_put(st, le32_at(bytes, p), p + 4)
        } else {
            memo_get(st, le32_at(bytes, p), p + 4)
        }
    } else if op == 0x94 {
        memo_put(st, st.memo.len() as int, p)
    } else {
        None
    }
}

/// One opcode at `st.pos`.
pub open spec fn spec_step(bytes: Seq<u8>, st: VmState) -> Option<Step> {
    if !fits(bytes, st.pos, 1) {
        None
    } else {
        let op = bytes[st.pos] as int;
        let p = st.pos + 1;
        if is_stack_op(op) {
            op_stack(op, p, st)
        } else if is_value_op(op) {
            op_value(bytes, op, p, st)
        } else if op == 0x4C || op == 0x63 || op == 0x50 {
            op_line(bytes, op, p, st)
        } else {
            op_meta(bytes, op, p, st)
        }
    }
}

/// Opcodes until STOP: the value and the position after it.
pub open spec fn spec_run(bytes: Seq<u8>, st: VmState) -> Option<(PV, int)>
    decreases bytes.len() - st.pos,
{
    match spec_step(bytes, st) {
        None => None,
        Some(Step::Done(v, q)) => Some((v, q)),
        Some(Step::Next(s2)) => if s2.pos <= st.pos || s2.pos > bytes.len() { None } else { spec_run(bytes, s2) },
    }
}

/// One pickle from the front of `bytes`: its value and the bytes it took.
pub open spec fn spec_pickle_prefix(bytes: Seq<u8>) -> Option<(PV, int)> {
    spec_run(bytes, VmState { pos: 0, stack: Seq::empty(), memo: Seq::empty() })
}


// ---------------------------------------------------------------------------
// The machine

pub(crate) struct Vm<'a> {
    pub(crate) bytes: &'a [u8],
    pub(crate) pos: usize,
    pub(crate) stack: Vec<PickleValue>,
    pub(crate) memo: Vec<Option<PickleValue>>,
}

pub open spec fn memo_view(m: Seq<Option<PickleValue>>) -> Seq<Option<PV>> {
    Seq::new(m.len(), |i: int| match m[i] { Some(v) => Some(pv(v)), None => None })
}

pub(crate) open spec fn vm_view(vm: Vm) -> VmState {
    VmState { pos: vm.pos as int, stack: pvs(vm.stack@), memo: memo_view(vm.memo@) }
}

/// A deep copy.
pub fn clone_value(v: &PickleValue) -> (r: PickleValue)
    ensures
        pv(r) == pv(*v),
    decreases v,
{
    match v {
        PickleValue::PyNone => PickleValue::PyNone,
        PickleValue::Bool(b) => PickleValue::Bool(*b),
        PickleValue::Int(n) => PickleValue::Int(*n),
        PickleValue::Float(b) => PickleValue::Float(*b),
        PickleValue::Str(s) => PickleValue::Str(s.clone()),
        PickleValue::Bytes(b) => {
            let c = copy_range(b.as_slice(), 0, b.len());
            proof {
                assert(c@ =~= b@);
            }
            PickleValue::Bytes(c)
        },
        PickleValue::Tuple(items) => {
            let c = clone_values(items);
            proof {
                assert(pvs(c@) == pvs(items@));
                assert(pv(PickleValue::Tuple(c))->Tuple_0 =~= pv(*v)->Tuple_0) by {
                    assert forall|i: int| 0 <= i < c@.len() implies pv(c@[i]) == pv(items@[i]) by {
                        assert(pvs(c@)[i] == pvs(items@)[i]);
                    }
                }
            }
            PickleValue::Tuple(c)
        },
        PickleValue::List(items) => {
            let c = clone_values(items);
            proof {
                assert(pvs(c@) == pvs(items@));
                assert(pv(PickleValue::List(c))->List_0 =~= pv(*v)->List_0) by {
                    assert forall|i: int| 0 <= i < c@.len() implies pv(c@[i]) == pv(items@[i]) by {
                        assert(pvs(c@)[i] == pvs(items@)[i]);
                    }
                }
            }
            PickleValue::List(c)
        },
        PickleValue::Dict(pairs) => {
            let c = clone_pairs(pairs);
            proof {
                assert(pv_pairs(c@) == pv_pairs(pairs@));
                assert(pv(PickleValue::Dict(c))->Dict_0 =~= pv(*v)->Dict_0) by {
                    assert forall|i: int| 0 <= i < c@.len() implies pv(c@[i].0) == pv(pairs@[i].0) && pv(c@[i].1) == pv(pairs@[i].1) by {
                        assert(pv_pairs(c@)[i] == pv_pairs(pairs@)[i]);
                    }
                }
            }
            PickleValue::Dict(c)
        },
        PickleValue::Global(m, n) => PickleValue::Global(m.clone(), n.clone()),
        PickleValue::Reduce(c, a) => PickleValue::Reduce(Box::new(clone_value(c)), Box::new(clone_value(a))),
        PickleValue::PersId(x) => PickleValue::PersId(Box::new(clone_value(x))),
        PickleValue::Mark => PickleValue::Mark,
    }
}

fn clone_pairs(pairs: &Vec<(PickleValue, PickleValue)>) -> (r: Vec<(PickleValue, PickleValue)>)
    ensures
        pv_pairs(r@) == pv_pairs(pairs@),
    decreases pairs,
{
    let mut out: Vec<(PickleValue, PickleValue)> = Vec::new();
    let mut i: usize = 0;
    while i < pairs.len()
        invariant
            i <= pairs@.len(),
            pv_pairs(out@) == pv_pairs(pairs@).take(i as int),
        decreases pairs@.len() - i,
    {
        proof {
            assert(decreases_to!(*pairs => pairs@[i as int]));
            assert(decreases_to!(pairs@[i as int] => pairs@[i as int].0));
            assert(decreases_to!(pairs@[i as int] => pairs@[i as int].1));
        }
        let k = clone_value(&pairs[i].0);
        let x = clone_value(&pairs[i].1);
        let ghost o0 = pv_pairs(out@);
        out.push((k, x));
        i = i + 1;
        proof {
            assert(pv_pairs(out@) =~= o0.push((pv(pairs@[i - 1].0), pv(pairs@[i - 1].1))));
            assert(pv_pairs(pairs@).take(i as int) =~= pv_pairs(pairs@).take(i - 1).push((pv(pairs@[i - 1].0), pv(pairs@[i - 1].1))));
        }
    }
    proof {
        assert(pv_pairs(out@) =~= pv_pairs(pairs@));
    }
    out
}

fn clone_values(items: &Vec<PickleValue>) -> (r: Vec<PickleValue>)
    ensures
        pvs(r@) == pvs(items@),
    decreases items,
{
    let mut out: Vec<PickleValue> = Vec::new();
    let mut i: usize = 0;
    while i < items.len()
        invariant
            i <= items@.len(),
            pvs(out@) == pvs(items@).take(i as int),
        decreases items@.len() - i,
    {
        proof {
            assert(decreases_to!(*items => items@[i as int]));
        }
        let x = clone_value(&items[i]);
        let ghost o0 = pvs(out@);
        out.push(x);
        i = i + 1;
        proof {
            assert(pvs(out@) =~= o0.push(pv(items@[i - 1])));
            assert(pvs(items@).take(i as int) =~= pvs(items@).take(i - 1).push(pv(items@[i - 1])));
        }
    }
    proof {
        assert(pvs(out@) =~= pvs(items@));
    }
    out
}


proof fn lemma_last_mark_append(s: Seq<PV>, t: Seq<PV>)
    requires
        forall|i: int| 0 <= i < t.len() ==> !(#[trigger] t[i] is Mark),
    ensures
        last_mark(s + t) == last_mark(s),
    decreases t.len(),
{
    if t.len() == 0 {
        assert(s + t =~= s);
    } else {
        assert((s + t).last() == t.last());
        assert((s + t).drop_last() =~= s + t.drop_last());
        assert forall|i: int| 0 <= i < t.drop_last().len() implies !(#[trigger] t.drop_last()[i] is Mark) by {
            assert(t.drop_last()[i] == t[i]);
        }
        lemma_last_mark_append(s, t.drop_last());
    }
}

fn pop_mark_exec(stack: &mut Vec<PickleValue>) -> (r: Result<Vec<PickleValue>, MmnError>)
    ensures
        match pop_mark(pvs(old(stack)@)) {
            None => r is Err,
            Some((items, below)) => r matches Ok(v) && pvs(v@) == items && pvs(final(stack)@) == below,
        },
{
    let ghost orig = pvs(stack@);
    let mut items: Vec<PickleValue> = Vec::new();
    proof {
        assert(orig =~= pvs(stack@) + pvs(items@));
    }
    loop
        invariant
            orig == pvs(old(stack)@),
            orig == pvs(stack@) + pvs(items@),
            forall|i: int| 0 <= i < items@.len() ==> !(#[trigger] pvs(items@)[i] is Mark),
        decreases stack@.len(),
    {
        let ghost s0 = stack@;
        match stack.pop() {
            None => {
                proof {
                    assert(pvs(s0) =~= Seq::<PV>::empty());
                    lemma_last_mark_append(pvs(s0), pvs(items@));
                }
                return Err(MmnError::new("pickle stack underflow"));
            },
            Some(v) => {
                proof {
                    assert(pvs(s0) =~= pvs(stack@).push(pv(v)));
                }
                let is_mark = match &v {
                    PickleValue::Mark => true,
                    _ => false,
                };
                if is_mark {
                    proof {
                        let m = stack@.len() as int;
                        lemma_last_mark_append(pvs(s0), pvs(items@));
                        assert(last_mark(pvs(s0)) == Some(m));
                        assert(orig.subrange(m + 1, orig.len() as int) =~= pvs(items@));
                        assert(orig.take(m) =~= pvs(stack@));
                    }
                    return Ok(items);
                }
                let ghost i0 = pvs(items@);
                items.insert(0, v);
                proof {
                    assert(pvs(items@) =~= seq![pv(v)] + i0);
                    assert(orig =~= pvs(stack@) + pvs(items@));
                    assert forall|i: int| 0 <= i < items@.len() implies !(#[trigger] pvs(items@)[i] is Mark) by {
                        if i > 0 {
                            assert(pvs(items@)[i] == i0[i - 1]);
                        }
                    }
                }
            },
        }
    }
}

fn set_items_exec(stack: &mut Vec<PickleValue>, pairs: Vec<(PickleValue, PickleValue)>) -> (r: Result<(), MmnError>)
    ensures
        match set_items(pvs(old(stack)@), pv_pairs(pairs@)) {
            None => r is Err,
            Some(s2) => r is Ok && pvs(final(stack)@) == s2,
        },
{
    let ghost s0 = pvs(stack@);
    let target = match stack.pop() {
        Some(t) => t,
        None => return Err(MmnError::new("pickle stack underflow")),
    };
    proof {
        assert(s0.drop_last() =~= pvs(stack@));
        assert(s0.last() == pv(target));
    }
    match target {
        PickleValue::Dict(existing) => {
            let mut all = existing;
            let ghost e0 = pv_pairs(all@);
            proof {
                assert(s0.last()->Dict_0 =~= e0);
            }
            let mut i: usize = 0;
            let mut rest = pairs;
            let n = rest.len();
            let ghost pp = pv_pairs(rest@);
            while i < n
                invariant
                    i <= n == rest@.len(),
                    pp == pv_pairs(rest@),
                    pv_pairs(all@) == e0 + pp.take(i as int),
                decreases n - i,
            {
                let k = clone_value(&rest[i].0);
                let x = clone_value(&rest[i].1);
                let ghost a0 = pv_pairs(all@);
                all.push((k, x));
                i = i + 1;
                proof {
                    assert(pv_pairs(all@) =~= a0.push(pp[i - 1]));
                    assert(pp.take(i as int) =~= pp.take(i - 1).push(pp[i - 1]));
                }
            }
            proof {
                assert(pp.take(n as int) =~= pp);
            }
            let ghost sb = pvs(stack@);
            stack.push(PickleValue::Dict(all));
            proof {
                assert(pv(PickleValue::Dict(all))->Dict_0 =~= pv_pairs(all@));
                assert(pvs(stack@) =~= sb.push(PV::Dict(e0 + pp)));
            }
            Ok(())
        },
        PickleValue::Reduce(_, _) => {
            let ghost sb = pvs(stack@);
            let ghost pp = pv_pairs(pairs@);
            stack.push(PickleValue::Dict(pairs));
            proof {
                assert(pv(PickleValue::Dict(pairs))->Dict_0 =~= pp);
                assert(pvs(stack@) =~= sb.push(PV::Dict(pp)));
            }
            Ok(())
        },
        _ => Err(MmnError::new("pickle SETITEMS on a non-dict value")),
    }
}

fn reduce_exec(callable: PickleValue, args: PickleValue) -> (r: PickleValue)
    ensures
        pv(r) == reduce_value(pv(callable), pv(args)),
{
    let is_od = match &callable {
        PickleValue::Global(m, n) => str_equals(m.as_str(), "collections") && str_equals(n.as_str(), "OrderedDict"),
        _ => false,
    };
    if is_od {
        let r = PickleValue::Dict(Vec::new());
        proof {
            assert(pv(r)->Dict_0 =~= Seq::<(PV, PV)>::empty());
        }
        r
    } else {
        PickleValue::Reduce(Box::new(callable), Box::new(args))
    }
}


fn push_v(stack: &mut Vec<PickleValue>, v: PickleValue)
    ensures
        pvs(final(stack)@) == pvs(old(stack)@).push(pv(v)),
{
    stack.push(v);
    proof {
        assert(pvs(stack@) =~= pvs(old(stack)@).push(pv(v)));
    }
}

fn pop_v(stack: &mut Vec<PickleValue>) -> (r: Result<PickleValue, MmnError>)
    ensures
        old(stack)@.len() == 0 ==> r is Err,
        old(stack)@.len() > 0 ==> (r matches Ok(x) && pv(x) == pvs(old(stack)@).last()
            && pvs(final(stack)@) == pvs(old(stack)@).drop_last()),
{
    match stack.pop() {
        Some(x) => {
            proof {
                assert(pvs(stack@) =~= pvs(old(stack)@).drop_last());
            }
            Ok(x)
        },
        None => Err(MmnError::new("pickle stack underflow")),
    }
}

pub open spec fn stack_view(op: int, s: Seq<PV>) -> Option<Step> {
    op_stack(op, 0, VmState { pos: 0, stack: s, memo: Seq::empty() })
}

fn simple_stack_op(stack: &mut Vec<PickleValue>, op: u8) -> (r: Result<Option<PickleValue>, MmnError>)
    requires
        op == 0x28 || op == 0x2E || op == 0x30 || op == 0x62 || op == 0x4E || op == 0x88 || op == 0x89 || op == 0x7D
        || op == 0x8F || op == 0x5D || op == 0x29 || op == 0x85 || op == 0x86 || op == 0x87 || op == 0x51,
    ensures
        match stack_view(op as int, pvs(old(stack)@)) {
            None => r is Err,
            Some(Step::Next(s2)) => r matches Ok(None) && pvs(final(stack)@) == s2.stack,
            Some(Step::Done(v, _)) => r matches Ok(Some(x)) && pv(x) == v,
        },
{
    let ghost s = pvs(stack@);
    if op == 0x28 {
        push_v(stack, PickleValue::Mark);
    } else if op == 0x2E {
        let x = pop_v(stack)?;
        return Ok(Some(x));
    } else if op == 0x30 || op == 0x62 {
        pop_v(stack)?;
    } else if op == 0x4E {
        push_v(stack, PickleValue::PyNone);
    } else if op == 0x88 {
        push_v(stack, PickleValue::Bool(true));
    } else if op == 0x89 {
        push_v(stack, PickleValue::Bool(false));
    } else if op == 0x7D || op == 0x8F {
        let d = PickleValue::Dict(Vec::new());
        proof {
            assert(pv(d)->Dict_0 =~= Seq::<(PV, PV)>::empty());
        }
        push_v(stack, d);
    } else if op == 0x5D {
        let d = PickleValue::List(Vec::new());
        proof {
            assert(pv(d)->List_0 =~= Seq::<PV>::empty());
        }
        push_v(stack, d);
    } else if op == 0x29 {
        let d = PickleValue::Tuple(Vec::new());
        proof {
            assert(pv(d)->Tuple_0 =~= Seq::<PV>::empty());
        }
        push_v(stack, d);
    } else if op == 0x85 {
        let a = pop_v(stack)?;
        let t = PickleValue::Tuple(vec![a]);
        proof {
            assert(pv(t)->Tuple_0 =~= seq![s[s.len() - 1]]);
        }
        push_v(stack, t);
    } else if op == 0x86 {
        let b = pop_v(stack)?;
        let a = pop_v(stack)?;
        let t = PickleValue::Tuple(vec![a, b]);
        proof {
            assert(pv(t)->Tuple_0 =~= seq![s[s.len() - 2], s[s.len() - 1]]);
            assert(s.drop_last().drop_last() =~= s.take(s.len() - 2));
        }
        push_v(stack, t);
    } else if op == 0x87 {
        let c = pop_v(stack)?;
        let b = pop_v(stack)?;
        let a = pop_v(stack)?;
        let t = PickleValue::Tuple(vec![a, b, c]);
        proof {
            assert(pv(t)->Tuple_0 =~= seq![s[s.len() - 3], s[s.len() - 2], s[s.len() - 1]]);
            assert(s.drop_last().drop_last().drop_last() =~= s.take(s.len() - 3));
        }
        push_v(stack, t);
    } else {
        let x = pop_v(stack)?;
        push_v(stack, PickleValue::PersId(Box::new(x)));
    }
    Ok(None)
}


fn op_collect(stack: &mut Vec<PickleValue>, op: u8) -> (r: Result<(), MmnError>)
    requires
        op == 0x74 || op == 0x6C,
    ensures
        match stack_view(op as int, pvs(old(stack)@)) {
            None => r is Err,
            Some(Step::Next(s2)) => r is Ok && pvs(final(stack)@) == s2.stack,
            Some(Step::Done(_, _)) => false,
        },
{
    let ghost s = pvs(stack@);
    let ghost n = s.len() as int;
    let items = pop_mark_exec(stack)?;
    let v = if op == 0x74 { PickleValue::Tuple(items) } else { PickleValue::List(items) };
    proof {
        if op == 0x74 {
            assert(pv(v)->Tuple_0 =~= pvs(items@));
        } else {
            assert(pv(v)->List_0 =~= pvs(items@));
        }
    }
    push_v(stack, v);
    Ok(())
}

fn op_append(stack: &mut Vec<PickleValue>, op: u8) -> (r: Result<(), MmnError>)
    requires
        op == 0x61,
    ensures
        match stack_view(op as int, pvs(old(stack)@)) {
            None => r is Err,
            Some(Step::Next(s2)) => r is Ok && pvs(final(stack)@) == s2.stack,
            Some(Step::Done(_, _)) => false,
        },
{
    let ghost s = pvs(stack@);
    let ghost n = s.len() as int;
    let item = pop_v(stack)?;
    let target = pop_v(stack)?;
    proof {
        assert(s.drop_last().drop_last() =~= s.take(n - 2));
    }
    match target {
        PickleValue::List(items) => {
            let mut items = items;
            let ghost i0 = pvs(items@);
            proof {
                assert(s[n - 2]->List_0 =~= i0);
            }
            items.push(item);
            let v = PickleValue::List(items);
            proof {
                assert(pvs(items@) =~= i0.push(pv(item)));
                assert(pv(v)->List_0 =~= i0.push(s[n - 1]));
            }
            push_v(stack, v);
            Ok(())
        },
        _ => Err(MmnError::new("pickle APPEND on a non-list")),
    }
}

fn op_appends(stack: &mut Vec<PickleValue>, op: u8) -> (r: Result<(), MmnError>)
    requires
        op == 0x65,
    ensures
        match stack_view(op as int, pvs(old(stack)@)) {
            None => r is Err,
            Some(Step::Next(s2)) => r is Ok && pvs(final(stack)@) == s2.stack,
            Some(Step::Done(_, _)) => false,
        },
{
    let ghost s = pvs(stack@);
    let ghost n = s.len() as int;
    let items = pop_mark_exec(stack)?;
    let target = pop_v(stack)?;
    match target {
        PickleValue::List(existing) => {
            let mut all = existing;
            let ghost e0 = pvs(all@);
            proof {
                assert(pv(PickleValue::List(all))->List_0 =~= e0);
            }
            let mut i: usize = 0;
            let ghost it = pvs(items@);
            while i < items.len()
                invariant
                    i <= items@.len(),
                    it == pvs(items@),
                    pvs(all@) == e0 + it.take(i as int),
                decreases items@.len() - i,
            {
                let x = clone_value(&items[i]);
                let ghost a0 = pvs(all@);
                all.push(x);
                i = i + 1;
                proof {
                    assert(pvs(all@) =~= a0.push(it[i - 1]));
                    assert(it.take(i as int) =~= it.take(i - 1).push(it[i - 1]));
                }
            }
            proof {
                assert(it.take(items@.len() as int) =~= it);
            }
            let v = PickleValue::List(all);
            proof {
                assert(pv(v)->List_0 =~= pvs(all@));
            }
            push_v(stack, v);
            Ok(())
        },
        _ => Err(MmnError::new("pickle APPENDS on a non-list")),
    }
}

fn op_setitem(stack: &mut Vec<PickleValue>, op: u8) -> (r: Result<(), MmnError>)
    requires
        op == 0x73,
    ensures
        match stack_view(op as int, pvs(old(stack)@)) {
            None => r is Err,
            Some(Step::Next(s2)) => r is Ok && pvs(final(stack)@) == s2.stack,
            Some(Step::Done(_, _)) => false,
        },
{
    let ghost s = pvs(stack@);
    let ghost n = s.len() as int;
    let value = pop_v(stack)?;
    let key = pop_v(stack)?;
    proof {
        assert(s.drop_last().drop_last() =~= s.take(n - 2));
    }
    let pairs = vec![(key, value)];
    proof {
        assert(pv_pairs(pairs@) =~= seq![(s[n - 2], s[n - 1])]);
    }
    set_items_exec(stack, pairs)
}

fn op_setitems(stack: &mut Vec<PickleValue>, op: u8) -> (r: Result<(), MmnError>)
    requires
        op == 0x75,
    ensures
        match stack_view(op as int, pvs(old(stack)@)) {
            None => r is Err,
            Some(Step::Next(s2)) => r is Ok && pvs(final(stack)@) == s2.stack,
            Some(Step::Done(_, _)) => false,
        },
{
    let ghost s = pvs(stack@);
    let ghost n = s.len() as int;
    let flat = pop_mark_exec(stack)?;
    if flat.len() % 2 == 1 {
        return Err(MmnError::new("pickle SETITEMS with odd item count"));
    }
    let ghost fv = pvs(flat@);
    let mut pairs: Vec<(PickleValue, PickleValue)> = Vec::new();
    let mut i: usize = 0;
    while i < flat.len() / 2
        invariant
            flat@.len() % 2 == 0,
            i <= flat@.len() / 2,
            fv == pvs(flat@),
            pv_pairs(pairs@) == pairs_of(fv).take(i as int),
        decreases flat@.len() / 2 - i,
    {
        let k = clone_value(&flat[2 * i]);
        let x = clone_value(&flat[2 * i + 1]);
        let ghost p0 = pv_pairs(pairs@);
        pairs.push((k, x));
        i = i + 1;
        proof {
            assert(pv_pairs(pairs@) =~= p0.push((fv[2 * (i - 1)], fv[2 * (i - 1) + 1])));
            assert(pairs_of(fv).take(i as int) =~= pairs_of(fv).take(i - 1).push((fv[2 * (i - 1)], fv[2 * (i - 1) + 1])));
        }
    }
    proof {
        assert(pairs_of(fv).take((flat@.len() / 2) as int) =~= pairs_of(fv));
    }
    set_items_exec(stack, pairs)
}

fn op_stack_global(stack: &mut Vec<PickleValue>, op: u8) -> (r: Result<(), MmnError>)
    requires
        op == 0x93,
    ensures
        match stack_view(op as int, pvs(old(stack)@)) {
            None => r is Err,
            Some(Step::Next(s2)) => r is Ok && pvs(final(stack)@) == s2.stack,
            Some(Step::Done(_, _)) => false,
        },
{
    let ghost s = pvs(stack@);
    let ghost n = s.len() as int;
    let name = pop_v(stack)?;
    let module = pop_v(stack)?;
    proof {
        assert(s.drop_last().drop_last() =~= s.take(n - 2));
    }
    match (module, name) {
        (PickleValue::Str(m), PickleValue::Str(nm)) => {
            push_v(stack, PickleValue::Global(m, nm));
            Ok(())
        },
        _ => Err(MmnError::new("pickle STACK_GLOBAL needs two strings")),
    }
}

fn op_reduce(stack: &mut Vec<PickleValue>, op: u8) -> (r: Result<(), MmnError>)
    requires
        op == 0x52,
    ensures
        match stack_view(op as int, pvs(old(stack)@)) {
            None => r is Err,
            Some(Step::Next(s2)) => r is Ok && pvs(final(stack)@) == s2.stack,
            Some(Step::Done(_, _)) => false,
        },
{
    let ghost s = pvs(stack@);
    let ghost n = s.len() as int;
    let args = pop_v(stack)?;
    let callable = pop_v(stack)?;
    proof {
        assert(s.drop_last().drop_last() =~= s.take(n - 2));
    }
    let v = reduce_exec(callable, args);
    push_v(stack, v);
    Ok(())
}

fn container_op(stack: &mut Vec<PickleValue>, op: u8) -> (r: Result<(), MmnError>)
    requires
        op == 0x74 || op == 0x6C || op == 0x61 || op == 0x65 || op == 0x73 || op == 0x75 || op == 0x93 || op == 0x52,
    ensures
        match stack_view(op as int, pvs(old(stack)@)) {
            None => r is Err,
            Some(Step::Next(s2)) => r is Ok && pvs(final(stack)@) == s2.stack,
            Some(Step::Done(_, _)) => false,
        },
{
    if op == 0x74 || op == 0x6C {
        op_collect(stack, op)
    } else if op == 0x61 {
        op_append(stack, op)
    } else if op == 0x65 {
        op_appends(stack, op)
    } else if op == 0x73 {
        op_setitem(stack, op)
    } else if op == 0x75 {
        op_setitems(stack, op)
    } else if op == 0x93 {
        op_stack_global(stack, op)
    } else {
        op_reduce(stack, op)
    }
}


pub open spec fn value_view(op: int, bytes: Seq<u8>, p: int, s: Seq<PV>) -> Option<Step> {
    op_value(bytes, op, p, VmState { pos: 0, stack: s, memo: Seq::empty() })
}

fn fits_exec(bytes: &[u8], p: usize, n: usize) -> (r: bool)
    ensures
        r == fits(bytes@, p as int, n as int),
{
    p <= bytes.len() && n <= bytes.len() - p
}

proof fn lemma_pow256_bound(n: nat)
    requires
        n <= 8,
    ensures
        1 <= pow256(n) <= pow256(8),
        pow256(7) == 0x100_0000_0000_0000,
        pow256(8) == 0x1_0000_0000_0000_0000,
    decreases n,
{
    reveal_with_fuel(pow256, 9);
    if n > 0 {
        lemma_pow256_bound((n - 1) as nat);
    }
}

proof fn lemma_pow256_mono(a: nat, b: nat)
    requires
        a <= b,
    ensures
        1 <= pow256(a) <= pow256(b),
    decreases b,
{
    if b > 0 {
        if a < b {
            lemma_pow256_mono(a, (b - 1) as nat);
        } else {
            lemma_pow256_mono((b - 1) as nat, (b - 1) as nat);
        }
    }
}

proof fn lemma_le_split_last(s: Seq<u8>)
    requires
        s.len() >= 1,
    ensures
        le_value(s) == le_value(s.drop_last()) + pow256((s.len() - 1) as nat) * s.last(),
    decreases s.len(),
{
    if s.len() == 1 {
        assert(s.drop_first() =~= Seq::<u8>::empty());
        assert(s.drop_last() =~= Seq::<u8>::empty());
        assert(pow256(0) == 1);
        assert(le_value(s) == s[0] + 256 * le_value(s.drop_first()));
    } else {
        let df = s.drop_first();
        lemma_le_split_last(df);
        assert(df.drop_last() =~= s.drop_last().drop_first());
        assert(df.last() == s.last());
        let a = le_value(df.drop_last());
        let p = pow256((df.len() - 1) as nat);
        assert(pow256((s.len() - 1) as nat) == 256 * p);
        assert(256 * (a + p * s.last()) == 256 * a + (256 * p) * s.last()) by (nonlinear_arith);
        assert(le_value(s) == s[0] + 256 * le_value(df));
        assert(s.drop_last()[0] == s[0]);
        assert(le_value(s.drop_last()) == s.drop_last()[0] + 256 * le_value(s.drop_last().drop_first()));
    }
}

proof fn lemma_le_value_bound(s: Seq<u8>)
    ensures
        0 <= le_value(s) < pow256(s.len()),
    decreases s.len(),
{
    if s.len() > 0 {
        lemma_le_value_bound(s.drop_first());
        assert(s.drop_first().len() == s.len() - 1);
    }
}

/// LONG1 operand of at most 8 bytes.
fn long1_exec(raw: &Vec<u8>) -> (v: i64)
    requires
        raw@.len() <= 8,
    ensures
        v as int == long1_value(raw@),
{
    let n = raw.len();
    let mut acc: u64 = 0;
    let mut i = n;
    proof {
        lemma_pow256_bound(n as nat);
        assert(raw@.subrange(n as int, n as int) =~= Seq::<u8>::empty());
    }
    while i > 0
        invariant
            i <= n == raw@.len() <= 8,
            acc as int == le_value(raw@.subrange(i as int, n as int)),
            acc < pow256((n - i) as nat),
        decreases i,
    {
        proof {
            let t = raw@.subrange(i - 1, n as int);
            assert(t.drop_first() =~= raw@.subrange(i as int, n as int));
            assert(t[0] == raw@[i - 1]);
            lemma_pow256_bound((n - i + 1) as nat);
            lemma_pow256_bound((n - i) as nat);
            assert(pow256((n - i + 1) as nat) == 256 * pow256((n - i) as nat));
        }
        acc = acc * 256 + raw[i - 1] as u64;
        i = i - 1;
    }
    proof {
        assert(raw@.subrange(0, n as int) =~= raw@);
        lemma_pow256_bound(n as nat);
    }
    if n > 0 && raw[n - 1] >= 0x80 {
        if n == 8 {
            proof {
                lemma_le_split_last(raw@);
                lemma_le_value_bound(raw@.drop_last());
                assert(raw@.last() >= 0x80);
                assert(pow256(7) * raw@.last() >= 0x100_0000_0000_0000 * 0x80) by (nonlinear_arith)
                    requires pow256(7) == 0x100_0000_0000_0000, raw@.last() >= 0x80;
            }
            ((acc - 0x8000_0000_0000_0000) as i64) + i64::MIN
        } else {
            proof {
                lemma_pow256_mono(n as nat, 7);
            }
            let p: u64 = pow256_exec(n);
            (acc as i64) - (p as i64)
        }
    } else {
        proof {
            if n == 8 {
                lemma_le_split_last(raw@);
                lemma_le_value_bound(raw@.drop_last());
                assert(raw@.last() < 0x80);
                assert(pow256(7) * raw@.last() <= 0x100_0000_0000_0000 * 0x7F) by (nonlinear_arith)
                    requires pow256(7) == 0x100_0000_0000_0000, raw@.last() <= 0x7F;
            } else {
                lemma_pow256_mono(n as nat, 7);
            }
        }
        acc as i64
    }
}

fn pow256_exec(n: usize) -> (p: u64)
    requires
        n <= 7,
    ensures
        p as int == pow256(n as nat),
{
    let mut p: u64 = 1;
    let mut i: usize = 0;
    while i < n
        invariant
            i <= n <= 7,
            p as int == pow256(i as nat),
        decreases n - i,
    {
        proof {
            lemma_pow256_bound((i + 1) as nat);
            lemma_pow256_bound(7);
            lemma_pow256_mono((i + 1) as nat, 7);
            assert(pow256((i + 1) as nat) == 256 * pow256(i as nat));
        }
        p = p * 256;
        i = i + 1;
    }
    p
}

fn be64_exec(bytes: &[u8], p: usize) -> (v: u64)
    requires
        fits(bytes@, p as int, 8),
    ensures
        v as int == be64_value(bytes@.subrange(p as int, p + 8)),
{
    let mut v: u64 = 0;
    let mut i: usize = 0;
    let _len = bytes.len();
    while i < 8
        invariant
            i <= 8,
            _len == bytes@.len(),
            fits(bytes@, p as int, 8),
            v as int == be64_value(bytes@.subrange(p as int, p + i)),
            v < pow256(i as nat),
        decreases 8 - i,
    {
        proof {
            assert(bytes@.subrange(p as int, p + i + 1).drop_last() =~= bytes@.subrange(p as int, p + i));
            lemma_pow256_bound((i + 1) as nat);
            assert(pow256((i + 1) as nat) == 256 * pow256(i as nat));
        }
        v = v * 256 + bytes[p + i] as u64;
        i = i + 1;
    }
    v
}


fn value_op(bytes: &[u8], p: usize, op: u8, stack: &mut Vec<PickleValue>) -> (r: Result<usize, MmnError>)
    requires
        is_value_op(op as int),
        bytes@.len() <= usize::MAX / 16,
    ensures
        match value_view(op as int, bytes@, p as int, pvs(old(stack)@)) {
            None => r is Err,
            Some(Step::Next(s2)) => r matches Ok(q) && q == s2.pos && pvs(final(stack)@) == s2.stack,
            Some(Step::Done(_, _)) => false,
        },
{
    if op == 0x4B {
        if !fits_exec(bytes, p, 1) {
            return Err(MmnError::new("pickle stream truncated"));
        }
        push_v(stack, PickleValue::Int(bytes[p] as i64));
        Ok(p + 1)
    } else if op == 0x4D {
        if !fits_exec(bytes, p, 2) {
            return Err(MmnError::new("pickle stream truncated"));
        }
        push_v(stack, PickleValue::Int(read_le16(bytes, p) as i64));
        Ok(p + 2)
    } else if op == 0x4A {
        if !fits_exec(bytes, p, 4) {
            return Err(MmnError::new("pickle stream truncated"));
        }
        let v = read_le32(bytes, p) as i64;
        let x: i64 = if v >= 0x8000_0000 { v - 0x1_0000_0000 } else { v };
        push_v(stack, PickleValue::Int(x));
        Ok(p + 4)
    } else if op == 0x8A {
        if !fits_exec(bytes, p, 1) || !fits_exec(bytes, p + 1, bytes[p] as usize) {
            return Err(MmnError::new("pickle stream truncated"));
        }
        let n = bytes[p] as usize;
        let raw = copy_range(bytes, p + 1, p + 1 + n);
        if n > 8 {
            push_v(stack, PickleValue::Bytes(raw));
        } else {
            let v = long1_exec(&raw);
            push_v(stack, PickleValue::Int(v));
        }
        Ok(p + 1 + n)
    } else if op == 0x47 {
        if !fits_exec(bytes, p, 8) {
            return Err(MmnError::new("pickle stream truncated"));
        }
        let v = be64_exec(bytes, p);
        push_v(stack, PickleValue::Float(v));
        Ok(p + 8)
    } else if op == 0x55 || op == 0x8C || op == 0x43 {
        if !fits_exec(bytes, p, 1) || !fits_exec(bytes, p + 1, bytes[p] as usize) {
            return Err(MmnError::new("pickle stream truncated"));
        }
        let n = bytes[p] as usize;
        let raw = copy_range(bytes, p + 1, p + 1 + n);
        if op == 0x43 {
            push_v(stack, PickleValue::Bytes(raw));
            return Ok(p + 1 + n);
        }
        let again = copy_range(bytes, p + 1, p + 1 + n);
        match utf8_string(raw) {
            Some(text) => {
                push_v(stack, PickleValue::Str(text));
                Ok(p + 1 + n)
            },
            None => {
                if op == 0x55 {
                    push_v(stack, PickleValue::Bytes(again));
                    Ok(p + 1 + n)
                } else {
                    Err(MmnError::new("pickle SHORT_BINUNICODE not UTF-8"))
                }
            },
        }
    } else if op == 0x58 || op == 0x42 {
        if !fits_exec(bytes, p, 4) {
            return Err(MmnError::new("pickle stream truncated"));
        }
        let n = read_le32(bytes, p) as usize;
        if !fits_exec(bytes, p + 4, n) {
            return Err(MmnError::new("pickle stream truncated"));
        }
        let raw = copy_range(bytes, p + 4, p + 4 + n);
        if op == 0x42 {
            push_v(stack, PickleValue::Bytes(raw));
            return Ok(p + 4 + n);
        }
        match utf8_string(raw) {
            Some(text) => {
                push_v(stack, PickleValue::Str(text));
                Ok(p + 4 + n)
            },
            None => Err(MmnError::new("pickle BINUNICODE not UTF-8")),
        }
    } else {
        if !fits_exec(bytes, p, 8) {
            return Err(MmnError::new("pickle stream truncated"));
        }
        let lo = read_le32(bytes, p) as u64;
        let hi = read_le32(bytes, p + 4) as u64;
        let n = (hi * 0x1_0000_0000 + lo) as usize;
        if !fits_exec(bytes, p + 8, n) {
            return Err(MmnError::new("pickle stream truncated"));
        }
        let raw = copy_range(bytes, p + 8, p + 8 + n);
        push_v(stack, PickleValue::Bytes(raw));
        Ok(p + 8 + n)
    }
}


fn line_exec(bytes: &[u8], pos: usize) -> (r: Result<(String, usize), MmnError>)
    ensures
        match spec_line(bytes@, pos as int) {
            Some((cs, q)) => r matches Ok((t, q2)) && t@ == cs && q2 == q,
            None => r is Err,
        },
{
    let mut e = pos;
    while e < bytes.len() && bytes[e] != 0x0A
        invariant
            pos <= e,
            newline_at(bytes@, pos as int) == newline_at(bytes@, e as int),
        decreases bytes@.len() - e,
    {
        e = e + 1;
    }
    if e >= bytes.len() {
        return Err(MmnError::new("pickle text line unterminated"));
    }
    let raw = copy_range(bytes, pos, e);
    match utf8_string(raw) {
        Some(t) => Ok((t, e + 1)),
        None => Err(MmnError::new("pickle line not UTF-8")),
    }
}

/// `cs` with trailing `L`s dropped: the length kept.
fn trim_l_len(cs: &Vec<char>) -> (n: usize)
    ensures
        n <= cs@.len(),
        trim_l(cs@) == cs@.take(n as int),
{
    let mut n = cs.len();
    proof {
        assert(cs@.take(n as int) =~= cs@);
    }
    while n > 0 && cs[n - 1] == 'L'
        invariant
            n <= cs@.len(),
            trim_l(cs@) == trim_l(cs@.take(n as int)),
        decreases n,
    {
        proof {
            assert(cs@.take(n as int).drop_last() =~= cs@.take(n - 1));
        }
        n = n - 1;
    }
    n
}

/// Decimal value of `cs[start..end]`, saturated at `cap`.
fn digits_capped(cs: &Vec<char>, start: usize, end: usize) -> (r: Option<u128>)
    requires
        start <= end <= cs@.len(),
    ensures
        match dec_digits(cs@.subrange(start as int, end as int)) {
            Some(v) => r matches Some(x) && x == if v < 0x8000_0000_0000_0001 { v } else { 0x8000_0000_0000_0001 },
            None => r is None,
        },
{
    let cap: u128 = 0x8000_0000_0000_0001;
    let mut v: u128 = 0;
    let mut i = start;
    proof {
        assert(cs@.subrange(start as int, start as int) =~= Seq::<char>::empty());
    }
    while i < end
        invariant
            start <= i <= end <= cs@.len(),
            cap == 0x8000_0000_0000_0001,
            dec_digits(cs@.subrange(start as int, i as int)) matches Some(d) && v == if d < 0x8000_0000_0000_0001 { d } else { 0x8000_0000_0000_0001 },
            v <= 0x8000_0000_0000_0001,
        decreases end - i,
    {
        let c = cs[i];
        proof {
            assert(cs@.subrange(start as int, i + 1).drop_last() =~= cs@.subrange(start as int, i as int));
            assert(cs@.subrange(start as int, i + 1).last() == c);
        }
        if !('0' <= c && c <= '9') {
            proof {
                lemma_digits_none(cs@.subrange(start as int, end as int), (i - start + 1) as int);
                assert(cs@.subrange(start as int, end as int).take((i - start + 1) as int) =~= cs@.subrange(start as int, i + 1));
            }
            return None;
        }
        let ghost d0 = dec_digits(cs@.subrange(start as int, i as int))->0;
        let d = (c as u32 - '0' as u32) as u128;
        proof {
            assert(d as int == c as int - '0' as int);
            assert(dec_digits(cs@.subrange(start as int, i + 1)) == Some(10 * d0 + d));
        }
        let w = v * 10 + d;
        v = if w < cap { w } else { cap };
        proof {
            let nd = 10 * d0 + d;
            if d0 >= cap {
                assert(nd >= cap);
            }
        }
        i = i + 1;
    }
    Some(v)
}

proof fn lemma_digits_none(s: Seq<char>, k: int)
    requires
        0 <= k <= s.len(),
        dec_digits(s.take(k)) is None,
    ensures
        dec_digits(s) is None,
    decreases s.len() - k,
{
    if k < s.len() {
        assert(s.take(k + 1).drop_last() =~= s.take(k));
        lemma_digits_none(s, k + 1);
    } else {
        assert(s.take(k) =~= s);
    }
}

fn parse_i64_exec(cs: &Vec<char>, end: usize) -> (r: Option<i64>)
    requires
        end <= cs@.len(),
    ensures
        r == parse_i64(cs@.take(end as int)),
{
    let ghost t = cs@.take(end as int);
    let neg = end > 0 && cs[0] == '-';
    let start: usize = if end > 0 && (cs[0] == '-' || cs[0] == '+') { 1 } else { 0 };
    proof {
        let body = if t.len() > 0 && (t[0] == '-' || t[0] == '+') { t.drop_first() } else { t };
        assert(body =~= cs@.subrange(start as int, end as int));
    }
    if start == end {
        return None;
    }
    match digits_capped(cs, start, end) {
        None => None,
        Some(v) => {
            if neg {
                if v <= 0x8000_0000_0000_0000 {
                    if v == 0x8000_0000_0000_0000 {
                        Some(i64::MIN)
                    } else {
                        Some(-(v as i64))
                    }
                } else {
                    None
                }
            } else if v <= 0x7FFF_FFFF_FFFF_FFFF {
                Some(v as i64)
            } else {
                None
            }
        },
    }
}

pub open spec fn line_view(op: int, bytes: Seq<u8>, p: int, s: Seq<PV>) -> Option<Step> {
    op_line(bytes, op, p, VmState { pos: 0, stack: s, memo: Seq::empty() })
}

fn line_op(bytes: &[u8], p: usize, op: u8, stack: &mut Vec<PickleValue>) -> (r: Result<usize, MmnError>)
    requires
        op == 0x4C || op == 0x63 || op == 0x50,
    ensures
        match line_view(op as int, bytes@, p as int, pvs(old(stack)@)) {
            None => r is Err,
            Some(Step::Next(s2)) => r matches Ok(q) && q == s2.pos && pvs(final(stack)@) == s2.stack,
            Some(Step::Done(_, _)) => false,
        },
{
    let (l1, q1) = line_exec(bytes, p)?;
    proof {
        assert(spec_line(bytes@, p as int) == Some((l1@, q1 as int)));
    }
    if op == 0x4C {
        let cs = chars_of(l1.as_str());
        let n = trim_l_len(&cs);
        proof {
            assert(cs@ == l1@);
        }
        match parse_i64_exec(&cs, n) {
            Some(v) => {
                let x = PickleValue::Int(v);
                proof {
                    assert(pv(x) == PV::Int(v));
                }
                push_v(stack, x);
                Ok(q1)
            },
            None => Err(MmnError::new("pickle LONG not an i64")),
        }
    } else if op == 0x50 {
        let ghost lv = l1@;
        let inner = PickleValue::Str(l1);
        proof {
            assert(pv(inner) == PV::Str(lv));
        }
        let x = PickleValue::PersId(Box::new(inner));
        proof {
            assert(pv(x) == PV::PersId(Box::new(PV::Str(lv))));
        }
        push_v(stack, x);
        Ok(q1)
    } else {
        let (l2, q2) = line_exec(bytes, q1)?;
        proof {
            assert(spec_line(bytes@, q1 as int) == Some((l2@, q2 as int)));
        }
        let ghost v1 = l1@;
        let ghost v2 = l2@;
        let x = PickleValue::Global(l1, l2);
        proof {
            assert(pv(x) == PV::Global(v1, v2));
        }
        push_v(stack, x);
        Ok(q2)
    }
}


pub open spec fn meta_view(op: int, bytes: Seq<u8>, p: int, s: Seq<PV>, m: Seq<Option<PV>>) -> Option<Step> {
    op_meta(bytes, op, p, VmState { pos: 0, stack: s, memo: m })
}

fn memo_put_exec(idx: usize, q: usize, stack: &Vec<PickleValue>, memo: &mut Vec<Option<PickleValue>>) -> (r: Result<usize, MmnError>)
    ensures
        match memo_put(VmState { pos: 0, stack: pvs(stack@), memo: memo_view(old(memo)@) }, idx as int, q as int) {
            None => r is Err,
            Some(Step::Next(s2)) => r matches Ok(q2) && q2 == s2.pos && s2.stack == pvs(stack@) && memo_view(final(memo)@) == s2.memo,
            Some(Step::Done(_, _)) => false,
        },
{
    if stack.len() == 0 {
        return Err(MmnError::new("pickle BINPUT on empty stack"));
    }
    let ghost m0 = memo_view(memo@);
    if idx >= memo.len() {
        if idx > 0x100_0000 {
            return Err(MmnError::new("pickle memo index unreasonably large"));
        }
        while memo.len() <= idx
            invariant
                idx <= 0x100_0000,
                memo@.len() >= m0.len(),
                memo@.len() <= idx + 1,
                memo_view(memo@) == m0 + Seq::new((memo@.len() - m0.len()) as nat, |i: int| None::<PV>),
            decreases idx + 1 - memo@.len(),
        {
            let ghost mb = memo_view(memo@);
            memo.push(None);
            proof {
                assert(memo_view(memo@) =~= mb.push(None::<PV>));
                let k = (memo@.len() - m0.len()) as nat;
                assert(Seq::new(k, |i: int| None::<PV>) =~= Seq::new((k - 1) as nat, |i: int| None::<PV>).push(None::<PV>));
                assert(memo_view(memo@) =~= m0 + Seq::new(k, |i: int| None::<PV>));
            }
        }
    }
    let top = clone_value(&stack[stack.len() - 1]);
    let ghost mb = memo_view(memo@);
    memo.set(idx, Some(top));
    proof {
        assert(memo_view(memo@) =~= mb.update(idx as int, Some(pvs(stack@).last())));
        if idx >= m0.len() {
            assert(mb =~= m0 + Seq::new((idx + 1 - m0.len()) as nat, |i: int| None::<PV>));
        } else {
            assert(mb =~= m0);
        }
    }
    Ok(q)
}

fn memo_get_exec(idx: usize, q: usize, stack: &mut Vec<PickleValue>, memo: &Vec<Option<PickleValue>>) -> (r: Result<usize, MmnError>)
    ensures
        match memo_get(VmState { pos: 0, stack: pvs(old(stack)@), memo: memo_view(memo@) }, idx as int, q as int) {
            None => r is Err,
            Some(Step::Next(s2)) => r matches Ok(q2) && q2 == s2.pos && pvs(final(stack)@) == s2.stack,
            Some(Step::Done(_, _)) => false,
        },
{
    if idx >= memo.len() {
        return Err(MmnError::new("pickle memo slot empty"));
    }
    match &memo[idx] {
        Some(v) => {
            let x = clone_value(v);
            push_v(stack, x);
            Ok(q)
        },
        None => Err(MmnError::new("pickle memo slot empty")),
    }
}

fn meta_op(bytes: &[u8], p: usize, op: u8, stack: &mut Vec<PickleValue>, memo: &mut Vec<Option<PickleValue>>) -> (r: Result<usize, MmnError>)
    requires
        bytes@.len() <= usize::MAX / 16,
    ensures
        match meta_view(op as int, bytes@, p as int, pvs(old(stack)@), memo_view(old(memo)@)) {
            None => r is Err,
            Some(Step::Next(s2)) => r matches Ok(q) && q == s2.pos && pvs(final(stack)@) == s2.stack
                && memo_view(final(memo)@) == s2.memo,
            Some(Step::Done(_, _)) => false,
        },
{
    if op == 0x80 {
        if !fits_exec(bytes, p, 1) || bytes[p] > 5 {
            return Err(MmnError::new("pickle protocol unsupported"));
        }
        Ok(p + 1)
    } else if op == 0x95 {
        if !fits_exec(bytes, p, 8) {
            return Err(MmnError::new("pickle stream truncated"));
        }
        Ok(p + 8)
    } else if op == 0x71 || op == 0x68 {
        if !fits_exec(bytes, p, 1) {
            return Err(MmnError::new("pickle stream truncated"));
        }
        let idx = bytes[p] as usize;
        if op == 0x71 {
            memo_put_exec(idx, p + 1, stack, memo)
        } else {
            memo_get_exec(idx, p + 1, stack, memo)
        }
    } else if op == 0x72 || op == 0x6A {
        if !fits_exec(bytes, p, 4) {
            return Err(MmnError::new("pickle stream truncated"));
        }
        let idx = read_le32(bytes, p) as usize;
        if op == 0x72 {
            memo_put_exec(idx, p + 4, stack, memo)
        } else {
            memo_get_exec(idx, p + 4, stack, memo)
        }
    } else if op == 0x94 {
        let idx = memo.len();
        memo_put_exec(idx, p, stack, memo)
    } else {
        Err(MmnError::new("pickle opcode not supported"))
    }
}


pub open spec fn relocate(r: Option<Step>, p: int, memo: Seq<Option<PV>>) -> Option<Step> {
    match r {
        None => None,
        Some(Step::Next(s2)) => Some(Step::Next(VmState { pos: s2.pos, stack: s2.stack, memo })),
        Some(Step::Done(v, _)) => Some(Step::Done(v, p)),
    }
}

proof fn lemma_stack_relocate(op: int, p: int, st: VmState)
    requires
        is_stack_op(op),
    ensures
        op_stack(op, p, st) == match stack_view(op, st.stack) {
            None => None,
            Some(Step::Next(s2)) => Some(Step::Next(VmState { pos: p, stack: s2.stack, memo: st.memo })),
            Some(Step::Done(v, _)) => Some(Step::Done(v, p)),
        },
{
}

proof fn lemma_value_relocate(bytes: Seq<u8>, op: int, p: int, st: VmState)
    requires
        is_value_op(op),
    ensures
        op_value(bytes, op, p, st) == relocate(value_view(op, bytes, p, st.stack), p, st.memo),
{
}

proof fn lemma_line_relocate(bytes: Seq<u8>, op: int, p: int, st: VmState)
    requires
        op == 0x4C || op == 0x63 || op == 0x50,
    ensures
        op_line(bytes, op, p, st) == relocate(line_view(op, bytes, p, st.stack), p, st.memo),
{
}

fn step(vm: &mut Vm) -> (r: Result<Option<PickleValue>, MmnError>)
    requires
        old(vm).bytes@.len() <= usize::MAX / 16,
    ensures
        final(vm).bytes@ == old(vm).bytes@,
        match spec_step(old(vm).bytes@, vm_view(*old(vm))) {
            None => r is Err,
            Some(Step::Next(s2)) => r matches Ok(None) && vm_view(*final(vm)) == s2,
            Some(Step::Done(v, q)) => r matches Ok(Some(x)) && pv(x) == v && final(vm).pos == q,
        },
{
    let bytes = vm.bytes;
    let pos = vm.pos;
    if !fits_exec(bytes, pos, 1) {
        return Err(MmnError::new("pickle stream truncated"));
    }
    let op = bytes[pos];
    let p = pos + 1;
    let ghost st = vm_view(*vm);
    if op == 0x28 || op == 0x2E || op == 0x30 || op == 0x62 || op == 0x4E || op == 0x88 || op == 0x89 || op == 0x7D
        || op == 0x8F || op == 0x5D || op == 0x29 || op == 0x85 || op == 0x86 || op == 0x87 || op == 0x51 {
        proof {
            lemma_stack_relocate(op as int, p as int, st);
        }
        let done = simple_stack_op(&mut vm.stack, op)?;
        vm.pos = p;
        Ok(done)
    } else if op == 0x74 || op == 0x6C || op == 0x61 || op == 0x65 || op == 0x73 || op == 0x75 || op == 0x93 || op == 0x52 {
        proof {
            lemma_stack_relocate(op as int, p as int, st);
        }
        container_op(&mut vm.stack, op)?;
        vm.pos = p;
        Ok(None)
    } else if op == 0x4B || op == 0x4D || op == 0x4A || op == 0x8A || op == 0x47 || op == 0x55 || op == 0x8C || op == 0x43
        || op == 0x58 || op == 0x42 || op == 0x8E {
        proof {
            lemma_value_relocate(bytes@, op as int, p as int, st);
        }
        let q = value_op(bytes, p, op, &mut vm.stack)?;
        vm.pos = q;
        Ok(None)
    } else if op == 0x4C || op == 0x63 || op == 0x50 {
        proof {
            lemma_line_relocate(bytes@, op as int, p as int, st);
        }
        let q = line_op(bytes, p, op, &mut vm.stack)?;
        vm.pos = q;
        Ok(None)
    } else {
        let q = meta_op(bytes, p, op, &mut vm.stack, &mut vm.memo)?;
        vm.pos = q;
        Ok(None)
    }
}

/// Parse one pickle from the front of `bytes`; also gives the bytes it
/// took (legacy `torch.save` files hold several pickles in a row).
pub fn parse_pickle_prefix(bytes: &[u8]) -> (r: Result<(PickleValue, usize), MmnError>)
    requires
        bytes@.len() <= usize::MAX / 16,
    ensures
        match spec_pickle_prefix(bytes@) {
            Some((v, q)) => r matches Ok((x, n)) && pv(x) == v && n == q,
            None => r is Err,
        },
{
    let mut vm = Vm { bytes, pos: 0, stack: Vec::new(), memo: Vec::new() };
    proof {
        assert(pvs(vm.stack@) =~= Seq::<PV>::empty());
        assert(memo_view(vm.memo@) =~= Seq::<Option<PV>>::empty());
    }
    let ghost goal = spec_pickle_prefix(bytes@);
    let n = bytes.len();
    loop
        invariant
            vm.bytes@ == bytes@,
            n == bytes@.len() <= usize::MAX / 16,
            vm.pos <= n,
            goal == spec_run(bytes@, vm_view(vm)),
            goal == spec_pickle_prefix(bytes@),
        decreases n - vm.pos,
    {
        let p0 = vm.pos;
        let ghost st0 = vm_view(vm);
        match step(&mut vm)? {
            Some(v) => return Ok((v, vm.pos)),
            None => {},
        }
        if vm.pos <= p0 || vm.pos > n {
            return Err(MmnError::new("pickle opcode did not advance"));
        }
    }
}

/// Parse a pickle byte stream into a value tree.
pub fn parse_pickle(bytes: &[u8]) -> (r: Result<PickleValue, MmnError>)
    requires
        bytes@.len() <= usize::MAX / 16,
    ensures
        match spec_pickle_prefix(bytes@) {
            Some((v, _)) => r matches Ok(x) && pv(x) == v,
            None => r is Err,
        },
{
    let (v, _) = parse_pickle_prefix(bytes)?;
    Ok(v)
}

impl PickleValue {
    /// The text of a string value.
    pub fn as_str(&self) -> (r: Option<&str>)
        ensures
            match pv(*self) {
                PV::Str(s) => r matches Some(t) && t@ == s,
                _ => r is None,
            },
    {
        match self {
            PickleValue::Str(s) => Some(s.as_str()),
            _ => None,
        }
    }

    /// An integer value (a bool counts as 0 or 1).
    pub fn as_int(&self) -> (r: Option<i64>)
        ensures
            r == match pv(*self) {
                PV::Int(v) => Some(v),
                PV::Bool(b) => Some(if b { 1i64 } else { 0i64 }),
                _ => None::<i64>,
            },
    {
        match self {
            PickleValue::Int(v) => Some(*v),
            PickleValue::Bool(b) => Some(if *b { 1 } else { 0 }),
            _ => None,
        }
    }

    /// The items of a tuple value.
    pub fn tuple_items(&self) -> (r: Option<&Vec<PickleValue>>)
        ensures
            match pv(*self) {
                PV::Tuple(items) => r matches Some(v) && pvs(v@) == items,
                _ => r is None,
            },
    {
        match self {
            PickleValue::Tuple(items) => {
                proof {
                    assert(pvs(items@) =~= pv(*self)->Tuple_0);
                }
                Some(items)
            },
            _ => None,
        }
    }
}

} // verus!
