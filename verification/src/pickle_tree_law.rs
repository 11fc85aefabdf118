//! What the pickle reader gives back of nested tuples, lists and dicts the
//! pickle writer writes.

use vstd::prelude::*;
use vstd::utf8::*;
use crate::bytes::{le32_bytes, le64_bytes, lemma_le32_roundtrip, lemma_le64_roundtrip};
use crate::pickle::{pickle_global_bytes, pickle_int_bytes, pickle_string_bytes};
use crate::pickle_law::{framed, lemma_le_value8, lemma_newline_at};
use crate::pickle_vm::{
    last_mark, long1_value, pairs_of, pop_mark, spec_line, spec_pickle_prefix, spec_run, spec_step, Step, VmState, PV,
};

verus! {

/// A value as a sequence of writer calls builds it.
pub enum Piece {
    /// `integer`.
    Int(i64),
    /// `bool`.
    Bool(bool),
    /// `string`.
    Str(Seq<char>),
    /// `global`.
    Global(Seq<char>, Seq<char>),
    /// `empty_tuple`.
    EmptyTuple,
    /// `mark`, the items, `tuple_from_mark`.
    Tuple(Seq<Piece>),
    /// `mark`, the items, `list_from_mark`.
    List(Seq<Piece>),
    /// `empty_dict`, `mark`, keys and values in turn, `set_items`.
    Dict(Seq<Piece>),
}

/// The bytes the writer calls of a piece append.
pub open spec fn piece_bytes(w: Piece) -> Seq<u8>
    decreases w, 0nat,
{
    match w {
        Piece::Int(v) => pickle_int_bytes(v as int),
        Piece::Bool(b) => seq![if b { 0x88u8 } else { 0x89u8 }],
        Piece::Str(cs) => pickle_string_bytes(encode_utf8(cs)),
        Piece::Global(m, n) => pickle_global_bytes(encode_utf8(m), encode_utf8(n)),
        Piece::EmptyTuple => seq![0x29u8],
        Piece::Tuple(items) => seq![0x28u8] + items_bytes(items) + seq![0x74u8],
        Piece::List(items) => seq![0x28u8] + items_bytes(items) + seq![0x6Cu8],
        Piece::Dict(items) => seq![0x7Du8, 0x28u8] + items_bytes(items) + seq![0x75u8],
    }
}

/// The bytes of pieces written one after another.
pub open spec fn items_bytes(items: Seq<Piece>) -> Seq<u8>
    decreases items, 1nat,
{
    if items.len() == 0 {
        Seq::empty()
    } else {
        piece_bytes(items[0]) + items_bytes(items.drop_first())
    }
}

/// The value the reader makes of a piece.
pub open spec fn piece_value(w: Piece) -> PV
    decreases w, 0nat,
{
    match w {
        Piece::Int(v) => PV::Int(v),
        Piece::Bool(b) => PV::Bool(b),
        Piece::Str(cs) => PV::Str(cs),
        Piece::Global(m, n) => PV::Global(m, n),
        Piece::EmptyTuple => PV::Tuple(Seq::empty()),
        Piece::Tuple(items) => PV::Tuple(items_values(items)),
        Piece::List(items) => PV::List(items_values(items)),
        Piece::Dict(items) => PV::Dict(pairs_of(items_values(items))),
    }
}

/// The values of pieces, in order.
pub open spec fn items_values(items: Seq<Piece>) -> Seq<PV>
    decreases items, 1nat,
{
    if items.len() == 0 {
        Seq::empty()
    } else {
        seq![piece_value(items[0])] + items_values(items.drop_first())
    }
}

/// What the writer can store: strings whose UTF-8 length fits 32 bits,
/// module and class names without a newline, and dicts of whole key/value
/// pairs.
pub open spec fn writable(w: Piece) -> bool
    decreases w, 0nat,
{
    match w {
        Piece::Str(cs) => encode_utf8(cs).len() <= u32::MAX,
        Piece::Global(m, n) => !encode_utf8(m).contains(0x0Au8) && !encode_utf8(n).contains(0x0Au8),
        Piece::Tuple(items) => all_writable(items),
        Piece::List(items) => all_writable(items),
        Piece::Dict(items) => all_writable(items) && items.len() % 2 == 0,
        _ => true,
    }
}

/// Every piece is [`writable`].
pub open spec fn all_writable(items: Seq<Piece>) -> bool
    decreases items, 1nat,
{
    if items.len() == 0 {
        true
    } else {
        writable(items[0]) && all_writable(items.drop_first())
    }
}

/// `st` moved to `pos`, with `v` pushed.
pub open spec fn pushed(st: VmState, pos: int, vs: Seq<PV>) -> VmState {
    VmState { pos, stack: st.stack + vs, memo: st.memo }
}

proof fn lemma_run_next(bytes: Seq<u8>, st: VmState, s2: VmState)
    requires
        spec_step(bytes, st) == Some(Step::Next(s2)),
        st.pos < s2.pos <= bytes.len(),
    ensures
        spec_run(bytes, st) == spec_run(bytes, s2),
{
}

proof fn lemma_sub(bytes: Seq<u8>, p: int, e: Seq<u8>, a: int, b: int)
    requires
        0 <= p,
        p + e.len() <= bytes.len(),
        bytes.subrange(p, p + e.len()) == e,
        0 <= a <= b <= e.len(),
    ensures
        bytes.subrange(p + a, p + b) == e.subrange(a, b),
        forall|k: int| a <= k < b ==> #[trigger] bytes[p + k] == e[k],
{
    assert forall|k: int| a <= k < b implies #[trigger] bytes[p + k] == e[k] by {
        assert(bytes.subrange(p, p + e.len())[k] == bytes[p + k]);
    }
    assert(bytes.subrange(p + a, p + b) =~= e.subrange(a, b));
}

#[verifier::rlimit(40)]
proof fn lemma_step_int(bytes: Seq<u8>, st: VmState, v: i64)
    requires
        0 <= st.pos,
        st.pos + pickle_int_bytes(v as int).len() <= bytes.len(),
        bytes.subrange(st.pos, st.pos + pickle_int_bytes(v as int).len()) == pickle_int_bytes(v as int),
    ensures
        spec_step(bytes, st) == Some(Step::Next(VmState {
            pos: st.pos + pickle_int_bytes(v as int).len(),
            stack: st.stack.push(PV::Int(v)),
            memo: st.memo,
        })),
{
    let e = pickle_int_bytes(v as int);
    let p = st.pos;
    lemma_sub(bytes, p, e, 0, e.len() as int);
    assert(bytes[p] == e[0]);
    if 0 <= v <= 255 {
        assert(bytes[p + 1] == e[1]);
    } else if -0x8000_0000 <= v <= 0x7FFF_FFFF {
        let u: int = if v < 0 { v + 0x1_0000_0000 } else { v as int };
        assert(e == seq![0x4Au8] + le32_bytes(u));
        lemma_sub(bytes, p, e, 1, 5);
        assert(e.subrange(1, 5) =~= le32_bytes(u));
        lemma_le32_roundtrip(bytes, p + 1, u);
    } else {
        let u: int = if v < 0 { v + 0x1_0000_0000_0000_0000 } else { v as int };
        assert(e == seq![0x8Au8, 8u8] + le64_bytes(u));
        assert(bytes[p + 1] == e[1]);
        lemma_sub(bytes, p, e, 2, 10);
        let raw = bytes.subrange(p + 2, p + 10);
        assert(e.subrange(2, 10) =~= le64_bytes(u));
        assert(raw.subrange(0, 8) =~= raw);
        lemma_le64_roundtrip(raw, 0, u);
        lemma_le_value8(raw, u);
        assert(long1_value(raw) == v);
    }
}

#[verifier::rlimit(40)]
proof fn lemma_step_str(bytes: Seq<u8>, st: VmState, cs: Seq<char>)
    requires
        encode_utf8(cs).len() <= u32::MAX,
        0 <= st.pos,
        st.pos + pickle_string_bytes(encode_utf8(cs)).len() <= bytes.len(),
        bytes.subrange(st.pos, st.pos + pickle_string_bytes(encode_utf8(cs)).len()) == pickle_string_bytes(
            encode_utf8(cs),
        ),
    ensures
        spec_step(bytes, st) == Some(Step::Next(VmState {
            pos: st.pos + pickle_string_bytes(encode_utf8(cs)).len(),
            stack: st.stack.push(PV::Str(cs)),
            memo: st.memo,
        })),
{
    let s = encode_utf8(cs);
    let e = pickle_string_bytes(s);
    let p = st.pos;
    let n = s.len() as int;
    lemma_sub(bytes, p, e, 0, e.len() as int);
    assert(bytes[p] == e[0]);
    assert(n % 0x1_0000_0000 == n);
    lemma_sub(bytes, p, e, 1, 5);
    assert(e.subrange(1, 5) =~= le32_bytes(n));
    lemma_le32_roundtrip(bytes, p + 1, n);
    lemma_sub(bytes, p, e, 5, 5 + n);
    assert(e.subrange(5, 5 + n) =~= s);
    encode_utf8_valid_utf8(cs);
    encode_utf8_decode_utf8(cs);
}

#[verifier::rlimit(40)]
proof fn lemma_step_global(bytes: Seq<u8>, st: VmState, m: Seq<char>, n: Seq<char>)
    requires
        !encode_utf8(m).contains(0x0Au8),
        !encode_utf8(n).contains(0x0Au8),
        0 <= st.pos,
        st.pos + pickle_global_bytes(encode_utf8(m), encode_utf8(n)).len() <= bytes.len(),
        bytes.subrange(st.pos, st.pos + pickle_global_bytes(encode_utf8(m), encode_utf8(n)).len())
            == pickle_global_bytes(encode_utf8(m), encode_utf8(n)),
    ensures
        spec_step(bytes, st) == Some(Step::Next(VmState {
            pos: st.pos + pickle_global_bytes(encode_utf8(m), encode_utf8(n)).len(),
            stack: st.stack.push(PV::Global(m, n)),
            memo: st.memo,
        })),
{
    let em = encode_utf8(m);
    let en = encode_utf8(n);
    let e = pickle_global_bytes(em, en);
    let p = st.pos;
    let l1: int = 1 + em.len() as int;
    let l2: int = l1 + 1 + en.len();
    lemma_sub(bytes, p, e, 0, e.len() as int);
    assert(bytes[p] == e[0]);
    assert(bytes[p + l1] == e[l1]);
    assert(bytes[p + l2] == e[l2]);
    lemma_sub(bytes, p, e, 1, l1);
    assert(e.subrange(1, l1) =~= em);
    lemma_sub(bytes, p, e, l1 + 1, l2);
    assert(e.subrange(l1 + 1, l2) =~= en);
    assert forall|k: int| p + 1 <= k < p + l1 implies bytes[k] != 0x0Au8 by {
        assert(bytes[p + (k - p)] == e[k - p]);
        assert(e[k - p] == em[k - p - 1]);
    }
    assert forall|k: int| p + l1 + 1 <= k < p + l2 implies bytes[k] != 0x0Au8 by {
        assert(bytes[p + (k - p)] == e[k - p]);
        assert(e[k - p] == en[k - p - l1 - 1]);
    }
    lemma_newline_at(bytes, p + 1, p + l1);
    lemma_newline_at(bytes, p + l1 + 1, p + l2);
    encode_utf8_valid_utf8(m);
    encode_utf8_decode_utf8(m);
    encode_utf8_valid_utf8(n);
    encode_utf8_decode_utf8(n);
    assert(spec_line(bytes, p + 1) == Some((m, p + l1 + 1)));
    assert(spec_line(bytes, p + l1 + 1) == Some((n, p + l2 + 1)));
}

proof fn lemma_pop_mark(base: Seq<PV>, vals: Seq<PV>)
    requires
        forall|k: int| 0 <= k < vals.len() ==> !(#[trigger] vals[k] is Mark),
    ensures
        last_mark(base.push(PV::Mark) + vals) == Some(base.len() as int),
        pop_mark(base.push(PV::Mark) + vals) == Some((vals, base)),
    decreases vals.len(),
{
    let s = base.push(PV::Mark) + vals;
    if vals.len() == 0 {
        assert(s =~= base.push(PV::Mark));
        assert(s.last() is Mark);
        assert(s.subrange(base.len() as int + 1, s.len() as int) =~= vals);
        assert(s.take(base.len() as int) =~= base);
    } else {
        lemma_pop_mark(base, vals.drop_last());
        assert(s.drop_last() =~= base.push(PV::Mark) + vals.drop_last());
        assert(s.last() == vals.last());
        assert(last_mark(s) == last_mark(s.drop_last()));
        assert(s.subrange(base.len() as int + 1, s.len() as int) =~= vals);
        assert(s.take(base.len() as int) =~= base);
    }
}

/// Running the opcodes of a piece leaves its value on the stack.
#[verifier::rlimit(40)]
proof fn lemma_run_piece(bytes: Seq<u8>, st: VmState, w: Piece)
    requires
        writable(w),
        0 <= st.pos,
        st.pos + piece_bytes(w).len() <= bytes.len(),
        bytes.subrange(st.pos, st.pos + piece_bytes(w).len()) == piece_bytes(w),
    ensures
        piece_bytes(w).len() >= 1,
        !(piece_value(w) is Mark),
        spec_run(bytes, st) == spec_run(bytes, pushed(st, st.pos + piece_bytes(w).len(), seq![piece_value(w)])),
    decreases w, 0nat,
{
    let e = piece_bytes(w);
    let p = st.pos;
    let v = piece_value(w);
    let fin = pushed(st, p + e.len(), seq![v]);
    assert(st.stack.push(v) =~= st.stack + seq![v]);
    match w {
        Piece::Int(x) => {
            lemma_step_int(bytes, st, x);
            lemma_run_next(bytes, st, fin);
        },
        Piece::Str(cs) => {
            lemma_step_str(bytes, st, cs);
            lemma_run_next(bytes, st, fin);
        },
        Piece::Global(m, n) => {
            lemma_step_global(bytes, st, m, n);
            lemma_run_next(bytes, st, fin);
        },
        Piece::Bool(_) => {
            lemma_sub(bytes, p, e, 0, 1);
            lemma_run_next(bytes, st, fin);
        },
        Piece::EmptyTuple => {
            lemma_sub(bytes, p, e, 0, 1);
            lemma_run_next(bytes, st, fin);
        },
        Piece::Tuple(items) => {
            lemma_container(bytes, st, items, 0x74u8);
        },
        Piece::List(items) => {
            lemma_container(bytes, st, items, 0x6Cu8);
        },
        Piece::Dict(items) => {
            lemma_dict(bytes, st, items);
        },
    }
}

/// EMPTY_DICT, a `mark`, keys and values, SETITEMS.
#[verifier::rlimit(40)]
proof fn lemma_dict(bytes: Seq<u8>, st: VmState, items: Seq<Piece>)
    requires
        all_writable(items),
        items.len() % 2 == 0,
        0 <= st.pos,
        st.pos + items_bytes(items).len() + 3 <= bytes.len(),
        bytes.subrange(st.pos, st.pos + items_bytes(items).len() + 3) == seq![0x7Du8, 0x28u8] + items_bytes(items)
            + seq![0x75u8],
    ensures
        spec_run(bytes, st) == spec_run(bytes, pushed(st, st.pos + items_bytes(items).len() + 3, seq![
            PV::Dict(pairs_of(items_values(items))),
        ])),
    decreases items, 2nat,
{
    let e = seq![0x7Du8, 0x28u8] + items_bytes(items) + seq![0x75u8];
    let p = st.pos;
    let fin = pushed(st, p + e.len(), seq![PV::Dict(pairs_of(items_values(items)))]);
    let ib = items_bytes(items);
    lemma_sub(bytes, p, e, 0, e.len() as int);
    let s1 = pushed(st, p + 1, seq![PV::Dict(Seq::empty())]);
    assert(bytes[p] == e[0]);
    assert(st.stack.push(PV::Dict(Seq::empty())) =~= s1.stack);
    lemma_run_next(bytes, st, s1);
    let s2 = pushed(s1, p + 2, seq![PV::Mark]);
    assert(bytes[p + 1] == e[1]);
    assert(s1.stack.push(PV::Mark) =~= s2.stack);
    lemma_run_next(bytes, s1, s2);
    lemma_sub(bytes, p, e, 2, 2 + ib.len() as int);
    assert(e.subrange(2, 2 + ib.len() as int) =~= ib);
    lemma_run_items(bytes, s2, items);
    let vals = items_values(items);
    let s3 = pushed(s2, p + 2 + ib.len() as int, vals);
    assert(bytes[p + 2 + ib.len() as int] == e[2 + ib.len() as int]);
    let below = st.stack.push(PV::Dict(Seq::empty()));
    assert(s3.stack =~= below.push(PV::Mark) + vals);
    lemma_pop_mark(below, vals);
    assert(below.drop_last() =~= st.stack);
    assert(Seq::<(PV, PV)>::empty() + pairs_of(vals) =~= pairs_of(vals));
    assert(below.drop_last().push(PV::Dict(pairs_of(vals))) =~= fin.stack);
    lemma_run_next(bytes, s3, fin);
}

/// A `mark`, the items and a closing TUPLE or LIST opcode.
proof fn lemma_container(bytes: Seq<u8>, st: VmState, items: Seq<Piece>, op: u8)
    requires
        op == 0x74u8 || op == 0x6Cu8,
        all_writable(items),
        0 <= st.pos,
        st.pos + items_bytes(items).len() + 2 <= bytes.len(),
        bytes.subrange(st.pos, st.pos + items_bytes(items).len() + 2) == seq![0x28u8] + items_bytes(items) + seq![op],
    ensures
        spec_run(bytes, st) == spec_run(bytes, pushed(st, st.pos + items_bytes(items).len() + 2, seq![
            if op == 0x74u8 { PV::Tuple(items_values(items)) } else { PV::List(items_values(items)) },
        ])),
    decreases items, 2nat,
{
    let ib = items_bytes(items);
    let e = seq![0x28u8] + ib + seq![op];
    let p = st.pos;
    lemma_sub(bytes, p, e, 0, e.len() as int);
    let s1 = pushed(st, p + 1, seq![PV::Mark]);
    assert(bytes[p] == e[0]);
    assert(st.stack.push(PV::Mark) =~= s1.stack);
    lemma_run_next(bytes, st, s1);
    lemma_sub(bytes, p, e, 1, 1 + ib.len() as int);
    assert(e.subrange(1, 1 + ib.len() as int) =~= ib);
    lemma_run_items(bytes, s1, items);
    let vals = items_values(items);
    let s2 = pushed(s1, p + 1 + ib.len() as int, vals);
    assert(bytes[p + 1 + ib.len() as int] == e[1 + ib.len() as int]);
    assert(s2.stack =~= st.stack.push(PV::Mark) + vals);
    lemma_pop_mark(st.stack, vals);
    let v = if op == 0x74u8 { PV::Tuple(vals) } else { PV::List(vals) };
    let fin = pushed(st, p + ib.len() + 2, seq![v]);
    assert(st.stack.push(v) =~= fin.stack);
    lemma_run_next(bytes, s2, fin);
}

/// Running the opcodes of pieces one after another pushes their values.
proof fn lemma_run_items(bytes: Seq<u8>, st: VmState, items: Seq<Piece>)
    requires
        all_writable(items),
        0 <= st.pos,
        st.pos + items_bytes(items).len() <= bytes.len(),
        bytes.subrange(st.pos, st.pos + items_bytes(items).len()) == items_bytes(items),
    ensures
        items_values(items).len() == items.len(),
        forall|k: int| 0 <= k < items_values(items).len() ==> !(#[trigger] items_values(items)[k] is Mark),
        spec_run(bytes, st) == spec_run(bytes, pushed(st, st.pos + items_bytes(items).len(), items_values(items))),
    decreases items, 1nat,
{
    if items.len() == 0 {
        assert(pushed(st, st.pos, Seq::<PV>::empty()) == st) by {
            assert(st.stack + Seq::<PV>::empty() =~= st.stack);
        }
    } else {
        let w = items[0];
        let rest = items.drop_first();
        let e = items_bytes(items);
        let pb = piece_bytes(w);
        let rb = items_bytes(rest);
        let p = st.pos;
        lemma_sub(bytes, p, e, 0, pb.len() as int);
        assert(e.subrange(0, pb.len() as int) =~= pb);
        lemma_run_piece(bytes, st, w);
        let s1 = pushed(st, p + pb.len(), seq![piece_value(w)]);
        lemma_sub(bytes, p, e, pb.len() as int, e.len() as int);
        assert(e.subrange(pb.len() as int, e.len() as int) =~= rb);
        assert(bytes.subrange(s1.pos, s1.pos + rb.len()) == rb);
        lemma_run_items(bytes, s1, rest);
        let vals = items_values(items);
        assert(pushed(s1, s1.pos + rb.len(), items_values(rest)) == pushed(st, p + e.len(), vals)) by {
            assert(st.stack + seq![piece_value(w)] + items_values(rest) =~= st.stack + vals);
        }
        assert forall|k: int| 0 <= k < vals.len() implies !(#[trigger] vals[k] is Mark) by {
            if k > 0 {
                assert(vals[k] == items_values(rest)[k - 1]);
            }
        }
    }
}

/// A pickle the writer makes of nested tuples, lists and dicts of
/// integers, booleans, strings, globals and empty tuples reads back as the
/// value those calls describe: each container holds its items in order,
/// and a dict holds its keys and values as pairs.
pub proof fn lemma_read_written_piece(w: Piece)
    requires
        writable(w),
    ensures
        spec_pickle_prefix(framed(piece_bytes(w))) == Some((piece_value(w), framed(piece_bytes(w)).len() as int)),
{
    let body = piece_bytes(w);
    let b = framed(body);
    let st0 = VmState { pos: 0, stack: Seq::<PV>::empty(), memo: Seq::<Option<PV>>::empty() };
    let st1 = VmState { pos: 2, stack: Seq::<PV>::empty(), memo: Seq::<Option<PV>>::empty() };
    assert(b[0] == 0x80u8 && b[1] == 0x02u8);
    lemma_run_next(b, st0, st1);
    assert(b.subrange(2, 2 + body.len() as int) =~= body);
    lemma_run_piece(b, st1, w);
    let st2 = pushed(st1, 2 + body.len() as int, seq![piece_value(w)]);
    assert(st2.stack =~= seq![piece_value(w)]);
    assert(b[2 + body.len() as int] == 0x2Eu8);
    assert(spec_step(b, st2) == Some(Step::Done(piece_value(w), 3 + body.len() as int)));
}

} // verus!
