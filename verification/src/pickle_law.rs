//! What the pickle reader gives back of what the pickle writer writes.

use vstd::prelude::*;
use vstd::utf8::*;
use crate::bytes::{le16_at, le32_at, le64_at, le32_bytes, le64_bytes, lemma_le32_roundtrip, lemma_le64_roundtrip};
use crate::pickle::{pickle_int_bytes, pickle_string_bytes, pickle_global_bytes};
use crate::pickle_vm::{PV, VmState, spec_run, spec_pickle_prefix, spec_step, le_value, pow256, long1_value,
    newline_at, spec_line};

verus! {

/// A stream holding one opcode sequence `body` between the PROTO 2 header
/// and STOP, as `PickleWriter::new`, one write and `finish` produce.
pub open spec fn framed(body: Seq<u8>) -> Seq<u8> {
    seq![0x80u8, 0x02u8] + body + seq![0x2Eu8]
}

/// Running PROTO, one opcode that pushes `v` and ends at `2 + k`, then
/// STOP.
proof fn lemma_run_framed(body: Seq<u8>, v: PV)
    requires
        body.len() >= 1,
        spec_step(framed(body), VmState { pos: 2, stack: Seq::empty(), memo: Seq::empty() })
            == Some(crate::pickle_vm::Step::Next(VmState { pos: 2int + body.len(), stack: seq![v], memo: Seq::empty() })),
    ensures
        spec_pickle_prefix(framed(body)) == Some((v, framed(body).len() as int)),
{
    let b = framed(body);
    let st0 = VmState { pos: 0, stack: Seq::<PV>::empty(), memo: Seq::<Option<PV>>::empty() };
    let st1 = VmState { pos: 2, stack: Seq::<PV>::empty(), memo: Seq::<Option<PV>>::empty() };
    let st2 = VmState { pos: 2int + body.len(), stack: seq![v], memo: Seq::<Option<PV>>::empty() };
    assert(b[0] == 0x80u8 && b[1] == 0x02u8);
    assert(spec_step(b, st0) == Some(crate::pickle_vm::Step::Next(st1)));
    assert(b[2int + body.len()] == 0x2Eu8);
    assert(spec_step(b, st2) == Some(crate::pickle_vm::Step::Done(v, 3int + body.len())));
    reveal_with_fuel(spec_run, 4);
}

pub proof fn lemma_le_value8(raw: Seq<u8>, u: int)
    requires
        raw.len() == 8,
        0 <= u < 0x1_0000_0000_0000_0000,
        le64_at(raw, 0) == u,
    ensures
        le_value(raw) == u,
        raw[7] >= 0x80 <==> u >= 0x8000_0000_0000_0000,
        pow256(8) == 0x1_0000_0000_0000_0000,
{
    reveal_with_fuel(le_value, 9);
    reveal_with_fuel(pow256, 9);
    let r1 = raw.drop_first();
    let r2 = r1.drop_first();
    let r3 = r2.drop_first();
    let r4 = r3.drop_first();
    let r5 = r4.drop_first();
    let r6 = r5.drop_first();
    let r7 = r6.drop_first();
    let r8 = r7.drop_first();
    assert(r8.len() == 0);
    assert(le_value(r7) == raw[7]);
    assert(le_value(r6) == raw[6] + 256 * le_value(r7));
    assert(le_value(r5) == raw[5] + 256 * le_value(r6));
    assert(le_value(r4) == raw[4] + 256 * le_value(r5));
    assert(le_value(r3) == raw[3] + 256 * le_value(r4));
    assert(le_value(r2) == raw[2] + 256 * le_value(r3));
    assert(le_value(r1) == raw[1] + 256 * le_value(r2));
    assert(le_value(raw) == raw[0] + 256 * le_value(r1));
}

proof fn lemma_int_small(v: i64)
    requires
        0 <= v <= 255,
    ensures
        spec_pickle_prefix(framed(pickle_int_bytes(v as int)))
            == Some((PV::Int(v), framed(pickle_int_bytes(v as int)).len() as int)),
{
    let body = pickle_int_bytes(v as int);
    let b = framed(body);
    assert(b[2] == 0x4Bu8);
    assert(b[3] == v as u8);
    lemma_run_framed(body, PV::Int(v));
}

#[verifier::rlimit(40)]
proof fn lemma_int_32(v: i64)
    requires
        !(0 <= v <= 255),
        -0x8000_0000 <= v <= 0x7FFF_FFFF,
    ensures
        spec_pickle_prefix(framed(pickle_int_bytes(v as int)))
            == Some((PV::Int(v), framed(pickle_int_bytes(v as int)).len() as int)),
{
    let body = pickle_int_bytes(v as int);
    let b = framed(body);
    let u: int = if v < 0 { v + 0x1_0000_0000 } else { v as int };
    assert(body == seq![0x4Au8] + le32_bytes(u));
    assert(b[2] == 0x4Au8);
    assert(b.subrange(3, 7) =~= le32_bytes(u));
    lemma_le32_roundtrip(b, 3, u);
    lemma_run_framed(body, PV::Int(v));
}

#[verifier::rlimit(40)]
proof fn lemma_int_64(v: i64)
    requires
        !(-0x8000_0000 <= v <= 0x7FFF_FFFF),
    ensures
        spec_pickle_prefix(framed(pickle_int_bytes(v as int)))
            == Some((PV::Int(v), framed(pickle_int_bytes(v as int)).len() as int)),
{
    let body = pickle_int_bytes(v as int);
    let b = framed(body);
    let u: int = if v < 0 { v + 0x1_0000_0000_0000_0000 } else { v as int };
    assert(body == seq![0x8Au8, 8u8] + le64_bytes(u));
    assert(b[2] == 0x8Au8);
    assert(b[3] == 8u8);
    let raw = b.subrange(4, 12);
    assert(raw =~= le64_bytes(u));
    assert(raw.subrange(0, 8) =~= raw);
    lemma_le64_roundtrip(raw, 0, u);
    lemma_le_value8(raw, u);
    assert(long1_value(raw) == v);
    lemma_run_framed(body, PV::Int(v));
}

/// Every integer the writer stores (BININT1, BININT or LONG1) reads back
/// unchanged.
pub proof fn lemma_read_written_int(v: i64)
    ensures
        spec_pickle_prefix(framed(pickle_int_bytes(v as int)))
            == Some((PV::Int(v), framed(pickle_int_bytes(v as int)).len() as int)),
{
    if 0 <= v <= 255 {
        lemma_int_small(v);
    } else if -0x8000_0000 <= v <= 0x7FFF_FFFF {
        lemma_int_32(v);
    } else {
        lemma_int_64(v);
    }
}

/// A string the writer stores (BINUNICODE, length below 2^32) reads back
/// as the same characters.
pub proof fn lemma_read_written_string(cs: Seq<char>)
    requires
        encode_utf8(cs).len() <= u32::MAX,
    ensures
        spec_pickle_prefix(framed(pickle_string_bytes(encode_utf8(cs))))
            == Some((PV::Str(cs), framed(pickle_string_bytes(encode_utf8(cs))).len() as int)),
{
    let s = encode_utf8(cs);
    let n = s.len() as int;
    let body = pickle_string_bytes(s);
    let b = framed(body);
    assert(n % 0x1_0000_0000 == n);
    assert(b[2] == 0x58u8);
    assert(b.subrange(3, 7) =~= le32_bytes(n));
    lemma_le32_roundtrip(b, 3, n);
    assert(b.subrange(7, 7 + n) =~= s);
    encode_utf8_valid_utf8(cs);
    encode_utf8_decode_utf8(cs);
    lemma_run_framed(body, PV::Str(cs));
}

/// The first newline at or after `i` is at `e` when none comes before it.
pub proof fn lemma_newline_at(b: Seq<u8>, i: int, e: int)
    requires
        0 <= i <= e < b.len(),
        b[e] == 0x0Au8,
        forall|k: int| i <= k < e ==> b[k] != 0x0Au8,
    ensures
        newline_at(b, i) == Some(e),
    decreases e - i,
{
    if i < e {
        lemma_newline_at(b, i + 1, e);
    }
}

/// A GLOBAL the writer stores reads back as its module and name, when
/// neither holds a newline byte.
pub proof fn lemma_read_written_global(m: Seq<char>, n: Seq<char>)
    requires
        !encode_utf8(m).contains(0x0Au8),
        !encode_utf8(n).contains(0x0Au8),
    ensures
        spec_pickle_prefix(framed(pickle_global_bytes(encode_utf8(m), encode_utf8(n))))
            == Some((PV::Global(m, n), framed(pickle_global_bytes(encode_utf8(m), encode_utf8(n))).len() as int)),
{
    let em = encode_utf8(m);
    let en = encode_utf8(n);
    let body = pickle_global_bytes(em, en);
    let b = framed(body);
    let e1: int = 3int + em.len();
    let e2: int = e1 + 1 + en.len();
    assert(b[2] == 0x63u8);
    assert(b.subrange(3, e1) =~= em);
    assert(b.subrange(e1 + 1, e2) =~= en);
    assert(b[e1] == 0x0Au8);
    assert(b[e2] == 0x0Au8);
    assert forall|k: int| 3 <= k < e1 implies b[k] != 0x0Au8 by {
        assert(b[k] == em[k - 3]);
    }
    assert forall|k: int| e1 + 1 <= k < e2 implies b[k] != 0x0Au8 by {
        assert(b[k] == en[k - e1 - 1]);
    }
    lemma_newline_at(b, 3, e1);
    lemma_newline_at(b, e1 + 1, e2);
    encode_utf8_valid_utf8(m);
    encode_utf8_decode_utf8(m);
    encode_utf8_valid_utf8(n);
    encode_utf8_decode_utf8(n);
    assert(spec_line(b, 3) == Some((m, e1 + 1)));
    assert(spec_line(b, e1 + 1) == Some((n, e2 + 1)));
    lemma_run_framed(body, PV::Global(m, n));
}

} // verus!
