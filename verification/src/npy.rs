//! NumPy `.npy` (format 1.0, 2.0 and 3.0) container: the header dictionary
//! and the element bytes, reordered to C order with little-endian elements.
//! Turning elements into numbers is left to the caller.

use vstd::prelude::*;
use vstd::string::*;
use vstd::utf8::{decode_utf8, valid_utf8};
use crate::bytes::{copy_range, le16_at, le16_bytes, le32_at, le32_bytes, read_le16, read_le32};
use crate::error::MmnError;
use crate::text::{chars_of, decimal, parse_usize, parse_usize_at, push_char};

verus! {

// ---------------------------------------------------------------------
// Text of the header dictionary
// ---------------------------------------------------------------------

/// The first index `j >= i` where `pat` occurs in `t`.
pub open spec fn find_from(t: Seq<char>, pat: Seq<char>, i: int) -> Option<int>
    decreases t.len() - i,
{
    if i < 0 || pat.len() == 0 || i + pat.len() > t.len() {
        None
    } else if t.subrange(i, i + pat.len()) == pat {
        Some(i)
    } else {
        find_from(t, pat, i + 1)
    }
}

pub proof fn lemma_find_from(t: Seq<char>, pat: Seq<char>, i: int)
    ensures
        find_from(t, pat, i) matches Some(j) ==> i <= j && j + pat.len() <= t.len()
            && t.subrange(j, j + pat.len()) == pat,
    decreases t.len() - i,
{
    if !(i < 0 || pat.len() == 0 || i + pat.len() > t.len()) && t.subrange(i, i + pat.len()) != pat {
        lemma_find_from(t, pat, i + 1);
    }
}

/// What `t.split(pat).nth(1)` gives: the text after the first occurrence
/// of `pat`, up to the next one or the end.
pub open spec fn second_piece(t: Seq<char>, pat: Seq<char>) -> Option<Seq<char>> {
    match find_from(t, pat, 0) {
        None => None,
        Some(j) => {
            let s = j + pat.len();
            match find_from(t, pat, s) {
                Some(k) => Some(t.subrange(s, k)),
                None => Some(t.subrange(s, t.len() as int)),
            }
        },
    }
}

/// The text between the first two single quotes.
pub open spec fn quoted(seg: Seq<char>) -> Option<Seq<char>> {
    match find_from(seg, seq!['\''], 0) {
        None => None,
        Some(s) => {
            let rest = seg.skip(s + 1);
            match find_from(rest, seq!['\''], 0) {
                None => None,
                Some(e) => Some(rest.take(e)),
            }
        },
    }
}

/// `char::is_whitespace`: the Unicode `White_Space` characters.
pub open spec fn is_ws(c: char) -> bool {
    let v = c as u32;
    (9 <= v <= 13) || v == 32 || v == 0x85 || v == 0xA0 || v == 0x1680 || (0x2000 <= v <= 0x200A)
        || v == 0x2028 || v == 0x2029 || v == 0x202F || v == 0x205F || v == 0x3000
}

/// `str::trim_start`.
pub open spec fn trim_start(p: Seq<char>) -> Seq<char>
    decreases p.len(),
{
    if p.len() > 0 && is_ws(p[0]) { trim_start(p.drop_first()) } else { p }
}

/// `str::trim_end`.
pub open spec fn trim_end(p: Seq<char>) -> Seq<char>
    decreases p.len(),
{
    if p.len() > 0 && is_ws(p.last()) { trim_end(p.drop_last()) } else { p }
}

/// One comma-separated piece of a shape tuple: skipped when blank, else a
/// dimension.
pub open spec fn dim_piece(p: Seq<char>) -> Option<Option<usize>> {
    let t = trim_end(trim_start(p));
    if t.len() == 0 {
        Some(None)
    } else {
        match parse_usize(t) {
            Some(v) => Some(Some(v as usize)),
            None => None,
        }
    }
}

/// The dimensions listed between the parentheses of a shape tuple.
pub open spec fn parse_dims(c: Seq<char>) -> Option<Seq<usize>>
    decreases c.len(),
{
    match find_from(c, seq![','], 0) {
        Some(k) => match (dim_piece(c.take(k)), {
            proof {
                lemma_find_from(c, seq![','], 0);
            }
            parse_dims(c.skip(k + 1))
        }) {
            (Some(d), Some(r)) => Some(
                match d {
                    Some(v) => seq![v] + r,
                    None => r,
                },
            ),
            _ => None,
        },
        None => match dim_piece(c) {
            Some(Some(v)) => Some(seq![v]),
            Some(None) => Some(Seq::empty()),
            None => None,
        },
    }
}

/// The shape tuple of the header's `'shape':` entry.
pub open spec fn shape_text(after: Seq<char>) -> Option<Seq<usize>> {
    match find_from(after, seq!['('], 0) {
        None => None,
        Some(o) => match find_from(after.skip(o), seq![')'], 0) {
            None => None,
            Some(c) => parse_dims(after.subrange(o + 1, o + c)),
        },
    }
}

/// The header dictionary's entries: descr, Fortran order and shape.
pub open spec fn header_fields(t: Seq<char>) -> Option<(Seq<char>, bool, Seq<usize>)> {
    match (second_piece(t, "'descr':"@), second_piece(t, "'fortran_order':"@), second_piece(t, "'shape':"@)) {
        (Some(d), Some(f), Some(s)) => match (quoted(d), shape_text(s)) {
            (Some(descr), Some(shape)) => {
                let ft = trim_start(f);
                Some((descr, ft.len() >= 4 && ft.take(4) == "True"@, shape))
            },
            _ => None,
        },
        _ => None,
    }
}

/// The `\x93NUMPY` magic.
pub open spec fn npy_magic() -> Seq<u8> {
    seq![0x93u8, 0x4E, 0x55, 0x4D, 0x50, 0x59]
}

/// Where the header dictionary lies: its start and length.
pub open spec fn header_span(b: Seq<u8>) -> Option<(int, int)> {
    if b.len() < 10 || b.take(6) != npy_magic() {
        None
    } else if b[6] == 1 {
        Some((10, le16_at(b, 8)))
    } else if (b[6] == 2 || b[6] == 3) && b.len() >= 12 {
        Some((12, le32_at(b, 8)))
    } else {
        None
    }
}

/// The parsed header: descr, Fortran order, shape, and where the data
/// starts.
pub open spec fn spec_npy_header(b: Seq<u8>) -> Option<(Seq<char>, bool, Seq<usize>, int)> {
    match header_span(b) {
        None => None,
        Some((hs, hl)) => if hs + hl > b.len() || !valid_utf8(b.subrange(hs, hs + hl)) {
            None
        } else {
            match header_fields(decode_utf8(b.subrange(hs, hs + hl))) {
                Some((d, f, s)) => Some((d, f, s, hs + hl)),
                None => None,
            }
        },
    }
}

// ---------------------------------------------------------------------
// Element layout
// ---------------------------------------------------------------------

/// The element size a descr names: a byte-order mark, then a type letter
/// and a size of 1, 2, 4 or 8.
pub open spec fn npy_item(descr: Seq<char>) -> Option<nat> {
    if descr.len() >= 2 && (descr[0] == '<' || descr[0] == '>' || descr[0] == '|') && (descr[1] as u32) < 128 {
        match parse_usize(descr.skip(2)) {
            Some(n) => if n == 1 || n == 2 || n == 4 || n == 8 { Some(n) } else { None },
            None => None,
        }
    } else {
        None
    }
}

/// The dtype codes whose elements can be read.
pub open spec fn known_code(c: Seq<char>) -> bool {
    c == "f4"@ || c == "f8"@ || c == "f2"@ || c == "i1"@ || c == "i2"@ || c == "i4"@ || c == "i8"@
        || c == "u1"@ || c == "u2"@ || c == "u4"@ || c == "u8"@ || c == "b1"@
}

/// The number of elements of a shape.
pub open spec fn prod(s: Seq<usize>) -> nat
    decreases s.len(),
{
    if s.len() == 0 { 1 } else { prod(s.drop_last()) * (s.last() as nat) }
}

/// Where C-order element `k` of an array of shape `s` lies in Fortran
/// order.
pub open spec fn f_offset(s: Seq<usize>, k: nat) -> nat
    decreases s.len(),
{
    if s.len() == 0 || s.last() == 0 {
        0
    } else {
        f_offset(s.drop_last(), k / (s.last() as nat)) + (k % (s.last() as nat)) * prod(s.drop_last())
    }
}

/// The element bytes in C order, each little-endian: element `k` comes
/// from stored element `f_offset(shape, k)` when the store is Fortran
/// ordered, with its bytes reversed when stored big-endian.
pub open spec fn npy_data(payload: Seq<u8>, item: nat, shape: Seq<usize>, big: bool, fortran: bool) -> Seq<u8> {
    Seq::new(
        (prod(shape) * item) as nat,
        |i: int| {
            let k = i / (item as int);
            let t = i % (item as int);
            let src = if fortran { f_offset(shape, k as nat) as int } else { k };
            let tt = if big { item - 1 - t } else { t };
            payload[src * item + tt]
        },
    )
}

/// A decoded array, as plain values.
pub struct NpyView {
    pub descr: Seq<char>,
    pub shape: Seq<usize>,
    pub data: Seq<u8>,
}

/// What reading a `.npy` buffer gives, or `None` when it is refused.
pub open spec fn spec_decode_npy(b: Seq<u8>) -> Option<NpyView> {
    match spec_npy_header(b) {
        None => None,
        Some((descr, fortran, shape, start)) => match npy_item(descr) {
            None => None,
            Some(item) => {
                let end = start + prod(shape) * item;
                if end > b.len() || (prod(shape) > 0 && !known_code(descr.skip(1))) {
                    None
                } else {
                    Some(
                        NpyView {
                            descr,
                            shape,
                            data: npy_data(
                                b.subrange(start, end),
                                item,
                                shape,
                                descr[0] == '>',
                                fortran && shape.len() > 1,
                            ),
                        },
                    )
                }
            },
        },
    }
}

/// The element count and the end of the data fit in `usize`, as counting
/// them requires.
pub open spec fn npy_fits(b: Seq<u8>) -> bool {
    match spec_npy_header(b) {
        Some((descr, fortran, shape, start)) => match npy_item(descr) {
            Some(item) => (forall|i: int| 0 <= i <= shape.len() ==> #[trigger] prod(shape.take(i)) <= usize::MAX)
                && start + prod(shape) * item <= usize::MAX,
            None => true,
        },
        None => true,
    }
}

/// A decoded array: the descr (such as `<f4`), the shape, and the element
/// bytes in C order, each element little-endian.
pub struct NpyArray {
    pub descr: String,
    pub shape: Vec<usize>,
    pub data: Vec<u8>,
}

impl NpyArray {
    pub open spec fn view(&self) -> NpyView {
        NpyView { descr: self.descr@, shape: self.shape@, data: self.data@ }
    }
}

// ---------------------------------------------------------------------
// Text helpers
// ---------------------------------------------------------------------

/// The characters `t[a..b]`.
pub(crate) fn sub_chars(t: &Vec<char>, a: usize, b: usize) -> (r: Vec<char>)
    requires
        a <= b <= t@.len(),
    ensures
        r@ == t@.subrange(a as int, b as int),
{
    let mut r: Vec<char> = Vec::new();
    let mut i = a;
    while i < b
        invariant
            a <= i <= b <= t@.len(),
            r@ == t@.subrange(a as int, i as int),
        decreases b - i,
    {
        r.push(t[i]);
        i = i + 1;
        assert(r@ =~= t@.subrange(a as int, i as int));
    }
    r
}

/// True when `pat` occurs in `t` at `j`.
fn occurs_at(t: &Vec<char>, pat: &Vec<char>, j: usize) -> (r: bool)
    requires
        j + pat@.len() <= t@.len(),
    ensures
        r == (t@.subrange(j as int, j + pat@.len()) == pat@),
{
    let _n = t.len();
    let mut k: usize = 0;
    while k < pat.len()
        invariant
            j + pat@.len() <= t@.len() <= usize::MAX,
            k <= pat@.len(),
            forall|m: int| 0 <= m < k ==> t@[j + m] == pat@[m],
        decreases pat@.len() - k,
    {
        if t[j + k] != pat[k] {
            proof {
                assert(t@.subrange(j as int, j + pat@.len())[k as int] != pat@[k as int]);
            }
            return false;
        }
        k = k + 1;
    }
    assert(t@.subrange(j as int, j + pat@.len()) =~= pat@);
    true
}

/// The first index at or after `from` where `pat` occurs in `t`.
fn find_chars(t: &Vec<char>, pat: &Vec<char>, from: usize) -> (r: Option<usize>)
    ensures
        match r {
            Some(j) => find_from(t@, pat@, from as int) == Some(j as int) && from <= j && j + pat@.len() <= t@.len(),
            None => find_from(t@, pat@, from as int) is None,
        },
{
    proof {
        lemma_find_from(t@, pat@, from as int);
    }
    if pat.len() == 0 {
        return None;
    }
    let mut j = from;
    while j <= t.len() && pat.len() <= t.len() - j
        invariant
            pat@.len() > 0,
            from <= j,
            find_from(t@, pat@, from as int) == find_from(t@, pat@, j as int),
        decreases t@.len() + 1 - j,
    {
        if occurs_at(t, pat, j) {
            return Some(j);
        }
        j = j + 1;
    }
    None
}

/// The characters of a literal.
fn lit(s: &str) -> (r: Vec<char>)
    ensures
        r@ == s@,
{
    chars_of(s)
}

fn second_piece_of(t: &Vec<char>, pat: &Vec<char>) -> (r: Option<Vec<char>>)
    ensures
        match second_piece(t@, pat@) {
            Some(p) => r matches Some(v) && v@ == p,
            None => r is None,
        },
{
    let _n = t.len();
    match find_chars(t, pat, 0) {
        None => None,
        Some(j) => {
            let s = j + pat.len();
            match find_chars(t, pat, s) {
                Some(k) => Some(sub_chars(t, s, k)),
                None => Some(sub_chars(t, s, t.len())),
            }
        },
    }
}

fn quoted_of(seg: &Vec<char>) -> (r: Option<Vec<char>>)
    ensures
        match quoted(seg@) {
            Some(p) => r matches Some(v) && v@ == p,
            None => r is None,
        },
{
    let q = lit("'");
    proof {
        reveal_strlit("'");
        assert(q@ =~= seq!['\'']);
    }
    let _n = seg.len();
    match find_chars(seg, &q, 0) {
        None => None,
        Some(s) => {
            let rest = sub_chars(seg, s + 1, seg.len());
            assert(rest@ =~= seg@.skip(s + 1));
            match find_chars(&rest, &q, 0) {
                None => None,
                Some(e) => {
                    let v = sub_chars(&rest, 0, e);
                    assert(v@ =~= rest@.take(e as int));
                    Some(v)
                },
            }
        },
    }
}

fn is_ws_char(c: char) -> (r: bool)
    ensures
        r == is_ws(c),
{
    let v = c as u32;
    (9 <= v && v <= 13) || v == 32 || v == 0x85 || v == 0xA0 || v == 0x1680 || (0x2000 <= v && v <= 0x200A)
        || v == 0x2028 || v == 0x2029 || v == 0x202F || v == 0x205F || v == 0x3000
}

/// `trim_end(trim_start(p[a..b]))` as the range it covers.
fn trim_range(p: &Vec<char>, a: usize, b: usize) -> (r: (usize, usize))
    requires
        a <= b <= p@.len(),
    ensures
        a <= r.0 <= r.1 <= b,
        p@.subrange(r.0 as int, r.1 as int) == trim_end(trim_start(p@.subrange(a as int, b as int))),
        p@.subrange(r.0 as int, b as int) == trim_start(p@.subrange(a as int, b as int)),
{
    let mut i = a;
    while i < b && is_ws_char(p[i])
        invariant
            a <= i <= b <= p@.len(),
            trim_start(p@.subrange(a as int, b as int)) == trim_start(p@.subrange(i as int, b as int)),
        decreases b - i,
    {
        assert(p@.subrange(i as int, b as int).drop_first() =~= p@.subrange(i + 1, b as int));
        i = i + 1;
    }
    let ghost ts = p@.subrange(i as int, b as int);
    assert(trim_start(ts) == ts);
    let mut j = b;
    while j > i && is_ws_char(p[j - 1])
        invariant
            i <= j <= b <= p@.len(),
            trim_end(ts) == trim_end(p@.subrange(i as int, j as int)),
            ts == p@.subrange(i as int, b as int),
        decreases j - i,
    {
        assert(p@.subrange(i as int, j as int).drop_last() =~= p@.subrange(i as int, j - 1));
        j = j - 1;
    }
    (i, j)
}

/// One piece of a shape tuple.
fn dim_piece_of(p: &Vec<char>) -> (r: Option<Option<usize>>)
    ensures
        r == dim_piece(p@),
{
    let (i, j) = trim_range(p, 0, p.len());
    proof {
        assert(p@.subrange(0, p@.len() as int) =~= p@);
    }
    if i == j {
        return Some(None);
    }
    match parse_usize_at(p, i, j) {
        Some(v) => Some(Some(v)),
        None => None,
    }
}

proof fn lemma_skip_len(c: Seq<char>, k: int)
    requires
        0 <= k < c.len(),
    ensures
        c.skip(k + 1).len() < c.len(),
{
}

/// The dimensions listed in `c`.
fn parse_dims_of(c: &Vec<char>) -> (r: Option<Vec<usize>>)
    ensures
        match parse_dims(c@) {
            Some(d) => r matches Some(v) && v@ == d,
            None => r is None,
        },
{
    let comma = lit(",");
    proof {
        reveal_strlit(",");
        assert(comma@ =~= seq![',']);
    }
    let mut acc: Vec<usize> = Vec::new();
    let mut rest: Vec<char> = sub_chars(c, 0, c.len());
    assert(rest@ =~= c@);
    loop
        invariant
            comma@ == seq![','],
            match parse_dims(rest@) {
                Some(d) => parse_dims(c@) == Some(acc@ + d),
                None => parse_dims(c@) is None,
            },
        decreases rest@.len(),
    {
        let _n = rest.len();
        match find_chars(&rest, &comma, 0) {
            Some(k) => {
                proof {
                    lemma_skip_len(rest@, k as int);
                }
                let head = sub_chars(&rest, 0, k);
                let tail = sub_chars(&rest, k + 1, rest.len());
                assert(head@ =~= rest@.take(k as int));
                assert(tail@ =~= rest@.skip(k + 1));
                match dim_piece_of(&head) {
                    None => return None,
                    Some(d) => {
                        proof {
                            match parse_dims(tail@) {
                                Some(r2) => {
                                    match d {
                                        Some(v) => assert(acc@.push(v) + r2 =~= acc@ + (seq![v] + r2)),
                                        None => {},
                                    }
                                },
                                None => {},
                            }
                        }
                        match d {
                            Some(v) => acc.push(v),
                            None => {},
                        }
                        rest = tail;
                    },
                }
            },
            None => {
                match dim_piece_of(&rest) {
                    Some(Some(v)) => {
                        acc.push(v);
                        return Some(acc);
                    },
                    Some(None) => {
                        assert(acc@ + Seq::<usize>::empty() =~= acc@);
                        return Some(acc);
                    },
                    None => return None,
                }
            },
        }
    }
}

fn shape_of_text(after: &Vec<char>) -> (r: Option<Vec<usize>>)
    ensures
        match shape_text(after@) {
            Some(d) => r matches Some(v) && v@ == d,
            None => r is None,
        },
{
    let open = lit("(");
    let close = lit(")");
    proof {
        reveal_strlit("(");
        reveal_strlit(")");
        assert(open@ =~= seq!['(']);
        assert(close@ =~= seq![')']);
    }
    let _n = after.len();
    match find_chars(after, &open, 0) {
        None => None,
        Some(o) => {
            let tail = sub_chars(after, o, after.len());
            assert(tail@ =~= after@.skip(o as int));
            match find_chars(&tail, &close, 0) {
                None => None,
                Some(c) => {
                    proof {
                        lemma_find_from(after@, open@, 0);
                        lemma_find_from(tail@, close@, 0);
                        assert(after@.subrange(o as int, o + 1)[0] == '(');
                        if c == 0 {
                            assert(tail@.subrange(0, 1)[0] == ')');
                        }
                    }
                    let content = sub_chars(after, o + 1, o + c);
                    parse_dims_of(&content)
                },
            }
        },
    }
}

/// The descr, Fortran flag and shape of a header dictionary.
fn header_fields_of(t: &Vec<char>) -> (r: Option<(Vec<char>, bool, Vec<usize>)>)
    ensures
        match header_fields(t@) {
            Some((d, f, s)) => r matches Some((dv, fv, sv)) && dv@ == d && fv == f && sv@ == s,
            None => r is None,
        },
{
    let kd = lit("'descr':");
    let kf = lit("'fortran_order':");
    let ks = lit("'shape':");
    let d = second_piece_of(t, &kd);
    let f = second_piece_of(t, &kf);
    let s = second_piece_of(t, &ks);
    match (d, f, s) {
        (Some(d), Some(f), Some(s)) => match (quoted_of(&d), shape_of_text(&s)) {
            (Some(descr), Some(shape)) => {
                let (i, _j) = trim_range(&f, 0, f.len());
                proof {
                    assert(f@.subrange(0, f@.len() as int) =~= f@);
                }
                let tr = lit("True");
                proof {
                    reveal_strlit("True");
                }
                let n = f.len();
                let is_true = if n - i >= 4 {
                    let w = sub_chars(&f, i, i + 4);
                    let m = occurs_at(&w, &tr, 0);
                    proof {
                        assert(w@.subrange(0, 4) =~= w@);
                        assert(w@ =~= f@.subrange(i as int, n as int).take(4));
                    }
                    m
                } else {
                    false
                };
                Some((descr, is_true, shape))
            },
            _ => None,
        },
        _ => None,
    }
}

} // verus!

verus! {

/// The C-order element count of `s[..n]` and where C-order element `k`
/// of it lies in Fortran order.
fn fortran_offset(s: &Vec<usize>, n: usize, k: usize) -> (r: (usize, usize))
    requires
        n <= s@.len(),
        k < prod(s@.take(n as int)),
        prod(s@.take(n as int)) <= usize::MAX,
    ensures
        r.1 == prod(s@.take(n as int)),
        r.0 == f_offset(s@.take(n as int), k as nat),
        r.0 < r.1,
    decreases n,
{
    let ghost sn = s@.take(n as int);
    if n == 0 {
        return (0, 1);
    }
    let d = s[n - 1];
    proof {
        assert(sn.drop_last() =~= s@.take(n - 1));
        assert(sn.last() == d);
        let p = prod(s@.take(n - 1));
        assert(prod(sn) == p * d);
        assert(d > 0 && p > 0 && (k as nat) / (d as nat) < p && p <= usize::MAX) by (nonlinear_arith)
            requires
                k < p * d,
                p * d <= usize::MAX,
                d >= 0,
                p >= 0,
        ;
    }
    let (o, p) = fortran_offset(s, n - 1, k / d);
    let i = k % d;
    proof {
        assert(o + i * p < p * d && i * p <= p * d) by (nonlinear_arith)
            requires
                o < p,
                i < d,
                d > 0,
        ;
    }
    (o + i * p, p * d)
}

/// The number of elements of `s`.
fn numel_of(s: &[usize]) -> (r: usize)
    requires
        forall|i: int| 0 <= i <= s@.len() ==> #[trigger] prod(s@.take(i)) <= usize::MAX,
    ensures
        r == prod(s@),
{
    let mut r: usize = 1;
    let mut i: usize = 0;
    assert(s@.take(0) =~= Seq::<usize>::empty());
    while i < s.len()
        invariant
            i <= s@.len(),
            r == prod(s@.take(i as int)),
            forall|j: int| 0 <= j <= s@.len() ==> #[trigger] prod(s@.take(j)) <= usize::MAX,
        decreases s@.len() - i,
    {
        assert(s@.take(i + 1).drop_last() =~= s@.take(i as int));
        assert(prod(s@.take(i + 1)) <= usize::MAX);
        r = r * s[i];
        i = i + 1;
    }
    assert(s@.take(i as int) =~= s@);
    r
}

proof fn lemma_elem_index(k: int, item: int, t: int)
    requires
        item > 0,
        0 <= t < item,
        k >= 0,
    ensures
        (k * item + t) / item == k,
        (k * item + t) % item == t,
{
    vstd::arithmetic::div_mod::lemma_fundamental_div_mod_converse(k * item + t, item, k, t);
}

proof fn lemma_elem_bound(src: int, item: int, tt: int, numel: int)
    requires
        0 <= src < numel,
        0 <= tt < item,
    ensures
        src * item + tt < numel * item,
        0 <= src * item + tt,
{
    assert(src * item + tt < numel * item) by (nonlinear_arith)
        requires
            0 <= src < numel,
            0 <= tt < item,
    ;
    assert(0 <= src * item) by (nonlinear_arith)
        requires
            0 <= src,
            0 <= item,
    ;
}

/// The element bytes of `payload` in C order, each little-endian.
fn reorder(payload: &[u8], item: usize, shape: &Vec<usize>, numel: usize, big: bool, fortran: bool) -> (out: Vec<u8>)
    requires
        1 <= item <= 8,
        numel == prod(shape@),
        payload@.len() == numel * item,
        numel * item <= usize::MAX,
    ensures
        out@ == npy_data(payload@, item as nat, shape@, big, fortran),
{
    let ghost target = npy_data(payload@, item as nat, shape@, big, fortran);
    let mut out: Vec<u8> = Vec::new();
    let mut k: usize = 0;
    proof {
        assert(shape@.take(shape@.len() as int) =~= shape@);
    }
    while k < numel
        invariant
            1 <= item <= 8,
            numel == prod(shape@),
            shape@.take(shape@.len() as int) == shape@,
            payload@.len() == numel * item,
            numel * item <= usize::MAX,
            target == npy_data(payload@, item as nat, shape@, big, fortran),
            target.len() == numel * item,
            k <= numel,
            out@.len() == k * item,
            forall|i: int| 0 <= i < k * item ==> out@[i] == #[trigger] target[i],
        decreases numel - k,
    {
        let src: usize = if fortran {
            let (o, _p) = fortran_offset(shape, shape.len(), k);
            o
        } else {
            k
        };
        let mut t: usize = 0;
        while t < item
            invariant
                1 <= item <= 8,
                payload@.len() == numel * item,
                numel * item <= usize::MAX,
                target == npy_data(payload@, item as nat, shape@, big, fortran),
                target.len() == numel * item,
                k < numel,
                src < numel,
                src == (if fortran { f_offset(shape@, k as nat) as int } else { k as int }),
                t <= item,
                out@.len() == k * item + t,
                forall|i: int| 0 <= i < k * item + t ==> out@[i] == #[trigger] target[i],
            decreases item - t,
        {
            let tt: usize = if big { item - 1 - t } else { t };
            proof {
                lemma_elem_bound(src as int, item as int, tt as int, numel as int);
                lemma_elem_index(k as int, item as int, t as int);
                lemma_elem_bound(k as int, item as int, t as int, numel as int);
            }
            let byte = payload[src * item + tt];
            out.push(byte);
            t = t + 1;
        }
        proof {
            assert((k + 1) * item == k * item + item) by (nonlinear_arith);
        }
        k = k + 1;
    }
    proof {
        assert(out@ =~= target);
    }
    out
}

/// A `String` holding the characters.
pub(crate) fn string_of(cs: &Vec<char>) -> (s: String)
    ensures
        s@ == cs@,
{
    let mut s = String::new();
    let mut i: usize = 0;
    while i < cs.len()
        invariant
            i <= cs@.len(),
            s@ == cs@.take(i as int),
        decreases cs@.len() - i,
    {
        push_char(&mut s, cs[i]);
        i = i + 1;
        assert(s@ =~= cs@.take(i as int));
    }
    assert(cs@.take(i as int) =~= cs@);
    s
}

/// Whether a dtype code (the descr after its byte-order mark) is readable.
fn known_code_of(c: &Vec<char>) -> (r: bool)
    ensures
        r == known_code(c@),
{
    let codes = ["f4", "f8", "f2", "i1", "i2", "i4", "i8", "u1", "u2", "u4", "u8", "b1"];
    let mut found = false;
    let mut i: usize = 0;
    while i < 12
        invariant
            i <= 12,
            found == (exists|j: int| 0 <= j < i && c@ == (#[trigger] codes@[j])@),
        decreases 12 - i,
    {
        let w = lit(codes[i]);
        if w.len() == c.len() && occurs_at(c, &w, 0) {
            assert(c@.subrange(0, w@.len() as int) =~= c@);
            found = true;
        } else {
            proof {
                if w@.len() == c@.len() {
                    assert(c@.subrange(0, w@.len() as int) =~= c@);
                }
            }
        }
        i = i + 1;
    }
    proof {
        reveal_strlit("f4");
        reveal_strlit("f8");
        reveal_strlit("f2");
        reveal_strlit("i1");
        reveal_strlit("i2");
        reveal_strlit("i4");
        reveal_strlit("i8");
        reveal_strlit("u1");
        reveal_strlit("u2");
        reveal_strlit("u4");
        reveal_strlit("u8");
        reveal_strlit("b1");
        if known_code(c@) {
            if c@ == "f4"@ { assert(codes@[0]@ == c@); }
            else if c@ == "f8"@ { assert(codes@[1]@ == c@); }
            else if c@ == "f2"@ { assert(codes@[2]@ == c@); }
            else if c@ == "i1"@ { assert(codes@[3]@ == c@); }
            else if c@ == "i2"@ { assert(codes@[4]@ == c@); }
            else if c@ == "i4"@ { assert(codes@[5]@ == c@); }
            else if c@ == "i8"@ { assert(codes@[6]@ == c@); }
            else if c@ == "u1"@ { assert(codes@[7]@ == c@); }
            else if c@ == "u2"@ { assert(codes@[8]@ == c@); }
            else if c@ == "u4"@ { assert(codes@[9]@ == c@); }
            else if c@ == "u8"@ { assert(codes@[10]@ == c@); }
            else { assert(codes@[11]@ == c@); }
        }
    }
    found
}

/// Decode an `.npy` buffer: the header's descr and shape, and the element
/// bytes in C order, little-endian.
pub fn decode_npy(bytes: &[u8]) -> (r: Result<NpyArray, MmnError>)
    requires
        npy_fits(bytes@),
    ensures
        match spec_decode_npy(bytes@) {
            Some(v) => r matches Ok(a) && a.view() == v,
            None => r is Err,
        },
{
    let ghost b = bytes@;
    if bytes.len() < 10 || bytes[0] != 0x93 || bytes[1] != 0x4E || bytes[2] != 0x55 || bytes[3] != 0x4D
        || bytes[4] != 0x50 || bytes[5] != 0x59 {
        proof {
            if b.len() >= 10 {
                assert(!(b.take(6) =~= npy_magic()) ==> b.take(6) != npy_magic());
                assert(b.take(6)[0] == b[0] && b.take(6)[1] == b[1] && b.take(6)[2] == b[2]);
                assert(b.take(6)[3] == b[3] && b.take(6)[4] == b[4] && b.take(6)[5] == b[5]);
            }
        }
        return Err(MmnError::new("not an npy file (missing \\x93NUMPY magic)"));
    }
    assert(b.take(6) =~= npy_magic());
    let major = bytes[6];
    let (hl, hs): (usize, usize) = if major == 1 {
        (read_le16(bytes, 8) as usize, 10)
    } else if major == 2 || major == 3 {
        if bytes.len() < 12 {
            return Err(MmnError::new("npy v2 header truncated"));
        }
        (read_le32(bytes, 8) as usize, 12)
    } else {
        return Err(MmnError::new("unsupported npy major version"));
    };
    if hl > bytes.len() - hs {
        return Err(MmnError::new("npy header truncated"));
    }
    let hb = copy_range(bytes, hs, hs + hl);
    let text = match crate::msgpack::utf8_string(hb) {
        Some(s) => s,
        None => return Err(MmnError::new("npy header not UTF-8")),
    };
    let t = chars_of(text.as_str());
    let (descr, fortran, shape) = match header_fields_of(&t) {
        Some(x) => x,
        None => return Err(MmnError::new("npy header malformed")),
    };
    let ghost start = hs + hl;
    assert(spec_npy_header(b) == Some((descr@, fortran, shape@, start as int)));
    if descr.len() < 2 || !(descr[0] == '<' || descr[0] == '>' || descr[0] == '|') || descr[1] as u32 >= 128 {
        return Err(MmnError::new("npy dtype not supported"));
    }
    let item = match parse_usize_at(&descr, 2, descr.len()) {
        Some(n) => if n == 1 || n == 2 || n == 4 || n == 8 {
            n
        } else {
            return Err(MmnError::new("npy dtype not supported"));
        },
        None => return Err(MmnError::new("npy dtype not supported")),
    };
    assert(descr@.subrange(2, descr@.len() as int) =~= descr@.skip(2));
    assert(npy_item(descr@) == Some(item as nat));
    let numel = numel_of(shape.as_slice());
    let size = numel * item;
    if size > bytes.len() - (hs + hl) {
        return Err(MmnError::new("npy data truncated"));
    }
    let code = sub_chars(&descr, 1, descr.len());
    assert(code@ =~= descr@.skip(1));
    if numel > 0 && !known_code_of(&code) {
        return Err(MmnError::new("npy dtype not supported"));
    }
    let payload = copy_range(bytes, hs + hl, hs + hl + size);
    let big = descr[0] == '>';
    let f = fortran && shape.len() > 1;
    let data = reorder(payload.as_slice(), item, &shape, numel, big, f);
    Ok(NpyArray { descr: string_of(&descr), shape, data })
}

} // verus!

verus! {

/// The dimensions in decimal, joined by `, `.
pub open spec fn join_dims(s: Seq<usize>) -> Seq<char>
    decreases s.len(),
{
    if s.len() <= 1 {
        if s.len() == 1 { decimal(s[0] as nat) } else { Seq::empty() }
    } else {
        join_dims(s.drop_last()) + ", "@ + decimal(s.last() as nat)
    }
}

/// A shape written as a Python tuple.
pub open spec fn shape_repr(s: Seq<usize>) -> Seq<char> {
    if s.len() == 0 {
        "()"@
    } else if s.len() == 1 {
        "("@ + decimal(s[0] as nat) + ",)"@
    } else {
        "("@ + join_dims(s) + ")"@
    }
}

/// The header dictionary written for a C-ordered `<f4` array.
pub open spec fn f32_header(s: Seq<usize>) -> Seq<char> {
    "{'descr': '<f4', 'fortran_order': False, 'shape': "@ + shape_repr(s) + ", }"@
}

/// The bytes of ASCII text.
pub open spec fn ascii_bytes(cs: Seq<char>) -> Seq<u8> {
    Seq::new(cs.len(), |i: int| cs[i] as u8)
}

/// Spaces after the dictionary that make magic, version, length field,
/// dictionary and the closing newline a multiple of 64 bytes.
pub open spec fn header_padding(hlen: int) -> int {
    (64 - (10 + hlen + 1) % 64) % 64
}

/// The little-endian bytes of the values.
pub open spec fn le32_all(v: Seq<u32>) -> Seq<u8>
    decreases v.len(),
{
    if v.len() == 0 { Seq::empty() } else { le32_all(v.drop_last()) + le32_bytes(v.last() as int) }
}

/// A format 1.0 `.npy` file of `<f4` elements (given as bit patterns) in C
/// order, or `None` when the header would not fit its 16-bit length.
pub open spec fn spec_encode_npy_f32(shape: Seq<usize>, data: Seq<u32>) -> Option<Seq<u8>> {
    let h = f32_header(shape);
    let pad = header_padding(h.len() as int);
    let hl = h.len() + pad + 1;
    if hl > 65535 {
        None
    } else {
        Some(npy_magic() + seq![1u8, 0u8] + le16_bytes(hl) + ascii_bytes(h) + Seq::new(pad as nat, |i: int| 32u8)
            + seq![10u8] + le32_all(data))
    }
}

/// Append `s` in decimal.
fn push_dec(s: &mut String, n: usize)
    ensures
        final(s)@ == old(s)@ + decimal(n as nat),
{
    crate::text::push_decimal(s, n);
}

fn shape_repr_of(shape: &[usize]) -> (r: String)
    ensures
        r@ == shape_repr(shape@),
{
    let mut r = String::new();
    proof {
        reveal_strlit("()");
        reveal_strlit("(");
        reveal_strlit(",)");
        reveal_strlit(")");
        reveal_strlit(", ");
    }
    if shape.len() == 0 {
        r.append("()");
        assert(r@ =~= "()"@);
        return r;
    }
    r.append("(");
    if shape.len() == 1 {
        push_dec(&mut r, shape[0]);
        r.append(",)");
        assert(r@ =~= "("@ + decimal(shape@[0] as nat) + ",)"@);
        return r;
    }
    push_dec(&mut r, shape[0]);
    let mut i: usize = 1;
    assert(shape@.take(1).drop_last() =~= Seq::<usize>::empty());
    assert(r@ =~= "("@ + join_dims(shape@.take(1)));
    while i < shape.len()
        invariant
            1 <= i <= shape@.len(),
            r@ == "("@ + join_dims(shape@.take(i as int)),
        decreases shape@.len() - i,
    {
        r.append(", ");
        push_dec(&mut r, shape[i]);
        proof {
            assert(shape@.take(i + 1).drop_last() =~= shape@.take(i as int));
        }
        i = i + 1;
        assert(r@ =~= "("@ + join_dims(shape@.take(i as int)));
    }
    r.append(")");
    assert(shape@.take(i as int) =~= shape@);
    assert(r@ =~= "("@ + join_dims(shape@) + ")"@);
    r
}

/// Encode `<f4` elements, given as bit patterns, as a format 1.0 `.npy`
/// file in C order.
pub fn encode_npy_f32(shape: &[usize], data: &[u32]) -> (r: Result<Vec<u8>, MmnError>)
    requires
        forall|i: int| 0 <= i <= shape@.len() ==> #[trigger] prod(shape@.take(i)) <= usize::MAX,
    ensures
        prod(shape@) != data@.len() ==> r is Err,
        prod(shape@) == data@.len() ==> match spec_encode_npy_f32(shape@, data@) {
            Some(b) => r matches Ok(v) && v@ == b,
            None => r is Err,
        },
{
    let numel = numel_of(shape);
    if numel != data.len() {
        return Err(MmnError::new("npy encode shape needs a different number of elements"));
    }
    let mut h = String::new();
    proof {
        reveal_strlit("{'descr': '<f4', 'fortran_order': False, 'shape': ");
        reveal_strlit(", }");
    }
    h.append("{'descr': '<f4', 'fortran_order': False, 'shape': ");
    let sr = shape_repr_of(shape);
    h.append(sr.as_str());
    h.append(", }");
    assert(h@ =~= f32_header(shape@));
    let hc = chars_of(h.as_str());
    let hlen = hc.len();
    if hlen > 65535 {
        return Err(MmnError::new("npy header too large for format 1.0"));
    }
    let pad = (64 - (10 + hlen + 1) % 64) % 64;
    let header_len = hlen + pad + 1;
    if header_len > 65535 {
        return Err(MmnError::new("npy header too large for format 1.0"));
    }
    let mut out: Vec<u8> = Vec::new();
    out.push(0x93);
    out.push(0x4E);
    out.push(0x55);
    out.push(0x4D);
    out.push(0x50);
    out.push(0x59);
    out.push(1);
    out.push(0);
    crate::bytes::push_le16(&mut out, header_len as u16);
    let ghost pre = out@;
    let mut i: usize = 0;
    while i < hlen
        invariant
            hlen == hc@.len(),
            i <= hlen,
            out@ == pre + ascii_bytes(hc@.take(i as int)),
        decreases hlen - i,
    {
        out.push(hc[i] as u8);
        i = i + 1;
        assert(out@ =~= pre + ascii_bytes(hc@.take(i as int)));
    }
    assert(hc@.take(hlen as int) =~= hc@);
    let ghost pre2 = out@;
    let mut j: usize = 0;
    while j < pad
        invariant
            j <= pad,
            out@ == pre2 + Seq::new(j as nat, |k: int| 32u8),
        decreases pad - j,
    {
        out.push(32);
        j = j + 1;
        assert(out@ =~= pre2 + Seq::new(j as nat, |k: int| 32u8));
    }
    out.push(10);
    let ghost pre3 = out@;
    let mut k: usize = 0;
    while k < data.len()
        invariant
            k <= data@.len(),
            out@ == pre3 + le32_all(data@.take(k as int)),
        decreases data@.len() - k,
    {
        crate::bytes::push_le32(&mut out, data[k]);
        proof {
            assert(data@.take(k + 1).drop_last() =~= data@.take(k as int));
        }
        k = k + 1;
        assert(out@ =~= pre3 + le32_all(data@.take(k as int)));
    }
    assert(data@.take(k as int) =~= data@);
    proof {
        assert(npy_magic() + seq![1u8, 0u8] =~= seq![0x93u8, 0x4E, 0x55, 0x4D, 0x50, 0x59, 1, 0]);
    }
    assert(out@ =~= npy_magic() + seq![1u8, 0u8] + le16_bytes(header_len as int) + ascii_bytes(hc@)
        + Seq::new(pad as nat, |i: int| 32u8) + seq![10u8] + le32_all(data@));
    Ok(out)
}

} // verus!

verus! {

/// Whether [`decode_npy`] can count the elements of this buffer: true
/// exactly when `npy_fits` holds.
pub fn npy_counts_fit(bytes: &[u8]) -> (r: bool)
    ensures
        r == npy_fits(bytes@),
{
    let ghost b = bytes@;
    if bytes.len() < 10 || bytes[0] != 0x93 || bytes[1] != 0x4E || bytes[2] != 0x55 || bytes[3] != 0x4D
        || bytes[4] != 0x50 || bytes[5] != 0x59 {
        proof {
            if b.len() >= 10 {
                assert(b.take(6)[0] == b[0] && b.take(6)[1] == b[1] && b.take(6)[2] == b[2]);
                assert(b.take(6)[3] == b[3] && b.take(6)[4] == b[4] && b.take(6)[5] == b[5]);
            }
        }
        return true;
    }
    assert(b.take(6) =~= npy_magic());
    let major = bytes[6];
    let (hl, hs): (usize, usize) = if major == 1 {
        (read_le16(bytes, 8) as usize, 10)
    } else if (major == 2 || major == 3) && bytes.len() >= 12 {
        (read_le32(bytes, 8) as usize, 12)
    } else {
        return true;
    };
    if hl > bytes.len() - hs {
        return true;
    }
    let hb = copy_range(bytes, hs, hs + hl);
    let text = match crate::msgpack::utf8_string(hb) {
        Some(s) => s,
        None => return true,
    };
    let t = chars_of(text.as_str());
    let (descr, fortran, shape) = match header_fields_of(&t) {
        Some(x) => x,
        None => return true,
    };
    assert(spec_npy_header(b) == Some((descr@, fortran, shape@, (hs + hl) as int)));
    if descr.len() < 2 || !(descr[0] == '<' || descr[0] == '>' || descr[0] == '|') || descr[1] as u32 >= 128 {
        return true;
    }
    let item = match parse_usize_at(&descr, 2, descr.len()) {
        Some(n) => if n == 1 || n == 2 || n == 4 || n == 8 {
            n
        } else {
            return true;
        },
        None => return true,
    };
    assert(descr@.subrange(2, descr@.len() as int) =~= descr@.skip(2));
    let ghost s = shape@;
    assert(npy_item(descr@) == Some(item as nat));
    assert(npy_fits(b) == ((forall|j: int| 0 <= j <= s.len() ==> #[trigger] prod(s.take(j)) <= usize::MAX)
        && hs + hl + prod(s) * item <= usize::MAX));
    let ghost fits = npy_fits(b);
    let mut p: usize = 1;
    let mut i: usize = 0;
    assert(s.take(0) =~= Seq::<usize>::empty());
    while i < shape.len()
        invariant
            s == shape@,
            i <= s.len(),
            p == prod(s.take(i as int)),
            forall|j: int| 0 <= j <= i ==> #[trigger] prod(s.take(j)) <= usize::MAX,
            fits == npy_fits(b),
            b == bytes@,
            fits == ((forall|j: int| 0 <= j <= s.len() ==> #[trigger] prod(s.take(j)) <= usize::MAX)
                && hs + hl + prod(s) * item <= usize::MAX),
        decreases s.len() - i,
    {
        assert(s.take(i + 1).drop_last() =~= s.take(i as int));
        match p.checked_mul(shape[i]) {
            Some(q) => p = q,
            None => {
                assert(prod(s.take(i + 1)) > usize::MAX);
                return false;
            },
        }
        i = i + 1;
    }
    assert(s.take(i as int) =~= s);
    match p.checked_mul(item) {
        Some(size) => match size.checked_add(hs + hl) {
            Some(_) => true,
            None => false,
        },
        None => false,
    }
}

} // verus!
