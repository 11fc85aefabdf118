//! Decoding an encoded `.npy` array, or an `.npz` archive of them, gives
//! back the dtype, shape and bits that were written.

use vstd::prelude::*;
use vstd::string::*;
use vstd::utf8::*;
use crate::bytes::{le16_at, le16_bytes, le32_bytes, lemma_le16_roundtrip};
use crate::names_law::{lemma_decimal_digits, lemma_parse_decimal};
use crate::npy::{
    ascii_bytes, dim_piece, f32_header, find_from, header_fields, header_padding, header_span, is_ws, join_dims,
    known_code, le32_all, npy_data, npy_item, npy_magic, parse_dims, prod, quoted, second_piece, shape_repr,
    shape_text, spec_decode_npy, spec_encode_npy_f32, spec_npy_header, trim_end, trim_start, NpyView,
};
use crate::text::{decimal, is_digit, parse_usize};
use crate::npz::{npy_stem, npz_arrays, npz_entries};
use crate::zip::{spec_read_zip, spec_zip_stored};
use crate::zip_law::{lemma_read_written_zip, storable_entries};

verus! {

/// The characters the encoder writes after the fixed start of its header.
pub open spec fn tame(c: char) -> bool {
    is_digit(c) || c == '(' || c == ')' || c == ',' || c == ' ' || c == '}' || c == '\n'
}

/// Every character is [`tame`].
pub open spec fn all_tame(s: Seq<char>) -> bool {
    forall|k: int| 0 <= k < s.len() ==> tame(#[trigger] s[k])
}

/// `, d1, d2, ...` for the dimensions `r`.
pub open spec fn dims_after(r: Seq<usize>) -> Seq<char>
    decreases r.len(),
{
    if r.len() == 0 {
        Seq::empty()
    } else {
        ", "@ + decimal(r[0] as nat) + dims_after(r.drop_first())
    }
}

/// What the encoder writes between the parentheses of a shape.
pub open spec fn inner_repr(s: Seq<usize>) -> Seq<char> {
    if s.len() == 0 {
        Seq::empty()
    } else if s.len() == 1 {
        decimal(s[0] as nat) + seq![',']
    } else {
        join_dims(s)
    }
}

proof fn lemma_find_first_pair(t: Seq<char>, pat: Seq<char>, i: int, j: int)
    requires
        0 <= i <= j,
        pat.len() >= 2,
        j + pat.len() <= t.len(),
        t.subrange(j, j + pat.len()) == pat,
        forall|k: int| i <= k < j ==> !(#[trigger] t[k] == pat[0] && t[k + 1] == pat[1]),
    ensures
        find_from(t, pat, i) == Some(j),
    decreases j - i,
{
    if i < j {
        assert(t.subrange(i, i + pat.len())[0] == t[i]);
        assert(t.subrange(i, i + pat.len())[1] == t[i + 1]);
        lemma_find_first_pair(t, pat, i + 1, j);
    }
}

proof fn lemma_find_none_pair(t: Seq<char>, pat: Seq<char>, i: int)
    requires
        0 <= i,
        pat.len() >= 2,
        forall|k: int| i <= k && k + 1 < t.len() ==> !(#[trigger] t[k] == pat[0] && t[k + 1] == pat[1]),
    ensures
        find_from(t, pat, i) is None,
    decreases t.len() - i,
{
    if i + pat.len() <= t.len() {
        assert(t.subrange(i, i + pat.len())[0] == t[i]);
        assert(t.subrange(i, i + pat.len())[1] == t[i + 1]);
        lemma_find_none_pair(t, pat, i + 1);
    }
}

proof fn lemma_find_first_char(t: Seq<char>, c: char, i: int, j: int)
    requires
        0 <= i <= j < t.len(),
        t[j] == c,
        forall|k: int| i <= k < j ==> #[trigger] t[k] != c,
    ensures
        find_from(t, seq![c], i) == Some(j),
    decreases j - i,
{
    if i < j {
        assert(t.subrange(i, i + 1)[0] == t[i]);
        lemma_find_first_char(t, c, i + 1, j);
    } else {
        assert(t.subrange(j, j + 1) =~= seq![c]);
    }
}

proof fn lemma_find_none_char(t: Seq<char>, c: char, i: int)
    requires
        0 <= i,
        forall|k: int| i <= k < t.len() ==> #[trigger] t[k] != c,
    ensures
        find_from(t, seq![c], i) is None,
    decreases t.len() - i,
{
    if i + 1 <= t.len() {
        assert(t.subrange(i, i + 1)[0] == t[i]);
        lemma_find_none_char(t, c, i + 1);
    }
}

proof fn lemma_decimal_tame(n: nat)
    ensures
        all_tame(decimal(n)),
        decimal(n).len() >= 1,
        !is_ws(decimal(n)[0]),
        !is_ws(decimal(n).last()),
{
    lemma_decimal_digits(n);
    let d = decimal(n);
    assert(is_digit(d[0]));
    assert(is_digit(d[d.len() - 1]));
}

proof fn lemma_join_tame(s: Seq<usize>)
    ensures
        all_tame(join_dims(s)),
    decreases s.len(),
{
    reveal_strlit(", ");
    if s.len() == 1 {
        lemma_decimal_tame(s[0] as nat);
    } else if s.len() > 1 {
        lemma_join_tame(s.drop_last());
        lemma_decimal_tame(s.last() as nat);
        let a = join_dims(s.drop_last());
        let d = decimal(s.last() as nat);
        assert forall|k: int| 0 <= k < join_dims(s).len() implies tame(#[trigger] join_dims(s)[k]) by {
            if k < a.len() {
                assert(join_dims(s)[k] == a[k]);
            } else if k < a.len() + 2 {
            } else {
                assert(join_dims(s)[k] == d[k - a.len() - 2]);
            }
        }
    }
}

proof fn lemma_inner_repr(s: Seq<usize>)
    ensures
        shape_repr(s) == seq!['('] + inner_repr(s) + seq![')'],
        all_tame(inner_repr(s)),
        forall|k: int| 0 <= k < inner_repr(s).len() ==> #[trigger] inner_repr(s)[k] != ')',
{
    reveal_strlit("()");
    reveal_strlit("(");
    reveal_strlit(",)");
    reveal_strlit(")");
    let inner = inner_repr(s);
    if s.len() == 0 {
        assert(shape_repr(s) =~= seq!['('] + inner + seq![')']);
    } else if s.len() == 1 {
        lemma_decimal_tame(s[0] as nat);
        lemma_decimal_digits(s[0] as nat);
        let d = decimal(s[0] as nat);
        assert(shape_repr(s) =~= seq!['('] + inner + seq![')']);
        assert forall|k: int| 0 <= k < inner.len() implies tame(#[trigger] inner[k]) by {
            if k < d.len() {
                assert(inner[k] == d[k]);
            }
        }
        assert forall|k: int| 0 <= k < inner.len() implies #[trigger] inner[k] != ')' by {
            if k < d.len() {
                assert(inner[k] == d[k]);
                assert(is_digit(d[k]));
            }
        }
    } else {
        lemma_join_tame(s);
        assert(shape_repr(s) =~= seq!['('] + inner + seq![')']);
        assert forall|k: int| 0 <= k < inner.len() implies #[trigger] inner[k] != ')' by {
            assert(tame(inner[k]));
            if inner[k] == ')' {
                lemma_join_no_close(s, k);
            }
        }
    }
}

proof fn lemma_join_no_close(s: Seq<usize>, k: int)
    requires
        0 <= k < join_dims(s).len(),
    ensures
        join_dims(s)[k] != ')',
    decreases s.len(),
{
    reveal_strlit(", ");
    if s.len() == 1 {
        lemma_decimal_digits(s[0] as nat);
        assert(is_digit(decimal(s[0] as nat)[k]));
    } else if s.len() > 1 {
        let a = join_dims(s.drop_last());
        let d = decimal(s.last() as nat);
        lemma_decimal_digits(s.last() as nat);
        if k < a.len() {
            assert(join_dims(s)[k] == a[k]);
            lemma_join_no_close(s.drop_last(), k);
        } else if k >= a.len() + 2 {
            assert(join_dims(s)[k] == d[k - a.len() - 2]);
            assert(is_digit(d[k - a.len() - 2]));
        }
    }
}

proof fn lemma_dims_after_snoc(r: Seq<usize>)
    requires
        r.len() >= 1,
    ensures
        dims_after(r) == dims_after(r.drop_last()) + ", "@ + decimal(r.last() as nat),
    decreases r.len(),
{
    if r.len() == 1 {
        assert(r.drop_last() =~= Seq::<usize>::empty());
        assert(r.drop_first() =~= Seq::<usize>::empty());
        assert(dims_after(r) =~= dims_after(r.drop_last()) + ", "@ + decimal(r.last() as nat));
    } else {
        lemma_dims_after_snoc(r.drop_first());
        assert(r.drop_first().drop_last() =~= r.drop_last().drop_first());
        assert(r.drop_last()[0] == r[0]);
        assert(r.drop_first().last() == r.last());
        assert(dims_after(r) =~= dims_after(r.drop_last()) + ", "@ + decimal(r.last() as nat));
    }
}

proof fn lemma_join_front(s: Seq<usize>)
    requires
        s.len() >= 1,
    ensures
        join_dims(s) == decimal(s[0] as nat) + dims_after(s.drop_first()),
    decreases s.len(),
{
    if s.len() == 1 {
        assert(s.drop_first() =~= Seq::<usize>::empty());
        assert(join_dims(s) =~= decimal(s[0] as nat) + dims_after(s.drop_first()));
    } else {
        lemma_join_front(s.drop_last());
        lemma_dims_after_snoc(s.drop_first());
        assert(s.drop_last().drop_first() =~= s.drop_first().drop_last());
        assert(s.drop_first().last() == s.last());
        assert(s.drop_last()[0] == s[0]);
        assert(join_dims(s) =~= decimal(s[0] as nat) + dims_after(s.drop_first()));
    }
}

/// A dimension written in decimal, perhaps after one space, is read back.
proof fn lemma_dim_piece(w: Seq<char>, v: usize)
    requires
        w == Seq::<char>::empty() || w == seq![' '],
    ensures
        dim_piece(w + decimal(v as nat)) == Some(Some(v)),
{
    let d = decimal(v as nat);
    lemma_decimal_tame(v as nat);
    lemma_parse_decimal(v);
    if w.len() == 1 {
        assert((w + d).drop_first() =~= d);
        assert(is_ws((w + d)[0]));
    } else {
        assert(w + d =~= d);
    }
    assert(trim_start(w + d) == d);
    assert(d.len() > 0 && !is_ws(d.last()));
    assert(trim_end(d) == d);
}

proof fn lemma_parse_front(w: Seq<char>, v: usize, r: Seq<usize>)
    requires
        w == Seq::<char>::empty() || w == seq![' '],
    ensures
        parse_dims(w + decimal(v as nat) + dims_after(r)) == Some(seq![v] + r),
    decreases r.len(),
{
    reveal_strlit(", ");
    let d = decimal(v as nat);
    lemma_decimal_digits(v as nat);
    lemma_dim_piece(w, v);
    let c = w + d + dims_after(r);
    if r.len() == 0 {
        assert(c =~= w + d);
        assert forall|k: int| 0 <= k < c.len() implies #[trigger] c[k] != ',' by {
            if k >= w.len() {
                assert(c[k] == d[k - w.len()]);
                assert(is_digit(d[k - w.len()]));
            }
        }
        lemma_find_none_char(c, ',', 0);
        assert(seq![v] + r =~= seq![v]);
    } else {
        let tail = seq![' '] + decimal(r[0] as nat) + dims_after(r.drop_first());
        assert(c =~= (w + d) + seq![','] + tail);
        let k = (w.len() + d.len()) as int;
        assert forall|m: int| 0 <= m < k implies #[trigger] c[m] != ',' by {
            if m >= w.len() {
                assert(c[m] == d[m - w.len()]);
                assert(is_digit(d[m - w.len()]));
            }
        }
        lemma_find_first_char(c, ',', 0, k);
        assert(c.take(k) =~= w + d);
        assert(c.skip(k + 1) =~= tail);
        lemma_parse_front(seq![' '], r[0], r.drop_first());
        assert(seq![' '] + decimal(r[0] as nat) + dims_after(r.drop_first()) =~= tail);
        assert(seq![v] + (seq![r[0]] + r.drop_first()) =~= seq![v] + r);
    }
}

/// The dimensions written between the parentheses read back as the shape.
proof fn lemma_parse_inner(s: Seq<usize>)
    ensures
        parse_dims(inner_repr(s)) == Some(s),
{
    assert(find_from(Seq::<char>::empty(), seq![','], 0) is None);
    assert(trim_start(Seq::<char>::empty()) == Seq::<char>::empty());
    assert(trim_end(Seq::<char>::empty()) == Seq::<char>::empty());
    assert(dim_piece(Seq::<char>::empty()) == Some(None::<usize>));
    assert(parse_dims(Seq::<char>::empty()) == Some(Seq::<usize>::empty()));
    if s.len() == 0 {
        assert(inner_repr(s) =~= Seq::<char>::empty());
        assert(s =~= Seq::<usize>::empty());
    } else if s.len() == 1 {
        lemma_parse_front(Seq::empty(), s[0], Seq::empty());
        let d = decimal(s[0] as nat);
        lemma_decimal_digits(s[0] as nat);
        let c = inner_repr(s);
        assert forall|m: int| 0 <= m < d.len() implies #[trigger] c[m] != ',' by {
            assert(c[m] == d[m]);
            assert(is_digit(d[m]));
        }
        lemma_find_first_char(c, ',', 0, d.len() as int);
        assert(c.take(d.len() as int) =~= Seq::<char>::empty() + d + dims_after(Seq::empty()));
        assert(c.skip(d.len() as int + 1) =~= Seq::<char>::empty());
        assert(dim_piece(Seq::<char>::empty()) == Some(None::<usize>));
        lemma_dim_piece(Seq::empty(), s[0]);
        assert(Seq::<char>::empty() + d =~= c.take(d.len() as int));
        assert(seq![s[0]] + Seq::<usize>::empty() =~= s);
    } else {
        lemma_join_front(s);
        lemma_parse_front(Seq::empty(), s[0], s.drop_first());
        assert(Seq::<char>::empty() + decimal(s[0] as nat) + dims_after(s.drop_first()) =~= join_dims(s));
        assert(seq![s[0]] + s.drop_first() =~= s);
    }
}

proof fn lemma_le32_all_len(v: Seq<u32>)
    ensures
        le32_all(v).len() == 4 * v.len(),
    decreases v.len(),
{
    if v.len() > 0 {
        lemma_le32_all_len(v.drop_last());
    }
}

/// The header dictionary of an encoded array reads back as `<f4`, C order,
/// and its shape.
proof fn lemma_header_fields(shape: Seq<usize>, t: Seq<char>, q: Seq<char>)
    requires
        t == "{'descr': '<f4', 'fortran_order': False, 'shape': "@ + q,
        all_tame(q),
        q.len() >= 1,
        exists|inner: Seq<char>| #![auto]
            inner.len() + 2 <= q.len() && q.take(inner.len() as int + 2) == seq!['('] + inner + seq![')'] && parse_dims(inner) == Some(shape)
                && forall|k: int| 0 <= k < inner.len() ==> #[trigger] inner[k] != ')',
    ensures
        header_fields(t) == Some(("<f4"@, false, shape)),
{
    reveal_strlit("{'descr': '<f4', 'fortran_order': False, 'shape': ");
    reveal_strlit("'descr':");
    reveal_strlit("'fortran_order':");
    reveal_strlit("'shape':");
    reveal_strlit("<f4");
    reveal_strlit("True");
    let p = "{'descr': '<f4', 'fortran_order': False, 'shape': "@;
    assert(p.len() == 50);
    assert forall|k: int| 50 <= k < t.len() implies #[trigger] t[k] != '\'' by {
        assert(t[k] == q[k - 50]);
        assert(tame(q[k - 50]));
    }
    // 'descr':
    let pd = "'descr':"@;
    assert(t.subrange(1, 9) =~= pd);
    lemma_find_first_pair(t, pd, 0, 1);
    assert forall|k: int| 9 <= k && k + 1 < t.len() implies !(#[trigger] t[k] == pd[0] && t[k + 1] == pd[1]) by {
        if k < 50 {
            assert(t[k] == p[k]);
            if k + 1 < 50 {
                assert(t[k + 1] == p[k + 1]);
            }
        }
    }
    lemma_find_none_pair(t, pd, 9);
    let piece_d = t.subrange(9, t.len() as int);
    assert(second_piece(t, pd) == Some(piece_d));
    lemma_find_first_char(piece_d, '\'', 0, 1);
    let rest = piece_d.skip(2);
    lemma_find_first_char(rest, '\'', 0, 3);
    assert(rest.take(3) =~= "<f4"@);
    assert(quoted(piece_d) == Some("<f4"@));
    // 'fortran_order':
    let pf = "'fortran_order':"@;
    assert(t.subrange(17, 33) =~= pf);
    assert forall|k: int| 0 <= k < 17 implies !(#[trigger] t[k] == pf[0] && t[k + 1] == pf[1]) by {
        assert(t[k] == p[k]);
        assert(t[k + 1] == p[k + 1]);
    }
    lemma_find_first_pair(t, pf, 0, 17);
    assert forall|k: int| 33 <= k && k + 1 < t.len() implies !(#[trigger] t[k] == pf[0] && t[k + 1] == pf[1]) by {
        if k < 50 {
            assert(t[k] == p[k]);
            if k + 1 < 50 {
                assert(t[k + 1] == p[k + 1]);
            }
        }
    }
    lemma_find_none_pair(t, pf, 33);
    let piece_f = t.subrange(33, t.len() as int);
    assert(second_piece(t, pf) == Some(piece_f));
    assert(is_ws(piece_f[0]));
    assert(piece_f.drop_first()[0] == 'F');
    assert(!is_ws(piece_f.drop_first()[0]));
    assert(trim_start(piece_f.drop_first()) == piece_f.drop_first());
    assert(trim_start(piece_f) == piece_f.drop_first());
    let ft = trim_start(piece_f);
    assert(ft.len() >= 4);
    assert(ft.take(4)[0] != "True"@[0]);
    // 'shape':
    let ps = "'shape':"@;
    assert(t.subrange(41, 49) =~= ps);
    assert forall|k: int| 0 <= k < 41 implies !(#[trigger] t[k] == ps[0] && t[k + 1] == ps[1]) by {
        assert(t[k] == p[k]);
        assert(t[k + 1] == p[k + 1]);
    }
    lemma_find_first_pair(t, ps, 0, 41);
    assert forall|k: int| 49 <= k && k + 1 < t.len() implies !(#[trigger] t[k] == ps[0] && t[k + 1] == ps[1]) by {
        if k < 50 {
            assert(t[k] == p[k]);
        }
    }
    lemma_find_none_pair(t, ps, 49);
    let piece_s = t.subrange(49, t.len() as int);
    assert(second_piece(t, ps) == Some(piece_s));
    let inner = choose|inner: Seq<char>| #![auto]
        inner.len() + 2 <= q.len() && q.take(inner.len() as int + 2) == seq!['('] + inner + seq![')'] && parse_dims(inner) == Some(shape)
            && forall|k: int| 0 <= k < inner.len() ==> #[trigger] inner[k] != ')';
    let n = inner.len() as int;
    assert(q[0] == q.take(n + 2)[0]);
    assert(piece_s[0] == ' ');
    assert(piece_s[1] == q[0]);
    lemma_find_first_char(piece_s, '(', 0, 1);
    let tail = piece_s.skip(1);
    assert(tail =~= q);
    assert forall|k: int| 0 <= k < n + 1 implies #[trigger] q[k] != ')' by {
        assert(q[k] == q.take(n + 2)[k]);
        if k >= 1 {
            assert(q.take(n + 2)[k] == inner[k - 1]);
        }
    }
    assert(q[n + 1] == q.take(n + 2)[n + 1]);
    lemma_find_first_char(tail, ')', 0, n + 1);
    assert(piece_s.subrange(2, 1 + (n + 1)) =~= inner) by {
        assert forall|k: int| 0 <= k < n implies piece_s.subrange(2, 1 + (n + 1))[k] == inner[k] by {
            assert(piece_s[2 + k] == q[1 + k]);
            assert(q[1 + k] == q.take(n + 2)[1 + k]);
        }
    }
    assert(shape_text(piece_s) == Some(shape));
}

/// Decoding the bytes [`encode_npy_f32`](crate::npy::encode_npy_f32)
/// writes for a shape and `<f4` bit patterns gives back descr `<f4`, the
/// shape, and the little-endian bytes of those bit patterns.
pub proof fn lemma_decode_encoded_npy(shape: Seq<usize>, data: Seq<u32>)
    requires
        prod(shape) == data.len(),
        spec_encode_npy_f32(shape, data) is Some,
    ensures
        spec_decode_npy(spec_encode_npy_f32(shape, data)->Some_0)
            == Some(NpyView { descr: "<f4"@, shape, data: le32_all(data) }),
{
    reveal_strlit("{'descr': '<f4', 'fortran_order': False, 'shape': ");
    reveal_strlit(", }");
    reveal_strlit("<f4");
    reveal_strlit("f4");
    let p = "{'descr': '<f4', 'fortran_order': False, 'shape': "@;
    let h = f32_header(shape);
    let pad = header_padding(h.len() as int);
    let hl = h.len() + pad + 1;
    let sp = Seq::new(pad as nat, |i: int| ' ');
    let t = h + sp + seq!['\n'];
    let b = spec_encode_npy_f32(shape, data)->Some_0;
    let body = le32_all(data);
    lemma_le32_all_len(data);
    // The text after the fixed start.
    lemma_inner_repr(shape);
    lemma_parse_inner(shape);
    let r = shape_repr(shape);
    let q = r + ", }"@ + sp + seq!['\n'];
    assert(t =~= p + q);
    assert(all_tame(r)) by {
        let inner = inner_repr(shape);
        assert forall|k: int| 0 <= k < r.len() implies tame(#[trigger] r[k]) by {
            if 1 <= k < r.len() - 1 {
                assert(r[k] == inner[k - 1]);
            }
        }
    }
    assert(all_tame(q)) by {
        assert forall|k: int| 0 <= k < q.len() implies tame(#[trigger] q[k]) by {
            if k < r.len() {
                assert(q[k] == r[k]);
            }
        }
    }
    let inner = inner_repr(shape);
    assert(q.take(inner.len() as int + 2) =~= seq!['('] + inner + seq![')']);
    lemma_header_fields(shape, t, q);
    // The header as bytes.
    assert(is_ascii_chars(t)) by {
        assert forall|k: int| 0 <= k < t.len() implies '\0' <= #[trigger] t[k] <= '\u{7f}' by {
            if k >= 50 {
                assert(t[k] == q[k - 50]);
                assert(tame(q[k - 50]));
            } else {
                assert(t[k] == p[k]);
            }
        }
    }
    is_ascii_chars_encode_utf8(t);
    assert(ascii_bytes(t) =~= encode_utf8(t));
    encode_utf8_valid_utf8(t);
    encode_utf8_decode_utf8(t);
    assert(ascii_bytes(t) =~= ascii_bytes(h) + Seq::new(pad as nat, |i: int| 32u8) + seq![10u8]);
    let head = npy_magic() + seq![1u8, 0u8] + le16_bytes(hl);
    assert(b =~= head + ascii_bytes(t) + body);
    assert(b.subrange(10, 10 + hl) =~= ascii_bytes(t));
    assert(b.take(6) =~= npy_magic());
    assert(b.subrange(8, 10) =~= le16_bytes(hl));
    lemma_le16_roundtrip(b, 8, hl);
    assert(header_span(b) == Some((10int, hl as int)));
    assert(spec_npy_header(b) == Some(("<f4"@, false, shape, 10 + hl)));
    // The elements.
    assert("<f4"@.skip(1) =~= "f4"@);
    assert("<f4"@.skip(2) =~= seq!['4']);
    assert(parse_usize(seq!['4']) == Some(4nat));
    assert(npy_item("<f4"@) == Some(4nat));
    assert(known_code("<f4"@.skip(1)));
    assert(b.subrange(10 + hl, 10 + hl + prod(shape) * 4) =~= body);
    assert(npy_data(body, 4, shape, false, false) =~= body) by {
        assert forall|i: int| 0 <= i < body.len() implies npy_data(body, 4, shape, false, false)[i] == body[i] by {
            assert((i / 4) * 4 + i % 4 == i);
        }
    }
}

} // verus!

verus! {

/// What reading back an `.npz` archive of written arrays gives: each name
/// with descr `<f4`, its shape, and the little-endian bytes of its bits.
pub open spec fn written_views(a: Seq<(Seq<char>, Seq<usize>, Seq<u32>)>) -> Seq<(Seq<char>, NpyView)> {
    Seq::new(a.len(), |i: int| (a[i].0, NpyView { descr: "<f4"@, shape: a[i].1, data: le32_all(a[i].2) }))
}

proof fn lemma_npz_arrays_of_entries(a: Seq<(Seq<char>, Seq<usize>, Seq<u32>)>)
    requires
        npz_entries(a) is Some,
    ensures
        npz_arrays(npz_entries(a)->Some_0) == Some(written_views(a)),
    decreases a.len(),
{
    reveal_strlit(".npy");
    if a.len() == 0 {
        assert(written_views(a) =~= Seq::<(Seq<char>, NpyView)>::empty());
    } else {
        let a0 = a.drop_last();
        let es0 = npz_entries(a0)->Some_0;
        lemma_npz_arrays_of_entries(a0);
        let (name, shape, data) = a.last();
        let b = spec_encode_npy_f32(shape, data)->Some_0;
        let es = npz_entries(a)->Some_0;
        assert(es == es0.push((name + ".npy"@, b)));
        assert(es.drop_last() =~= es0);
        let n = name + ".npy"@;
        assert(n.skip(n.len() - 4) =~= ".npy"@);
        assert(n.take(n.len() - 4) =~= name);
        assert(npy_stem(n) == Some(name));
        lemma_decode_encoded_npy(shape, data);
        assert(written_views(a) =~= written_views(a0).push(
            (name, NpyView { descr: "<f4"@, shape, data: le32_all(data) }),
        ));
    }
}

/// Reading back an `.npz` archive written for named `<f4` arrays gives
/// every array, in order, under its name, with descr `<f4`, its shape and
/// the little-endian bytes of its bits; the archive's entries are what was
/// written, within the ZIP format's limits.
pub proof fn lemma_read_written_npz(a: Seq<(Seq<char>, Seq<usize>, Seq<u32>)>)
    requires
        npz_entries(a) is Some,
        storable_entries(npz_entries(a)->Some_0),
    ensures
        spec_read_zip(spec_zip_stored(npz_entries(a)->Some_0)) == Some(npz_entries(a)->Some_0),
        npz_arrays(npz_entries(a)->Some_0) == Some(written_views(a)),
{
    lemma_read_written_zip(npz_entries(a)->Some_0);
    lemma_npz_arrays_of_entries(a);
}

} // verus!
