//! HDF5 helpers: signature detection, bounds-checked field reads, and the
//! shuffle / deflate / Adler-32 pieces of the filter pipeline.

use vstd::prelude::*;
use crate::error::MmnError;
use crate::inflate::{inflate, spec_inflate};

verus! {

/// The HDF5 modulus of Adler-32.
pub const ADLER_MOD: u32 = 65_521;

/// Running byte sum `1 + data[0] + ... + data[n-1]`.
pub open spec fn adler_a(data: Seq<u8>) -> int
    decreases data.len(),
{
    if data.len() == 0 { 1 } else { adler_a(data.drop_last()) + data.last() }
}

/// Sum of the running sums over every non-empty prefix.
pub open spec fn adler_b(data: Seq<u8>) -> int
    decreases data.len(),
{
    if data.len() == 0 { 0 } else { adler_b(data.drop_last()) + adler_a(data) }
}

/// Adler-32 checksum (RFC 1950).
pub open spec fn spec_adler32(data: Seq<u8>) -> u32 {
    ((adler_b(data) % 65521) * 65536 + adler_a(data) % 65521) as u32
}

proof fn lemma_mod_congruent_add(x: int, y: int, d: int)
    requires
        x % 65521 == y % 65521,
    ensures
        (x + d) % 65521 == (y + d) % 65521,
{
    vstd::arithmetic::div_mod::lemma_add_mod_noop(x, d, 65521);
    vstd::arithmetic::div_mod::lemma_add_mod_noop(y, d, 65521);
}

proof fn lemma_adler_nonneg(data: Seq<u8>)
    ensures
        adler_a(data) >= 1,
        adler_b(data) >= 0,
    decreases data.len(),
{
    if data.len() > 0 {
        lemma_adler_nonneg(data.drop_last());
    }
}

/// Adler-32 checksum (RFC 1950), reducing every 5552 bytes.
pub fn adler32(data: &[u8]) -> (sum: u32)
    ensures
        sum == spec_adler32(data@),
{
    let mut a: u32 = 1;
    let mut b: u32 = 0;
    let mut start: usize = 0;
    let len = data.len();
    while start < len
        invariant
            len == data@.len(),
            start <= len,
            a < 65521,
            b < 65521,
            a as int == adler_a(data@.take(start as int)) % 65521,
            b as int == adler_b(data@.take(start as int)) % 65521,
        decreases len - start,
    {
        let end = if len - start > 5552 { start + 5552 } else { len };
        let mut i = start;
        while i < end
            invariant
                len == data@.len(),
                start <= i <= end <= len,
                end - start <= 5552,
                a as int <= 65520 + 255 * (i - start),
                2 * (b as int) <= 131040 * (i - start + 1) + 255 * (i - start) * (i - start + 1),
                (a as int) % 65521 == adler_a(data@.take(i as int)) % 65521,
                (b as int) % 65521 == adler_b(data@.take(i as int)) % 65521,
            decreases end - i,
        {
            let byte = data[i];
            proof {
                let n = (i - start) as int;
                assert(n < 5552);
                assert(255 * n * (n + 1) + 255 * 2 * (n + 1) == 255 * (n + 1) * (n + 2)) by (nonlinear_arith);
                assert(255 * (n + 1) * (n + 2) <= 255 * 5552 * 5553) by (nonlinear_arith)
                    requires 0 <= n < 5552;
                let t = data@.take(i as int + 1);
                assert(t.drop_last() =~= data@.take(i as int));
                assert(t.last() == byte);
                lemma_mod_congruent_add(a as int, adler_a(data@.take(i as int)), byte as int);
                lemma_mod_congruent_add(b as int, adler_b(data@.take(i as int)), (a + byte) as int);
                lemma_mod_congruent_add(adler_a(t), (a + byte) as int, adler_b(data@.take(i as int)));
                vstd::arithmetic::div_mod::lemma_add_mod_noop(adler_b(data@.take(i as int)), adler_a(t), 65521);
                vstd::arithmetic::div_mod::lemma_add_mod_noop(adler_b(data@.take(i as int)), (a + byte) as int, 65521);
            }
            proof {
                let n = (i - start) as int;
                let bb = b as int;
                let aa = a as int;
                assert(2 * (bb + aa + byte) <= 131040 * (n + 2) + 255 * (n + 1) * (n + 2)) by (nonlinear_arith)
                    requires
                        aa <= 65520 + 255 * n,
                        2 * bb <= 131040 * (n + 1) + 255 * n * (n + 1),
                        byte <= 255,
                ;
                assert(131040 * (n + 2) + 255 * (n + 1) * (n + 2) <= 8589380400) by (nonlinear_arith)
                    requires 0 <= n < 5552;
            }
            a = a + byte as u32;
            b = b + a;
            i = i + 1;
        }
        a = a % 65521;
        b = b % 65521;
        start = end;
    }
    proof {
        assert(data@.take(len as int) =~= data@);
        lemma_adler_nonneg(data@);
        assert((b << 16) | a == b * 65536 + a) by (bit_vector)
            requires a < 65521, b < 65521;
    }
    (b << 16) | a
}

/// The eight-byte HDF5 file signature `\x89HDF\r\n\x1a\n`.
pub open spec fn hdf5_signature() -> Seq<u8> {
    seq![0x89u8, 0x48u8, 0x44u8, 0x46u8, 0x0du8, 0x0au8, 0x1au8, 0x0au8]
}

/// True when the buffer starts with the HDF5 signature.
pub fn is_hdf5_bytes(bytes: &[u8]) -> (r: bool)
    ensures
        r == (bytes@.len() >= 8 && bytes@.subrange(0, 8) == hdf5_signature()),
{
    let ok = bytes.len() >= 8 && bytes[0] == 0x89 && bytes[1] == 0x48 && bytes[2] == 0x44 && bytes[3] == 0x46
        && bytes[4] == 0x0D && bytes[5] == 0x0A && bytes[6] == 0x1A && bytes[7] == 0x0A;
    proof {
        if bytes@.len() >= 8 {
            if ok {
                assert(bytes@.subrange(0, 8) =~= hdf5_signature());
            } else if bytes@.subrange(0, 8) == hdf5_signature() {
                assert(bytes@.subrange(0, 8)[0] == bytes@[0]);
                assert(bytes@.subrange(0, 8)[1] == bytes@[1]);
                assert(bytes@.subrange(0, 8)[2] == bytes@[2]);
                assert(bytes@.subrange(0, 8)[3] == bytes@[3]);
                assert(bytes@.subrange(0, 8)[4] == bytes@[4]);
                assert(bytes@.subrange(0, 8)[5] == bytes@[5]);
                assert(bytes@.subrange(0, 8)[6] == bytes@[6]);
                assert(bytes@.subrange(0, 8)[7] == bytes@[7]);
            }
        }
    }
    ok
}

/// The HDF5 shuffle filter's layout: every element's byte 0, then every
/// element's byte 1, and so on (`n` elements of `e` bytes).
pub open spec fn spec_shuffle(data: Seq<u8>, e: int) -> Seq<u8> {
    let n = data.len() as int / e;
    Seq::new(data.len(), |k: int| data[(k % n) * e + k / n])
}

/// What undoing the shuffle filter gives: element `i`'s byte `j` is read
/// from position `j * n + i`. Buffers that are not a whole number of
/// elements, and one-byte elements, pass through unchanged.
pub open spec fn spec_unshuffle(raw: Seq<u8>, e: int) -> Seq<u8> {
    if e <= 1 || raw.len() as int % e != 0 {
        raw
    } else {
        let n = raw.len() as int / e;
        Seq::new(raw.len(), |k: int| raw[(k % e) * n + k / e])
    }
}

proof fn lemma_index_split(i: int, j: int, a: int, b: int)
    requires
        0 <= i < a,
        0 <= j < b,
    ensures
        0 <= i * b + j < a * b,
        (i * b + j) / b == i,
        (i * b + j) % b == j,
{
    assert(0 <= i * b + j < a * b) by (nonlinear_arith)
        requires 0 <= i < a, 0 <= j < b;
    vstd::arithmetic::div_mod::lemma_fundamental_div_mod_converse(i * b + j, b, i, j);
}

/// Undo the HDF5 shuffle filter (a byte transpose by element size).
pub fn undo_shuffle(raw: &[u8], elem_size: usize) -> (out: Vec<u8>)
    ensures
        out@ == spec_unshuffle(raw@, elem_size as int),
{
    if elem_size <= 1 || raw.len() % elem_size != 0 {
        return copy_all(raw);
    }
    let n = raw.len() / elem_size;
    let len = raw.len();
    proof {
        vstd::arithmetic::div_mod::lemma_fundamental_div_mod(len as int, elem_size as int);
        assert(len as int % elem_size as int == 0);
        assert(len as int == elem_size as int * (len as int / elem_size as int));
        vstd::arithmetic::mul::lemma_mul_is_commutative(n as int, elem_size as int);
        assert(n * elem_size == len);
    }
    let mut out: Vec<u8> = vec![0u8; len];
    let mut j: usize = 0;
    while j < elem_size
        invariant
            len == raw@.len(),
            n * elem_size == len,
            elem_size > 1,
            j <= elem_size,
            out@.len() == len,
            forall|a: int, b: int| 0 <= a < n && 0 <= b < j ==> #[trigger] out@[a * elem_size + b] == raw@[b * n + a],
        decreases elem_size - j,
    {
        let mut i: usize = 0;
        while i < n
            invariant
                len == raw@.len(),
                n * elem_size == len,
                elem_size > 1,
                j < elem_size,
                i <= n,
                out@.len() == len,
                forall|a: int, b: int| 0 <= a < n && 0 <= b < j ==> #[trigger] out@[a * elem_size + b] == raw@[b * n + a],
                forall|a: int| 0 <= a < i ==> #[trigger] out@[a * elem_size + j] == raw@[j * n + a],
            decreases n - i,
        {
            proof {
                lemma_index_split(i as int, j as int, n as int, elem_size as int);
                lemma_index_split(j as int, i as int, elem_size as int, n as int);
                assert(j * n + i < len) by {
                    assert(elem_size * n == len) by (nonlinear_arith)
                        requires n * elem_size == len;
                }
            }
            let dst = i * elem_size + j;
            let src = j * n + i;
            let byte = raw[src];
            let ghost before = out@;
            out.set(dst, byte);
            proof {
                assert forall|a: int, b: int| 0 <= a < n && 0 <= b < j implies #[trigger] out@[a * elem_size + b] == raw@[b * n + a] by {
                    lemma_index_split(a, b, n as int, elem_size as int);
                    assert(a * elem_size + b != dst) by {
                        if a * elem_size + b == dst {
                            assert((a * elem_size + b) % (elem_size as int) == b);
                        }
                    }
                }
                assert forall|a: int| 0 <= a < i + 1 implies #[trigger] out@[a * elem_size + j] == raw@[j * n + a] by {
                    lemma_index_split(a, j as int, n as int, elem_size as int);
                    if a < i {
                        assert(a * elem_size + j != dst) by {
                            if a * elem_size + j == dst {
                                assert((a * elem_size + j) / (elem_size as int) == a);
                            }
                        }
                    }
                }
            }
            i = i + 1;
        }
        j = j + 1;
    }
    proof {
        let e = elem_size as int;
        let want = spec_unshuffle(raw@, e);
        assert forall|k: int| 0 <= k < len implies #[trigger] out@[k] == want[k] by {
            vstd::arithmetic::div_mod::lemma_fundamental_div_mod(k, e);
            let a = k / e;
            let b = k % e;
            assert(0 <= b < e);
            assert(a * e + b == k) by {
                vstd::arithmetic::mul::lemma_mul_is_commutative(a, e);
            }
            assert(0 <= a < n as int) by {
                assert(k < (n as int) * e);
                vstd::arithmetic::div_mod::lemma_div_by_multiple_is_strongly_ordered(k, (n as int) * e, n as int, e);
                vstd::arithmetic::div_mod::lemma_div_by_multiple(n as int, e);
            }
        }
        assert(out@ =~= want);
    }
    out
}

/// A fresh copy of `src`.
fn copy_all(src: &[u8]) -> (out: Vec<u8>)
    ensures
        out@ == src@,
{
    let mut out: Vec<u8> = Vec::with_capacity(src.len());
    let mut i: usize = 0;
    while i < src.len()
        invariant
            i <= src@.len(),
            out@ == src@.take(i as int),
        decreases src@.len() - i,
    {
        out.push(src[i]);
        i = i + 1;
        assert(out@ =~= src@.take(i as int));
    }
    assert(src@.take(src@.len() as int) =~= src@);
    out
}

/// Undoing the shuffle filter gives back the data it shuffled.
pub proof fn lemma_unshuffle_shuffle(data: Seq<u8>, e: int)
    requires
        e > 1,
        data.len() as int % e == 0,
    ensures
        spec_unshuffle(spec_shuffle(data, e), e) == data,
{
    let len = data.len() as int;
    let n = len / e;
    let sh = spec_shuffle(data, e);
    vstd::arithmetic::div_mod::lemma_fundamental_div_mod(len, e);
    assert(len % e == 0);
    assert(len == e * (len / e) + len % e);
    assert(len == e * n);
    if len == 0 {
        assert(spec_unshuffle(sh, e) =~= data);
    } else {
        assert(n > 0) by (nonlinear_arith)
            requires len == e * n, len > 0, e > 1;
        assert(sh.len() as int / e == n);
        assert forall|k: int| 0 <= k < len implies #[trigger] spec_unshuffle(sh, e)[k] == data[k] by {
            let a = k / e;
            let b = k % e;
            vstd::arithmetic::div_mod::lemma_fundamental_div_mod(k, e);
            assert(0 <= b < e);
            assert(0 <= a < n) by {
                vstd::arithmetic::div_mod::lemma_div_by_multiple_is_strongly_ordered(k, e * n, n, e);
                vstd::arithmetic::mul::lemma_mul_is_commutative(e, n);
                vstd::arithmetic::div_mod::lemma_div_by_multiple(n, e);
            }
            let m = b * n + a;
            lemma_index_split(b, a, e, n);
            assert(0 <= m < len) by {
                vstd::arithmetic::mul::lemma_mul_is_commutative(e, n);
            }
            assert(sh[m] == data[(m % n) * e + m / n]);
            assert(a * e + b == k) by {
                vstd::arithmetic::mul::lemma_mul_is_commutative(a, e);
            }
        }
        assert(spec_unshuffle(sh, e) =~= data);
    }
}

/// Undo the HDF5 deflate filter: a zlib stream (header, DEFLATE body,
/// big-endian Adler-32 of the output).
pub fn undo_deflate(raw: &[u8]) -> (r: Result<Vec<u8>, MmnError>)
    requires
        raw@.len() <= usize::MAX / 8,
    ensures
        match spec_zlib(raw@) {
            Some(o) => r matches Ok(out) && out@ == o,
            None => r is Err,
        },
{
    if raw.len() < 6 || raw[0] & 0x0F != 8 {
        return Err(MmnError::new("hdf5 gzip chunk is not a zlib stream"));
    }
    let n = raw.len();
    let body = crate::bytes::copy_range(raw, 2, n - 4);
    let out = match inflate(body.as_slice()) {
        Ok(o) => o,
        Err(e) => return Err(e),
    };
    let stored: u32 = (raw[n - 4] as u32) * 0x100_0000 + (raw[n - 3] as u32) * 0x1_0000 + (raw[n - 2] as u32) * 0x100
        + raw[n - 1] as u32;
    if adler32(out.as_slice()) != stored {
        return Err(MmnError::new("hdf5 gzip chunk Adler-32 mismatch"));
    }
    Ok(out)
}

/// The big-endian number held by the last four bytes.
pub open spec fn be32_tail(raw: Seq<u8>) -> int {
    let n = raw.len() as int;
    raw[n - 4] * 0x100_0000 + raw[n - 3] * 0x1_0000 + raw[n - 2] * 0x100 + raw[n - 1]
}

/// A zlib stream (RFC 1950) as the HDF5 deflate filter stores it: the
/// compression method nibble says DEFLATE, the body inflates, and the
/// trailing big-endian Adler-32 matches the output.
pub open spec fn spec_zlib(raw: Seq<u8>) -> Option<Seq<u8>> {
    if raw.len() >= 6 && raw[0] & 0x0f == 8 {
        match spec_inflate(raw.subrange(2, raw.len() - 4)) {
            Some(o) => if spec_adler32(o) as int == be32_tail(raw) { Some(o) } else { None },
            None => None,
        }
    } else {
        None
    }
}

} // verus!
