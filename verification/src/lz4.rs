//! LZ4 block-format decoder (the codec inside Blosc frames).

use vstd::prelude::*;
use crate::bytes::{back_copy, le16_at, lemma_back_copy_len, push_back_copy, push_all, read_le16};
use crate::error::MmnError;

verus! {

/// A length field's 255-run extension starting at `ip`, added to `acc`:
/// `Some((length, next position))`, or `None` if the input ends inside the run.
pub open spec fn lz4_length_run(src: Seq<u8>, ip: int, acc: int) -> Option<(int, int)>
    decreases src.len() - ip,
{
    if ip < 0 || ip >= src.len() {
        None
    } else if src[ip] != 255 {
        Some((acc + src[ip], ip + 1))
    } else {
        lz4_length_run(src, ip + 1, acc + 255)
    }
}

/// Decoding of the sequences starting at `ip`, with `out` produced so far.
pub open spec fn lz4_sequences(src: Seq<u8>, ip: int, out: Seq<u8>, expected: int) -> Option<Seq<u8>>
    decreases src.len() - ip,
{
    if ip < 0 || ip >= src.len() {
        None
    } else {
        let token = src[ip];
        let lit_nibble = (token / 16) as int;
        let lit = if lit_nibble == 15 { lz4_length_run(src, ip + 1, 15) } else { Some((lit_nibble, ip + 1)) };
        match lit {
            None => None,
            Some((lit_len, ip2)) => if ip2 + lit_len > src.len() {
                None
            } else {
                let out2 = out + src.subrange(ip2, ip2 + lit_len);
                let ip3 = ip2 + lit_len;
                if ip3 == src.len() {
                    if out2.len() == expected { Some(out2) } else { None }
                } else if ip3 + 2 > src.len() {
                    None
                } else {
                    let offset = le16_at(src, ip3);
                    if offset == 0 || offset > out2.len() {
                        None
                    } else {
                        let match_nibble = (token % 16) as int;
                        let m = if match_nibble == 15 {
                            lz4_length_run(src, ip3 + 2, 15)
                        } else {
                            Some((match_nibble, ip3 + 2))
                        };
                        match m {
                            None => None,
                            Some((match_len, ip5)) => {
                                let out3 = back_copy(out2, offset, (match_len + 4) as nat);
                                if out2.len() + match_len + 4 > expected {
                                    None
                                } else if ip5 == src.len() {
                                    if out3.len() == expected { Some(out3) } else { None }
                                } else if ip5 <= ip || ip5 > src.len() {
                                    None
                                } else {
                                    lz4_sequences(src, ip5, out3, expected)
                                }
                            },
                        }
                    }
                }
            },
        }
    }
}

/// The LZ4 block `src` decoded, when it decodes to exactly `expected` bytes.
pub open spec fn spec_lz4_block(src: Seq<u8>, expected: int) -> Option<Seq<u8>> {
    lz4_sequences(src, 0, Seq::empty(), expected)
}

/// A length beyond a nibble's 15, as LZ4 writes it: bytes of 255 while at
/// least 255 is left, then one byte below 255.
pub open spec fn lz4_length_bytes(n: nat) -> Seq<u8>
    decreases n,
{
    if n < 255 {
        seq![n as u8]
    } else {
        seq![255u8] + lz4_length_bytes((n - 255) as nat)
    }
}

/// The nibble a length is written with (15 when it continues in extra bytes),
/// and those extra bytes.
pub open spec fn lz4_nibble(n: nat) -> int {
    if n >= 15 { 15 } else { n as int }
}

pub open spec fn lz4_extension(n: nat) -> Seq<u8> {
    if n >= 15 { lz4_length_bytes((n - 15) as nat) } else { Seq::empty() }
}

/// One sequence, encoded: its token (literal count in the high nibble, match
/// length minus 4 in the low one, 15 meaning "continued"), the literal
/// count's extension, the literals, the match offset as two little-endian
/// bytes, then the match length's extension.
pub open spec fn lz4_sequence_bytes(lits: Seq<u8>, offset: int, match_len: nat) -> Seq<u8> {
    seq![(lz4_nibble(lits.len()) * 16 + lz4_nibble((match_len - 4) as nat)) as u8]
        + lz4_extension(lits.len())
        + lits
        + seq![(offset % 256) as u8, (offset / 256) as u8]
        + lz4_extension((match_len - 4) as nat)
}

/// A length written as `lz4_length_bytes` reads back as itself, added to
/// what the nibble held.
pub proof fn lemma_lz4_length_bytes_read(src: Seq<u8>, p: int, acc: int, n: nat)
    requires
        0 <= p,
        p + lz4_length_bytes(n).len() <= src.len(),
        src.subrange(p, p + lz4_length_bytes(n).len()) == lz4_length_bytes(n),
    ensures
        lz4_length_run(src, p, acc) == Some((acc + n, p + lz4_length_bytes(n).len())),
    decreases n,
{
    let e = lz4_length_bytes(n);
    assert(src[p] == src.subrange(p, p + e.len())[0]);
    if n >= 255 {
        let rest = lz4_length_bytes((n - 255) as nat);
        assert(src.subrange(p + 1, p + 1 + rest.len()) =~= rest) by {
            assert forall|k: int| 0 <= k < rest.len() implies #[trigger] src.subrange(p + 1, p + 1 + rest.len())[k] == rest[k] by {
                assert(src[p + 1 + k] == src.subrange(p, p + e.len())[1 + k]);
                assert(e[1 + k] == rest[k]);
            }
        }
        lemma_lz4_length_bytes_read(src, p + 1, acc + 255, (n - 255) as nat);
    }
}

/// Decoding undoes the encoding of one sequence, for every literal count,
/// every match length of at least 4 and every offset from 1 to 65535: the
/// literals are appended, then `match_len` bytes are copied from `offset`
/// bytes back. An offset reaching before the start of the output is refused.
/// After the sequence the decoding goes on with the next one, or, at the end
/// of the block, yields the output if it has the expected length.
pub proof fn lemma_lz4_sequence_round_trip(
    src: Seq<u8>,
    ip: int,
    lits: Seq<u8>,
    offset: int,
    match_len: nat,
    out: Seq<u8>,
    expected: int,
)
    requires
        0 <= ip,
        match_len >= 4,
        1 <= offset <= 65535,
        ip + lz4_sequence_bytes(lits, offset, match_len).len() <= src.len(),
        src.subrange(ip, ip + lz4_sequence_bytes(lits, offset, match_len).len()) == lz4_sequence_bytes(lits, offset, match_len),
        out.len() + lits.len() + match_len <= expected,
    ensures
        ({
            let next = ip + lz4_sequence_bytes(lits, offset, match_len).len();
            let copied = back_copy(out + lits, offset, match_len);
            &&& offset > out.len() + lits.len() ==> lz4_sequences(src, ip, out, expected) is None
            &&& offset <= out.len() + lits.len() && next < src.len()
                ==> lz4_sequences(src, ip, out, expected) == lz4_sequences(src, next, copied, expected)
            &&& offset <= out.len() + lits.len() && next == src.len()
                ==> lz4_sequences(src, ip, out, expected) == (if out.len() + lits.len() + match_len == expected {
                    Some(copied)
                } else {
                    None
                })
        }),
{
    let n = lits.len();
    let m = (match_len - 4) as nat;
    let e1 = lz4_extension(n);
    let e2 = lz4_extension(m);
    let enc = lz4_sequence_bytes(lits, offset, match_len);
    let tok = seq![(lz4_nibble(n) * 16 + lz4_nibble(m)) as u8];
    let ob = seq![(offset % 256) as u8, (offset / 256) as u8];
    assert(enc == tok + e1 + lits + ob + e2);
    let w = src.subrange(ip, ip + enc.len());
    let p1 = ip + 1;
    let p2 = p1 + e1.len();
    let p3 = p2 + n;
    let p4 = p3 + 2;
    assert(enc.len() == 1 + e1.len() + n + 2 + e2.len());
    // token
    assert(src[ip] == w[0]);
    assert(0 <= lz4_nibble(n) * 16 + lz4_nibble(m) < 256);
    assert(src[ip] == lz4_nibble(n) * 16 + lz4_nibble(m));
    assert(src[ip] / 16 == lz4_nibble(n));
    assert(src[ip] % 16 == lz4_nibble(m));
    // the pieces, read back out of the block
    assert(src.subrange(p1, p2) =~= e1) by {
        assert forall|k: int| 0 <= k < e1.len() implies #[trigger] src.subrange(p1, p2)[k] == e1[k] by {
            assert(src[p1 + k] == w[1 + k]);
            assert(enc[1 + k] == e1[k]);
        }
    }
    assert(src.subrange(p2, p3) =~= lits) by {
        assert forall|k: int| 0 <= k < n implies #[trigger] src.subrange(p2, p3)[k] == lits[k] by {
            assert(src[p2 + k] == w[1 + e1.len() + k]);
            assert(enc[1 + e1.len() + k] == lits[k]);
        }
    }
    assert(src[p3] == w[(1 + e1.len() + n) as int]);
    assert(src[p3 + 1] == w[(1 + e1.len() + n + 1) as int]);
    assert(src[p3] == offset % 256);
    assert(src[p3 + 1] == offset / 256);
    assert(le16_at(src, p3) == offset);
    assert(src.subrange(p4, p4 + e2.len()) =~= e2) by {
        assert forall|k: int| 0 <= k < e2.len() implies #[trigger] src.subrange(p4, p4 + e2.len())[k] == e2[k] by {
            assert(src[p4 + k] == w[1 + e1.len() + n + 2 + k]);
            assert(enc[1 + e1.len() + n + 2 + k] == e2[k]);
        }
    }
    if n >= 15 {
        lemma_lz4_length_bytes_read(src, p1, 15, (n - 15) as nat);
    }
    if m >= 15 {
        lemma_lz4_length_bytes_read(src, p4, 15, (m - 15) as nat);
    }
    lemma_back_copy_len(out + lits, offset, match_len);
}

proof fn lemma_length_run_bounds(src: Seq<u8>, ip: int, acc: int)
    requires
        0 <= ip,
        0 <= acc,
    ensures
        lz4_length_run(src, ip, acc) matches Some((len, next)) ==> len >= acc && ip < next <= src.len()
            && len <= acc + 255 * (next - ip),
    decreases src.len() - ip,
{
    if 0 <= ip < src.len() && src[ip] == 255 {
        lemma_length_run_bounds(src, ip + 1, acc + 255);
    }
}

/// Reads a 255-run length extension, giving up early (as the decoding will)
/// once the length exceeds `cap`.
fn read_length_run(src: &[u8], ip: usize, acc: usize, cap: usize) -> (r: Option<(usize, usize)>)
    requires
        acc <= cap,
        cap <= usize::MAX - 256,
    ensures
        match r {
            Some((len, next)) => lz4_length_run(src@, ip as int, acc as int) == Some((len as int, next as int))
                && len <= cap,
            None => lz4_length_run(src@, ip as int, acc as int) matches Some((len, next)) ==> len > cap,
        },
{
    let mut p = ip;
    let mut total = acc;
    loop
        invariant
            total <= cap,
            cap <= usize::MAX - 256,
            ip <= p,
            lz4_length_run(src@, ip as int, acc as int) == lz4_length_run(src@, p as int, total as int),
        decreases src@.len() - p,
    {
        if p >= src.len() {
            return None;
        }
        let byte = src[p];
        total = total + byte as usize;
        p = p + 1;
        if byte != 255 {
            if total > cap {
                proof {
                    lemma_length_run_bounds(src@, p as int, total as int);
                }
                return None;
            }
            return Some((total, p));
        }
        if total > cap {
            proof {
                lemma_length_run_bounds(src@, p as int, total as int);
            }
            return None;
        }
    }
}

/// Decompress one LZ4 block into exactly `expected_len` bytes.
pub fn lz4_decompress_block(src: &[u8], expected_len: usize) -> (r: Result<Vec<u8>, MmnError>)
    requires
        expected_len <= isize::MAX,
        src@.len() <= isize::MAX,
    ensures
        match spec_lz4_block(src@, expected_len as int) {
            Some(out) => r matches Ok(v) && v@ == out,
            None => r is Err,
        },
{
    let mut out: Vec<u8> = Vec::with_capacity(expected_len);
    let mut ip: usize = 0;
    let n = src.len();
    loop
        invariant
            n == src@.len(),
            n <= isize::MAX,
            expected_len <= isize::MAX,
            ip <= n,
            out@.len() <= expected_len,
            spec_lz4_block(src@, expected_len as int) == lz4_sequences(src@, ip as int, out@, expected_len as int),
        decreases n - ip,
    {
        if ip >= n {
            return Err(MmnError::new("lz4 block truncated at token"));
        }
        let token = src[ip];
        let ip1 = ip + 1;
        let lit_nibble = (token / 16) as usize;
        let (lit_len, ip2) = if lit_nibble == 15 {
            match read_length_run(src, ip1, 15, if n < 15 { 15 } else { n }) {
                Some(pair) => pair,
                None => {
                    proof {
                        lemma_length_run_bounds(src@, ip1 as int, 15);
                    }
                    return Err(MmnError::new("lz4 literal length truncated"));
                },
            }
        } else {
            (lit_nibble, ip1)
        };
        proof {
            if lit_nibble == 15 {
                lemma_length_run_bounds(src@, ip1 as int, 15);
            }
        }
        if lit_len > n - ip2 {
            return Err(MmnError::new("lz4 literals truncated"));
        }
        let ghost before = out@;
        push_all(&mut out, slice_of(src, ip2, ip2 + lit_len));
        let ip3 = ip2 + lit_len;
        if ip3 == n {
            if out.len() != expected_len {
                return Err(MmnError::new("lz4 output length differs from the expected length"));
            }
            return Ok(out);
        }
        if n - ip3 < 2 {
            return Err(MmnError::new("lz4 match offset truncated"));
        }
        let offset = read_le16(src, ip3) as usize;
        let ip4 = ip3 + 2;
        if offset == 0 || offset > out.len() {
            return Err(MmnError::with_detail("lz4 match offset invalid", ""));
        }
        let match_nibble = (token % 16) as usize;
        let cap = if expected_len >= out.len() { expected_len - out.len() } else { 0 };
        assert(cap <= isize::MAX);
        let (match_len, ip5) = if match_nibble == 15 {
            if cap < 15 {
                proof {
                    lemma_length_run_bounds(src@, ip4 as int, 15);
                }
                return Err(MmnError::new("lz4 output exceeds expected length"));
            }
            match read_length_run(src, ip4, 15, cap) {
                Some(pair) => pair,
                None => {
                    proof {
                        lemma_length_run_bounds(src@, ip4 as int, 15);
                    }
                    return Err(MmnError::new("lz4 match length truncated or too long"));
                },
            }
        } else {
            (match_nibble, ip4)
        };
        proof {
            if match_nibble == 15 {
                lemma_length_run_bounds(src@, ip4 as int, 15);
            }
        }
        if out.len() > expected_len || match_len + 4 > expected_len - out.len() {
            return Err(MmnError::new("lz4 output exceeds expected length"));
        }
        push_back_copy(&mut out, offset, match_len + 4);
        proof {
            lemma_back_copy_len(before + src@.subrange(ip2 as int, ip3 as int), offset as int, (match_len + 4) as nat);
        }
        if ip5 == n {
            if out.len() != expected_len {
                return Err(MmnError::new("lz4 output length differs from the expected length"));
            }
            return Ok(out);
        }
        ip = ip5;
    }
}

/// The sub-slice `src[start..end]`.
fn slice_of(src: &[u8], start: usize, end: usize) -> (s: &[u8])
    requires
        start <= end <= src@.len(),
    ensures
        s@ == src@.subrange(start as int, end as int),
{
    &src[start..end]
}

} // verus!
