//! BloscLZ, the FastLZ-family inner codec of Blosc: literal runs and
//! back-references with 3-bit lengths (7 extends by 255-run bytes),
//! 13-bit distances, and a far-distance escape beyond the 8191-byte window.

use vstd::prelude::*;
use crate::error::MmnError;
use crate::bytes::{back_copy, push_back_copy, push_all};

verus! {

/// Length extension bytes from `ip`: each 255 adds 255 and continues, the
/// first other byte adds itself and ends. Gives the length and the position
/// after.
pub open spec fn blz_ext(src: Seq<u8>, ip: int, len: int) -> Option<(int, int)>
    decreases src.len() - ip,
{
    if ip < 0 || ip >= src.len() {
        None
    } else if src[ip] != 255 {
        Some((len + src[ip], ip + 1))
    } else {
        blz_ext(src, ip + 1, len + 255)
    }
}

/// One token with control byte `ctrl`, its operands from `ip`: the output
/// after it and the position after it.
pub open spec fn blz_token(src: Seq<u8>, ip: int, ctrl: int, out: Seq<u8>) -> Option<(Seq<u8>, int)> {
    if ctrl < 32 {
        if ip < 0 || ip + ctrl + 1 > src.len() {
            None
        } else {
            Some((out + src.subrange(ip, ip + ctrl + 1), ip + ctrl + 1))
        }
    } else {
        let l0 = ctrl / 32 - 1;
        let ofs = (ctrl % 32) * 256;
        let ext = if ctrl / 32 == 7 { blz_ext(src, ip, l0) } else { Some((l0, ip)) };
        match ext {
            None => None,
            Some((len1, ip1)) => if ip1 < 0 || ip1 >= src.len() {
                None
            } else {
                let code = src[ip1] as int;
                let far = code == 255 && ofs == 31 * 256;
                if far && ip1 + 3 > src.len() {
                    None
                } else {
                    let dist = if far { src[ip1 + 1] * 256 + src[ip1 + 2] + 8192 } else { ofs + code + 1 };
                    let ip2 = if far { ip1 + 3 } else { ip1 + 1 };
                    if dist > out.len() || out.len() + len1 + 3 > usize::MAX {
                        None
                    } else {
                        Some((back_copy(out, dist, (len1 + 3) as nat), ip2))
                    }
                }
            },
        }
    }
}

/// Tokens from control byte `ctrl` (operands at `ip`) to the end of the
/// stream; the output may never pass `expected` and must end exactly there.
pub open spec fn blz_run(src: Seq<u8>, ip: int, ctrl: int, out: Seq<u8>, expected: int) -> Option<Seq<u8>>
    decreases src.len() - ip,
{
    match blz_token(src, ip, ctrl, out) {
        None => None,
        Some((o2, ip2)) => if o2.len() > expected || ip2 <= ip - 1 || ip2 > src.len() {
            None
        } else if ip2 == src.len() {
            if o2.len() != expected { None } else { Some(o2) }
        } else {
            blz_run(src, ip2 + 1, src[ip2] as int, o2, expected)
        },
    }
}

/// A BloscLZ stream of `expected` bytes: the first byte's low 5 bits open
/// a literal run.
pub open spec fn spec_blosclz(src: Seq<u8>, expected: int) -> Option<Seq<u8>> {
    if src.len() == 0 {
        if expected == 0 { Some(Seq::empty()) } else { None }
    } else {
        blz_run(src, 1, (src[0] % 32) as int, Seq::empty(), expected)
    }
}

proof fn lemma_ext_forward(src: Seq<u8>, ip: int, len: int)
    requires
        len >= 0,
    ensures
        blz_ext(src, ip, len) matches Some((l, p)) ==> ip < p <= src.len() && l >= len && l <= len + 255 * (p - ip),
    decreases src.len() - ip,
{
    if 0 <= ip < src.len() && src[ip] == 255 {
        lemma_ext_forward(src, ip + 1, len + 255);
    }
}

proof fn lemma_token_forward(src: Seq<u8>, ip: int, ctrl: int, out: Seq<u8>)
    requires
        0 <= ctrl < 256,
        0 <= ip,
    ensures
        blz_token(src, ip, ctrl, out) matches Some((o, p)) ==> ip <= p <= src.len(),
{
    if ctrl >= 32 && ctrl / 32 == 7 {
        lemma_ext_forward(src, ip, ctrl / 32 - 1);
    }
}

fn blz_ext_exec(src: &[u8], ip: usize, len: usize) -> (r: Result<(usize, usize), MmnError>)
    requires
        src@.len() <= usize::MAX / 512,
        len <= 255 * ip + 8,
        ip <= src@.len(),
    ensures
        match blz_ext(src@, ip as int, len as int) {
            Some((l, p)) => r matches Ok((a, b)) && a == l && b == p,
            None => r is Err,
        },
{
    let mut i = ip;
    let mut l = len;
    let ghost goal = blz_ext(src@, ip as int, len as int);
    loop
        invariant
            src@.len() <= usize::MAX / 512,
            ip <= i <= src@.len(),
            l <= 255 * i + 8,
            goal == blz_ext(src@, i as int, l as int),
            goal == blz_ext(src@, ip as int, len as int),
        decreases src@.len() - i,
    {
        if i >= src.len() {
            return Err(MmnError::new("blosclz stream truncated"));
        }
        let c = src[i];
        if c != 255 {
            return Ok((l + c as usize, i + 1));
        }
        l = l + 255;
        i = i + 1;
    }
}

fn blz_token_exec(src: &[u8], ip: usize, ctrl: usize, out: &mut Vec<u8>) -> (r: Result<usize, MmnError>)
    requires
        src@.len() <= usize::MAX / 512,
        ip <= src@.len(),
        ctrl < 256,
    ensures
        match blz_token(src@, ip as int, ctrl as int, old(out)@) {
            Some((o, p)) => r matches Ok(q) && q == p && final(out)@ == o,
            None => r is Err,
        },
{
    if ctrl < 32 {
        if ctrl + 1 > src.len() - ip {
            return Err(MmnError::new("blosclz literals truncated"));
        }
        push_all(out, &src[ip..ip + ctrl + 1]);
        return Ok(ip + ctrl + 1);
    }
    let l0 = ctrl / 32 - 1;
    let ofs = (ctrl % 32) * 256;
    let (len1, ip1) = if ctrl / 32 == 7 {
        blz_ext_exec(src, ip, l0)?
    } else {
        (l0, ip)
    };
    proof {
        lemma_ext_forward(src@, ip as int, l0 as int);
    }
    if ip1 >= src.len() {
        return Err(MmnError::new("blosclz stream truncated"));
    }
    let code = src[ip1] as usize;
    let far = code == 255 && ofs == 31 * 256;
    if far && src.len() - ip1 < 3 {
        return Err(MmnError::new("blosclz stream truncated"));
    }
    let dist: usize = if far { src[ip1 + 1] as usize * 256 + src[ip1 + 2] as usize + 8192 } else { ofs + code + 1 };
    let ip2 = if far { ip1 + 3 } else { ip1 + 1 };
    if dist > out.len() || len1 + 3 > usize::MAX - out.len() {
        return Err(MmnError::new("blosclz match distance invalid"));
    }
    push_back_copy(out, dist, len1 + 3);
    Ok(ip2)
}

/// Decompress one BloscLZ stream into exactly `expected_len` bytes.
pub fn blosclz_decompress(src: &[u8], expected_len: usize) -> (r: Result<Vec<u8>, MmnError>)
    requires
        src@.len() <= usize::MAX / 512,
    ensures
        match spec_blosclz(src@, expected_len as int) {
            Some(o) => r matches Ok(v) && v@ == o,
            None => r is Err,
        },
{
    let mut out: Vec<u8> = Vec::new();
    if src.len() == 0 {
        if expected_len == 0 {
            return Ok(out);
        }
        return Err(MmnError::new("blosclz stream empty"));
    }
    let mut ctrl = (src[0] % 32) as usize;
    let mut ip: usize = 1;
    let ghost goal = spec_blosclz(src@, expected_len as int);
    loop
        invariant
            src@.len() <= usize::MAX / 512,
            1 <= ip <= src@.len(),
            ctrl < 256,
            goal == blz_run(src@, ip as int, ctrl as int, out@, expected_len as int),
            goal == spec_blosclz(src@, expected_len as int),
        decreases src@.len() - ip,
    {
        let ghost o0 = out@;
        proof {
            lemma_token_forward(src@, ip as int, ctrl as int, o0);
        }
        let ip2 = blz_token_exec(src, ip, ctrl, &mut out)?;
        if out.len() > expected_len {
            return Err(MmnError::new("blosclz output exceeds expected length"));
        }
        if ip2 == src.len() {
            if out.len() != expected_len {
                return Err(MmnError::new("blosclz output length differs from the expected length"));
            }
            return Ok(out);
        }
        ctrl = src[ip2] as usize;
        ip = ip2 + 1;
    }
}

} // verus!
