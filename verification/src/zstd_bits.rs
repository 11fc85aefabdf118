//! Bit streams of Zstandard (RFC 8878): the forward little-endian stream of
//! FSE table descriptions and the backward streams of entropy-coded data.

use vstd::prelude::*;
use crate::error::MmnError;
use crate::inflate::{bits_lsb, nbits, spec_bit, two_pow, lemma_bit_is_bit};

verus! {

/// Bit `i` of the stream, counted from its start, least significant bit of
/// each byte first; zero before the start.
pub open spec fn back_bit(data: Seq<u8>, i: int) -> nat {
    if i >= 0 { spec_bit(data, i) } else { 0 }
}

/// The `n` bits below bit `rem`, read downward, the first read being the
/// most significant.
pub open spec fn back_value(data: Seq<u8>, rem: int, n: nat) -> nat
    decreases n,
{
    if n == 0 { 0 } else { 2 * back_value(data, rem, (n - 1) as nat) + back_bit(data, rem - n) }
}

/// Where a backward read of `n` bits from `rem` leaves the stream.
pub open spec fn back_rest(rem: int, n: nat) -> int {
    if rem >= n { rem - n } else { 0 }
}

/// Index of the highest set bit of a non-zero byte.
pub open spec fn top_bit(b: u8) -> int {
    if b >= 128 {
        7
    } else if b >= 64 {
        6
    } else if b >= 32 {
        5
    } else if b >= 16 {
        4
    } else if b >= 8 {
        3
    } else if b >= 4 {
        2
    } else if b >= 2 {
        1
    } else {
        0
    }
}

/// The unread bits of a backward stream: everything below the sentinel, the
/// highest set bit of the last byte (`None`: empty, or a last byte of zero).
pub open spec fn back_start(data: Seq<u8>) -> Option<int> {
    if data.len() == 0 || data.last() == 0 {
        None
    } else {
        Some((data.len() - 1) * 8 + top_bit(data.last()))
    }
}

pub(crate) proof fn lemma_two_pow_mono_z(a: nat, b: nat)
    requires
        a <= b,
    ensures
        1 <= two_pow(a) <= two_pow(b),
    decreases b,
{
    if b > 0 {
        if a < b {
            lemma_two_pow_mono_z(a, (b - 1) as nat);
        } else {
            lemma_two_pow_mono_z((b - 1) as nat, (b - 1) as nat);
        }
    }
}

pub(crate) proof fn lemma_two_pow_32()
    ensures
        two_pow(32) == 0x1_0000_0000,
{
    reveal_with_fuel(two_pow, 33);
}

proof fn lemma_back_value_bound(data: Seq<u8>, rem: int, n: nat)
    ensures
        back_value(data, rem, n) < two_pow(n),
    decreases n,
{
    if n > 0 {
        lemma_back_value_bound(data, rem, (n - 1) as nat);
        if rem - n >= 0 {
            lemma_bit_is_bit(data, rem - n);
        }
    }
}

/// Reader of a backward bit stream.
pub(crate) struct BackwardBits<'a> {
    pub(crate) bytes: &'a [u8],
    /// Bits still unread (those below this index).
    pub(crate) remaining: usize,
}

impl<'a> BackwardBits<'a> {
    pub(crate) open spec fn wf(&self) -> bool {
        self.remaining <= 8 * self.bytes@.len()
    }

    /// Start below the sentinel bit of the last byte.
    pub(crate) fn new(bytes: &'a [u8]) -> (r: Result<Self, MmnError>)
        requires
            bytes@.len() <= usize::MAX / 16,
        ensures
            match back_start(bytes@) {
                Some(rem) => r matches Ok(b) && b.wf() && b.bytes@ == bytes@ && b.remaining == rem,
                None => r is Err,
            },
    {
        let n = bytes.len();
        if n == 0 {
            return Err(MmnError::new("zstd bitstream empty"));
        }
        let last = bytes[n - 1];
        if last == 0 {
            return Err(MmnError::new("zstd bitstream has no sentinel bit"));
        }
        let sentinel: usize = if last >= 128 {
            7
        } else if last >= 64 {
            6
        } else if last >= 32 {
            5
        } else if last >= 16 {
            4
        } else if last >= 8 {
            3
        } else if last >= 4 {
            2
        } else if last >= 2 {
            1
        } else {
            0
        };
        Ok(BackwardBits { bytes, remaining: (n - 1) * 8 + sentinel })
    }

    /// Read `n` bits downward, the first read being the most significant;
    /// bits before the start of the stream read as zero.
    pub(crate) fn read(&mut self, n: usize) -> (v: u64)
        requires
            old(self).wf(),
            n <= 32,
        ensures
            final(self).wf(),
            final(self).bytes@ == old(self).bytes@,
            v == back_value(old(self).bytes@, old(self).remaining as int, n as nat),
            final(self).remaining == back_rest(old(self).remaining as int, n as nat),
            v < two_pow(n as nat),
    {
        let ghost rem0 = self.remaining as int;
        let mut value: u64 = 0;
        let mut k: usize = 0;
        while k < n
            invariant
                self.wf(),
                self.bytes@ == old(self).bytes@,
                rem0 == old(self).remaining as int,
                k <= n <= 32,
                self.remaining == back_rest(rem0, k as nat),
                value == back_value(self.bytes@, rem0, k as nat),
            decreases n - k,
        {
            proof {
                lemma_back_value_bound(self.bytes@, rem0, k as nat);
                lemma_two_pow_mono_z(k as nat, 32);
                lemma_two_pow_32();
            }
            let bit: u64 = if self.remaining == 0 {
                0
            } else {
                self.remaining = self.remaining - 1;
                let r = self.remaining;
                let byte = self.bytes[r / 8];
                ((byte >> ((r % 8) as u8)) & 1u8) as u64
            };
            proof {
                if rem0 - k - 1 >= 0 {
                    assert(self.remaining == rem0 - k - 1);
                } else {
                    assert(back_bit(self.bytes@, rem0 - (k + 1)) == 0);
                }
            }
            value = value * 2 + bit;
            k = k + 1;
        }
        proof {
            lemma_back_value_bound(self.bytes@, rem0, n as nat);
        }
        value
    }
}

/// Reader of the forward little-endian bit stream of an FSE description.
pub(crate) struct ForwardBits<'a> {
    pub(crate) bytes: &'a [u8],
    pub(crate) pos: usize,
}

impl<'a> ForwardBits<'a> {
    pub(crate) open spec fn wf(&self) -> bool {
        self.pos <= 8 * self.bytes@.len() && self.bytes@.len() <= usize::MAX / 16
    }

    /// Read `n` bits, the first read being the least significant; reading
    /// past the end is an error.
    pub(crate) fn read(&mut self, n: usize) -> (r: Result<u64, MmnError>)
        requires
            old(self).wf(),
            n <= 32,
        ensures
            final(self).bytes@ == old(self).bytes@,
            old(self).pos + n <= nbits(old(self).bytes@) ==> (r matches Ok(v) && v == bits_lsb(old(self).bytes@, old(self).pos as int, n as nat)
                && final(self).pos == old(self).pos + n && final(self).wf()),
            old(self).pos + n > nbits(old(self).bytes@) ==> r is Err,
            r matches Ok(v) ==> v < two_pow(n as nat),
    {
        let len = self.bytes.len();
        if n > 8 * len - self.pos {
            return Err(MmnError::new("zstd FSE header truncated"));
        }
        let mut value: u64 = 0;
        let mut mult: u64 = 1;
        let mut i: usize = 0;
        let p0 = self.pos;
        while i < n
            invariant
                self.bytes@ == old(self).bytes@,
                len == self.bytes@.len(),
                len <= usize::MAX / 16,
                p0 == old(self).pos,
                p0 + n <= 8 * len,
                i <= n <= 32,
                mult == two_pow(i as nat),
                value == bits_lsb(self.bytes@, p0 as int, i as nat),
                value < mult,
            decreases n - i,
        {
            let bp = p0 + i;
            let byte = self.bytes[bp / 8];
            let bit = ((byte >> ((bp % 8) as u8)) & 1u8) as u64;
            proof {
                assert(bit == spec_bit(self.bytes@, bp as int));
                lemma_bit_is_bit(self.bytes@, bp as int);
                lemma_two_pow_mono_z(i as nat + 1, 32);
                lemma_two_pow_32();
                assert(two_pow(i as nat + 1) == 2 * two_pow(i as nat));
            }
            if bit == 1 {
                value = value + mult;
            }
            proof {
                if bit == 0 {
                    assert(spec_bit(self.bytes@, bp as int) * two_pow(i as nat) == 0);
                }
            }
            mult = mult * 2;
            i = i + 1;
        }
        self.pos = p0 + n;
        Ok(value)
    }
}

} // verus!
