//! Sign tables of the codebook-grid (IQ) quantization family.

use vstd::prelude::*;

verus! {

/// Number of set bits among the low `n` bits of `x`.
pub open spec fn low_bit_count(x: nat, n: nat) -> nat
    decreases n,
{
    if n == 0 { 0 } else { low_bit_count(x / 2, (n - 1) as nat) + x % 2 }
}

/// Entry `i` of the IQ2/IQ3 sign table: the seven sign bits of `i`, with bit 7
/// set when an odd number of them are set (even overall parity).
pub open spec fn spec_ksigns(i: nat) -> nat {
    i + 128 * (low_bit_count(i, 7) % 2)
}

/// Entry `i` (`i < 128`) of the sign table.
pub fn ksigns(i: usize) -> (s: u8)
    requires
        i < 128,
    ensures
        s as nat == spec_ksigns(i as nat),
{
    let mut x: usize = i;
    let mut count: usize = 0;
    let mut k: usize = 0;
    while k < 7
        invariant
            k <= 7,
            count <= k,
            x <= i,
            low_bit_count(i as nat, 7) == count + low_bit_count(x as nat, (7 - k) as nat),
        decreases 7 - k,
    {
        count = count + x % 2;
        x = x / 2;
        k = k + 1;
    }
    if count % 2 == 1 {
        (i + 128) as u8
    } else {
        i as u8
    }
}

} // verus!
