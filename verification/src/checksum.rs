//! Table-driven reflected CRC-32 engine shared by the ZIP (IEEE) and
//! TensorFlow (Castagnoli) checksums, specified bit by bit.

use vstd::prelude::*;

verus! {

/// One bit of a reflected CRC shift register with polynomial `poly`.
pub open spec fn crc_bit_step(poly: u32, c: u32) -> u32 {
    if c & 1 != 0 { poly ^ (c >> 1) } else { c >> 1 }
}

/// Eight register steps: the effect of one input byte already xored in.
pub open spec fn crc_eight_steps(poly: u32, c: u32) -> u32 {
    crc_bit_step(poly, crc_bit_step(poly, crc_bit_step(poly, crc_bit_step(poly,
        crc_bit_step(poly, crc_bit_step(poly, crc_bit_step(poly, crc_bit_step(poly, c))))))))
}

/// `n` register steps.
pub open spec fn crc_steps(poly: u32, c: u32, n: nat) -> u32
    decreases n,
{
    if n == 0 { c } else { crc_steps(poly, crc_bit_step(poly, c), (n - 1) as nat) }
}

/// Register after absorbing one byte.
pub open spec fn crc_absorb(poly: u32, c: u32, b: u8) -> u32 {
    crc_eight_steps(poly, c ^ (b as u32))
}

/// Register after absorbing every byte of `data`, starting from all ones.
pub open spec fn crc_register(poly: u32, data: Seq<u8>) -> u32
    decreases data.len(),
{
    if data.len() == 0 {
        0xFFFF_FFFFu32
    } else {
        crc_absorb(poly, crc_register(poly, data.drop_last()), data.last())
    }
}

/// The reflected CRC-32 of `data` for polynomial `poly` (final xor with all ones).
pub open spec fn spec_crc(poly: u32, data: Seq<u8>) -> u32 {
    crc_register(poly, data) ^ 0xFFFF_FFFFu32
}

proof fn lemma_steps_eight(poly: u32, c: u32)
    ensures
        crc_steps(poly, c, 8) == crc_eight_steps(poly, c),
{
    reveal_with_fuel(crc_steps, 9);
}

/// The table lookup identity: eight steps of `x` split into its low byte and the rest.
proof fn lemma_eight_steps_split(poly: u32, x: u32)
    ensures
        crc_eight_steps(poly, x) == crc_eight_steps(poly, x & 0xFF) ^ (x >> 8),
{
    let lo = x & 0xFF;
    let hi = x & 0xFFFF_FF00u32;
    assert(x == lo ^ hi && hi & (0xFFu32 >> 0u32) == 0 && hi >> 8 == x >> 8) by (bit_vector)
        requires
            lo == x & 0xFF,
            hi == x & 0xFFFF_FF00u32,
    ;
    lemma_steps_split(poly, lo, hi, 8);
    lemma_steps_eight(poly, x);
    lemma_steps_eight(poly, lo);
}

/// Steps over `a ^ b`, where `b` has its low `n` bits clear, shift `b` out unchanged.
proof fn lemma_steps_split(poly: u32, a: u32, b: u32, n: u32)
    requires
        n <= 8,
        b & (0xFFu32 >> ((8 - n) as u32)) == 0,
    ensures
        crc_steps(poly, a ^ b, n as nat) == crc_steps(poly, a, n as nat) ^ (b >> n),
    decreases n,
{
    if n == 0 {
        assert(b >> 0u32 == b) by (bit_vector);
        assert(a ^ b == a ^ b);
    } else {
        lemma_step_linear(poly, a, b);
        assert(crc_bit_step(poly, b) == b >> 1 && (b >> 1) & (0xFFu32 >> ((8 - (n - 1)) as u32)) == 0
            && (b >> 1) >> ((n - 1) as u32) == b >> n) by (bit_vector)
            requires
                0 < n <= 8,
                b & (0xFFu32 >> ((8 - n) as u32)) == 0,
        ;
        lemma_steps_split(poly, crc_bit_step(poly, a), b >> 1, (n - 1) as u32);
    }
}

/// Each register step is linear over xor.
proof fn lemma_step_linear(poly: u32, a: u32, b: u32)
    ensures
        crc_bit_step(poly, a ^ b) == crc_bit_step(poly, a) ^ crc_bit_step(poly, b),
{
    assert(crc_bit_step(poly, a ^ b) == crc_bit_step(poly, a) ^ crc_bit_step(poly, b)) by (bit_vector);
}

/// The 256-entry lookup table for `poly`.
pub fn crc_table(poly: u32) -> (table: Vec<u32>)
    ensures
        table@.len() == 256,
        forall|i: int| 0 <= i < 256 ==> #[trigger] table@[i] == crc_eight_steps(poly, i as u32),
{
    let mut table: Vec<u32> = Vec::with_capacity(256);
    let mut i: u32 = 0;
    while i < 256
        invariant
            i <= 256,
            table@.len() == i,
            forall|j: int| 0 <= j < i ==> #[trigger] table@[j] == crc_eight_steps(poly, j as u32),
        decreases 256 - i,
    {
        let mut c: u32 = i;
        let mut k: u32 = 0;
        while k < 8
            invariant
                k <= 8,
                crc_steps(poly, i, 8) == crc_steps(poly, c, (8 - k) as nat),
            decreases 8 - k,
        {
            c = if c & 1 != 0 { poly ^ (c >> 1) } else { c >> 1 };
            k = k + 1;
        }
        proof {
            lemma_steps_eight(poly, i);
        }
        table.push(c);
        i = i + 1;
    }
    table
}

/// Reflected table-driven CRC-32 of `data` with polynomial `poly`.
pub fn crc_with_poly(poly: u32, data: &[u8]) -> (crc: u32)
    ensures
        crc == spec_crc(poly, data@),
{
    let table = crc_table(poly);
    let mut crc: u32 = 0xFFFF_FFFF;
    let mut i: usize = 0;
    while i < data.len()
        invariant
            i <= data@.len(),
            table@.len() == 256,
            forall|j: int| 0 <= j < 256 ==> #[trigger] table@[j] == crc_eight_steps(poly, j as u32),
            crc == crc_register(poly, data@.take(i as int)),
        decreases data@.len() - i,
    {
        let byte = data[i];
        let idx: u32 = (crc ^ (byte as u32)) & 0xFF;
        proof {
            let x = crc ^ (byte as u32);
            lemma_eight_steps_split(poly, x);
            assert(x >> 8 == crc >> 8) by (bit_vector)
                requires
                    x == crc ^ (byte as u32),
                    byte < 256,
            ;
            assert(idx < 256) by (bit_vector)
                requires
                    idx == (crc ^ (byte as u32)) & 0xFF,
            ;
            assert(data@.take(i + 1).drop_last() =~= data@.take(i as int));
        }
        crc = table[idx as usize] ^ (crc >> 8);
        i = i + 1;
    }
    proof {
        assert(data@.take(data@.len() as int) =~= data@);
    }
    crc ^ 0xFFFF_FFFF
}

} // verus!
