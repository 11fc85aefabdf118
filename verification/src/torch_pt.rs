//! PyTorch checkpoints: legacy (pre-zip) pickle detection.

use vstd::prelude::*;

verus! {

/// Little-endian bytes of torch's legacy magic number 0x1950a86a20f9469cfc6c.
pub open spec fn legacy_magic_le() -> Seq<u8> {
    seq![0x6cu8, 0xfcu8, 0x9cu8, 0x46u8, 0xf9u8, 0x20u8, 0x6au8, 0xa8u8, 0x50u8, 0x19u8]
}

/// A `LONG1` opcode (0x8a) of length 10 holding the legacy magic at `i`.
pub open spec fn magic_long_at(bytes: Seq<u8>, i: int) -> bool {
    bytes[i] == 0x8a && bytes[i + 1] == 10 && bytes.subrange(i + 2, i + 12) == legacy_magic_le()
}

/// True when `bytes` are a legacy (pre-1.6, non-zip) torch pickle file: a
/// PROTO opcode, then within the first 32 bytes a `LONG1` holding torch's
/// 10-byte magic number (possibly behind a protocol-4 FRAME).
pub fn is_legacy_torch_bytes(bytes: &[u8]) -> (r: bool)
    ensures
        r == (bytes@.len() >= 16 && bytes@[0] == 0x80 && bytes@[1] <= 5
            && exists|i: int| 0 <= i && i + 12 <= bytes@.len() && i + 12 <= 32 && #[trigger] magic_long_at(bytes@, i)),
{
    if bytes.len() < 16 || bytes[0] != 0x80 || bytes[1] > 5 {
        return false;
    }
    let n = bytes.len();
    let window = if n < 32 { n } else { 32 };
    let magic: [u8; 10] = [0x6C, 0xFC, 0x9C, 0x46, 0xF9, 0x20, 0x6A, 0xA8, 0x50, 0x19];
    assert(magic@ == legacy_magic_le());
    let mut i: usize = 0;
    while i + 12 <= window
        invariant
            n == bytes@.len(),
            n >= 16 && bytes@[0] == 0x80 && bytes@[1] <= 5,
            window == if n < 32 { n } else { 32 },
            i <= window,
            magic@ == legacy_magic_le(),
            forall|k: int| 0 <= k < i ==> !#[trigger] magic_long_at(bytes@, k),
        decreases window - i,
    {
        if bytes[i] == 0x8A && bytes[i + 1] == 10 {
            let mut k: usize = 0;
            let mut same = true;
            while k < 10
                invariant
                    n == bytes@.len(),
                    i + 12 <= bytes@.len(),
                    k <= 10,
                    magic@ == legacy_magic_le(),
                    same == forall|m: int| 0 <= m < k ==> bytes@[i + 2 + m] == magic@[m],
                decreases 10 - k,
            {
                if bytes[i + 2 + k] != magic[k] {
                    same = false;
                }
                k = k + 1;
            }
            if same {
                proof {
                    assert(bytes@.subrange(i + 2, i + 12) =~= legacy_magic_le());
                    assert(magic_long_at(bytes@, i as int));
                }
                return true;
            }
            proof {
                if magic_long_at(bytes@, i as int) {
                    assert forall|m: int| 0 <= m < 10 implies bytes@[i + 2 + m] == magic@[m] by {
                        assert(bytes@.subrange(i + 2, i + 12)[m] == bytes@[i + 2 + m]);
                    }
                }
            }
        }
        i = i + 1;
    }
    false
}

} // verus!
