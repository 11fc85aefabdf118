//! TensorFlow Lite flatbuffer files: identifier detection.

use vstd::prelude::*;

verus! {

/// True when the buffer carries the `TFL3` flatbuffer identifier at bytes 4..8.
pub fn is_tflite_bytes(bytes: &[u8]) -> (r: bool)
    ensures
        r == (bytes@.len() >= 8 && bytes@[4] == 0x54 && bytes@[5] == 0x46 && bytes@[6] == 0x4c
            && bytes@[7] == 0x33),
{
    bytes.len() >= 8 && bytes[4] == 0x54 && bytes[5] == 0x46 && bytes[6] == 0x4C && bytes[7] == 0x33
}

} // verus!
