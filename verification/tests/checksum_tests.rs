use mmn_io::hdf5::adler32;
use mmn_io::tf_checkpoint::{crc32c, masked_crc32c};

#[test]
fn adler32_reference_value() {
    // zlib.adler32(b"Wikipedia") == 0x11E60398.
    assert_eq!(adler32(b"Wikipedia"), 0x11E6_0398);
    assert_eq!(adler32(b""), 1);
}

#[test]
fn crc32c_reference_value() {
    // Standard CRC-32C check value for "123456789".
    assert_eq!(crc32c(b"123456789"), 0xE306_9283);
}

#[test]
fn adler32_long_input_reduces_modulo() {
    // 10000 bytes of 0xFF cross the 5552-byte reduction boundary.
    let data = vec![0xFFu8; 10_000];
    let mut a: u64 = 1;
    let mut b: u64 = 0;
    for &x in &data {
        a = (a + x as u64) % 65521;
        b = (b + a) % 65521;
    }
    assert_eq!(adler32(&data), ((b << 16) | a) as u32);
}

#[test]
fn masked_crc32c_rotates_and_offsets() {
    let c = crc32c(b"123456789");
    assert_eq!(masked_crc32c(b"123456789"), c.rotate_right(15).wrapping_add(0xa282_ead8));
    assert_eq!(crc32c(b""), 0);
}
