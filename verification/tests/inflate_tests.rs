use mmn_io::inflate::inflate;
use mmn_io::zip::crc32;

#[test]
fn stored_block_roundtrip() {
    // Hand-built stored block: final=1, type=00, then LEN/NLEN + payload.
    let payload = b"magicmindnet";
    let mut stream = vec![0x01]; // BFINAL=1, BTYPE=00 (bits fill the rest of the byte)
    stream.extend_from_slice(&(payload.len() as u16).to_le_bytes());
    stream.extend_from_slice(&(!(payload.len() as u16)).to_le_bytes());
    stream.extend_from_slice(payload);
    assert_eq!(inflate(&stream).unwrap(), payload);
}

#[test]
fn fixed_huffman_literals() {
    // `zlib.compressobj(1, wbits=-15)` output for b"abc" uses a fixed block.
    // 0x4b 0x4c 0x4a 0x06 0x00 == fixed-huffman "abc".
    let stream = [0x4b, 0x4c, 0x4a, 0x06, 0x00];
    assert_eq!(inflate(&stream).unwrap(), b"abc");
}

#[test]
fn back_reference_repeats() {
    // zlib raw-deflate stream for b"aaaaaaaaaa" (literal 'a' + back-reference).
    let stream = [75, 76, 132, 1, 0];
    assert_eq!(inflate(&stream).unwrap(), b"a".repeat(10));
}

#[test]
fn dynamic_huffman_block_decodes() {
    // zlib level-9 raw-deflate of a 1200-byte pseudo-random text repeated
    // three times; first byte confirms BTYPE=2 (dynamic Huffman).
    let stream: [u8; 302] = [
        237, 209, 9, 177, 228, 32, 0, 0, 81, 43, 40, 160, 194, 13, 114, 194, 112, 19, 32, 23,
        33, 131, 250, 253, 6, 214, 193, 180, 130, 174, 122, 61, 77, 99, 133, 127, 161, 97,
        245, 227, 22, 96, 119, 39, 23, 163, 66, 131, 70, 193, 105, 218, 71, 198, 11, 36, 17,
        212, 45, 55, 15, 85, 121, 189, 180, 202, 84, 42, 150, 142, 33, 126, 239, 125, 219,
        157, 186, 57, 125, 208, 101, 3, 3, 249, 73, 20, 124, 172, 84, 253, 25, 20, 98, 235,
        78, 98, 205, 173, 208, 245, 29, 26, 143, 28, 168, 169, 87, 220, 231, 164, 46, 163, 41,
        207, 184, 200, 19, 140, 111, 75, 110, 75, 173, 173, 20, 110, 199, 181, 38, 32, 94,
        213, 35, 51, 88, 206, 191, 60, 153, 166, 216, 138, 114, 120, 140, 95, 85, 250, 155,
        213, 182, 126, 211, 49, 94, 18, 2, 197, 132, 220, 46, 249, 231, 32, 153, 235, 202,
        223, 36, 52, 191, 221, 193, 223, 60, 154, 16, 236, 105, 101, 159, 173, 112, 58, 180,
        62, 201, 81, 6, 26, 175, 107, 190, 145, 242, 84, 178, 146, 225, 194, 183, 144, 109,
        121, 220, 196, 211, 229, 28, 117, 130, 56, 145, 145, 164, 140, 122, 245, 60, 46, 165,
        234, 163, 94, 108, 135, 253, 16, 32, 154, 129, 33, 7, 44, 138, 196, 153, 70, 219, 154,
        182, 68, 130, 52, 157, 115, 73, 188, 52, 123, 57, 63, 158, 33, 169, 45, 234, 140, 149,
        19, 49, 65, 216, 206, 15, 89, 80, 4, 97, 162, 110, 247, 197, 214, 59, 164, 55, 29, 17,
        55, 63, 105, 110, 121, 97, 243, 1, 101, 116, 247, 234, 71, 246, 159, 199, 207, 227,
        231, 241, 95, 143, 127,
    ];
    assert_eq!((stream[0] >> 1) & 3, 2, "vector must be a dynamic block");
    let out = inflate(&stream).unwrap();
    assert_eq!(out.len(), 1200);
    assert_eq!(&out[..400], &out[400..800]);
    assert_eq!(&out[..16], b"ujzde7gx.d5ncf0 ");
    assert_eq!(crc32(&out), 0xe10f_8ee9);
}

#[test]
fn truncated_stream_errors() {
    assert!(inflate(&[0x01, 0x05]).is_err());
    assert!(inflate(&[]).is_err());
}

#[test]
fn invalid_block_type_errors() {
    // BFINAL=1, BTYPE=11 (invalid).
    assert!(inflate(&[0x07]).is_err());
}

#[test]
fn stored_block_len_nlen_mismatch_errors() {
    assert!(inflate(&[0x01, 0x02, 0x00, 0x00, 0x00, b'a', b'b']).is_err());
}

#[test]
fn multiple_blocks_concatenate() {
    // Non-final stored "ab", then final stored "c".
    let stream = [0x00, 2, 0, 0xFD, 0xFF, b'a', b'b', 0x01, 1, 0, 0xFE, 0xFF, b'c'];
    assert_eq!(inflate(&stream).unwrap(), b"abc");
}

#[test]
fn back_reference_before_start_errors() {
    // Fixed block whose first symbol is a length code (257 = 0000001, 7 bits)
    // followed by distance code 0: nothing to copy from yet.
    // bits: BFINAL=1, BTYPE=01, then code 0000001 (MSB first), dist 00000.
    assert!(inflate(&[0x03, 0x02, 0x00]).is_err());
}
