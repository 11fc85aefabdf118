use mmn_io::lz4::lz4_decompress_block;
use mmn_io::snappy::snappy_decompress;

/// Hand-built block: token 0x54 = 5 literals + (4+4)-byte match.
#[test]
fn literals_then_match_decodes() {
    // literals "abcde", match offset 5 len 8 -> repeats "abcde" cycling.
    let mut src = vec![0x54u8];
    src.extend_from_slice(b"abcde");
    src.extend_from_slice(&5u16.to_le_bytes());
    // trailing literal-only sequence: token 0x10, literal "Z".
    src.push(0x10);
    src.push(b'Z');
    let out = lz4_decompress_block(&src, 14).unwrap();
    assert_eq!(&out, b"abcdeabcdeabcZ");
}

#[test]
fn run_length_extension_decodes() {
    // 20 literals: token 0xF0 + extension byte 5.
    let mut src = vec![0xF0u8, 5];
    src.extend_from_slice(&[7u8; 20]);
    let out = lz4_decompress_block(&src, 20).unwrap();
    assert_eq!(out, vec![7u8; 20]);
}

#[test]
fn overlap_copy_repeats() {
    // 1 literal 'x', then match offset 1 len 9 -> "x" * 10.
    let mut src = vec![0x15u8, b'x'];
    src.extend_from_slice(&1u16.to_le_bytes());
    let out = lz4_decompress_block(&src, 10).unwrap();
    assert_eq!(out, vec![b'x'; 10]);
}

#[test]
fn corrupt_blocks_error() {
    assert!(lz4_decompress_block(&[], 1).is_err());
    // Bad offset (0).
    let mut src = vec![0x14u8, b'x'];
    src.extend_from_slice(&0u16.to_le_bytes());
    assert!(lz4_decompress_block(&src, 6).is_err());
    // Wrong expected length.
    assert!(lz4_decompress_block(&[0x10, b'a'], 5).is_err());
}

#[test]
fn lz4_long_match_extension_decodes() {
    // 1 literal, then match offset 1 with length 15 + 255 + 3 + 4 = 277.
    let src = vec![0x1Fu8, b'y', 1, 0, 255, 3];
    let out = lz4_decompress_block(&src, 278).unwrap();
    assert_eq!(out, vec![b'y'; 278]);
    assert!(lz4_decompress_block(&src, 200).is_err());
}

#[test]
fn hand_built_stream_decodes() {
    // len 9, literal "abc", copy len 6 offset 3.
    let src = [9u8, 0x08, b'a', b'b', b'c', 0x16, 0x03, 0x00];
    assert_eq!(snappy_decompress(&src).unwrap(), b"abcabcabc");
}

#[test]
fn snappy_corrupt_streams_error() {
    assert!(snappy_decompress(&[]).is_err());
    assert!(snappy_decompress(&[9, 0x08, b'a']).is_err()); // literals cut
    assert!(snappy_decompress(&[9, 0x16, 0x03, 0x00]).is_err()); // copy first
    let src = [3u8, 0x08, b'a', b'b', b'c']; // declared 3, produces 3? ok
    assert_eq!(snappy_decompress(&src).unwrap(), b"abc");
}

#[test]
fn snappy_long_literal_and_wide_copies() {
    // 70 literal bytes use one extra length byte (tag 60<<2), then a 2-byte-offset copy.
    let mut src = vec![80u8, 60 << 2, 69];
    src.extend_from_slice(&[5u8; 70]);
    src.extend_from_slice(&[(9 << 2) | 2, 70, 0]); // copy len 10, offset 70
    let out = snappy_decompress(&src).unwrap();
    assert_eq!(out, vec![5u8; 80]);
    // 4-byte offset copy.
    let src4 = [4u8, 0x00, b'q', (2 << 2) | 3, 1, 0, 0, 0];
    assert_eq!(snappy_decompress(&src4).unwrap(), b"qqqq");
}
