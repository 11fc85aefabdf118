use mmn_io::blosc::blosc_decompress;
use mmn_io::blosclz::blosclz_decompress;

/// Stream captured from c-blosc (numcodecs) for
/// `("abcabcabcabc" + "D"*50 + "abcabc") * 40`.
#[test]
fn reference_stream_decodes() {
    let unit: Vec<u8> = [b"abcabcabcabc".as_slice(), &[b'D'; 50], b"abcabc"].concat();
    let expected: Vec<u8> = unit.repeat(40);
    let stream: Vec<u8> = vec![
        44, 97, 98, 99, 97, 98, 99, 97, 98, 99, 97, 98, 99, 68, 224, 39, 0, 3, 68, 97,
        98, 99, 224, 5, 2, 224, 255, 255, 255, 255, 255, 255, 255, 255, 255, 255, 79,
        67, 2, 97, 98, 99,
    ];
    let out = blosclz_decompress(&stream, expected.len()).unwrap();
    assert_eq!(out, expected);
}

/// Long single-byte run exercising the 255-extension loop.
#[test]
fn long_run_decodes() {
    let mut stream = vec![35u8, 81, 81, 81, 81, 224];
    stream.extend(std::iter::repeat_n(255u8, 19));
    stream.push(142);
    stream.push(0);
    let out = blosclz_decompress(&stream, 5000).unwrap();
    assert_eq!(out, vec![b'Q'; 5000]);
}

#[test]
fn corrupt_streams_error() {
    assert!(blosclz_decompress(&[], 4).is_err());
    assert!(blosclz_decompress(&[3, 1, 2], 4).is_err());
    assert!(blosclz_decompress(&[0, 7, 224, 0, 0], 60).is_err());
}

#[test]
fn blosclz_empty_and_length_mismatch() {
    assert_eq!(blosclz_decompress(&[], 0).unwrap(), Vec::<u8>::new());
    // Three literals where two are expected.
    assert!(blosclz_decompress(&[2, 1, 2, 3], 2).is_err());
    // Three literals where four are expected.
    assert!(blosclz_decompress(&[2, 1, 2, 3], 4).is_err());
}

/// A Blosc1 header: version, versionlz, flags, typesize, nbytes, blocksize, cbytes.
fn header(flags: u8, typesize: u8, nbytes: u32, blocksize: u32, cbytes: u32) -> Vec<u8> {
    let mut h = vec![2u8, 1, flags, typesize];
    h.extend_from_slice(&nbytes.to_le_bytes());
    h.extend_from_slice(&blocksize.to_le_bytes());
    h.extend_from_slice(&cbytes.to_le_bytes());
    h
}

#[test]
fn truncated_and_unsupported_frames_error() {
    assert!(blosc_decompress(&[0u8; 8]).is_err());
    // A memcpy frame that claims bit-shuffle.
    let mut frame = header(0x02 | 0x04, 1, 4, 4, 20);
    frame.extend_from_slice(&[1, 2, 3, 4]);
    assert!(blosc_decompress(&frame).is_err());
    // cbytes disagreeing with the frame length.
    let mut frame = header(0x02, 1, 4, 4, 99);
    frame.extend_from_slice(&[1, 2, 3, 4]);
    assert!(blosc_decompress(&frame).is_err());
}

#[test]
fn memcpy_frame_decodes() {
    let mut frame = header(0x02, 4, 8, 8, 24);
    frame.extend_from_slice(&[1, 2, 3, 4, 5, 6, 7, 8]);
    assert_eq!(blosc_decompress(&frame).unwrap(), vec![1, 2, 3, 4, 5, 6, 7, 8]);
}

#[test]
fn raw_stream_block_decodes() {
    // One block at offset 20: a stream of 8 bytes stored raw.
    let mut frame = header(0x00, 1, 8, 8, 32);
    frame.extend_from_slice(&20u32.to_le_bytes());
    frame.extend_from_slice(&8u32.to_le_bytes());
    frame.extend_from_slice(b"abcdefgh");
    assert_eq!(blosc_decompress(&frame).unwrap(), b"abcdefgh");
}

#[test]
fn shuffled_split_streams_decode() {
    // Two byte lanes stored raw, then unshuffled with element size 2.
    let mut frame = header(0x01, 2, 8, 8, 36);
    frame.extend_from_slice(&20u32.to_le_bytes());
    frame.extend_from_slice(&4u32.to_le_bytes());
    frame.extend_from_slice(&[10, 11, 12, 13]);
    frame.extend_from_slice(&4u32.to_le_bytes());
    frame.extend_from_slice(&[20, 21, 22, 23]);
    assert_eq!(blosc_decompress(&frame).unwrap(), vec![10, 20, 11, 21, 12, 22, 13, 23]);
}

#[test]
fn empty_frame_decodes_to_nothing() {
    let frame = header(0x00, 1, 0, 0, 16);
    assert_eq!(blosc_decompress(&frame).unwrap(), Vec::<u8>::new());
}
