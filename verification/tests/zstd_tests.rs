use mmn_io::zstd::zstd_decompress;
use mmn_io::zstd_huff::huffman_from_weights;
use mmn_io::zstd_fse::{build_fse_table, parse_fse_description};

const MAGIC: [u8; 4] = [0x28, 0xB5, 0x2F, 0xFD];

/// A single-segment frame header (one content-size byte) followed by blocks.
fn frame(content_size: u8, blocks: &[u8]) -> Vec<u8> {
    let mut f = MAGIC.to_vec();
    f.push(0x20);
    f.push(content_size);
    f.extend_from_slice(blocks);
    f
}

fn block_header(last: bool, block_type: u32, size: u32) -> [u8; 3] {
    let word = (last as u32) | (block_type << 1) | (size << 3);
    [word as u8, (word >> 8) as u8, (word >> 16) as u8]
}

#[test]
fn corrupt_frames_error() {
    assert!(zstd_decompress(b"nope").is_err());
    assert!(zstd_decompress(&[0x28, 0xB5, 0x2F, 0xFD]).is_err());
    // A raw block that promises more bytes than the frame holds.
    let mut blocks = block_header(true, 0, 10).to_vec();
    blocks.extend_from_slice(b"short");
    assert!(zstd_decompress(&frame(10, &blocks)).is_err());
}

#[test]
fn raw_block_frame_decodes() {
    let mut blocks = block_header(true, 0, 5).to_vec();
    blocks.extend_from_slice(b"hello");
    assert_eq!(zstd_decompress(&frame(5, &blocks)).unwrap(), b"hello");
}

#[test]
fn rle_and_raw_blocks_concatenate() {
    let mut blocks = block_header(false, 0, 3).to_vec();
    blocks.extend_from_slice(b"xyz");
    blocks.extend_from_slice(&block_header(true, 1, 4));
    blocks.push(b'a');
    assert_eq!(zstd_decompress(&frame(7, &blocks)).unwrap(), b"xyzaaaa");
}

#[test]
fn empty_input_is_empty_output() {
    assert_eq!(zstd_decompress(&[]).unwrap(), Vec::<u8>::new());
}

#[test]
fn skippable_frame_and_checksum_are_passed_over() {
    let mut bytes = vec![0x50, 0x2A, 0x4D, 0x18, 3, 0, 0, 0, 9, 9, 9];
    // Frame with the checksum flag: four trailing bytes after the blocks.
    bytes.extend_from_slice(&MAGIC);
    bytes.push(0x24);
    bytes.push(2);
    bytes.extend_from_slice(&block_header(true, 0, 2));
    bytes.extend_from_slice(b"ok");
    bytes.extend_from_slice(&[1, 2, 3, 4]);
    assert_eq!(zstd_decompress(&bytes).unwrap(), b"ok");
}

#[test]
fn reserved_bit_dictionary_and_block_type_error() {
    let mut blocks = block_header(true, 0, 1).to_vec();
    blocks.push(b'q');
    let mut reserved = frame(1, &blocks);
    reserved[4] |= 0x08;
    assert!(zstd_decompress(&reserved).is_err());
    let mut dict = frame(1, &blocks);
    dict[4] |= 0x01;
    assert!(zstd_decompress(&dict).is_err());
    let mut bad_type = block_header(true, 3, 0).to_vec();
    bad_type.push(0);
    assert!(zstd_decompress(&frame(0, &bad_type)).is_err());
}

#[test]
fn compressed_block_with_raw_literals_only() {
    // Literals header: raw, 3 bytes; then zero sequences.
    let body = [0x18, b'a', b'b', b'c', 0x00];
    let mut blocks = block_header(true, 2, body.len() as u32).to_vec();
    blocks.extend_from_slice(&body);
    assert_eq!(zstd_decompress(&frame(3, &blocks)).unwrap(), b"abc");
}

#[test]
fn compressed_block_with_one_sequence_copies_a_match() {
    // Raw literals "abcd", one sequence with predefined tables
    // (literal length 4, offset 4, match length 4).
    let body = [0x20, b'a', b'b', b'c', b'd', 0x01, 0x00, 0x07, 0x8e, 0x08];
    let mut blocks = block_header(true, 2, body.len() as u32).to_vec();
    blocks.extend_from_slice(&body);
    assert_eq!(zstd_decompress(&frame(8, &blocks)).unwrap(), b"abcdabcd");
}

#[test]
fn compressed_block_with_huffman_literals() {
    // Direct weights: symbol 'a' weight 1, 'b' implied weight 1, one stream
    // of four 1-bit codes reading a, b, b, a.
    let mut payload = vec![127 + 98];
    let mut packed = vec![0u8; 49];
    packed[48] = 0x01;
    payload.extend_from_slice(&packed);
    payload.push(0x16);
    let comp = payload.len();
    let mut body = vec![0x42, ((comp & 3) << 6) as u8, (comp >> 2) as u8];
    body.extend_from_slice(&payload);
    body.push(0x00);
    let mut blocks = block_header(true, 2, body.len() as u32).to_vec();
    blocks.extend_from_slice(&body);
    assert_eq!(zstd_decompress(&frame(4, &blocks)).unwrap(), b"abba");
}

#[test]
fn treeless_literals_without_tree_error() {
    let body = [0x03, 0x00, 0x00, 0x00];
    let mut blocks = block_header(true, 2, body.len() as u32).to_vec();
    blocks.extend_from_slice(&body);
    assert!(zstd_decompress(&frame(0, &blocks)).is_err());
}

#[test]
fn huffman_weights_build_canonical_table() {
    // Weights 2 and 1 sum to 3; the last symbol gets weight 1 (sum 4).
    let t = huffman_from_weights(&[2, 1]).unwrap();
    assert_eq!(t.table_log, 2);
    assert_eq!(t.entries, vec![(1, 2), (2, 2), (0, 1), (0, 1)]);
    assert!(huffman_from_weights(&[0, 0]).is_err());
    assert!(huffman_from_weights(&[13]).is_err());
}

#[test]
fn fse_table_from_counts() {
    // Two symbols, two slots each, accuracy 2.
    let t = build_fse_table(&[2, 2], 2).unwrap();
    assert_eq!(t.accuracy_log, 2);
    assert_eq!(t.entries.len(), 4);
    let symbols: Vec<u16> = t.entries.iter().map(|e| e.symbol).collect();
    assert_eq!(symbols, vec![0, 0, 1, 1]);
    assert!(t.entries.iter().all(|e| e.nb_bits == 1));
    // Counts that do not fill the table fail the spread.
    assert!(build_fse_table(&[1, 1], 2).is_err());
}

#[test]
fn fse_description_limit_and_truncation() {
    // Accuracy nibble 15 -> log 20 exceeds the limit.
    assert!(parse_fse_description(&[0x0F], 9, 255).is_err());
    assert!(parse_fse_description(&[], 9, 255).is_err());
}
