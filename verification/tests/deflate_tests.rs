use mmn_io::deflate::deflate;
use mmn_io::inflate::inflate;

#[test]
fn roundtrip_through_own_inflate() {
    for data in [
        b"".to_vec(),
        b"a".to_vec(),
        b"hello hello hello hello hello".to_vec(),
        (0..2000).map(|i| (i * 7 % 256) as u8).collect(),
        vec![0u8; 100_000],
        b"the quick brown fox jumps over the lazy dog. ".repeat(100).to_vec(),
    ] {
        let packed = deflate(&data);
        let back = inflate(&packed).unwrap();
        assert_eq!(back, data, "len {}", data.len());
    }
}

#[test]
fn repetitive_data_compresses_well() {
    let data = b"abcdefgh".repeat(1000);
    let packed = deflate(&data);
    assert!(
        packed.len() < data.len() / 10,
        "8000 bytes -> {} bytes",
        packed.len()
    );
}

#[test]
fn random_like_data_still_roundtrips() {
    let mut state = 12345u64;
    let data: Vec<u8> = (0..50_000)
        .map(|_| {
            state = state.wrapping_mul(6364136223846793005).wrapping_add(1442695040888963407);
            (state >> 33) as u8
        })
        .collect();
    let packed = deflate(&data);
    assert_eq!(inflate(&packed).unwrap(), data);
}

#[test]
fn long_matches_cap_at_258() {
    let data = vec![7u8; 1000];
    let packed = deflate(&data);
    assert_eq!(inflate(&packed).unwrap(), data);
    assert!(packed.len() < 40);
}

#[test]
fn empty_input_is_header_and_end_of_block() {
    // BFINAL=1, BTYPE=01, then the 7-bit end-of-block code 0000000.
    assert_eq!(deflate(b""), vec![0x03, 0x00]);
}

#[test]
fn single_literal_uses_fixed_code() {
    // 'a' = 0x61 codes as 0x30 + 0x61 = 0x91 in 8 bits, MSB first.
    let packed = deflate(b"a");
    assert_eq!(packed, vec![0x4B, 0x04, 0x00]);
    assert_eq!(inflate(&packed).unwrap(), b"a".to_vec());
}
