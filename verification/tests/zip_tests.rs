use mmn_io::zip::{crc32, is_zip_bytes, read_zip, read_zip_entry, write_zip_stored, zip_entry_names};

#[test]
fn crc32_matches_reference() {
    // zlib.crc32(b"123456789") == 0xCBF43926 (standard check value).
    assert_eq!(crc32(b"123456789"), 0xCBF4_3926);
    assert_eq!(crc32(b""), 0);
}

#[test]
fn stored_zip_roundtrip() {
    let entries = vec![
        ("hello.txt".to_string(), b"hello world".to_vec()),
        ("dir/data.bin".to_string(), vec![0u8, 1, 2, 250, 255]),
    ];
    let bytes = write_zip_stored(&entries).unwrap();
    assert!(is_zip_bytes(&bytes));
    let names = zip_entry_names(&bytes).unwrap();
    assert_eq!(names, vec!["hello.txt", "dir/data.bin"]);
    let read = read_zip(&bytes).unwrap();
    assert_eq!(read[0].data, b"hello world");
    assert_eq!(read[1].data, vec![0u8, 1, 2, 250, 255]);
    assert_eq!(
        read_zip_entry(&bytes, "dir/data.bin").unwrap(),
        vec![0u8, 1, 2, 250, 255]
    );
}

#[test]
fn missing_entry_errors() {
    let bytes = write_zip_stored(&[("a".to_string(), vec![1])]).unwrap();
    let e = read_zip_entry(&bytes, "b").err().unwrap();
    assert!(e.message().contains("no entry named b"));
}

#[test]
fn corrupt_crc_detected() {
    let mut bytes = write_zip_stored(&[("a.txt".to_string(), b"payload".to_vec())]).unwrap();
    // Local header is 30 bytes + 5-byte name; flip a payload byte.
    bytes[36] ^= 0xFF;
    let e = read_zip(&bytes).err().unwrap();
    assert!(e.message().contains("CRC-32 mismatch"));
}

#[test]
fn truncated_archive_errors() {
    assert!(read_zip(b"PK\x03\x04short").is_err());
    assert!(read_zip(b"").is_err());
}

#[test]
fn is_zip_bytes_detects_magic() {
    assert!(is_zip_bytes(b"PK\x03\x04rest"));
    assert!(is_zip_bytes(b"PK\x05\x06rest"));
    assert!(!is_zip_bytes(b"GGUF"));
    assert!(!is_zip_bytes(b"{"));
}

#[test]
fn zip_names_and_entries_in_order() {
    let entries = vec![
        ("a".to_string(), vec![]),
        ("b/c".to_string(), vec![9u8; 300]),
        ("\u{e9}t\u{e9}".to_string(), b"unicode name".to_vec()),
    ];
    let bytes = write_zip_stored(&entries).unwrap();
    let read = read_zip(&bytes).unwrap();
    assert_eq!(read.len(), 3);
    for (got, (name, data)) in read.iter().zip(entries.iter()) {
        assert_eq!(&got.name, name);
        assert_eq!(&got.data, data);
    }
    assert_eq!(read_zip_entry(&bytes, "\u{e9}t\u{e9}").unwrap(), b"unicode name");
}

#[test]
fn empty_archive_roundtrips() {
    let bytes = write_zip_stored(&[]).unwrap();
    assert_eq!(bytes.len(), 22);
    assert!(is_zip_bytes(&bytes));
    assert!(read_zip(&bytes).unwrap().is_empty());
}

#[test]
fn deflate_entry_is_inflated() {
    // Stored archive, then patch the entry to method 8 with a raw deflate payload.
    let payload = b"abc";
    let deflated = [0x4bu8, 0x4c, 0x4a, 0x06, 0x00];
    let crc = crc32(payload);
    let mut bytes = Vec::new();
    bytes.extend_from_slice(&0x0403_4b50u32.to_le_bytes());
    bytes.extend_from_slice(&[20, 0, 0, 0, 8, 0, 0, 0, 0, 0]);
    bytes.extend_from_slice(&crc.to_le_bytes());
    bytes.extend_from_slice(&(deflated.len() as u32).to_le_bytes());
    bytes.extend_from_slice(&(payload.len() as u32).to_le_bytes());
    bytes.extend_from_slice(&1u16.to_le_bytes());
    bytes.extend_from_slice(&0u16.to_le_bytes());
    bytes.push(b'x');
    bytes.extend_from_slice(&deflated);
    let cd_start = bytes.len() as u32;
    bytes.extend_from_slice(&0x0201_4b50u32.to_le_bytes());
    bytes.extend_from_slice(&[20, 0, 20, 0, 0, 0, 8, 0, 0, 0, 0, 0]);
    bytes.extend_from_slice(&crc.to_le_bytes());
    bytes.extend_from_slice(&(deflated.len() as u32).to_le_bytes());
    bytes.extend_from_slice(&(payload.len() as u32).to_le_bytes());
    bytes.extend_from_slice(&[1, 0, 0, 0, 0, 0, 0, 0, 0, 0, 0, 0, 0, 0]);
    bytes.extend_from_slice(&0u32.to_le_bytes());
    bytes.push(b'x');
    let cd_size = bytes.len() as u32 - cd_start;
    bytes.extend_from_slice(&0x0605_4b50u32.to_le_bytes());
    bytes.extend_from_slice(&[0, 0, 0, 0, 1, 0, 1, 0]);
    bytes.extend_from_slice(&cd_size.to_le_bytes());
    bytes.extend_from_slice(&cd_start.to_le_bytes());
    bytes.extend_from_slice(&[0, 0]);
    assert_eq!(read_zip_entry(&bytes, "x").unwrap(), b"abc");
}
