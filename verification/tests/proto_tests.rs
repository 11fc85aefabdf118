use mmn_io::proto::{packed_varints, read_varint, walk_message, ProtoValue};

#[test]
fn walks_mixed_fields() {
    // field1 varint 150, field2 bytes "hi", field3 fixed32 1.0f
    let mut buf = vec![0x08, 0x96, 0x01, 0x12, 0x02, b'h', b'i', 0x1D];
    buf.extend_from_slice(&1.0f32.to_le_bytes());
    let mut seen = Vec::new();
    for (field, value) in walk_message(&buf).unwrap() {
        match value {
            ProtoValue::Varint(v) => seen.push(format!("{field}:v{v}")),
            ProtoValue::Bytes(b) => seen.push(format!("{field}:b{}", b.len())),
            ProtoValue::Fixed32(v) => seen.push(format!("{field}:f{}", f32::from_bits(v))),
            ProtoValue::Fixed64(_) => seen.push(format!("{field}:x")),
        }
    }
    assert_eq!(seen, vec!["1:v150", "2:b2", "3:f1"]);
}

#[test]
fn packed_varints_decode() {
    // [3, 270]
    let buf = vec![0x03, 0x8E, 0x02];
    assert_eq!(packed_varints(&buf).unwrap(), vec![3, 270]);
}

#[test]
fn truncated_fields_error() {
    assert!(walk_message(&[0x12, 0x05, 0x01]).is_err());
    assert!(walk_message(&[0x08]).is_err());
}

#[test]
fn varint_position_and_limits() {
    let buf = [0xAC, 0x02, 0x05];
    let mut pos = 0usize;
    assert_eq!(read_varint(&buf, &mut pos).unwrap(), 300);
    assert_eq!(pos, 2);
    assert_eq!(read_varint(&buf, &mut pos).unwrap(), 5);
    assert_eq!(pos, 3);
    let mut pos = 0usize;
    assert!(read_varint(&[0xFF; 11], &mut pos).is_err());
    let max = [0xFF, 0xFF, 0xFF, 0xFF, 0xFF, 0xFF, 0xFF, 0xFF, 0xFF, 0x01];
    let mut pos = 0usize;
    assert_eq!(read_varint(&max, &mut pos).unwrap(), u64::MAX);
}

#[test]
fn as_bytes_only_for_length_delimited() {
    let fields = walk_message(&[0x12, 0x01, 0x07, 0x09, 1, 0, 0, 0, 0, 0, 0, 0]).unwrap();
    assert_eq!(fields[0].1.as_bytes(), Some(&[7u8][..]));
    assert!(fields[1].1.as_bytes().is_none());
}
