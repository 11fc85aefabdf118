use mmn_io::msgpack::{decode, encode, write_value, Reader, Value};

fn roundtrip(v: Value) {
    let bytes = encode(&v);
    assert_eq!(decode(&bytes).unwrap(), v, "roundtrip for {v:?}");
}

#[test]
fn scalars_roundtrip() {
    roundtrip(Value::Nil);
    roundtrip(Value::Bool(true));
    roundtrip(Value::Bool(false));
    roundtrip(Value::UInt(0));
    roundtrip(Value::UInt(127));
    roundtrip(Value::UInt(200));
    roundtrip(Value::UInt(70000));
    roundtrip(Value::UInt(u64::MAX));
    roundtrip(Value::Int(-1));
    roundtrip(Value::Int(-32));
    roundtrip(Value::Int(-100));
    roundtrip(Value::Int(-40000));
    roundtrip(Value::Int(i64::MIN));
    roundtrip(Value::F32(1.5f32.to_bits()));
    roundtrip(Value::F64((-3.25f64).to_bits()));
}

#[test]
fn containers_roundtrip() {
    roundtrip(Value::Str("hello".into()));
    roundtrip(Value::Str("x".repeat(300)));
    roundtrip(Value::Bin(vec![1, 2, 3]));
    roundtrip(Value::Bin(vec![7; 70000]));
    roundtrip(Value::Array(vec![
        Value::UInt(1),
        Value::Str("two".into()),
        Value::Array(vec![Value::Nil]),
    ]));
    roundtrip(Value::Mapping(vec![
        (Value::Str("a".into()), Value::UInt(1)),
        (
            Value::Str("b".into()),
            Value::Mapping(vec![(Value::Str("c".into()), Value::Bool(true))]),
        ),
    ]));
    roundtrip(Value::Array((0..20).map(Value::UInt).collect()));
}

#[test]
fn ext_types_roundtrip() {
    roundtrip(Value::Ext(1, vec![9]));
    roundtrip(Value::Ext(1, vec![1, 2, 3, 4]));
    roundtrip(Value::Ext(1, vec![0; 34]));
    roundtrip(Value::Ext(1, vec![0; 300]));
    roundtrip(Value::Ext(-5, vec![1, 2, 3]));
}

#[test]
fn matches_reference_encodings() {
    assert_eq!(encode(&Value::UInt(1)), vec![0x01]);
    assert_eq!(encode(&Value::Int(-1)), vec![0xFF]);
    assert_eq!(encode(&Value::Str("abc".into())), vec![0xA3, b'a', b'b', b'c']);
    assert_eq!(
        encode(&Value::Mapping(vec![(Value::Str("a".into()), Value::UInt(7))])),
        vec![0x81, 0xA1, b'a', 0x07]
    );
    assert_eq!(
        encode(&Value::Array(vec![Value::UInt(2), Value::UInt(3)])),
        vec![0x92, 0x02, 0x03]
    );
}

#[test]
fn truncated_and_reserved_error() {
    assert!(decode(&[0xA3, b'a']).is_err());
    assert!(decode(&[0xC1]).is_err());
    assert!(decode(&[0x01, 0x02]).is_err());
}

#[test]
fn non_negative_int_comes_back_unsigned() {
    let bytes = encode(&Value::Int(5));
    assert_eq!(bytes, vec![0x05]);
    assert_eq!(decode(&bytes).unwrap(), Value::UInt(5));
}

#[test]
fn integer_widths_are_shortest() {
    assert_eq!(encode(&Value::UInt(200)), vec![0xCC, 200]);
    assert_eq!(encode(&Value::UInt(0x1234)), vec![0xCD, 0x12, 0x34]);
    assert_eq!(encode(&Value::UInt(0x1234_5678)), vec![0xCE, 0x12, 0x34, 0x56, 0x78]);
    assert_eq!(encode(&Value::Int(-33)), vec![0xD0, 0xDF]);
    assert_eq!(encode(&Value::Int(-300)), vec![0xD1, 0xFE, 0xD4]);
    assert_eq!(
        encode(&Value::Int(i64::MIN)),
        vec![0xD3, 0x80, 0, 0, 0, 0, 0, 0, 0]
    );
}

#[test]
fn invalid_utf8_string_errors() {
    assert!(decode(&[0xA2, 0xC3, 0x28]).is_err());
    assert_eq!(decode(&[0xA2, 0xC3, 0xA9]).unwrap(), Value::Str("\u{e9}".into()));
}

#[test]
fn reader_walks_a_stream() {
    let mut bytes = Vec::new();
    write_value(&Value::UInt(1), &mut bytes);
    write_value(&Value::Str("z".into()), &mut bytes);
    let mut reader = Reader::new(&bytes);
    assert!(!reader.done());
    assert_eq!(reader.value().unwrap(), Value::UInt(1));
    assert_eq!(reader.value().unwrap(), Value::Str("z".into()));
    assert!(reader.done());
    assert!(reader.value().is_err());
}

#[test]
fn float_bits_travel_big_endian() {
    assert_eq!(encode(&Value::F32(1.5f32.to_bits())), vec![0xCA, 0x3F, 0xC0, 0, 0]);
    assert_eq!(
        decode(&[0xCB, 0x40, 0x09, 0x21, 0xFB, 0x54, 0x44, 0x2D, 0x18]).unwrap(),
        Value::F64(std::f64::consts::PI.to_bits())
    );
}

#[test]
fn reader_stops_after_one_encoded_value() {
    let v = Value::Array(vec![Value::Int(5), Value::Str("hi".to_string())]);
    let mut bytes = encode(&v);
    let mut r = Reader::new(&bytes);
    assert!(r.value().is_ok());
    assert!(r.done());
    bytes.extend_from_slice(&[0xc0, 0xc3]);
    let mut r = Reader::new(&bytes);
    assert_eq!(r.value().unwrap(), Value::Array(vec![Value::UInt(5), Value::Str("hi".to_string())]));
    assert!(!r.done());
}
