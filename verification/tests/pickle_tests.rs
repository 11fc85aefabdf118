use mmn_io::pickle::PickleWriter;
use mmn_io::pickle_vm::{parse_pickle, parse_pickle_prefix, PickleValue};

#[test]
fn writer_reader_roundtrip_dict() {
    let mut w = PickleWriter::new();
    w.empty_dict();
    w.mark();
    w.string("alpha");
    w.integer(7);
    w.string("beta");
    w.bool(true);
    w.set_items();
    let bytes = w.finish();
    let value = parse_pickle(&bytes).unwrap();
    match value {
        PickleValue::Dict(pairs) => {
            assert_eq!(pairs.len(), 2);
            assert_eq!(pairs[0].0.as_str(), Some("alpha"));
            assert_eq!(pairs[0].1.as_int(), Some(7));
            assert_eq!(pairs[1].1, PickleValue::Bool(true));
        }
        other => panic!("expected dict, got {other:?}"),
    }
}

#[test]
fn none_opcode_parses() {
    assert_eq!(parse_pickle(&[0x80, 0x02, b'N', b'.']).unwrap(), PickleValue::PyNone);
}

#[test]
fn reduce_and_persid_shape() {
    let mut w = PickleWriter::new();
    w.global("torch._utils", "_rebuild_tensor_v2");
    w.mark();
    {
        w.mark();
        w.string("storage");
        w.global("torch", "FloatStorage");
        w.string("0");
        w.string("cpu");
        w.integer(4);
        w.tuple_from_mark();
        w.binpersid();
    }
    w.integer(0);
    w.mark();
    w.integer(2);
    w.integer(2);
    w.tuple_from_mark();
    w.mark();
    w.integer(2);
    w.integer(1);
    w.tuple_from_mark();
    w.bool(false);
    w.global("collections", "OrderedDict");
    w.empty_tuple();
    w.reduce();
    w.tuple_from_mark();
    w.reduce();
    let bytes = w.finish();
    let value = parse_pickle(&bytes).unwrap();
    let PickleValue::Reduce(callable, args) = value else {
        panic!("expected reduce");
    };
    assert_eq!(
        *callable,
        PickleValue::Global("torch._utils".into(), "_rebuild_tensor_v2".into())
    );
    let items = args.tuple_items().unwrap();
    let PickleValue::PersId(pid) = &items[0] else {
        panic!("expected persid");
    };
    let pid_items = pid.tuple_items().unwrap();
    assert_eq!(pid_items[0].as_str(), Some("storage"));
    assert_eq!(pid_items[4].as_int(), Some(4));
    assert_eq!(items[2], PickleValue::Tuple(vec![PickleValue::Int(2), PickleValue::Int(2)]));
}

#[test]
fn ordered_dict_setitems_becomes_dict() {
    let mut w = PickleWriter::new();
    w.global("collections", "OrderedDict");
    w.empty_tuple();
    w.reduce();
    w.mark();
    w.string("k");
    w.integer(1);
    w.set_items();
    let value = parse_pickle(&w.finish()).unwrap();
    assert_eq!(value, PickleValue::Dict(vec![(PickleValue::Str("k".into()), PickleValue::Int(1))]));
}

#[test]
fn memo_put_get_roundtrip() {
    let mut bytes: Vec<u8> = vec![0x80, 0x02];
    bytes.push(b'X');
    bytes.extend_from_slice(&1u32.to_le_bytes());
    bytes.push(b'x');
    bytes.extend_from_slice(&[b'q', 0, b'0', b'h', 0, b'.']);
    let value = parse_pickle(&bytes).unwrap();
    assert_eq!(value.as_str(), Some("x"));
}

#[test]
fn protocol4_frame_and_memoize() {
    let mut bytes: Vec<u8> = vec![0x80, 0x04, 0x95];
    bytes.extend_from_slice(&5u64.to_le_bytes());
    bytes.extend_from_slice(&[0x8c, 2, b'h', b'i', 0x94, b'.']);
    let value = parse_pickle(&bytes).unwrap();
    assert_eq!(value.as_str(), Some("hi"));
}

#[test]
fn unknown_opcode_and_truncation_error() {
    assert!(parse_pickle(&[0x80, 0x02, 0xff]).is_err());
    assert!(parse_pickle(&[0x80]).is_err());
    assert!(parse_pickle(&[]).is_err());
}

#[test]
fn long1_sign_extension() {
    let bytes = vec![0x80, 0x02, 0x8a, 1, 0xFF, b'.'];
    assert_eq!(parse_pickle(&bytes).unwrap().as_int(), Some(-1));
}

#[test]
fn writer_integers_read_back() {
    for v in [0i64, 255, 256, -1, 70000, -70000, i64::MAX, i64::MIN, 1 << 40] {
        let mut w = PickleWriter::new();
        w.integer(v);
        let value = parse_pickle(&w.finish()).unwrap();
        assert_eq!(value.as_int(), Some(v));
    }
}

#[test]
fn text_long_and_global_lines() {
    // LONG "-123L\n", STOP
    let mut bytes = vec![0x80, 0x02, b'L'];
    bytes.extend_from_slice(b"-123L\n");
    bytes.push(b'.');
    assert_eq!(parse_pickle(&bytes).unwrap().as_int(), Some(-123));
    let mut w = PickleWriter::new();
    w.global("numpy", "dtype");
    let value = parse_pickle(&w.finish()).unwrap();
    assert_eq!(value, PickleValue::Global("numpy".into(), "dtype".into()));
}

#[test]
fn prefix_reports_consumed_bytes_and_float_bits() {
    // BINFLOAT 1.5 (big-endian), STOP, then trailing data.
    let mut bytes = vec![0x80, 0x02, b'G'];
    bytes.extend_from_slice(&1.5f64.to_be_bytes());
    bytes.push(b'.');
    bytes.extend_from_slice(b"trailing");
    let (value, used) = parse_pickle_prefix(&bytes).unwrap();
    assert_eq!(value, PickleValue::Float(1.5f64.to_bits()));
    assert_eq!(used, 12);
}

#[test]
fn append_and_list_and_odd_setitems() {
    // EMPTY_LIST, K 1, APPEND, MARK, K 2, K 3, APPENDS, STOP
    let bytes = vec![0x80, 0x02, b']', b'K', 1, b'a', b'(', b'K', 2, b'K', 3, b'e', b'.'];
    assert_eq!(
        parse_pickle(&bytes).unwrap(),
        PickleValue::List(vec![PickleValue::Int(1), PickleValue::Int(2), PickleValue::Int(3)])
    );
    // SETITEMS with an odd item count.
    let bad = vec![0x80, 0x02, b'}', b'(', b'K', 1, b'u', b'.'];
    assert!(parse_pickle(&bad).is_err());
    // STOP on an empty stack.
    assert!(parse_pickle(&[b'.']).is_err());
}

#[test]
fn nested_containers_read_back() {
    let mut w = PickleWriter::new();
    w.mark();
    w.integer(-5);
    w.mark();
    w.string("x");
    w.empty_tuple();
    w.list_from_mark();
    w.empty_dict();
    w.mark();
    w.global("torch", "FloatStorage");
    w.integer(1 << 40);
    w.set_items();
    w.tuple_from_mark();
    let bytes = w.finish();
    let value = parse_pickle(&bytes).unwrap();
    let expected = PickleValue::Tuple(vec![
        PickleValue::Int(-5),
        PickleValue::List(vec![PickleValue::Str("x".to_string()), PickleValue::Tuple(vec![])]),
        PickleValue::Dict(vec![(
            PickleValue::Global("torch".to_string(), "FloatStorage".to_string()),
            PickleValue::Int(1 << 40),
        )]),
    ]);
    assert_eq!(value, expected);
}
