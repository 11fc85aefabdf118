use mmn_io::npy::{decode_npy, encode_npy_f32, NpyArray};

const MAGIC: &[u8; 6] = b"\x93NUMPY";

fn bits(values: &[f32]) -> Vec<u32> {
    values.iter().map(|v| v.to_bits()).collect()
}

/// The elements of a decoded array as `f32`, as a caller reading the
/// little-endian element bytes would compute them.
fn values(arr: &NpyArray) -> Vec<f32> {
    let code = &arr.descr[1..];
    let item: usize = code[1..].parse().unwrap();
    arr.data
        .chunks_exact(item)
        .map(|b| match code {
            "f4" => f32::from_le_bytes([b[0], b[1], b[2], b[3]]),
            "f8" => f64::from_le_bytes([b[0], b[1], b[2], b[3], b[4], b[5], b[6], b[7]]) as f32,
            "i8" => i64::from_le_bytes([b[0], b[1], b[2], b[3], b[4], b[5], b[6], b[7]]) as f32,
            "u1" => b[0] as f32,
            other => panic!("dtype {other} not used here"),
        })
        .collect()
}

fn build(descr: &str, payload: &[u8], shape: &str) -> Vec<u8> {
    let dict = format!("{{'descr': '{descr}', 'fortran_order': False, 'shape': {shape}, }}\n");
    let mut v = MAGIC.to_vec();
    v.push(1);
    v.push(0);
    v.extend_from_slice(&(dict.len() as u16).to_le_bytes());
    v.extend_from_slice(dict.as_bytes());
    v.extend_from_slice(payload);
    v
}

#[test]
fn f32_roundtrip() {
    let shape = vec![2, 3];
    let data = vec![1.0f32, -2.5, 3.25, 0.0, 9.5, -7.0];
    let bytes = encode_npy_f32(&shape, &bits(&data)).unwrap();
    assert_eq!(&bytes[..6], MAGIC);
    let arr = decode_npy(&bytes).unwrap();
    assert_eq!(arr.shape, shape);
    assert_eq!(values(&arr), data);
}

#[test]
fn scalar_and_vector_shapes() {
    let scalar = encode_npy_f32(&[], &bits(&[42.0])).unwrap();
    let arr = decode_npy(&scalar).unwrap();
    assert!(arr.shape.is_empty());
    assert_eq!(values(&arr), vec![42.0]);

    let vector = encode_npy_f32(&[3], &bits(&[1.0, 2.0, 3.0])).unwrap();
    let arr = decode_npy(&vector).unwrap();
    assert_eq!(arr.shape, vec![3]);
}

#[test]
fn header_is_64_byte_aligned() {
    let bytes = encode_npy_f32(&[4], &bits(&[0.0; 4])).unwrap();
    let header_len = u16::from_le_bytes([bytes[8], bytes[9]]) as usize;
    assert_eq!((10 + header_len) % 64, 0);
    assert_eq!(bytes[10 + header_len - 1], b'\n');
}

#[test]
fn decodes_f64_and_int_dtypes() {
    let mut payload = Vec::new();
    payload.extend_from_slice(&1.5f64.to_le_bytes());
    payload.extend_from_slice(&(-2.0f64).to_le_bytes());
    let arr = decode_npy(&build("<f8", &payload, "(2,)")).unwrap();
    assert_eq!(values(&arr), vec![1.5, -2.0]);

    let mut ints = Vec::new();
    ints.extend_from_slice(&7i64.to_le_bytes());
    ints.extend_from_slice(&(-3i64).to_le_bytes());
    let arr = decode_npy(&build("<i8", &ints, "(2,)")).unwrap();
    assert_eq!(values(&arr), vec![7.0, -3.0]);

    let arr = decode_npy(&build("|u1", &[0, 128, 255], "(3,)")).unwrap();
    assert_eq!(values(&arr), vec![0.0, 128.0, 255.0]);

    // Big-endian f4 comes back little-endian.
    let mut be = Vec::new();
    be.extend_from_slice(&2.5f32.to_be_bytes());
    let arr = decode_npy(&build(">f4", &be, "(1,)")).unwrap();
    assert_eq!(arr.data, 2.5f32.to_le_bytes().to_vec());
    assert_eq!(f32::from_le_bytes([arr.data[0], arr.data[1], arr.data[2], arr.data[3]]), 2.5);
}

#[test]
fn fortran_order_transposed_back() {
    // 2x3 array [[1,2,3],[4,5,6]] in Fortran order is stored 1,4,2,5,3,6.
    let dict = "{'descr': '<f4', 'fortran_order': True, 'shape': (2, 3), }\n";
    let mut v = MAGIC.to_vec();
    v.push(1);
    v.push(0);
    v.extend_from_slice(&(dict.len() as u16).to_le_bytes());
    v.extend_from_slice(dict.as_bytes());
    for x in [1.0f32, 4.0, 2.0, 5.0, 3.0, 6.0] {
        v.extend_from_slice(&x.to_le_bytes());
    }
    let arr = decode_npy(&v).unwrap();
    assert_eq!(arr.shape, vec![2, 3]);
    assert_eq!(values(&arr), vec![1.0, 2.0, 3.0, 4.0, 5.0, 6.0]);
}

#[test]
fn bad_magic_and_truncation_error() {
    assert!(decode_npy(b"NOTNPY").is_err());
    let good = encode_npy_f32(&[4], &bits(&[1.0; 4])).unwrap();
    assert!(decode_npy(&good[..good.len() - 3]).is_err());
}

#[test]
fn shape_element_count_mismatch_errors() {
    assert!(encode_npy_f32(&[2, 2], &bits(&[1.0])).is_err());
}

#[test]
fn fortran_three_dims_and_header_variants() {
    // Shape (2, 2, 2) stored in Fortran order: C element (i, j, k) sits at
    // i + 2 j + 4 k.
    let dict = "{'descr': '|u1', 'fortran_order':  True , 'shape': ( 2 ,2, +2 ,), }";
    let mut v = MAGIC.to_vec();
    v.push(2);
    v.push(0);
    v.extend_from_slice(&(dict.len() as u32).to_le_bytes());
    v.extend_from_slice(dict.as_bytes());
    let stored: Vec<u8> = (0..8).collect();
    v.extend_from_slice(&stored);
    let arr = decode_npy(&v).unwrap();
    assert_eq!(arr.shape, vec![2, 2, 2]);
    assert_eq!(arr.data, vec![0, 4, 2, 6, 1, 5, 3, 7]);
    assert_eq!(arr.descr, "|u1");
}

#[test]
fn unknown_dtype_errors_only_with_elements() {
    assert!(decode_npy(&build("<c8", &[0; 8], "(1,)")).is_err());
    let empty = decode_npy(&build("<c8", &[], "(0,)")).unwrap();
    assert_eq!(empty.shape, vec![0]);
    assert!(empty.data.is_empty());
    assert!(decode_npy(&build("<f3", &[0; 3], "(1,)")).is_err());
    assert!(decode_npy(&build("=f4", &[0; 4], "(1,)")).is_err());
    assert!(decode_npy(&build("<f4", &[0; 4], "(x,)")).is_err());
}
