use mmn_io::npz::{read_npz_arrays_bytes, write_npz_arrays_bytes};
use mmn_io::zip::write_zip_stored;

fn f32s(arr: &mmn_io::npy::NpyArray) -> Vec<f32> {
    arr.data.chunks_exact(4).map(|b| f32::from_le_bytes([b[0], b[1], b[2], b[3]])).collect()
}

#[test]
fn generic_array_roundtrip() {
    let arrays = vec![
        ("a".to_string(), vec![2, 2], [1.0f32, 2.0, 3.0, 4.0].iter().map(|v| v.to_bits()).collect::<Vec<u32>>()),
        ("b/c".to_string(), vec![3], [-1.0f32, 0.0, 1.0].iter().map(|v| v.to_bits()).collect::<Vec<u32>>()),
    ];
    let bytes = write_npz_arrays_bytes(&arrays).unwrap();
    let back = read_npz_arrays_bytes(&bytes).unwrap();
    assert_eq!(back.len(), 2);
    assert_eq!(back[0].0, "a");
    assert_eq!(back[0].1.shape, vec![2, 2]);
    assert_eq!(f32s(&back[1].1), vec![-1.0, 0.0, 1.0]);
}

#[test]
fn npz_reader_passes_over_other_entries() {
    let bytes = write_zip_stored(&[("readme.txt".to_string(), b"hi".to_vec())]).unwrap();
    assert!(read_npz_arrays_bytes(&bytes).unwrap().is_empty());
    let bad = write_zip_stored(&[("x.npy".to_string(), b"not npy".to_vec())]).unwrap();
    assert!(read_npz_arrays_bytes(&bad).is_err());
    assert!(read_npz_arrays_bytes(b"not a zip").is_err());
}

#[test]
fn npz_writer_refuses_mismatched_shape() {
    let arrays = vec![("a".to_string(), vec![2, 2], vec![0u32; 3])];
    assert!(write_npz_arrays_bytes(&arrays).is_err());
}

#[test]
fn npz_round_trip_keeps_bits_and_order() {
    let arrays = vec![
        ("z".to_string(), vec![], vec![f32::NAN.to_bits()]),
        ("m/w".to_string(), vec![1, 3], vec![0x8000_0000u32, 1, 0x7f80_0000]),
    ];
    let bytes = write_npz_arrays_bytes(&arrays).unwrap();
    let back = read_npz_arrays_bytes(&bytes).unwrap();
    assert_eq!(back.len(), 2);
    for (i, (name, shape, bits)) in arrays.iter().enumerate() {
        assert_eq!(&back[i].0, name);
        assert_eq!(back[i].1.descr, "<f4");
        assert_eq!(&back[i].1.shape, shape);
        let le: Vec<u8> = bits.iter().flat_map(|b| b.to_le_bytes()).collect();
        assert_eq!(back[i].1.data, le);
    }
}
