use mmn_io::hdf5_read::{read_h5_arrays_bytes, H5Dataset};
use mmn_io::hdf5_write::write_h5_arrays_bytes;

fn arr(name: &str, shape: Vec<usize>, values: &[f32]) -> (String, Vec<usize>, Vec<u32>) {
    (name.to_string(), shape, values.iter().map(|v| v.to_bits()).collect())
}

fn floats(d: &H5Dataset) -> Vec<f32> {
    d.data.chunks_exact(4).map(|c| f32::from_le_bytes([c[0], c[1], c[2], c[3]])).collect()
}

#[test]
fn writer_reader_roundtrip_flat_and_nested() {
    let arrays = vec![
        arr("weights", vec![2, 3], &[1.0, 2.0, 3.0, 4.0, 5.0, 6.0]),
        arr("layer1/kernel", vec![2, 2], &[7.0, 8.0, 9.0, 10.0]),
        arr("layer1/bias", vec![2], &[-1.0, 1.0]),
    ];
    let bytes = write_h5_arrays_bytes(&arrays).unwrap();
    let back = read_h5_arrays_bytes(&bytes).unwrap();
    let mut names: Vec<&str> = back.iter().map(|d| d.name.as_str()).collect();
    names.sort();
    assert_eq!(names, vec!["layer1/bias", "layer1/kernel", "weights"]);
    let w = back.iter().find(|d| d.name == "weights").unwrap();
    assert_eq!(w.dims, vec![2, 3]);
    assert_eq!(floats(w), vec![1.0, 2.0, 3.0, 4.0, 5.0, 6.0]);
    let b = back.iter().find(|d| d.name == "layer1/bias").unwrap();
    assert_eq!(floats(b), vec![-1.0, 1.0]);
}

#[test]
fn many_children_use_multiple_snods() {
    let arrays: Vec<(String, Vec<usize>, Vec<u32>)> =
        (0..20).map(|i| arr(&format!("t{i:02}"), vec![2], &[i as f32, -(i as f32)])).collect();
    let bytes = write_h5_arrays_bytes(&arrays).unwrap();
    let back = read_h5_arrays_bytes(&bytes).unwrap();
    assert_eq!(back.len(), 20);
    let t13 = back.iter().find(|d| d.name == "t13").unwrap();
    assert_eq!(floats(t13), vec![13.0, -13.0]);
}

#[test]
fn invalid_inputs_error() {
    assert!(write_h5_arrays_bytes(&[]).is_err());
    let bad = vec![arr("x", vec![3], &[1.0])];
    assert!(write_h5_arrays_bytes(&bad).is_err());
    let clash = vec![arr("a/b", vec![1], &[1.0]), arr("a", vec![1], &[1.0])];
    assert!(write_h5_arrays_bytes(&clash).is_err());
}

#[test]
fn nesting_under_a_dataset_and_empty_names_error() {
    let nest = vec![arr("a", vec![1], &[1.0]), arr("a/b", vec![1], &[1.0])];
    assert!(write_h5_arrays_bytes(&nest).is_err());
    assert!(write_h5_arrays_bytes(&[arr("//", vec![1], &[1.0])]).is_err());
}

#[test]
fn too_many_children_error() {
    let arrays: Vec<(String, Vec<usize>, Vec<u32>)> =
        (0..257).map(|i| arr(&format!("t{i:03}"), vec![1], &[0.0])).collect();
    assert!(write_h5_arrays_bytes(&arrays).is_err());
}

#[test]
fn superblock_records_end_of_file() {
    let bytes = write_h5_arrays_bytes(&[arr("w", vec![1], &[2.5])]).unwrap();
    assert_eq!(&bytes[..8], b"\x89HDF\r\n\x1a\n");
    let eof = u64::from_le_bytes(bytes[40..48].try_into().unwrap());
    assert_eq!(eof as usize, bytes.len());
}
