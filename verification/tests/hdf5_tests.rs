use mmn_io::hdf5_read::read_h5_arrays_bytes;

#[test]
fn bad_signature_errors() {
    assert!(read_h5_arrays_bytes(b"not an hdf5 file").is_err());
    assert!(read_h5_arrays_bytes(b"").is_err());
}
