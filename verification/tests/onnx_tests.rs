use mmn_io::onnx::{read_onnx_arrays_bytes, OnnxData};

fn varint(mut v: u64, out: &mut Vec<u8>) {
    loop {
        let byte = (v & 0x7F) as u8;
        v >>= 7;
        if v == 0 {
            out.push(byte);
            return;
        }
        out.push(byte | 0x80);
    }
}

fn field_bytes(field: u64, body: &[u8], out: &mut Vec<u8>) {
    varint(field << 3 | 2, out);
    varint(body.len() as u64, out);
    out.extend_from_slice(body);
}

/// Handcraft a minimal ModelProto: graph(7) { initializer(5) {...} }.
fn build_model(tensors: &[(&str, Vec<usize>, Vec<f32>)]) -> Vec<u8> {
    let mut graph = Vec::new();
    for (name, dims, values) in tensors {
        let mut tensor = Vec::new();
        for &d in dims {
            varint(1 << 3, &mut tensor);
            varint(d as u64, &mut tensor);
        }
        varint(2 << 3, &mut tensor);
        varint(1, &mut tensor);
        field_bytes(8, name.as_bytes(), &mut tensor);
        let raw: Vec<u8> = values.iter().flat_map(|v| v.to_le_bytes()).collect();
        field_bytes(9, &raw, &mut tensor);
        field_bytes(5, &tensor, &mut graph);
    }
    let mut model = Vec::new();
    varint(1 << 3, &mut model);
    varint(9, &mut model);
    field_bytes(7, &graph, &mut model);
    model
}

fn floats(data: &OnnxData) -> Vec<f32> {
    match data {
        OnnxData::Raw(1, bytes) => bytes
            .chunks_exact(4)
            .map(|c| f32::from_le_bytes([c[0], c[1], c[2], c[3]]))
            .collect(),
        OnnxData::Float32(bits) => bits.iter().map(|b| f32::from_bits(*b)).collect(),
        _ => panic!("not float data"),
    }
}

#[test]
fn reads_initializers_from_handcrafted_model() {
    let model = build_model(&[
        ("w", vec![2, 3], vec![1.0, 2.0, 3.0, 4.0, 5.0, 6.0]),
        ("b", vec![3], vec![-1.0, 0.0, 1.0]),
    ]);
    let arrays = read_onnx_arrays_bytes(&model).unwrap();
    assert_eq!(arrays.len(), 2);
    assert_eq!(arrays[0].name, "w");
    assert_eq!(arrays[0].dims, vec![2, 3]);
    assert_eq!(floats(&arrays[0].data)[4], 5.0);
    assert_eq!(floats(&arrays[1].data), vec![-1.0, 0.0, 1.0]);
}

#[test]
fn no_graph_and_no_weights_error() {
    assert!(read_onnx_arrays_bytes(&[0x08, 0x09]).is_err());
    let mut empty_graph = vec![0x08, 0x09];
    empty_graph.extend_from_slice(&[0x3A, 0x00]);
    let e = read_onnx_arrays_bytes(&empty_graph).err().unwrap();
    assert!(e.message().contains("no initializers"));
}

#[test]
fn garbage_bytes_error() {
    assert!(read_onnx_arrays_bytes(b"definitely not protobuf \xff\xff").is_err());
}

#[test]
fn float_data_field_and_shape_mismatch() {
    // float_data (field 4) packed, dims [2]: two floats.
    let mut tensor = Vec::new();
    varint(1 << 3, &mut tensor);
    varint(2, &mut tensor);
    field_bytes(8, b"f", &mut tensor);
    let mut packed = Vec::new();
    packed.extend_from_slice(&1.5f32.to_le_bytes());
    packed.extend_from_slice(&(-2.0f32).to_le_bytes());
    field_bytes(4, &packed, &mut tensor);
    let mut graph = Vec::new();
    field_bytes(5, &tensor, &mut graph);
    let mut model = Vec::new();
    field_bytes(7, &graph, &mut model);
    let arrays = read_onnx_arrays_bytes(&model).unwrap();
    assert_eq!(floats(&arrays[0].data), vec![1.5, -2.0]);

    // Same data but dims [3]: the count no longer matches.
    let mut bad = Vec::new();
    varint(1 << 3, &mut bad);
    varint(3, &mut bad);
    field_bytes(4, &packed, &mut bad);
    let mut graph = Vec::new();
    field_bytes(5, &bad, &mut graph);
    let mut model = Vec::new();
    field_bytes(7, &graph, &mut model);
    assert!(read_onnx_arrays_bytes(&model).is_err());
}

#[test]
fn external_data_is_rejected() {
    let mut tensor = Vec::new();
    varint(14 << 3, &mut tensor);
    varint(1, &mut tensor);
    let mut graph = Vec::new();
    field_bytes(5, &tensor, &mut graph);
    let mut model = Vec::new();
    field_bytes(7, &graph, &mut model);
    assert!(read_onnx_arrays_bytes(&model).is_err());
}
