use joi_burn::archive::{
    decode_values, has_size, leaves_room, load_all, load_tensor, load_values, parse_archive,
    shape_values, LoadError, TensorSpec,
};
use joi_burn::bytes::read_words;
use joi_burn::archive::RawTensor;
use joi_burn::weights::{load_model, BatchedLayer, BatchedSwarm};

fn archive(header: &str, data: &[u8]) -> Vec<u8> {
    let mut file = (header.len() as u64).to_le_bytes().to_vec();
    file.extend_from_slice(header.as_bytes());
    file.extend_from_slice(data);
    file
}

fn floats(values: &[f32]) -> Vec<u8> {
    values.iter().flat_map(|v| v.to_le_bytes()).collect()
}

fn wanted(key: &str, dims: &[usize]) -> TensorSpec {
    TensorSpec { key: key.to_string(), dims: dims.to_vec() }
}

fn sample_archive() -> Vec<u8> {
    let mut data = floats(&[1.0, -2.5, 0.0, 3.25]);
    data.extend_from_slice(&[7, 8, 9]);
    archive(
        "{\"m\":{\"dtype\":\"F32\",\"shape\":[2,2],\"data_offsets\":[0,16]},\
         \"odd\":{\"dtype\":\"U8\",\"shape\":[3],\"data_offsets\":[16,19]}}",
        &data,
    )
}

#[test]
fn words_are_little_endian() {
    let bytes = [0xff, 0x78, 0x56, 0x34, 0x12, 1, 0, 0, 0, 9];
    assert_eq!(read_words(&bytes, 1, 2), vec![0x1234_5678, 1]);
    assert_eq!(read_words(&bytes, 0, 0), Vec::<u32>::new());
}

#[test]
fn values_come_back_as_written() {
    let file = sample_archive();
    let parsed = parse_archive(&file).unwrap();
    let expected: Vec<u32> = [1.0f32, -2.5, 0.0, 3.25].iter().map(|v| v.to_bits()).collect();
    assert_eq!(load_values(&parsed, "m").unwrap(), expected);
    let tensor = load_tensor(&parsed, &wanted("m", &[2, 2])).unwrap();
    assert_eq!(tensor.dims, vec![2, 2]);
    assert_eq!(tensor.data, expected);
    let row = load_tensor(&parsed, &wanted("m", &[4])).unwrap();
    assert_eq!(row.dims, vec![4]);
}

#[test]
fn missing_tensor() {
    let file = sample_archive();
    let parsed = parse_archive(&file).unwrap();
    match load_values(&parsed, "n") {
        Err(LoadError::Missing { key }) => assert_eq!(key, "n"),
        other => panic!("{:?}", other),
    }
}

#[test]
fn tensor_of_other_width() {
    let file = sample_archive();
    let parsed = parse_archive(&file).unwrap();
    match load_tensor(&parsed, &wanted("odd", &[3])) {
        Err(LoadError::NotSingle { key, bytes }) => {
            assert_eq!(key, "odd");
            assert_eq!(bytes, 3);
        }
        other => panic!("{:?}", other),
    }
}

#[test]
fn tensor_of_other_size() {
    let file = sample_archive();
    let parsed = parse_archive(&file).unwrap();
    match load_tensor(&parsed, &wanted("m", &[3, 2])) {
        Err(LoadError::WrongSize { key, dims, values }) => {
            assert_eq!(key, "m");
            assert_eq!(dims, vec![3, 2]);
            assert_eq!(values, 4);
        }
        other => panic!("{:?}", other),
    }
}

#[test]
fn tensors_load_up_to_the_first_failure() {
    let file = sample_archive();
    let parsed = parse_archive(&file).unwrap();
    let good = vec![wanted("m", &[2, 2]), wanted("m", &[4, 1])];
    assert_eq!(load_all(&parsed, &good).unwrap().len(), 2);
    let bad = vec![wanted("m", &[2, 2]), wanted("gone", &[1]), wanted("odd", &[3])];
    assert!(matches!(load_all(&parsed, &bad), Err(LoadError::Missing { key }) if key == "gone"));
}

#[test]
fn files_that_are_no_archives() {
    assert!(matches!(parse_archive(&[]), Err(LoadError::Malformed)));
    assert!(matches!(parse_archive(&[1, 2, 3, 4, 5, 6, 7]), Err(LoadError::Malformed)));
    assert!(matches!(parse_archive(&[255; 8]), Err(LoadError::Malformed)));
    assert!(matches!(parse_archive(&archive("not json", &[])), Err(LoadError::Malformed)));
    let short = archive(
        "{\"m\":{\"dtype\":\"F32\",\"shape\":[2],\"data_offsets\":[0,8]}}",
        &[0; 7],
    );
    assert!(matches!(parse_archive(&short), Err(LoadError::Malformed)));
}

#[test]
fn data_that_ends_behind_all_places() {
    let step = usize::MAX / 8 + 1;
    let mut header = String::from("{");
    for k in 0..7 {
        header += &format!(
            "\"t{k}\":{{\"dtype\":\"U8\",\"shape\":[{step}],\"data_offsets\":[{},{}]}},",
            k * step,
            (k + 1) * step
        );
    }
    let last = usize::MAX - 7 * step;
    header += &format!(
        "\"t7\":{{\"dtype\":\"U8\",\"shape\":[{last}],\"data_offsets\":[{},{}]}}}}",
        7 * step,
        usize::MAX
    );
    assert!(matches!(parse_archive(&archive(&header, &[])), Err(LoadError::Malformed)));
    assert!(leaves_room(None, usize::MAX));
    assert!(leaves_room(Some(usize::MAX - 18), 10));
    assert!(!leaves_room(Some(usize::MAX - 17), 10));
    assert!(!leaves_room(Some(0), usize::MAX));
}

#[test]
fn large_numbers_that_are_no_offsets() {
    for header in [
        "{\"e\":{\"dtype\":\"F32\",\"shape\":[0,18446744073709551615],\"data_offsets\":[0,0]},\
         \"m\":{\"dtype\":\"F32\",\"shape\":[1],\"data_offsets\":[0,4]}}",
        "{\"m\":{\"dtype\":\"F32\",\"shape\":[1],\"data_offsets\":[0,4],\
         \"note\":[18446744073709551615,0.123456789012345678901234567]}}",
        "{\"__metadata__\":{\"\\\"id\":\"99999999999999999999999\"},\
         \"m\":{\"dtype\":\"F32\",\"shape\":[1],\"data_offsets\":[0,4]}}",
    ] {
        let file = archive(header, &floats(&[2.5]));
        let parsed = parse_archive(&file).unwrap();
        assert_eq!(load_values(&parsed, "m").unwrap(), vec![2.5f32.to_bits()]);
    }
}

#[test]
fn decoding_without_an_archive() {
    assert!(matches!(decode_values(None, "k"), Err(LoadError::Missing { key }) if key == "k"));
    assert_eq!(decode_values(Some(&[1, 0, 0, 0]), "k").unwrap(), vec![1]);
    assert_eq!(decode_values(Some(&[]), "k").unwrap(), Vec::<u32>::new());
    assert!(decode_values(Some(&[1, 0, 0]), "k").is_err());
    assert_eq!(shape_values(vec![1, 2, 3], "k", &vec![3, 1]).unwrap().dims, vec![3, 1]);
    assert!(shape_values(vec![1, 2, 3], "k", &vec![2, 2]).is_err());
}

#[test]
fn sizes_of_shapes() {
    assert!(has_size(&vec![], 1));
    assert!(has_size(&vec![2, 3, 4], 24));
    assert!(!has_size(&vec![2, 3, 4], 23));
    assert!(has_size(&vec![usize::MAX, usize::MAX, 0], 0));
    assert!(!has_size(&vec![usize::MAX, 2], usize::MAX - 1));
}

#[test]
fn model_is_loaded_layer_by_layer() {
    let file = sample_archive();
    assert!(matches!(
        load_model(&file),
        Err(LoadError::Missing { key }) if key == "attn_in_proj_w.0"
    ));
    let parsed = parse_archive(&file).unwrap();
    assert!(matches!(
        BatchedLayer::load(&parsed, 13),
        Err(LoadError::Missing { key }) if key == "attn_in_proj_w.13"
    ));
    let wrong = archive(
        "{\"attn_in_proj_w.0\":{\"dtype\":\"F32\",\"shape\":[1],\"data_offsets\":[0,4]}}",
        &floats(&[1.0]),
    );
    let parsed = parse_archive(&wrong).unwrap();
    match BatchedSwarm::load(&parsed) {
        Err(LoadError::WrongSize { key, dims, values }) => {
            assert_eq!(key, "attn_in_proj_w.0");
            assert_eq!(dims, vec![300, 768, 256]);
            assert_eq!(values, 1);
        }
        other => panic!("{:?}", other.is_ok()),
    }
    assert!(matches!(load_model(&[0; 4]), Err(LoadError::Malformed)));
}

#[test]
fn tensors_in_the_order_of_loading() {
    let tagged = |tag: u32| RawTensor { dims: vec![1], data: vec![tag] };
    let layer = |l: u32| BatchedLayer {
        attn_in_w: tagged(12 * l),
        attn_in_b: tagged(12 * l + 1),
        attn_out_w: tagged(12 * l + 2),
        attn_out_b: tagged(12 * l + 3),
        norm1_w: tagged(12 * l + 4),
        norm1_b: tagged(12 * l + 5),
        ffn_w1: tagged(12 * l + 6),
        ffn_b1: tagged(12 * l + 7),
        ffn_w2: tagged(12 * l + 8),
        ffn_b2: tagged(12 * l + 9),
        norm2_w: tagged(12 * l + 10),
        norm2_b: tagged(12 * l + 11),
    };
    let swarm = BatchedSwarm {
        layers: (0..4).map(layer).collect(),
        input_proj_w: tagged(48),
        input_proj_b: tagged(49),
        final_ln_w: tagged(50),
        final_ln_b: tagged(51),
        gate_w1: tagged(52),
        gate_b1: tagged(53),
        gate_w2: tagged(54),
        gate_b2: tagged(55),
        action_w: tagged(56),
        action_b: tagged(57),
        conf_w: tagged(58),
        conf_b: tagged(59),
    };
    let tags: Vec<u32> = swarm.into_tensors().iter().map(|t| t.data[0]).collect();
    assert_eq!(tags, (0..60).collect::<Vec<u32>>());
}
