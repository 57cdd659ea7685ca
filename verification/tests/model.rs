use inference_core::model::{
    decode_le_words, HeaderEntry, ModelError, SafeTensorsLoader, TensorInfo,
};

fn file_with_header(header: &str, data: &[u8]) -> Vec<u8> {
    let mut buf = (header.len() as u64).to_le_bytes().to_vec();
    buf.extend_from_slice(header.as_bytes());
    buf.extend_from_slice(data);
    buf
}

fn f32_entry(name: &str, shape: Vec<usize>, start: usize, end: usize) -> HeaderEntry {
    HeaderEntry {
        name: name.to_string(),
        info: Ok(TensorInfo { dtype: "F32".to_string(), shape, data_offsets: (start, end) }),
    }
}

#[test]
fn header_range_of_a_small_file() {
    let buf = file_with_header("{}", &[1, 2, 3]);
    assert!(matches!(SafeTensorsLoader::header_range(&buf), Ok((8, 10))));
}

#[test]
fn header_range_rejects_a_too_small_file() {
    match SafeTensorsLoader::header_range(&[1, 2, 3]) {
        Err(ModelError::InvalidHeader(m)) => assert_eq!(m, "File too small"),
        other => panic!("unexpected {:?}", other),
    }
}

#[test]
fn header_range_rejects_a_header_past_the_end() {
    let mut buf = 100u64.to_le_bytes().to_vec();
    buf.extend_from_slice(b"{}");
    match SafeTensorsLoader::header_range(&buf) {
        Err(ModelError::InvalidHeader(m)) => assert_eq!(m, "Header extends past file"),
        other => panic!("unexpected {:?}", other),
    }
}

#[test]
fn header_length_is_little_endian() {
    let mut buf = vec![0x01, 0x01, 0, 0, 0, 0, 0, 0];
    buf.extend(std::iter::repeat(b' ').take(257));
    assert!(matches!(SafeTensorsLoader::header_range(&buf), Ok((8, 265))));
}

#[test]
fn header_text_reads_utf8() {
    let buf = file_with_header("{\"a\":1}", &[]);
    let text = SafeTensorsLoader::header_text(&buf, 8, buf.len()).unwrap();
    assert_eq!(text, "{\"a\":1}");
}

#[test]
fn header_text_rejects_invalid_utf8() {
    let buf = vec![0xff, 0xfe, b'{'];
    assert!(matches!(SafeTensorsLoader::header_text(&buf, 0, 3), Err(ModelError::InvalidHeader(_))));
}

#[test]
fn words_are_little_endian_and_partial_chunks_dropped() {
    let bytes = [1.0f32.to_le_bytes(), (-2.5f32).to_le_bytes()].concat();
    let mut with_tail = bytes.clone();
    with_tail.push(0xaa);
    let words = decode_le_words(&with_tail);
    assert_eq!(words, vec![1.0f32.to_bits(), (-2.5f32).to_bits()]);
    assert_eq!(decode_le_words(&[0x78, 0x56, 0x34, 0x12]), vec![0x1234_5678]);
}

#[test]
fn loads_tensors_in_entry_order_and_skips_metadata() {
    let blob = [1.0f32, 2.0, 3.0, 4.0, 5.0].iter().flat_map(|x| x.to_le_bytes()).collect::<Vec<u8>>();
    let entries = vec![
        HeaderEntry { name: "__metadata__".to_string(), info: Err("not a tensor".to_string()) },
        f32_entry("a", vec![2, 2], 0, 16),
        f32_entry("b", vec![1], 16, 20),
    ];
    let tensors = SafeTensorsLoader::load_tensors(&entries, &blob).unwrap();
    assert_eq!(tensors.len(), 2);
    assert_eq!(tensors[0].name, "a");
    assert_eq!(tensors[0].tensor.shape, vec![2, 2]);
    let a: Vec<f32> = tensors[0].tensor.data.iter().map(|&w| f32::from_bits(w)).collect();
    assert_eq!(a, vec![1.0, 2.0, 3.0, 4.0]);
    assert_eq!(f32::from_bits(tensors[1].tensor.data[0]), 5.0);
}

#[test]
fn unreadable_entry_is_an_invalid_header() {
    let entries = vec![HeaderEntry { name: "w".to_string(), info: Err("missing field `dtype`".to_string()) }];
    match SafeTensorsLoader::load_tensors(&entries, &[]) {
        Err(ModelError::InvalidHeader(m)) => assert_eq!(m, "Failed to parse tensor 'w': missing field `dtype`"),
        other => panic!("unexpected {:?}", other.map(|t| t.len())),
    }
}

#[test]
fn other_dtypes_are_rejected() {
    let entries = vec![HeaderEntry {
        name: "w".to_string(),
        info: Ok(TensorInfo { dtype: "F16".to_string(), shape: vec![2], data_offsets: (0, 4) }),
    }];
    match SafeTensorsLoader::load_tensors(&entries, &[0, 0, 0, 0]) {
        Err(ModelError::InvalidFormat(m)) => {
            assert_eq!(m, "Unsupported dtype 'F16' for tensor 'w'. Only F32 is supported.")
        },
        other => panic!("unexpected {:?}", other.map(|t| t.len())),
    }
}

#[test]
fn offsets_outside_the_data_are_rejected() {
    let entries = vec![f32_entry("w", vec![1], 0, 8)];
    match SafeTensorsLoader::load_tensors(&entries, &[0, 0, 0, 0]) {
        Err(ModelError::InvalidFormat(m)) => assert_eq!(m, "Invalid data offsets for tensor 'w'"),
        other => panic!("unexpected {:?}", other.map(|t| t.len())),
    }
    let reversed = vec![f32_entry("w", vec![0], 4, 0)];
    assert!(matches!(
        SafeTensorsLoader::load_tensors(&reversed, &[0, 0, 0, 0]),
        Err(ModelError::InvalidFormat(_))
    ));
}

#[test]
fn shape_and_data_must_agree() {
    let entries = vec![f32_entry("w", vec![3, 2], 0, 8)];
    match SafeTensorsLoader::load_tensors(&entries, &[0u8; 8]) {
        Err(ModelError::TensorShapeMismatch { name, expected, got }) => {
            assert_eq!(name, "w");
            assert_eq!(expected, 6);
            assert_eq!(got, 2);
        },
        other => panic!("unexpected {:?}", other.map(|t| t.len())),
    }
}

#[test]
fn the_first_failing_entry_decides() {
    let entries = vec![
        f32_entry("ok", vec![1], 0, 4),
        f32_entry("bad", vec![1], 0, 40),
        HeaderEntry { name: "worse".to_string(), info: Err("x".to_string()) },
    ];
    match SafeTensorsLoader::load_tensors(&entries, &[0u8; 4]) {
        Err(ModelError::InvalidFormat(m)) => assert_eq!(m, "Invalid data offsets for tensor 'bad'"),
        other => panic!("unexpected {:?}", other.map(|t| t.len())),
    }
}

#[test]
fn shapes_of_rejected_entries_are_never_counted() {
    let huge = 1usize << 40;
    let entries = vec![HeaderEntry {
        name: "w".to_string(),
        info: Ok(TensorInfo { dtype: "F16".to_string(), shape: vec![huge, huge], data_offsets: (0, 4) }),
    }];
    match SafeTensorsLoader::load_tensors(&entries, &[0, 0, 0, 0]) {
        Err(ModelError::InvalidFormat(m)) => {
            assert_eq!(m, "Unsupported dtype 'F16' for tensor 'w'. Only F32 is supported.")
        },
        other => panic!("unexpected {:?}", other.map(|t| t.len())),
    }
    let after_failure = vec![
        f32_entry("bad", vec![1], 0, 40),
        f32_entry("big", vec![huge, huge], 0, 4),
    ];
    assert!(matches!(
        SafeTensorsLoader::try_load_tensors(&after_failure, &[0u8; 4]),
        Some(Err(ModelError::InvalidFormat(_)))
    ));
}

#[test]
fn a_counted_shape_that_overflows_is_reported() {
    let huge = 1usize << 40;
    let entries = vec![f32_entry("ok", vec![1], 0, 4), f32_entry("big", vec![huge, huge], 0, 4)];
    assert!(SafeTensorsLoader::try_load_tensors(&entries, &[0u8; 4]).is_none());
    let fine = vec![f32_entry("ok", vec![1], 0, 4)];
    assert!(matches!(SafeTensorsLoader::try_load_tensors(&fine, &[0u8; 4]), Some(Ok(ts)) if ts.len() == 1));
}

#[test]
fn data_offsets_count_from_the_end_of_the_header() {
    let data = [7.0f32, 8.0].iter().flat_map(|x| x.to_le_bytes()).collect::<Vec<u8>>();
    let buf = file_with_header("{\"x\":0}", &data);
    let (_, header_end) = SafeTensorsLoader::header_range(&buf).unwrap();
    let entries = vec![f32_entry("x", vec![1], 4, 8)];
    let tensors = SafeTensorsLoader::try_load_tensors_after_header(&buf, header_end, &entries)
        .unwrap()
        .unwrap();
    assert_eq!(tensors[0].name, "x");
    assert_eq!(f32::from_bits(tensors[0].tensor.data[0]), 8.0);
    // offsets past the data section are refused even though the file is longer
    let past = vec![f32_entry("x", vec![1], 8, 12)];
    assert!(matches!(
        SafeTensorsLoader::try_load_tensors_after_header(&buf, header_end, &past),
        Some(Err(ModelError::InvalidFormat(_)))
    ));
}
