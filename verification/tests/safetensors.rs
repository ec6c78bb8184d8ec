use llm_rs::safetensors::{count_gpt2_layers, header_size, read_header, tensor_bits, DType, LoadError, TensorInfo};

fn file_with(header: &[u8], data: &[u8]) -> Vec<u8> {
    let mut file = (header.len() as u64).to_le_bytes().to_vec();
    file.extend_from_slice(header);
    file.extend_from_slice(data);
    file
}

fn info(dtype: DType, start: usize, end: usize) -> TensorInfo {
    TensorInfo { dtype, shape: vec![(end - start) / 4], start, end }
}

#[test]
fn header_size_is_little_endian() {
    assert_eq!(header_size(&[2, 0, 0, 0, 0, 0, 0, 0]), 2);
    assert_eq!(header_size(&[0x34, 0x12, 0, 0, 0, 0, 0, 0, 9, 9]), 0x1234);
    assert_eq!(header_size(&[0, 0, 0, 0, 0, 0, 0, 1]), 1u64 << 56);
}

#[test]
fn read_header_gives_the_json_text() {
    let file = file_with(b"{\"a\":1}", &[1, 2, 3, 4]);
    assert_eq!(read_header(&file), Ok("{\"a\":1}".to_string()));
}

#[test]
fn read_header_of_a_short_file() {
    assert_eq!(read_header(&[1, 0, 0]), Err(LoadError::TooShort));
}

#[test]
fn read_header_past_the_end() {
    let mut file = file_with(b"{}", &[]);
    file[0] = 100;
    assert_eq!(read_header(&file), Err(LoadError::HeaderOutOfRange));
}

#[test]
fn read_header_that_is_not_utf8() {
    let file = file_with(&[0xFF, 0xFE], &[]);
    assert_eq!(read_header(&file), Err(LoadError::HeaderNotUtf8));
}

#[test]
fn dtype_names() {
    assert_eq!(DType::parse("F32"), Some(DType::F32));
    assert_eq!(DType::parse("BF16"), Some(DType::BF16));
    assert_eq!(DType::parse("F16"), None);
    assert_eq!(DType::parse("f32"), None);
}

#[test]
fn f32_elements_keep_their_bits() {
    let mut data = 1.0f32.to_le_bytes().to_vec();
    data.extend_from_slice(&(-2.5f32).to_le_bytes());
    let file = file_with(b"{}", &data);
    let bits = tensor_bits(&file, 2, &info(DType::F32, 0, 8)).unwrap();
    assert_eq!(bits, vec![1.0f32.to_bits(), (-2.5f32).to_bits()]);
    assert_eq!(f32::from_bits(bits[1]), -2.5);
}

#[test]
fn f32_tensor_at_an_offset() {
    let mut data = vec![9u8; 4];
    data.extend_from_slice(&0.5f32.to_le_bytes());
    let file = file_with(b"{}", &data);
    let bits = tensor_bits(&file, 2, &info(DType::F32, 4, 8)).unwrap();
    assert_eq!(bits, vec![0.5f32.to_bits()]);
}

#[test]
fn bf16_elements_become_the_upper_half() {
    let file = file_with(b"{}", &[0x80, 0x3F, 0x20, 0xC0]);
    let t = TensorInfo { dtype: DType::BF16, shape: vec![2], start: 0, end: 4 };
    let bits = tensor_bits(&file, 2, &t).unwrap();
    assert_eq!(bits, vec![0x3F80_0000, 0xC020_0000]);
    assert_eq!(f32::from_bits(bits[0]), 1.0);
    assert_eq!(f32::from_bits(bits[1]), -2.5);
}

#[test]
fn tensor_outside_the_file() {
    let file = file_with(b"{}", &[0; 4]);
    assert_eq!(tensor_bits(&file, 2, &info(DType::F32, 0, 8)), Err(LoadError::DataOutOfRange));
    assert_eq!(tensor_bits(&file, 2, &info(DType::F32, 4, 0)), Err(LoadError::DataOutOfRange));
    assert_eq!(tensor_bits(&file, 50, &info(DType::F32, 0, 4)), Err(LoadError::DataOutOfRange));
}

#[test]
fn tensor_with_a_partial_element() {
    let file = file_with(b"{}", &[0; 6]);
    assert_eq!(tensor_bits(&file, 2, &info(DType::F32, 0, 6)), Err(LoadError::RaggedData));
    let t = TensorInfo { dtype: DType::BF16, shape: vec![1], start: 0, end: 3 };
    assert_eq!(tensor_bits(&file, 2, &t), Err(LoadError::RaggedData));
}

#[test]
fn empty_tensor() {
    let file = file_with(b"{}", &[]);
    assert_eq!(tensor_bits(&file, 2, &info(DType::F32, 0, 0)), Ok(vec![]));
}

#[test]
fn gpt2_layers_are_counted_by_their_first_norm() {
    let names: Vec<String> = [
        "wte.weight",
        "h.0.ln_1.weight",
        "h.0.ln_1.bias",
        "h.0.attn.c_attn.weight",
        "h.1.ln_1.weight",
        "h.11.ln_1.weight",
        "ln_f.weight",
        "xh.2.ln_1.weight",
    ]
    .iter()
    .map(|s| s.to_string())
    .collect();
    assert_eq!(count_gpt2_layers(&names), 3);
    assert_eq!(count_gpt2_layers(&vec![]), 0);
}
