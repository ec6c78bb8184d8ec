use llm_rs::json::{count_value, field_names, get_field, parse_json, text_value, Json};
use llm_rs::number::number_to_count;
use llm_rs::safetensors::{read_header_json, tensor_entry, tensor_info, DType, LoadError};
use llm_rs::tokenizer::{LlamaTokenizer, Tokenizer};
use llm_rs::vocab::TokenizerError;

#[test]
fn parse_json_keeps_numbers_as_text() {
    let j = parse_json("{\"b\": [1, 2.5, -3], \"a\": \"x\", \"c\": null, \"d\": true}").unwrap();
    assert_eq!(field_names(&j).unwrap(), vec!["a", "b", "c", "d"]);
    match get_field(&j, "b") {
        Some(Json::Array(xs)) => {
            assert_eq!(xs.len(), 3);
            assert!(matches!(&xs[0], Json::Number(n) if n == "1"));
            assert!(matches!(&xs[1], Json::Number(n) if n == "2.5"));
            assert!(matches!(&xs[2], Json::Number(n) if n == "-3"));
        }
        other => panic!("unexpected {:?}", other),
    }
    assert_eq!(text_value(get_field(&j, "a")), Some("x".to_string()));
    assert!(matches!(get_field(&j, "c"), Some(Json::Null)));
    assert!(matches!(get_field(&j, "d"), Some(Json::Bool(true))));
    assert!(get_field(&j, "e").is_none());
}

#[test]
fn parse_json_refuses_bad_text() {
    assert!(parse_json("{\"a\": ").is_none());
    assert!(parse_json("").is_none());
}

#[test]
fn counts_are_non_negative_integers() {
    let j = parse_json("[7, 18446744073709551615, 1.0, -1, \"7\"]").unwrap();
    let Json::Array(xs) = &j else { panic!() };
    assert_eq!(count_value(Some(&xs[0])), Some(7));
    assert_eq!(count_value(Some(&xs[1])), Some(usize::MAX));
    assert_eq!(count_value(Some(&xs[2])), None);
    assert_eq!(count_value(Some(&xs[3])), None);
    assert_eq!(count_value(Some(&xs[4])), None);
    assert_eq!(count_value(None), None);
}

#[test]
fn llama_tokenizer_from_its_json() {
    let text = r#"{
        "model": {
            "vocab": {"<unk>": 0, "<s>": 1, "</s>": 2, "\u2581": 3, "h": 4, "i": 5, "\u2581h": 6, "\u2581hi": 7},
            "merges": ["\u2581 h", "\u2581h i"]
        },
        "added_tokens": [{"id": 0, "special": true}, {"id": 1, "special": true}, {"id": 2}]
    }"#;
    let t = LlamaTokenizer::from_json(text).unwrap();
    assert_eq!(t.encode("hi"), vec![1, 7]);
    assert_eq!(t.decode(&[1, 7, 2]), " hi</s>");
    assert_eq!(t.decode(&[0, 7]), " hi");
}

#[test]
fn llama_tokenizer_json_errors() {
    assert!(matches!(LlamaTokenizer::from_json("nope"), Err(TokenizerError::MalformedJson)));
    assert!(matches!(
        LlamaTokenizer::from_json(r#"{"model": {"vocab": {"<s>": -1}, "merges": []}}"#),
        Err(TokenizerError::MalformedJson)
    ));
    assert!(matches!(
        LlamaTokenizer::from_json(r#"{"model": {"vocab": {"<s>": 0}, "merges": [1]}}"#),
        Err(TokenizerError::MalformedJson)
    ));
    assert!(matches!(
        LlamaTokenizer::from_json(r#"{"model": {"vocab": {"<s>": 0}, "merges": []}, "added_tokens": [{"special": true}]}"#),
        Err(TokenizerError::MalformedJson)
    ));
    assert!(matches!(
        LlamaTokenizer::from_json(r#"{"model": {"vocab": {"a": 0}, "merges": []}}"#),
        Err(TokenizerError::MissingBos)
    ));
    assert!(matches!(
        LlamaTokenizer::from_json(r#"{"model": {"vocab": {"<s>": 0}, "merges": ["ab"]}}"#),
        Err(TokenizerError::MalformedMerge(0))
    ));
    // Without `added_tokens`, nothing is special.
    let t = LlamaTokenizer::from_json(r#"{"model": {"vocab": {"<s>": 0, "a": 1}, "merges": []}}"#).unwrap();
    assert_eq!(t.decode(&[0, 1]), "<s>a");
}

#[test]
fn gpt2_tokenizer_from_its_files() {
    let vocab = r#"{"h": 0, "e": 1, "he": 2, "\u0120": 3, "\u0120h": 4}"#;
    let t = Tokenizer::from_texts(vocab, "#version: 0.2\nh e\n\u{120} h\n").unwrap();
    assert_eq!(t.encode("he he"), vec![2, 3, 2]);
    assert_eq!(t.decode(&[2, 3, 2]), "he he");
    assert_eq!(t.encode("h"), vec![0]);
}

#[test]
fn gpt2_tokenizer_file_errors() {
    assert!(matches!(Tokenizer::from_texts("{", "#v\na b\n"), Err(TokenizerError::MalformedJson)));
    assert!(matches!(Tokenizer::from_texts("{\"a\": 0}", "#v\nab\n"), Err(TokenizerError::MalformedMerge(0))));
    assert!(matches!(Tokenizer::from_texts("{\"a\": \"1\"}", "#v\na b\n"), Err(TokenizerError::MalformedJson)));
    assert!(matches!(Tokenizer::from_texts("[0]", "#v\n"), Err(TokenizerError::MalformedJson)));
}

fn file_with(header: &str) -> Vec<u8> {
    let mut file = (header.len() as u64).to_le_bytes().to_vec();
    file.extend_from_slice(header.as_bytes());
    file.extend_from_slice(&[0; 16]);
    file
}

#[test]
fn header_json_and_tensor_entries() {
    let header = r#"{"w": {"dtype": "F32", "shape": [2, 2], "data_offsets": [0, 16]},
        "b": {"dtype": "BF16", "shape": [], "data_offsets": [4, 6]},
        "x": {"dtype": "F16", "shape": [1], "data_offsets": [0, 2]},
        "s": {"dtype": "F32", "shape": [-1], "data_offsets": [0, 4]},
        "o": {"dtype": "F32", "shape": [1], "data_offsets": [0]},
        "n": {"dtype": 3, "shape": [1], "data_offsets": [0, 4]}}"#;
    let h = read_header_json(&file_with(header)).unwrap();
    let w = tensor_info(&h, "w").unwrap();
    assert_eq!((w.dtype, w.shape, w.start, w.end), (DType::F32, vec![2, 2], 0, 16));
    let we = tensor_entry(&h, "w");
    assert_eq!((we.dtype, we.shape, we.start, we.end), (DType::F32, vec![2, 2], 0, 16));
    let b = tensor_info(&h, "b").unwrap();
    assert_eq!((b.dtype, b.shape, b.start, b.end), (DType::BF16, vec![], 4, 6));
    assert!(matches!(tensor_info(&h, "x"), Err(LoadError::UnsupportedDtype)));
    assert!(matches!(tensor_info(&h, "n"), Err(LoadError::UnsupportedDtype)));
    assert!(matches!(tensor_info(&h, "s"), Err(LoadError::BadShape)));
    assert!(matches!(tensor_info(&h, "o"), Err(LoadError::BadOffsets)));
    assert!(matches!(tensor_info(&h, "missing"), Err(LoadError::MissingTensor)));
}

#[test]
fn header_json_errors() {
    assert!(matches!(read_header_json(&file_with("{\"a\":")), Err(LoadError::HeaderNotJson)));
    assert!(matches!(read_header_json(&[1, 2]), Err(LoadError::TooShort)));
}

#[test]
fn numbers_read_as_a_float_cast_would() {
    for (text, id) in [
        ("7", 7),
        ("1.0", 1),
        ("1.5", 1),
        ("1e2", 100),
        ("1.25E+2", 125),
        ("250e-2", 2),
        ("1e-7", 0),
        ("-0", 0),
        ("-0.0", 0),
        ("-3", 0),
        ("0", 0),
        ("1e400", usize::MAX),
        ("18446744073709551616", usize::MAX),
        ("0e99999999999999999999999", 0),
    ] {
        assert_eq!(number_to_count(text), Some(id), "{}", text);
    }
    for bad in ["", "-", "1.", ".5", "1e", "1e+", "a", "1x"] {
        assert_eq!(number_to_count(bad), None, "{}", bad);
    }
}

#[test]
fn gpt2_vocabulary_ids_as_the_original_casts_them() {
    let vocab = r#"{"h": 0.0, "e": 1.9, "he": 2e0, "\u0120": 3, "\u0120h": 4}"#;
    let t = Tokenizer::from_texts(vocab, "#version: 0.2\nh e\n\u{120} h\n").unwrap();
    assert_eq!(t.encode("he he"), vec![2, 3, 2]);
    assert_eq!(t.decode(&[0, 1]), "he");
    let n = Tokenizer::new(vocab, "#version: 0.2\nh e\n\u{120} h\n");
    assert_eq!(n.encode("he he"), vec![2, 3, 2]);
}

#[test]
fn llama_new_builds_what_from_json_builds() {
    let text = r#"{"model": {"vocab": {"<s>": 0, "\u2581": 1, "a": 2}, "merges": []}, "added_tokens": [{"id": 0, "special": true}]}"#;
    let t = LlamaTokenizer::new(text);
    assert_eq!(t.encode("a"), vec![0, 1, 2]);
    assert_eq!(t.decode(&[0, 1, 2]), " a");
    let u = LlamaTokenizer::from_json(text).unwrap();
    assert_eq!(u.encode("a"), t.encode("a"));
}
