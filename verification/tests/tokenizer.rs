use llm_rs::tokenizer::{LlamaTokenizer, TextTokenizer, Tokenizer};
use llm_rs::vocab::{parse_merges, TokenizerError};

fn entries(pairs: &[(&str, usize)]) -> Vec<(String, usize)> {
    pairs.iter().map(|(s, i)| (s.to_string(), *i)).collect()
}

fn gpt2() -> Tokenizer {
    let vocab = entries(&[
        ("h", 0),
        ("e", 1),
        ("l", 2),
        ("o", 3),
        ("\u{120}", 4),
        ("w", 5),
        ("r", 6),
        ("d", 7),
        ("he", 8),
        ("ll", 9),
        ("hell", 10),
        ("hello", 11),
        ("\u{120}w", 12),
        ("or", 13),
        ("\u{120}wor", 14),
        ("\u{10A}", 15),
    ]);
    let merges = parse_merges("#version: 0.2\nh e\nl l\nhe ll\nhell o\n\u{120} w\no r\n\u{120}w or\n").unwrap();
    Tokenizer::from_parts(vocab, merges)
}

#[test]
fn gpt2_encode_merges_by_rank() {
    let t = gpt2();
    assert_eq!(t.encode("hello"), vec![11]);
    assert_eq!(t.encode("hello world"), vec![11, 14, 2, 7]);
    assert_eq!(t.encode("hell"), vec![10]);
}

#[test]
fn gpt2_encode_empty_words_and_unknown_symbols() {
    let t = gpt2();
    assert_eq!(t.try_encode(" hello"), Some(vec![4, 11]));
    assert_eq!(t.try_encode(""), Some(vec![]));
    assert_eq!(t.encode("hello  "), vec![11, 4, 4]);
    assert_eq!(t.try_encode("hex"), None);
    assert_eq!(t.try_encode("hello"), Some(vec![11]));
}

#[test]
fn gpt2_encode_marks_newlines() {
    let t = gpt2();
    assert_eq!(t.encode("hello\no"), vec![11, 15, 3]);
    assert_eq!(t.encode("\n"), vec![15]);
}

#[test]
fn gpt2_decode_turns_markers_back() {
    let t = gpt2();
    assert_eq!(t.decode(&[11, 14, 2, 7]), "hello world");
    assert_eq!(t.decode(&[11, 15, 3]), "hello\no");
    assert_eq!(t.try_decode(&[11, 99]), None);
    assert_eq!(t.decode(&[]), "");
}

#[test]
fn gpt2_round_trip() {
    let t = gpt2();
    for text in ["hello", "hello world", "world hello hello", "he  lo", "", " hello", "hello\no", "\n"] {
        let ids = t.encode(text);
        assert_eq!(t.decode(&ids), text);
    }
}

#[test]
fn gpt2_through_the_common_interface() {
    let t = gpt2();
    let tok: &dyn TextTokenizer = &t;
    assert_eq!(tok.encode("hello world"), vec![11, 14, 2, 7]);
    assert_eq!(tok.decode(&[8, 9, 3]), "hello");
}

#[test]
fn merges_file_lines() {
    let pairs = parse_merges("#version\r\na b\r\nc d e\n").unwrap();
    assert_eq!(pairs, vec![("a".to_string(), "b".to_string()), ("c".to_string(), "d".to_string())]);
    assert_eq!(parse_merges("").unwrap(), vec![]);
    assert_eq!(parse_merges("#version").unwrap(), vec![]);
    assert_eq!(parse_merges("#version\na b\nbroken\nc d\n"), Err(TokenizerError::MalformedMerge(1)));
    assert_eq!(parse_merges("#version\na b\n\n"), Err(TokenizerError::MalformedMerge(1)));
}

#[test]
fn gpt2_lower_rank_merges_first() {
    let vocab = entries(&[("a", 0), ("b", 1), ("c", 2), ("ab", 3), ("bc", 4)]);
    let merges = vec![
        ("b".to_string(), "c".to_string()),
        ("a".to_string(), "b".to_string()),
    ];
    let t = Tokenizer::from_parts(vocab, merges);
    // "bc" has rank 0, "ab" rank 1: the lower rank merges first.
    assert_eq!(t.encode("abc"), vec![0, 4]);
}

#[test]
fn gpt2_repeated_merge_takes_its_later_rank() {
    let vocab = entries(&[("a", 0), ("b", 1), ("c", 2), ("ab", 3), ("bc", 4)]);
    let merges = vec![
        ("a".to_string(), "b".to_string()),
        ("b".to_string(), "c".to_string()),
        ("a".to_string(), "b".to_string()),
    ];
    let t = Tokenizer::from_parts(vocab, merges);
    // "ab" is listed again after "bc", so "bc" now has the lower rank.
    assert_eq!(t.encode("abc"), vec![0, 4]);
}

fn llama() -> LlamaTokenizer {
    let vocab = entries(&[
        ("<unk>", 0),
        ("<s>", 1),
        ("</s>", 2),
        ("<0xC3>", 3),
        ("<0xA9>", 4),
        ("\u{2581}", 5),
        ("h", 6),
        ("i", 7),
        ("\u{2581}h", 8),
        ("\u{2581}hi", 9),
        ("<0x41>", 10),
    ]);
    let merges = vec!["\u{2581} h".to_string(), "\u{2581}h i".to_string()];
    let added = vec![(0, true), (1, true), (2, true)];
    LlamaTokenizer::from_parts(vocab, merges, added).unwrap()
}

#[test]
fn llama_byte_fallback_of_e_acute() {
    let t = llama();
    assert_eq!(t.byte_fallback('é'), vec!["<0xC3>".to_string(), "<0xA9>".to_string()]);
    assert_eq!(t.byte_fallback('A'), vec!["<0x41>".to_string()]);
    assert_eq!(
        t.byte_fallback('\u{1F600}'),
        vec!["<0xF0>".to_string(), "<0x9F>".to_string(), "<0x98>".to_string(), "<0x80>".to_string()]
    );
}

#[test]
fn llama_encode_normalizes_and_merges() {
    let t = llama();
    assert_eq!(t.encode("hi"), vec![1, 9]);
    assert_eq!(t.encode("hi hi"), vec![1, 9, 9]);
    assert_eq!(t.encode("é"), vec![1, 5, 3, 4]);
    assert_eq!(t.try_encode("z"), None);
}

#[test]
fn llama_decode_skips_special_and_joins_bytes() {
    let t = llama();
    assert_eq!(t.decode(&[1, 9, 9, 2]), " hi hi");
    assert_eq!(t.decode(&[1, 5, 3, 4]), " é");
    assert_eq!(t.decode(&[3, 4, 6]), "éh");
    // A lone continuation byte is not UTF-8: it becomes a replacement character.
    assert_eq!(t.decode(&[4, 6]), "\u{FFFD}h");
    assert_eq!(t.try_decode(&[6, 77]), None);
    assert_eq!(t.try_decode(&[1, 2, 0]), Some(String::new()));
}

#[test]
fn llama_round_trip() {
    let t = llama();
    for text in ["hi", "hi hi", "é", "hié h"] {
        let ids = t.encode(text);
        assert_eq!(t.decode(&ids), format!(" {}", text));
    }
}

#[test]
fn llama_construction_errors() {
    let vocab = entries(&[("a", 0)]);
    assert!(matches!(
        LlamaTokenizer::from_parts(vocab.clone(), vec!["a b".to_string()], vec![]),
        Err(TokenizerError::MissingBos)
    ));
    let vocab_bos = entries(&[("<s>", 0)]);
    assert!(matches!(
        LlamaTokenizer::from_parts(vocab_bos.clone(), vec!["a b".to_string(), "ab".to_string()], vec![]),
        Err(TokenizerError::MalformedMerge(1))
    ));
    // A merge with no space is reported before a missing `<s>`.
    assert!(matches!(
        LlamaTokenizer::from_parts(vocab, vec!["ab".to_string()], vec![]),
        Err(TokenizerError::MalformedMerge(0))
    ));
    // `splitn(2, ' ')`: the right half keeps any further spaces.
    let t = LlamaTokenizer::from_parts(
        entries(&[("<s>", 0), ("a", 1), ("\u{2581}", 2), ("\u{2581}a", 3)]),
        vec!["\u{2581} a".to_string()],
        vec![],
    )
    .unwrap();
    assert_eq!(t.encode("a"), vec![0, 3]);
    // `<s>` is not special here, so decoding keeps it.
    assert_eq!(t.decode(&[0, 3]), "<s> a");
}

#[test]
fn llama_special_ids_leave_no_trace() {
    let t = llama();
    // A special id between two byte tokens does not end the run of bytes.
    assert_eq!(t.decode(&[3, 2, 4]), t.decode(&[3, 4]));
    assert_eq!(t.decode(&[3, 2, 4]), "é");
    assert_eq!(t.decode(&[0, 6, 1, 7, 2]), t.decode(&[6, 7]));
}

#[test]
fn gpt2_words_encode_independently() {
    let t = gpt2();
    let whole = t.encode("hello world");
    let mut parts = t.encode("hello");
    parts.extend(t.encode(" world"));
    assert_eq!(whole, parts);
}

#[test]
fn llama_decode_of_concatenation() {
    let t = llama();
    let (a, b) = (vec![1, 9, 6], vec![3, 4, 9]);
    let joined: Vec<usize> = a.iter().chain(b.iter()).cloned().collect();
    assert_eq!(t.decode(&joined), t.decode(&a) + &t.decode(&b));
    assert_eq!(t.decode(&[]), "");
}

#[test]
fn llama_decode_inverts_byte_fallback() {
    let t = llama();
    assert_eq!(t.byte_fallback('é'), vec!["<0xC3>", "<0xA9>"]);
    assert_eq!(t.decode(&[3, 4]), "é");
    assert_eq!(t.byte_fallback('A'), vec!["<0x41>"]);
    assert_eq!(t.decode(&[10]), "A");
}

#[test]
fn gpt2_is_byte_level() {
    // "é" is the bytes C3 A9, written "Ã" and "©"; a tab is byte 09, written "ĉ".
    let vocab = entries(&[("\u{C3}", 0), ("\u{A9}", 1), ("\u{C3}\u{A9}", 2), ("\u{109}", 3), ("a", 4), ("\u{120}", 5)]);
    let merges = vec![("\u{C3}".to_string(), "\u{A9}".to_string())];
    let t = Tokenizer::from_parts(vocab, merges);
    assert_eq!(t.encode("\u{e9}"), vec![2]);
    assert_eq!(t.encode("a\ta \u{e9}"), vec![4, 3, 4, 5, 2]);
    for text in ["\u{e9}", "a\ta \u{e9}", "\t", " a"] {
        assert_eq!(t.decode(&t.encode(text)), text);
    }
    // A lone continuation byte decodes as a replacement character.
    assert_eq!(t.decode(&[1]), "\u{FFFD}");
    assert_eq!(t.decode(&[0, 1]), "\u{e9}");
}
