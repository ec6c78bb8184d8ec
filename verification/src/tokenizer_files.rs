//! Building the tokenizers from the text of their files: Llama's
//! `tokenizer.json`, and GPT-2's `vocab.json` with `merges.txt`.
use vstd::prelude::*;
use crate::json::{
    count_fields,
    count_of,
    counts_of,
    field,
    field_of,
    get_field,
    get_field_of,
    is_true,
    json_of,
    opt,
    parse_json,
    text_items,
    texts_of,
    true_value,
    count_value,
    Json,
};
use crate::number::{id_fields, ids_of_fields};
use crate::tokenizer::{bos_text, llama_built, LlamaTokenizer, Tokenizer};
use crate::vocab::{
    gpt2_merge_lines,
    gpt2_merge_pair,
    gpt2_merge_pairs,
    parse_merges,
    rank_map,
    reverse_map,
    split_once,
    vocab_map,
    TokenizerError,
};

verus! {

/// The vocabulary of a `tokenizer.json`: the counts of `model.vocab`.
pub open spec fn llama_json_vocab(root: Json) -> Option<Seq<(Seq<char>, usize)>> {
    counts_of(field_of(field(root, "model"@), "vocab"@))
}

/// The merges of a `tokenizer.json`: the strings of `model.merges`.
pub open spec fn llama_json_merges(root: Json) -> Option<Seq<Seq<char>>> {
    texts_of(field_of(field(root, "model"@), "merges"@))
}

/// An added token as `(id, special)`: one marked `"special": true` needs a
/// count as its `id`; any other counts as not special.
pub open spec fn added_entry(t: Json) -> Option<(usize, bool)> {
    if is_true(field(t, "special"@)) {
        match count_of(field(t, "id"@)) {
            Some(id) => Some((id, true)),
            None => None,
        }
    } else {
        Some((0usize, false))
    }
}

/// The added tokens of a `tokenizer.json`: none unless `added_tokens` is an
/// array; `None` where a special one has no id.
pub open spec fn llama_json_added(root: Json) -> Option<Seq<(usize, bool)>> {
    match field(root, "added_tokens"@) {
        Some(Json::Array(ts)) => if forall|i: int| 0 <= i < ts.len() ==> (#[trigger] added_entry(ts@[i])) is Some {
            Some(Seq::new(ts.len() as nat, |i: int| added_entry(ts@[i]).unwrap()))
        } else {
            None
        },
        _ => Some(seq![]),
    }
}

fn added_tokens_of(root: &Json) -> (r: Option<Vec<(usize, bool)>>)
    ensures
        match r {
            Some(v) => llama_json_added(*root) == Some(v@),
            None => llama_json_added(*root) is None,
        },
{
    let list = get_field(root, "added_tokens");
    match list {
        Some(Json::Array(ts)) => {
            let mut out: Vec<(usize, bool)> = Vec::new();
            for i in 0..ts.len()
                invariant
                    field(*root, "added_tokens"@) == Some(Json::Array(*ts)),
                    out@.len() == i,
                    forall|m: int| 0 <= m < i ==> (#[trigger] added_entry(ts@[m])) is Some,
                    forall|m: int| 0 <= m < i ==> Some(#[trigger] out@[m]) == added_entry(ts@[m]),
            {
                let t = &ts[i];
                if true_value(get_field(t, "special")) {
                    match count_value(get_field(t, "id")) {
                        Some(id) => {
                            out.push((id, true));
                        },
                        None => {
                            assert(added_entry(ts@[i as int]) is None);
                            return None;
                        },
                    }
                } else {
                    out.push((0, false));
                }
            }
            assert(out@ =~= Seq::new(ts.len() as nat, |i: int| added_entry(ts@[i]).unwrap()));
            Some(out)
        },
        _ => {
            assert(llama_json_added(*root) == Some(Seq::<(usize, bool)>::empty()));
            Some(Vec::new())
        },
    }
}

/// A `tokenizer.json` the original loader accepts without a panic: JSON
/// whose fields have their shapes, whose merges all have a space, and whose
/// vocabulary has `<s>`.
pub open spec fn llama_json_loads(j: Option<Json>) -> bool {
    &&& j matches Some(root)
    &&& llama_json_vocab(root) matches Some(ev)
    &&& llama_json_merges(root) matches Some(mv)
    &&& llama_json_added(root) is Some
    &&& forall|i: int| 0 <= i < mv.len() ==> split_once(#[trigger] mv[i], ' ') is Some
    &&& vocab_map(ev).contains_key(bos_text())
}

impl LlamaTokenizer {
    /// The tokenizer of the text of a `tokenizer.json` that loads (see
    /// `llama_json_loads`; the original panics on any other): the
    /// vocabulary from `model.vocab`, the merges from `model.merges`, the
    /// special ids from `added_tokens`.
    pub fn new(text: &str) -> (t: LlamaTokenizer)
        requires
            llama_json_loads(json_of(text@)),
        ensures
            ({
                let root = json_of(text@).unwrap();
                llama_built(
                    llama_json_vocab(root).unwrap(),
                    llama_json_merges(root).unwrap(),
                    llama_json_added(root).unwrap(),
                    Ok::<LlamaTokenizer, TokenizerError>(t),
                )
            }),
    {
        let root = parse_json(text).unwrap();
        let model = get_field(&root, "model");
        assert(opt(model) == field(root, "model"@));
        let vocab = count_fields(get_field_of(model, "vocab")).unwrap();
        let merges = text_items(get_field_of(model, "merges")).unwrap();
        let added = added_tokens_of(&root).unwrap();
        let r = LlamaTokenizer::from_parts(vocab, merges, added);
        proof {
            let ev = llama_json_vocab(root).unwrap();
            let mv = llama_json_merges(root).unwrap();
            assert(llama_built(ev, mv, llama_json_added(root).unwrap(), r));
            if let Err(TokenizerError::MalformedMerge(i)) = r {
                assert(split_once(mv[i as int], ' ') is Some);
            }
        }
        r.unwrap()
    }

    /// Builds the tokenizer from the text of its `tokenizer.json`, as `new`
    /// does, but reports what the original panics on: `MalformedJson` where
    /// the text is not JSON or one of these fields lacks its shape, then
    /// the first merge without a space, then a missing `<s>`.
    pub fn from_json(text: &str) -> (r: Result<LlamaTokenizer, TokenizerError>)
        ensures
            match json_of(text@) {
                None => r == Err::<LlamaTokenizer, TokenizerError>(TokenizerError::MalformedJson),
                Some(root) => match (llama_json_vocab(root), llama_json_merges(root), llama_json_added(root)) {
                    (Some(ev), Some(mv), Some(added)) => llama_built(ev, mv, added, r),
                    _ => r == Err::<LlamaTokenizer, TokenizerError>(TokenizerError::MalformedJson),
                },
            },
    {
        let root = match parse_json(text) {
            Some(j) => j,
            None => {
                return Err(TokenizerError::MalformedJson);
            },
        };
        let model = get_field(&root, "model");
        let vocab = match count_fields(get_field_of(model, "vocab")) {
            Some(v) => v,
            None => {
                return Err(TokenizerError::MalformedJson);
            },
        };
        let merges = match text_items(get_field_of(model, "merges")) {
            Some(m) => m,
            None => {
                return Err(TokenizerError::MalformedJson);
            },
        };
        let added = match added_tokens_of(&root) {
            Some(a) => a,
            None => {
                return Err(TokenizerError::MalformedJson);
            },
        };
        assert(opt(model) == field(root, "model"@));
        match LlamaTokenizer::from_parts(vocab, merges, added) {
            Ok(_) => Ok(LlamaTokenizer::new(text)),
            Err(e) => Err(e),
        }
    }
}

/// Every line of a merges file names a pair.
pub open spec fn all_lines_pair(lines: Seq<Seq<char>>) -> bool {
    forall|j: int| 0 <= j < lines.len() ==> gpt2_merge_pair(#[trigger] lines[j]) is Some
}

/// A `vocab.json` and `merges.txt` the original loader accepts without a
/// panic: JSON that is an object of numbers, and merge lines that all name
/// a pair.
pub open spec fn gpt2_files_load(vocab_json: Seq<char>, merges: Seq<char>) -> bool {
    &&& json_of(vocab_json) is Some
    &&& all_lines_pair(gpt2_merge_lines(merges))
    &&& ids_of_fields(json_of(vocab_json)) is Some
}

impl Tokenizer {
    /// The tokenizer of the text of a `vocab.json` (token texts and their
    /// ids, each number read as a float cast to an integer would be; see
    /// `number_count`) and of a `merges.txt`, where both load (see
    /// `gpt2_files_load`; the original panics on any other).
    pub fn new(vocab_json: &str, merges: &str) -> (t: Tokenizer)
        requires
            gpt2_files_load(vocab_json@, merges@),
        ensures
            ({
                let ev = ids_of_fields(json_of(vocab_json@)).unwrap();
                let lines = gpt2_merge_lines(merges@);
                &&& t@.vocab == vocab_map(ev)
                &&& t@.tokens == reverse_map(ev)
                &&& t@.ranks == rank_map(gpt2_merge_pairs(lines))
            }),
    {
        let root = parse_json(vocab_json).unwrap();
        let pairs = parse_merges(merges);
        proof {
            if let Err(TokenizerError::MalformedMerge(i)) = pairs {
                assert(gpt2_merge_pair(gpt2_merge_lines(merges@)[i as int]) is Some);
            }
        }
        let pairs = pairs.unwrap();
        let vocab = id_fields(Some(&root)).unwrap();
        Tokenizer::from_parts(vocab, pairs)
    }

    /// Builds the tokenizer from the text of its `vocab.json` and of its
    /// `merges.txt`, as `new` does, but reports what the original panics
    /// on: `MalformedJson` where the vocabulary is not JSON; then the first
    /// merge line without a pair is `MalformedMerge`; then `MalformedJson`
    /// where the vocabulary is not an object of numbers.
    pub fn from_texts(vocab_json: &str, merges: &str) -> (r: Result<Tokenizer, TokenizerError>)
        ensures
            ({
                let lines = gpt2_merge_lines(merges@);
                match r {
                    Ok(t) => {
                        &&& gpt2_files_load(vocab_json@, merges@)
                        &&& ids_of_fields(json_of(vocab_json@)) matches Some(ev)
                        &&& t@.vocab == vocab_map(ev)
                        &&& t@.tokens == reverse_map(ev)
                        &&& t@.ranks == rank_map(gpt2_merge_pairs(lines))
                    },
                    Err(TokenizerError::MalformedJson) => json_of(vocab_json@) is None || (all_lines_pair(
                        lines,
                    ) && ids_of_fields(json_of(vocab_json@)) is None),
                    Err(TokenizerError::MalformedMerge(i)) => {
                        &&& json_of(vocab_json@) is Some
                        &&& 0 <= i < lines.len()
                        &&& gpt2_merge_pair(lines[i as int]) is None
                        &&& forall|j: int| 0 <= j < i ==> gpt2_merge_pair(#[trigger] lines[j]) is Some
                    },
                    Err(TokenizerError::MissingBos) => false,
                }
            }),
    {
        let root = match parse_json(vocab_json) {
            Some(j) => j,
            None => {
                return Err(TokenizerError::MalformedJson);
            },
        };
        match parse_merges(merges) {
            Ok(_) => {},
            Err(e) => {
                return Err(e);
            },
        }
        match id_fields(Some(&root)) {
            Some(_) => Ok(Tokenizer::new(vocab_json, merges)),
            None => Err(TokenizerError::MalformedJson),
        }
    }
}

} // verus!
