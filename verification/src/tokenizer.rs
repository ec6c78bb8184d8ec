//! The two tokenizers: GPT-2's byte-level BPE over space-separated words,
//! and Llama's SentencePiece BPE with byte fallback.
use vstd::prelude::*;
use vstd::hash_map::{HashMapWithView, StringHashMap};
use vstd::hash_set::HashSetWithView;
use vstd::utf8::encode_utf8;
use crate::byte_level::{
    byte_char,
    byte_char_of,
    byte_chars,
    char_bytes,
    char_to_byte,
    lemma_byte_chars_concat,
    lemma_encode_utf8_concat,
    lemma_text_bytes_concat,
    text_bytes,
};
use crate::bpe::{apply_merges, bpe, string_views, MergeTable, SymbolPair};
use crate::text::{
    byte_token,
    byte_token_value,
    char_utf8,
    chars_of,
    decode_utf8_lossy,
    make_byte_token,
    push_char,
    read_byte_token,
    split_chars,
    split_on,
    string_from_chars,
    lossy_text,
};
use crate::vocab::{
    build_ranks,
    build_vocab,
    entries_view,
    llama_merge_pairs,
    rank_map,
    pairs_view,
    reverse_map,
    split_llama_merges,
    split_once,
    token_texts,
    vocab_map,
    TokenizerError,
};

verus! {

broadcast use vstd::std_specs::hash::group_hash_axioms;

/// The word separator of SentencePiece (U+2581, "lower one eighth block").
pub open spec fn sp_space() -> char {
    '\u{2581}'
}

/// The space marker of GPT-2's byte-level alphabet (U+0120).
pub open spec fn gpt2_space() -> char {
    '\u{120}'
}

/// The text of the beginning-of-sequence token.
pub open spec fn bos_text() -> Seq<char> {
    seq!['<', 's', '>']
}

/// One-character symbols, one per character of `w`.
pub open spec fn singletons(w: Seq<char>) -> Seq<Seq<char>> {
    w.map_values(|c: char| seq![c])
}

/// The ids of symbols.
pub open spec fn ids_of(vocab: Map<Seq<char>, usize>, syms: Seq<Seq<char>>) -> Seq<usize> {
    syms.map_values(|s: Seq<char>| vocab[s])
}

/// Every symbol is in the vocabulary.
pub open spec fn all_known(vocab: Map<Seq<char>, usize>, syms: Seq<Seq<char>>) -> bool {
    forall|j: int| 0 <= j < syms.len() ==> vocab.contains_key(#[trigger] syms[j])
}

// ---------------------------------------------------------------------------
// Llama
// ---------------------------------------------------------------------------
/// What a Llama tokenizer holds, as mathematical maps.
pub struct LlamaModel {
    /// Token text to id.
    pub vocab: Map<Seq<char>, usize>,
    /// Id to token text.
    pub tokens: Map<usize, Seq<char>>,
    /// Merge pair to rank.
    pub ranks: Map<SymbolPair, usize>,
    /// The id of `<s>`.
    pub bos: usize,
    /// The ids that decoding leaves out.
    pub special: Set<usize>,
}

/// The text SentencePiece tokenizes: a leading word separator, and every
/// space turned into one.
pub open spec fn llama_normalize(text: Seq<char>) -> Seq<char> {
    seq![sp_space()] + text.map_values(|c: char| if c == ' ' { sp_space() } else { c })
}

/// The byte tokens of a byte sequence.
pub open spec fn byte_tokens(bytes: Seq<u8>) -> Seq<Seq<char>> {
    bytes.map_values(|b: u8| byte_token(b))
}

/// The byte tokens of the UTF-8 encoding of `c`.
pub open spec fn byte_fallback_tokens(c: char) -> Seq<Seq<char>> {
    byte_tokens(encode_utf8(seq![c]))
}

/// The starting symbols for one character: itself if the vocabulary has
/// it, else its byte tokens.
pub open spec fn char_symbols(vocab: Map<Seq<char>, usize>, c: char) -> Seq<Seq<char>> {
    if vocab.contains_key(seq![c]) {
        seq![seq![c]]
    } else {
        byte_fallback_tokens(c)
    }
}

/// The starting symbols for a normalized text.
pub open spec fn initial_symbols(vocab: Map<Seq<char>, usize>, chars: Seq<char>) -> Seq<Seq<char>> {
    chars.map_values(|c: char| char_symbols(vocab, c)).flatten()
}

/// The symbols a Llama tokenizer encodes `text` into.
pub open spec fn llama_symbols(m: LlamaModel, text: Seq<char>) -> Seq<Seq<char>> {
    bpe(m.ranks, initial_symbols(m.vocab, llama_normalize(text)))
}

/// Encoding `text` does not fail: every symbol has an id.
pub open spec fn llama_can_encode(m: LlamaModel, text: Seq<char>) -> bool {
    all_known(m.vocab, llama_symbols(m, text))
}

/// The ids a Llama tokenizer encodes `text` into: `<s>`, then the ids of
/// the symbols.
pub open spec fn llama_encode(m: LlamaModel, text: Seq<char>) -> Seq<usize> {
    seq![m.bos] + ids_of(m.vocab, llama_symbols(m, text))
}

/// The text of a token as decoding shows it: word separators turned back
/// into spaces.
pub open spec fn llama_piece(t: Seq<char>) -> Seq<char> {
    t.map_values(|c: char| if c == sp_space() { ' ' } else { c })
}

/// Pending bytes, decoded and added to the output.
pub open spec fn flush(out: Seq<char>, buf: Seq<u8>) -> Seq<char> {
    if buf.len() == 0 {
        out
    } else {
        out + lossy_text(buf)
    }
}

/// The output so far and the pending bytes after decoding `ids`: special
/// ids are left out, byte tokens gather their bytes, any other token first
/// decodes the pending bytes and then adds its text.
pub open spec fn llama_decode_state(m: LlamaModel, ids: Seq<usize>) -> (Seq<char>, Seq<u8>)
    decreases ids.len(),
{
    if ids.len() == 0 {
        (seq![], seq![])
    } else {
        let (out, buf) = llama_decode_state(m, ids.drop_last());
        let id = ids.last();
        if m.special.contains(id) {
            (out, buf)
        } else {
            let piece = llama_piece(m.tokens[id]);
            match byte_token_value(piece) {
                Some(b) => (out, buf.push(b)),
                None => (flush(out, buf) + piece, seq![]),
            }
        }
    }
}

/// The text a Llama tokenizer decodes `ids` into.
pub open spec fn llama_decode(m: LlamaModel, ids: Seq<usize>) -> Seq<char> {
    let (out, buf) = llama_decode_state(m, ids);
    flush(out, buf)
}

/// Decoding `ids` does not fail: every id that is not special has a token.
pub open spec fn llama_can_decode(m: LlamaModel, ids: Seq<usize>) -> bool {
    forall|j: int| 0 <= j < ids.len() ==> m.special.contains(#[trigger] ids[j]) || m.tokens.contains_key(ids[j])
}

/// The ids marked special among added tokens.
pub open spec fn special_ids_of(added: Seq<(usize, bool)>) -> Set<usize> {
    Set::new(|id: usize| exists|j: int| 0 <= j < added.len() && #[trigger] added[j] == (id, true))
}

/// What building a Llama tokenizer from vocabulary entries `ev`, merges
/// `mv` and added tokens `added` gives: the first merge without a space is
/// an error, then a vocabulary without `<s>`; else the tokenizer with these
/// maps.
pub open spec fn llama_built(
    ev: Seq<(Seq<char>, usize)>,
    mv: Seq<Seq<char>>,
    added: Seq<(usize, bool)>,
    r: Result<LlamaTokenizer, TokenizerError>,
) -> bool {
    let all_split = forall|j: int| 0 <= j < mv.len() ==> split_once(#[trigger] mv[j], ' ') is Some;
    match r {
        Ok(t) => {
            &&& all_split
            &&& vocab_map(ev).contains_key(bos_text())
            &&& t@.vocab == vocab_map(ev)
            &&& t@.tokens == reverse_map(ev)
            &&& t@.ranks == rank_map(llama_merge_pairs(mv))
            &&& t@.bos == vocab_map(ev)[bos_text()]
            &&& t@.special == special_ids_of(added)
        },
        Err(TokenizerError::MissingBos) => all_split && !vocab_map(ev).contains_key(bos_text()),
        Err(TokenizerError::MalformedMerge(i)) => crate::vocab::first_unsplittable(mv, i as int),
        Err(TokenizerError::MalformedJson) => false,
    }
}

/// The tokenizer of Llama models: SentencePiece BPE with byte fallback.
pub struct LlamaTokenizer {
    vocab: StringHashMap<usize>,
    reverse_vocab: HashMapWithView<usize, String>,
    merge_ranks: MergeTable,
    bos_id: usize,
    special_ids: HashSetWithView<usize>,
}

impl View for LlamaTokenizer {
    type V = LlamaModel;

    closed spec fn view(&self) -> LlamaModel {
        LlamaModel {
            vocab: self.vocab@,
            tokens: token_texts(self.reverse_vocab@),
            ranks: self.merge_ranks@,
            bos: self.bos_id,
            special: self.special_ids@,
        }
    }
}

impl LlamaTokenizer {
    #[verifier::type_invariant]
    closed spec fn inv(&self) -> bool {
        self.merge_ranks.wf()
    }

    /// Builds the tokenizer from the parts of its `tokenizer.json`: the
    /// vocabulary as `(text, id)` entries, the merges as `"a b"` strings in
    /// rank order, and the added tokens as `(id, special)`.
    ///
    /// Fails on the first merge without a space, and then if there is no
    /// `<s>` token.
    pub fn from_parts(vocab: Vec<(String, usize)>, merges: Vec<String>, added_tokens: Vec<(usize, bool)>) -> (r: Result<LlamaTokenizer, TokenizerError>)
        ensures
            llama_built(entries_view(vocab@), string_views(merges@), added_tokens@, r),
    {
        let (ids, texts) = build_vocab(&vocab);
        let pairs = match split_llama_merges(&merges) {
            Ok(p) => p,
            Err(e) => {
                return Err(e);
            },
        };
        let ranks = build_ranks(&pairs);
        let bos_id = match ids.get("<s>") {
            Some(id) => *id,
            None => {
                proof {
                    reveal_strlit("<s>");
                    assert("<s>"@ =~= bos_text());
                }
                return Err(TokenizerError::MissingBos);
            },
        };
        proof {
            reveal_strlit("<s>");
            assert("<s>"@ =~= bos_text());
        }
        let mut special: HashSetWithView<usize> = HashSetWithView::new();
        for j in 0..added_tokens.len()
            invariant
                special@ == Set::new(
                    |id: usize| exists|k: int| 0 <= k < j && #[trigger] added_tokens@[k] == (id, true),
                ),
        {
            let (id, is_special) = added_tokens[j];
            if is_special {
                special.insert(id);
            }
            assert(special@ =~= Set::new(
                |id: usize| exists|k: int| 0 <= k < j + 1 && #[trigger] added_tokens@[k] == (id, true),
            )) by {
                assert forall|x: usize| special@.contains(x) implies exists|k: int|
                    0 <= k < j + 1 && #[trigger] added_tokens@[k] == (x, true) by {
                    if is_special && x == id {
                        assert(added_tokens@[j as int] == (x, true));
                    }
                }
            }
        }
        assert(special@ =~= special_ids_of(added_tokens@));
        Ok(LlamaTokenizer { vocab: ids, reverse_vocab: texts, merge_ranks: ranks, bos_id, special_ids: special })
    }

    /// Splits one character into the byte tokens of its UTF-8 encoding
    /// (e.g. 'é' -> ["<0xC3>", "<0xA9>"]), used when the character is not
    /// in the vocabulary.
    pub fn byte_fallback(&self, c: char) -> (r: Vec<String>)
        ensures
            string_views(r@) == byte_fallback_tokens(c),
    {
        let bytes = char_utf8(c);
        let mut r: Vec<String> = Vec::new();
        for i in 0..bytes.len()
            invariant
                bytes@ == encode_utf8(seq![c]),
                string_views(r@) == byte_tokens(bytes@.take(i as int)),
        {
            let t = make_byte_token(bytes[i]);
            let ghost before = r@;
            r.push(t);
            assert(string_views(r@) =~= string_views(before).push(byte_token(bytes@[i as int])));
            assert(bytes@.take(i + 1) =~= bytes@.take(i as int).push(bytes@[i as int]));
            assert(byte_tokens(bytes@.take(i + 1)) =~= byte_tokens(bytes@.take(i as int)).push(
                byte_token(bytes@[i as int]),
            ));
        }
        assert(bytes@.take(bytes.len() as int) =~= bytes@);
        r
    }

    /// The starting symbols of `text`: normalized, each character by
    /// itself or by its byte tokens.
    fn initial_symbols_of(&self, text: &str) -> (r: Vec<String>)
        ensures
            string_views(r@) == initial_symbols(self@.vocab, llama_normalize(text@)),
    {
        let chars = chars_of(text);
        let mut norm: Vec<char> = Vec::new();
        norm.push('\u{2581}');
        for i in 0..chars.len()
            invariant
                chars@ == text@,
                norm@ == seq![sp_space()] + text@.take(i as int).map_values(
                    |c: char| if c == ' ' { sp_space() } else { c },
                ),
        {
            let c = chars[i];
            if c == ' ' {
                norm.push('\u{2581}');
            } else {
                norm.push(c);
            }
            assert(norm@ =~= seq![sp_space()] + text@.take(i + 1).map_values(
                |c: char| if c == ' ' { sp_space() } else { c },
            ));
        }
        assert(text@.take(chars.len() as int) =~= text@);
        let ghost nv = norm@;
        assert(nv == llama_normalize(text@));
        let mut symbols: Vec<String> = Vec::new();
        for i in 0..norm.len()
            invariant
                nv == norm@,
                string_views(symbols@) == nv.take(i as int).map_values(
                    |c: char| char_symbols(self@.vocab, c),
                ).flatten(),
        {
            let c = norm[i];
            let mut one = String::new();
            push_char(&mut one, c);
            let ghost prev = string_views(symbols@);
            let ghost pieces = nv.take(i as int).map_values(|c: char| char_symbols(self@.vocab, c));
            assert(nv.take(i + 1).map_values(|c: char| char_symbols(self@.vocab, c)) =~= pieces.push(
                char_symbols(self@.vocab, c),
            ));
            proof {
                pieces.lemma_flatten_push(char_symbols(self@.vocab, c));
            }
            assert(one@ =~= seq![c]);
            if self.vocab.contains_key(one.as_str()) {
                symbols.push(one);
                assert(string_views(symbols@) =~= prev + seq![seq![c]]);
            } else {
                let fallback = self.byte_fallback(c);
                let mut k: usize = 0;
                while k < fallback.len()
                    invariant
                        k <= fallback.len(),
                        string_views(fallback@) == byte_fallback_tokens(c),
                        string_views(symbols@) == prev + string_views(fallback@).take(k as int),
                    decreases fallback.len() - k,
                {
                    let ghost before = symbols@;
                    let t = fallback[k].clone();
                    symbols.push(t);
                    assert(string_views(symbols@) =~= string_views(before).push(fallback@[k as int]@));
                    assert(string_views(fallback@).take(k + 1) =~= string_views(fallback@).take(
                        k as int,
                    ).push(fallback@[k as int]@));
                    assert(string_views(symbols@) =~= prev + string_views(fallback@).take(k + 1));
                    k = k + 1;
                }
                assert(string_views(fallback@).take(k as int) =~= string_views(fallback@));
            }
        }
        assert(nv.take(norm.len() as int) =~= nv);
        symbols
    }

    /// The ids of `text`, or `None` where some symbol has no id.
    pub fn try_encode(&self, text: &str) -> (r: Option<Vec<usize>>)
        ensures
            match r {
                Some(ids) => llama_can_encode(self@, text@) && ids@ == llama_encode(self@, text@),
                None => !llama_can_encode(self@, text@),
            },
    {
        proof {
            use_type_invariant(self);
        }
        let mut symbols = self.initial_symbols_of(text);
        apply_merges(&self.merge_ranks, &mut symbols);
        let ghost syms = string_views(symbols@);
        assert(syms == llama_symbols(self@, text@));
        let mut ids: Vec<usize> = Vec::new();
        ids.push(self.bos_id);
        for i in 0..symbols.len()
            invariant
                syms == string_views(symbols@),
                syms == llama_symbols(self@, text@),
                all_known(self@.vocab, syms.take(i as int)),
                ids@ == seq![self@.bos] + ids_of(self@.vocab, syms.take(i as int)),
        {
            match self.vocab.get(symbols[i].as_str()) {
                Some(id) => {
                    ids.push(*id);
                    assert(syms.take(i + 1) =~= syms.take(i as int).push(syms[i as int]));
                    assert(ids@ =~= seq![self@.bos] + ids_of(self@.vocab, syms.take(i + 1)));
                },
                None => {
                    assert(!self@.vocab.contains_key(syms[i as int]));
                    return None;
                },
            }
        }
        assert(syms.take(symbols.len() as int) =~= syms);
        Some(ids)
    }

    /// The ids of `text`: `<s>`, then the ids of its symbols after
    /// byte-pair merging.
    pub fn encode(&self, text: &str) -> (ids: Vec<usize>)
        requires
            llama_can_encode(self@, text@),
        ensures
            ids@ == llama_encode(self@, text@),
    {
        match self.try_encode(text) {
            Some(ids) => ids,
            None => Vec::new(),
        }
    }

    /// The text of `token_ids`, or `None` where an id that is not special
    /// has no token.
    pub fn try_decode(&self, token_ids: &[usize]) -> (r: Option<String>)
        ensures
            match r {
                Some(s) => llama_can_decode(self@, token_ids@) && s@ == llama_decode(self@, token_ids@),
                None => !llama_can_decode(self@, token_ids@),
            },
    {
        let mut out = String::new();
        let mut byte_buf: Vec<u8> = Vec::new();
        for i in 0..token_ids.len()
            invariant
                (out@, byte_buf@) == llama_decode_state(self@, token_ids@.take(i as int)),
                llama_can_decode(self@, token_ids@.take(i as int)),
        {
            let id = token_ids[i];
            let ghost pre = token_ids@.take(i as int);
            assert(token_ids@.take(i + 1).drop_last() =~= pre);
            assert(token_ids@.take(i + 1).last() == id);
            if self.special_ids.contains(&id) {
                assert(llama_can_decode(self@, token_ids@.take(i + 1)));
            } else {
                match self.reverse_vocab.get(&id) {
                    None => {
                        assert(!self@.tokens.contains_key(id));
                        assert(token_ids@[i as int] == id);
                        return None;
                    },
                    Some(token) => {
                        let chars = chars_of(token.as_str());
                        let mut piece: Vec<char> = Vec::new();
                        for k in 0..chars.len()
                            invariant
                                piece@ == chars@.take(k as int).map_values(
                                    |c: char| if c == sp_space() { ' ' } else { c },
                                ),
                        {
                            let c = chars[k];
                            if c == '\u{2581}' {
                                piece.push(' ');
                            } else {
                                piece.push(c);
                            }
                            assert(piece@ =~= chars@.take(k + 1).map_values(
                                |c: char| if c == sp_space() { ' ' } else { c },
                            ));
                        }
                        assert(chars@.take(chars.len() as int) =~= chars@);
                        assert(piece@ == llama_piece(self@.tokens[id]));
                        match read_byte_token(piece.as_slice()) {
                            Some(b) => {
                                byte_buf.push(b);
                            },
                            None => {
                                if byte_buf.len() > 0 {
                                    let decoded = decode_utf8_lossy(byte_buf.as_slice());
                                    out.append(decoded.as_str());
                                    byte_buf = Vec::new();
                                }
                                let text = string_from_chars(piece.as_slice());
                                out.append(text.as_str());
                            },
                        }
                    },
                }
                assert(llama_can_decode(self@, token_ids@.take(i + 1)));
            }
        }
        assert(token_ids@.take(token_ids.len() as int) =~= token_ids@);
        if byte_buf.len() > 0 {
            let decoded = decode_utf8_lossy(byte_buf.as_slice());
            out.append(decoded.as_str());
        }
        Some(out)
    }

    /// The text of `token_ids`: special ids left out, runs of byte tokens
    /// decoded as UTF-8, other tokens with word separators as spaces.
    pub fn decode(&self, token_ids: &[usize]) -> (s: String)
        requires
            llama_can_decode(self@, token_ids@),
        ensures
            s@ == llama_decode(self@, token_ids@),
    {
        match self.try_decode(token_ids) {
            Some(s) => s,
            None => String::new(),
        }
    }
}

// ---------------------------------------------------------------------------
// GPT-2
// ---------------------------------------------------------------------------
/// What a GPT-2 tokenizer holds, as mathematical maps.
pub struct Gpt2Model {
    /// Token text to id.
    pub vocab: Map<Seq<char>, usize>,
    /// Id to token text.
    pub tokens: Map<usize, Seq<char>>,
    /// Merge pair to rank.
    pub ranks: Map<SymbolPair, usize>,
}

/// A piece of text in GPT-2's byte-level alphabet: the characters its
/// UTF-8 bytes stand for.
pub open spec fn gpt2_marked(p: Seq<char>) -> Seq<char> {
    byte_chars(encode_utf8(p))
}

/// The words of a text: cut at every space, each written in the
/// byte-level alphabet, each after the first starting with the character
/// of the space byte.
pub open spec fn gpt2_words(text: Seq<char>) -> Seq<Seq<char>> {
    let pieces = split_on(text, ' ');
    Seq::new(
        pieces.len(),
        |i: int|
            if i == 0 {
                gpt2_marked(pieces[0])
            } else {
                seq![gpt2_space()] + gpt2_marked(pieces[i])
            },
    )
}

/// The symbols of each word after byte-pair merging.
pub open spec fn gpt2_word_symbols(ranks: Map<SymbolPair, usize>, text: Seq<char>) -> Seq<Seq<Seq<char>>> {
    gpt2_words(text).map_values(|w: Seq<char>| bpe(ranks, singletons(w)))
}

/// Encoding `text` does not fail: every symbol has an id.
pub open spec fn gpt2_can_encode(m: Gpt2Model, text: Seq<char>) -> bool {
    forall|i: int|
        0 <= i < gpt2_word_symbols(m.ranks, text).len() ==> all_known(
            m.vocab,
            #[trigger] gpt2_word_symbols(m.ranks, text)[i],
        )
}

/// The ids a GPT-2 tokenizer encodes `text` into: word by word, the ids of
/// its symbols.
pub open spec fn gpt2_encode(m: Gpt2Model, text: Seq<char>) -> Seq<usize> {
    gpt2_word_symbols(m.ranks, text).map_values(|syms: Seq<Seq<char>>| ids_of(m.vocab, syms)).flatten()
}

/// The texts of the tokens of `ids`, in turn.
pub open spec fn gpt2_token_text(m: Gpt2Model, ids: Seq<usize>) -> Seq<char> {
    ids.map_values(|id: usize| m.tokens[id]).flatten()
}

/// The text a GPT-2 tokenizer decodes `ids` into: the bytes the tokens'
/// characters stand for, decoded as UTF-8.
pub open spec fn gpt2_decode(m: Gpt2Model, ids: Seq<usize>) -> Seq<char> {
    lossy_text(text_bytes(gpt2_token_text(m, ids)))
}

/// Decoding `ids` does not fail: every id has a token.
pub open spec fn gpt2_can_decode(m: Gpt2Model, ids: Seq<usize>) -> bool {
    forall|j: int| 0 <= j < ids.len() ==> m.tokens.contains_key(#[trigger] ids[j])
}

/// The tokenizer of GPT-2 models: byte-level BPE over words.
pub struct Tokenizer {
    vocab: StringHashMap<usize>,
    reverse_vocab: HashMapWithView<usize, String>,
    merge_ranks: MergeTable,
}

impl View for Tokenizer {
    type V = Gpt2Model;

    closed spec fn view(&self) -> Gpt2Model {
        Gpt2Model {
            vocab: self.vocab@,
            tokens: token_texts(self.reverse_vocab@),
            ranks: self.merge_ranks@,
        }
    }
}

impl Tokenizer {
    #[verifier::type_invariant]
    closed spec fn inv(&self) -> bool {
        self.merge_ranks.wf()
    }

    /// Builds the tokenizer from the parts of its files: the vocabulary of
    /// `vocab.json` as `(text, id)` entries and the pairs of `merges.txt`
    /// in rank order.
    pub fn from_parts(vocab: Vec<(String, usize)>, merges: Vec<(String, String)>) -> (t: Tokenizer)
        ensures
            t@.vocab == vocab_map(entries_view(vocab@)),
            t@.tokens == reverse_map(entries_view(vocab@)),
            t@.ranks == rank_map(pairs_view(merges@)),
    {
        let (ids, texts) = build_vocab(&vocab);
        let ranks = build_ranks(&merges);
        Tokenizer { vocab: ids, reverse_vocab: texts, merge_ranks: ranks }
    }

    /// The text of `token_ids`, or `None` where an id has no token.
    pub fn try_decode(&self, token_ids: &[usize]) -> (r: Option<String>)
        ensures
            match r {
                Some(s) => gpt2_can_decode(self@, token_ids@) && s@ == gpt2_decode(self@, token_ids@),
                None => !gpt2_can_decode(self@, token_ids@),
            },
    {
        let mut bytes: Vec<u8> = Vec::new();
        for i in 0..token_ids.len()
            invariant
                bytes@ == text_bytes(gpt2_token_text(self@, token_ids@.take(i as int))),
                gpt2_can_decode(self@, token_ids@.take(i as int)),
        {
            let id = token_ids[i];
            match self.reverse_vocab.get(&id) {
                None => {
                    assert(!self@.tokens.contains_key(token_ids@[i as int]));
                    return None;
                },
                Some(token) => {
                    let chars = chars_of(token.as_str());
                    assert(self@.tokens[id] == chars@);
                    let ghost base = bytes@;
                    for k in 0..chars.len()
                        invariant
                            bytes@ == base + text_bytes(chars@.take(k as int)),
                    {
                        let c = chars[k];
                        let ghost before = bytes@;
                        match char_to_byte(c) {
                            Some(b) => {
                                bytes.push(b);
                            },
                            None => {
                                let enc = char_utf8(c);
                                for e in 0..enc.len()
                                    invariant
                                        bytes@ == before + enc@.take(e as int),
                                {
                                    bytes.push(enc[e]);
                                    assert(bytes@ =~= before + enc@.take(e + 1));
                                }
                                assert(enc@.take(enc.len() as int) =~= enc@);
                            },
                        }
                        proof {
                            assert(chars@.take(k + 1) =~= chars@.take(k as int) + seq![c]);
                            lemma_text_bytes_concat(chars@.take(k as int), seq![c]);
                            let one = seq![c];
                            assert(one.map_values(|x: char| char_bytes(x)) =~= seq![char_bytes(c)]);
                            seq![char_bytes(c)].lemma_flatten_one_element();
                            assert(bytes@ =~= base + text_bytes(chars@.take(k + 1)));
                        }
                    }
                    proof {
                        assert(chars@.take(chars.len() as int) =~= chars@);
                        let f = |x: usize| self@.tokens[x];
                        let pre = token_ids@.take(i as int);
                        assert(token_ids@.take(i + 1) =~= pre.push(id));
                        assert(pre.push(id).map_values(f) =~= pre.map_values(f).push(chars@));
                        pre.map_values(f).lemma_flatten_push(chars@);
                        lemma_text_bytes_concat(gpt2_token_text(self@, pre), chars@);
                    }
                },
            }
        }
        assert(token_ids@.take(token_ids.len() as int) =~= token_ids@);
        let s = decode_utf8_lossy(bytes.as_slice());
        Some(s)
    }

    /// The text of `token_ids`: the bytes its tokens' characters stand for,
    /// decoded as UTF-8.
    pub fn decode(&self, token_ids: &[usize]) -> (s: String)
        requires
            gpt2_can_decode(self@, token_ids@),
        ensures
            s@ == gpt2_decode(self@, token_ids@),
    {
        match self.try_decode(token_ids) {
            Some(s) => s,
            None => String::new(),
        }
    }

    /// The ids of `text`, or `None` where some symbol has no id.
    pub fn try_encode(&self, text: &str) -> (r: Option<Vec<usize>>)
        ensures
            match r {
                Some(ids) => gpt2_can_encode(self@, text@) && ids@ == gpt2_encode(self@, text@),
                None => !gpt2_can_encode(self@, text@),
            },
    {
        proof {
            use_type_invariant(self);
        }
        let chars = chars_of(text);
        let pieces = split_chars(chars.as_slice(), ' ');
        let ghost words = gpt2_words(text@);
        let ghost per_word = gpt2_word_symbols(self@.ranks, text@);
        assert(pieces@.map_values(|p: Vec<char>| p@) == split_on(text@, ' '));
        proof {
            crate::text::lemma_split_on_nonempty(text@, ' ');
            assert(pieces@.map_values(|p: Vec<char>| p@).len() == pieces.len());
        }
        let mut all_ids: Vec<usize> = Vec::new();
        assert(per_word.len() == pieces.len());
        for w in 0..pieces.len()
            invariant
                per_word.len() == pieces.len(),
                words == gpt2_words(text@),
                per_word == gpt2_word_symbols(self@.ranks, text@),
                pieces@.map_values(|p: Vec<char>| p@) == split_on(text@, ' '),
                self.merge_ranks.wf(),
                forall|j: int| 0 <= j < w ==> all_known(self@.vocab, #[trigger] per_word[j]),
                all_ids@ == per_word.take(w as int).map_values(
                    |syms: Seq<Seq<char>>| ids_of(self@.vocab, syms),
                ).flatten(),
        {
            let word = &pieces[w];
            let mut letters: Vec<String> = Vec::new();
            if w > 0 {
                let mut marker = String::new();
                push_char(&mut marker, '\u{120}');
                letters.push(marker);
                assert(string_views(letters@) =~= seq![seq![gpt2_space()]]);
            }
            let start = letters.len();
            let ghost head = string_views(letters@);
            for k in 0..word.len()
                invariant
                    start == (if w > 0 { 1usize } else { 0usize }),
                    head.len() == start,
                    w > 0 ==> head == seq![seq![gpt2_space()]],
                    string_views(letters@) == head + singletons(gpt2_marked(word@.take(k as int))),
            {
                let enc = char_utf8(word[k]);
                let ghost before = string_views(letters@);
                for e in 0..enc.len()
                    invariant
                        string_views(letters@) == before + singletons(byte_chars(enc@.take(e as int))),
                {
                    let mut one = String::new();
                    push_char(&mut one, byte_char_of(enc[e]));
                    assert(one@ =~= seq![byte_char(enc@[e as int])]);
                    let ghost views_before = string_views(letters@);
                    letters.push(one);
                    assert(string_views(letters@) =~= views_before.push(seq![byte_char(enc@[e as int])]));
                    assert(byte_chars(enc@.take(e + 1)) =~= byte_chars(enc@.take(e as int)).push(byte_char(enc@[e as int])));
                    assert(singletons(byte_chars(enc@.take(e + 1))) =~= singletons(byte_chars(enc@.take(e as int))).push(
                        seq![byte_char(enc@[e as int])],
                    ));
                    assert(string_views(letters@) =~= before + singletons(byte_chars(enc@.take(e + 1))));
                }
                proof {
                    assert(enc@.take(enc.len() as int) =~= enc@);
                    assert(word@.take(k + 1) =~= word@.take(k as int) + seq![word@[k as int]]);
                    lemma_encode_utf8_concat(word@.take(k as int), seq![word@[k as int]]);
                    lemma_byte_chars_concat(encode_utf8(word@.take(k as int)), enc@);
                    let a = gpt2_marked(word@.take(k as int));
                    let b = byte_chars(enc@);
                    assert(singletons(a + b) =~= singletons(a) + singletons(b));
                    assert(string_views(letters@) =~= head + singletons(gpt2_marked(word@.take(k + 1))));
                }
            }
            proof {
                let pv = pieces@.map_values(|p: Vec<char>| p@);
                assert(pv[w as int] == pieces@[w as int]@);
                assert(split_on(text@, ' ')[w as int] == word@);
                let expect = singletons(words[w as int]);
                assert(word@.take(word.len() as int) =~= word@);
                if w == 0 {
                    assert(words[w as int] == gpt2_marked(word@));
                    assert(head =~= Seq::<Seq<char>>::empty());
                } else {
                    assert(words[w as int] == seq![gpt2_space()] + gpt2_marked(word@));
                    assert(expect =~= seq![seq![gpt2_space()]] + singletons(gpt2_marked(word@)));
                }
            }
            assert(string_views(letters@) =~= singletons(words[w as int]));
            apply_merges(&self.merge_ranks, &mut letters);
            let ghost syms = string_views(letters@);
            assert(syms == per_word[w as int]);
            let mut word_ids: Vec<usize> = Vec::new();
            for k in 0..letters.len()
                invariant
                    syms == string_views(letters@),
                    syms == per_word[w as int],
                    per_word == gpt2_word_symbols(self@.ranks, text@),
                    w < per_word.len(),
                    all_known(self@.vocab, syms.take(k as int)),
                    word_ids@ == ids_of(self@.vocab, syms.take(k as int)),
            {
                match self.vocab.get(letters[k].as_str()) {
                    Some(id) => {
                        word_ids.push(*id);
                        assert(syms.take(k + 1) =~= syms.take(k as int).push(syms[k as int]));
                        assert(word_ids@ =~= ids_of(self@.vocab, syms.take(k + 1)));
                    },
                    None => {
                        assert(!self@.vocab.contains_key(syms[k as int]));
                        assert(per_word[w as int][k as int] == syms[k as int]);
                        assert(!all_known(self@.vocab, per_word[w as int]));
                        return None;
                    },
                }
            }
            assert(syms.take(letters.len() as int) =~= syms);
            let ghost before = per_word.take(w as int).map_values(
                |syms: Seq<Seq<char>>| ids_of(self@.vocab, syms),
            );
            assert(per_word.take(w + 1).map_values(|syms: Seq<Seq<char>>| ids_of(self@.vocab, syms))
                =~= before.push(word_ids@));
            proof {
                before.lemma_flatten_push(word_ids@);
            }
            let mut k: usize = 0;
            let ghost base = all_ids@;
            while k < word_ids.len()
                invariant
                    k <= word_ids.len(),
                    all_ids@ == base + word_ids@.take(k as int),
                decreases word_ids.len() - k,
            {
                all_ids.push(word_ids[k]);
                assert(all_ids@ =~= base + word_ids@.take(k + 1));
                k = k + 1;
            }
            assert(word_ids@.take(k as int) =~= word_ids@);
        }
        assert(per_word.take(pieces.len() as int) =~= per_word);
        Some(all_ids)
    }

    /// The ids of `text`: cut into words at spaces, each written in the
    /// byte-level alphabet and, after the first, behind the character of
    /// the space byte, each byte-pair merged. An empty word gives no ids.
    pub fn encode(&self, text: &str) -> (ids: Vec<usize>)
        requires
            gpt2_can_encode(self@, text@),
        ensures
            ids@ == gpt2_encode(self@, text@),
    {
        match self.try_encode(text) {
            Some(ids) => ids,
            None => Vec::new(),
        }
    }
}

// ---------------------------------------------------------------------------
// Common interface
// ---------------------------------------------------------------------------
/// Common interface over the GPT-2 and Llama tokenizers, so that callers
/// can pick one at runtime without caring which scheme is behind it.
pub trait TextTokenizer {
    /// Encoding `text` does not fail.
    spec fn can_encode(&self, text: Seq<char>) -> bool;

    /// The ids `text` is encoded into.
    spec fn encoding(&self, text: Seq<char>) -> Seq<usize>;

    /// Decoding `token_ids` does not fail.
    spec fn can_decode(&self, token_ids: Seq<usize>) -> bool;

    /// The text `token_ids` are decoded into.
    spec fn decoding(&self, token_ids: Seq<usize>) -> Seq<char>;

    /// The ids of `text`.
    fn encode(&self, text: &str) -> (ids: Vec<usize>)
        requires
            self.can_encode(text@),
        ensures
            ids@ == self.encoding(text@),
    ;

    /// The text of `token_ids`.
    fn decode(&self, token_ids: &[usize]) -> (s: String)
        requires
            self.can_decode(token_ids@),
        ensures
            s@ == self.decoding(token_ids@),
    ;
}

impl TextTokenizer for Tokenizer {
    open spec fn can_encode(&self, text: Seq<char>) -> bool {
        gpt2_can_encode(self@, text)
    }

    open spec fn encoding(&self, text: Seq<char>) -> Seq<usize> {
        gpt2_encode(self@, text)
    }

    open spec fn can_decode(&self, token_ids: Seq<usize>) -> bool {
        gpt2_can_decode(self@, token_ids)
    }

    open spec fn decoding(&self, token_ids: Seq<usize>) -> Seq<char> {
        gpt2_decode(self@, token_ids)
    }

    fn encode(&self, text: &str) -> (ids: Vec<usize>) {
        Tokenizer::encode(self, text)
    }

    fn decode(&self, token_ids: &[usize]) -> (s: String) {
        Tokenizer::decode(self, token_ids)
    }
}

impl TextTokenizer for LlamaTokenizer {
    open spec fn can_encode(&self, text: Seq<char>) -> bool {
        llama_can_encode(self@, text)
    }

    open spec fn encoding(&self, text: Seq<char>) -> Seq<usize> {
        llama_encode(self@, text)
    }

    open spec fn can_decode(&self, token_ids: Seq<usize>) -> bool {
        llama_can_decode(self@, token_ids)
    }

    open spec fn decoding(&self, token_ids: Seq<usize>) -> Seq<char> {
        llama_decode(self@, token_ids)
    }

    fn encode(&self, text: &str) -> (ids: Vec<usize>) {
        LlamaTokenizer::encode(self, text)
    }

    fn decode(&self, token_ids: &[usize]) -> (s: String) {
        LlamaTokenizer::decode(self, token_ids)
    }
}

} // verus!
