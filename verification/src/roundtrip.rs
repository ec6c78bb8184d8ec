//! What decoding makes of an encoding.
use vstd::prelude::*;
use vstd::seq_lib::lemma_flatten_concat;
use vstd::utf8::{char_u32_cast, encode_scalar, encode_utf8, encode_utf8_decode_utf8, encode_utf8_valid_utf8};
use crate::byte_level::{
    byte_char,
    lemma_byte_chars_concat,
    lemma_encode_utf8_concat,
    lemma_text_bytes_of_bytes,
};
use crate::bpe::{
    bpe,
    is_best_merge,
    lemma_bpe_keeps_text,
    lemma_merge_at_flatten,
    merge_at,
    pair_ranked,
    SymbolPair,
};
use crate::text::{
    byte_token,
    byte_token_value,
    join_with,
    lemma_byte_token_value,
    lemma_hex_digit_value,
    lemma_split_join,
    lemma_split_on_nonempty,
    split_on,
};
use crate::tokenizer::{
    byte_fallback_tokens,
    byte_tokens,
    char_symbols,
    flush,
    initial_symbols,
    llama_can_decode,
    llama_can_encode,
    llama_decode,
    llama_decode_state,
    llama_encode,
    llama_normalize,
    llama_piece,
    llama_symbols,
    sp_space,
    LlamaModel,
    all_known,
    gpt2_can_decode,
    gpt2_can_encode,
    gpt2_decode,
    gpt2_encode,
    gpt2_marked,
    gpt2_token_text,
    gpt2_space,
    gpt2_word_symbols,
    gpt2_words,
    ids_of,
    singletons,
    Gpt2Model,
};

verus! {

/// Every token text of the vocabulary has its id mapped back to it.
pub open spec fn vocab_consistent(vocab: Map<Seq<char>, usize>, tokens: Map<usize, Seq<char>>) -> bool {
    forall|s: Seq<char>|
        #[trigger] vocab.contains_key(s) ==> tokens.contains_key(vocab[s]) && tokens[vocab[s]] == s
}

proof fn lemma_token_text_concat(m: Gpt2Model, a: Seq<usize>, b: Seq<usize>)
    ensures
        gpt2_token_text(m, a + b) == gpt2_token_text(m, a) + gpt2_token_text(m, b),
{
    let f = |id: usize| m.tokens[id];
    assert((a + b).map_values(f) =~= a.map_values(f) + b.map_values(f));
    lemma_flatten_concat(a.map_values(f), b.map_values(f));
}

/// The token texts of each id sequence.
pub open spec fn texts_each(m: Gpt2Model, xs: Seq<Seq<usize>>) -> Seq<Seq<char>> {
    xs.map_values(|ids: Seq<usize>| gpt2_token_text(m, ids))
}

proof fn lemma_token_text_flatten(m: Gpt2Model, xs: Seq<Seq<usize>>)
    ensures
        gpt2_token_text(m, xs.flatten()) == texts_each(m, xs).flatten(),
    decreases xs.len(),
{
    if xs.len() == 0 {
        assert(xs.flatten() =~= Seq::<usize>::empty());
        assert(gpt2_token_text(m, xs.flatten()) =~= Seq::<char>::empty());
    } else {
        lemma_token_text_flatten(m, xs.drop_first());
        lemma_token_text_concat(m, xs[0], xs.drop_first().flatten());
        assert(texts_each(m, xs).drop_first() =~= texts_each(m, xs.drop_first()));
    }
}

proof fn lemma_flatten_singletons(w: Seq<char>)
    ensures
        singletons(w).flatten() == w,
    decreases w.len(),
{
    if w.len() > 0 {
        lemma_flatten_singletons(w.drop_first());
        assert(singletons(w).drop_first() =~= singletons(w.drop_first()));
        assert(w =~= seq![w[0]] + w.drop_first());
    } else {
        assert(singletons(w).flatten() =~= w);
    }
}

/// The token texts of the ids of known symbols are the symbols.
proof fn lemma_token_text_ids_of(m: Gpt2Model, s: Seq<Seq<char>>)
    requires
        vocab_consistent(m.vocab, m.tokens),
        all_known(m.vocab, s),
    ensures
        gpt2_can_decode(m, ids_of(m.vocab, s)),
        gpt2_token_text(m, ids_of(m.vocab, s)) == s.flatten(),
{
    let ids = ids_of(m.vocab, s);
    assert forall|j: int| 0 <= j < ids.len() implies m.tokens.contains_key(#[trigger] ids[j]) by {
        assert(m.vocab.contains_key(s[j]));
    }
    assert(ids.map_values(|id: usize| m.tokens[id]) =~= s) by {
        assert forall|j: int| 0 <= j < s.len() implies m.tokens[#[trigger] m.vocab[s[j]]] == s[j] by {
            assert(m.vocab.contains_key(s[j]));
        }
    }
}

/// The pieces of a split text, each but the first after a space.
pub open spec fn spaced(q: Seq<Seq<char>>) -> Seq<Seq<char>> {
    Seq::new(q.len(), |i: int| if i == 0 { q[0] } else { seq![' '] + q[i] })
}

proof fn lemma_spaced_join(q: Seq<Seq<char>>)
    requires
        q.len() >= 1,
    ensures
        spaced(q).flatten() == join_with(q, ' '),
    decreases q.len(),
{
    if q.len() == 1 {
        spaced(q).lemma_flatten_one_element();
    } else {
        let p = q.drop_last();
        lemma_spaced_join(p);
        assert(spaced(q) =~= spaced(p).push(seq![' '] + q.last()));
        spaced(p).lemma_flatten_push(seq![' '] + q.last());
        assert(join_with(q, ' ') == join_with(p, ' ').push(' ') + q.last());
        assert(join_with(p, ' ').push(' ') + q.last() =~= join_with(p, ' ') + (seq![' '] + q.last()));
    }
}

proof fn lemma_marked_concat(a: Seq<char>, b: Seq<char>)
    ensures
        gpt2_marked(a + b) == gpt2_marked(a) + gpt2_marked(b),
{
    lemma_encode_utf8_concat(a, b);
    lemma_byte_chars_concat(encode_utf8(a), encode_utf8(b));
}

/// The space byte stands for GPT-2's space marker.
proof fn lemma_marked_space()
    ensures
        gpt2_marked(seq![' ']) == seq![gpt2_space()],
        byte_char(32) == gpt2_space(),
{
    assert(seq![' '].drop_first() =~= Seq::<char>::empty());
    reveal_with_fuel(encode_utf8, 2);
    assert((32u32 & 0x7F) as u8 == 32u8) by (bit_vector);
    assert(' ' as u32 == 32);
    assert(encode_scalar(32u32) =~= seq![32u8]);
    assert(encode_utf8(seq![' ']) =~= encode_scalar(32u32) + encode_utf8(Seq::<char>::empty()));
    assert(encode_utf8(seq![' ']) =~= seq![32u8]);
    assert(gpt2_space() as u32 == 288);
    char_u32_cast(gpt2_space(), 288);
    assert(gpt2_marked(seq![' ']) =~= seq![gpt2_space()]);
}

/// Each piece in the byte-level alphabet.
pub open spec fn marked_each(q: Seq<Seq<char>>) -> Seq<Seq<char>> {
    q.map_values(|p: Seq<char>| gpt2_marked(p))
}

proof fn lemma_marked_flatten(q: Seq<Seq<char>>)
    ensures
        marked_each(q).flatten() == gpt2_marked(q.flatten()),
    decreases q.len(),
{
    if q.len() == 0 {
        assert(encode_utf8(Seq::<char>::empty()) =~= Seq::<u8>::empty());
        assert(gpt2_marked(q.flatten()) =~= Seq::<char>::empty());
        assert(marked_each(q).flatten() =~= Seq::<char>::empty());
    } else {
        lemma_marked_flatten(q.drop_first());
        lemma_marked_concat(q[0], q.drop_first().flatten());
        assert(marked_each(q).drop_first() =~= marked_each(q.drop_first()));
    }
}

/// The words of a text are its space-separated pieces, each after the
/// first behind its space, in the byte-level alphabet.
proof fn lemma_words_marked(text: Seq<char>)
    ensures
        gpt2_words(text) == marked_each(spaced(split_on(text, ' '))),
{
    let q = split_on(text, ' ');
    lemma_split_on_nonempty(text, ' ');
    lemma_marked_space();
    assert forall|i: int| 0 <= i < q.len() implies #[trigger] gpt2_words(text)[i] == marked_each(spaced(q))[i] by {
        if i > 0 {
            lemma_marked_concat(seq![' '], q[i]);
        }
    }
    assert(gpt2_words(text) =~= marked_each(spaced(q)));
}

/// GPT-2 round trip: decoding the encoding of a text gives back the text,
/// for a vocabulary whose ids map back to their texts.
pub proof fn lemma_gpt2_decode_encode(m: Gpt2Model, text: Seq<char>)
    requires
        vocab_consistent(m.vocab, m.tokens),
        gpt2_can_encode(m, text),
    ensures
        gpt2_can_decode(m, gpt2_encode(m, text)),
        gpt2_decode(m, gpt2_encode(m, text)) == text,
{
    let per_word = gpt2_word_symbols(m.ranks, text);
    let xs = per_word.map_values(|syms: Seq<Seq<char>>| ids_of(m.vocab, syms));
    let words = gpt2_words(text);
    let q = split_on(text, ' ');
    lemma_split_join(text, ' ');
    assert forall|i: int| 0 <= i < xs.len() implies gpt2_can_decode(m, #[trigger] xs[i])
        && gpt2_token_text(m, xs[i]) == words[i] by {
        assert(all_known(m.vocab, per_word[i]));
        lemma_token_text_ids_of(m, per_word[i]);
        lemma_bpe_keeps_text(m.ranks, singletons(words[i]));
        lemma_flatten_singletons(words[i]);
    }
    let ids = xs.flatten();
    assert(gpt2_encode(m, text) == ids);
    assert forall|j: int| 0 <= j < ids.len() implies m.tokens.contains_key(#[trigger] ids[j]) by {
        lemma_flatten_index(xs, j);
    }
    lemma_token_text_flatten(m, xs);
    lemma_words_marked(text);
    assert(texts_each(m, xs) =~= marked_each(spaced(q)));
    lemma_marked_flatten(spaced(q));
    lemma_spaced_join(q);
    assert(gpt2_token_text(m, ids) == gpt2_marked(text));
    lemma_text_bytes_of_bytes(encode_utf8(text));
    encode_utf8_valid_utf8(text);
    encode_utf8_decode_utf8(text);
}

/// Every position of a flattened sequence comes from one of its parts.
proof fn lemma_flatten_index(xs: Seq<Seq<usize>>, j: int)
    requires
        0 <= j < xs.flatten().len(),
    ensures
        exists|i: int, k: int|
            0 <= i < xs.len() && 0 <= k < xs[i].len() && xs.flatten()[j] == #[trigger] xs[i][k],
    decreases xs.len(),
{
    if xs.len() == 0 {
        assert(xs.flatten().len() == 0);
    } else {
        let rest = xs.drop_first();
        if j < xs[0].len() {
            assert(xs.flatten()[j] == xs[0][j]);
        } else {
            lemma_flatten_index(rest, j - xs[0].len());
            let (i, k) = choose|i: int, k: int|
                0 <= i < rest.len() && 0 <= k < rest[i].len() && rest.flatten()[j - xs[0].len()]
                    == #[trigger] rest[i][k];
            assert(xs[i + 1][k] == rest[i][k]);
        }
    }
}

// ---------------------------------------------------------------------------
// Llama
// ---------------------------------------------------------------------------
/// A symbol that decoding reads as a byte.
pub open spec fn is_byte_symbol(s: Seq<char>) -> bool {
    byte_token_value(llama_piece(s)) is Some
}

/// The pair at `i` joins two symbols that are not byte symbols into one
/// that is not either.
pub open spec fn merge_avoids_bytes(s: Seq<Seq<char>>, i: int) -> bool {
    !is_byte_symbol(s[i]) && !is_byte_symbol(s[i + 1]) && !is_byte_symbol(s[i] + s[i + 1])
}

/// No merge that byte-pair encoding of `s` makes takes a byte symbol in,
/// or makes one.
pub open spec fn bpe_avoids_bytes(ranks: Map<SymbolPair, usize>, s: Seq<Seq<char>>) -> bool
    decreases s.len(),
{
    if exists|i: int| is_best_merge(ranks, s, i) {
        let i = choose|i: int| is_best_merge(ranks, s, i);
        merge_avoids_bytes(s, i) && bpe_avoids_bytes(ranks, merge_at(s, i))
    } else {
        true
    }
}

/// The text holds no SentencePiece word separator.
pub open spec fn free_of_separator(text: Seq<char>) -> bool {
    forall|i: int| 0 <= i < text.len() ==> #[trigger] text[i] != sp_space()
}

/// No symbol of the encoding of `text` has a special id.
pub open spec fn no_special_symbols(m: LlamaModel, text: Seq<char>) -> bool {
    forall|j: int|
        0 <= j < llama_symbols(m, text).len() ==> !m.special.contains(
            m.vocab[#[trigger] llama_symbols(m, text)[j]],
        )
}

/// Decoding one symbol text: bytes gather, other text flushes them first.
pub open spec fn symbol_step(st: (Seq<char>, Seq<u8>), s: Seq<char>) -> (Seq<char>, Seq<u8>) {
    let piece = llama_piece(s);
    match byte_token_value(piece) {
        Some(b) => (st.0, st.1.push(b)),
        None => (flush(st.0, st.1) + piece, seq![]),
    }
}

/// Decoding symbol texts from a given state.
pub open spec fn symbol_fold(st: (Seq<char>, Seq<u8>), syms: Seq<Seq<char>>) -> (Seq<char>, Seq<u8>)
    decreases syms.len(),
{
    if syms.len() == 0 {
        st
    } else {
        symbol_step(symbol_fold(st, syms.drop_last()), syms.last())
    }
}

proof fn lemma_symbol_fold_concat(st: (Seq<char>, Seq<u8>), x: Seq<Seq<char>>, r: Seq<Seq<char>>)
    ensures
        symbol_fold(st, x + r) == symbol_fold(symbol_fold(st, x), r),
    decreases r.len(),
{
    if r.len() == 0 {
        assert(x + r =~= x);
    } else {
        lemma_symbol_fold_concat(st, x, r.drop_last());
        assert((x + r).drop_last() =~= x + r.drop_last());
        assert((x + r).last() == r.last());
    }
}

proof fn lemma_llama_piece_concat(a: Seq<char>, b: Seq<char>)
    ensures
        llama_piece(a + b) == llama_piece(a) + llama_piece(b),
{
    assert(llama_piece(a + b) =~= llama_piece(a) + llama_piece(b));
}

/// Joining a pair that merges allow leaves the decoding state unchanged.
proof fn lemma_merge_keeps_state(ranks: Map<SymbolPair, usize>, st: (Seq<char>, Seq<u8>), s: Seq<Seq<char>>, i: int)
    requires
        merge_avoids_bytes(s, i),
        pair_ranked(ranks, s, i),
    ensures
        symbol_fold(st, merge_at(s, i)) == symbol_fold(st, s),
{
    let a = s[i];
    let b = s[i + 1];
    assert(ranks.contains_key((a, b)));
    let p = s.take(i);
    let r = s.skip(i + 2);
    assert(s =~= p + seq![a, b] + r);
    assert(merge_at(s, i) =~= p + seq![a + b] + r);
    lemma_symbol_fold_concat(st, p + seq![a, b], r);
    lemma_symbol_fold_concat(st, p, seq![a, b]);
    lemma_symbol_fold_concat(st, p + seq![a + b], r);
    lemma_symbol_fold_concat(st, p, seq![a + b]);
    let st1 = symbol_fold(st, p);
    assert(seq![a, b].drop_last() =~= seq![a]);
    assert(seq![a].drop_last() =~= Seq::<Seq<char>>::empty());
    assert(seq![a + b].drop_last() =~= Seq::<Seq<char>>::empty());
    lemma_llama_piece_concat(a, b);
    assert(symbol_fold(st1, seq![a]) == symbol_step(symbol_fold(st1, Seq::<Seq<char>>::empty()), a));
    assert(symbol_fold(st1, seq![a]) == symbol_step(st1, a));
    assert(symbol_fold(st1, seq![a, b]) == symbol_step(symbol_fold(st1, seq![a]), b));
    assert(symbol_fold(st1, seq![a + b]) == symbol_step(symbol_fold(st1, Seq::<Seq<char>>::empty()), a + b));
    assert(!is_byte_symbol(a) && !is_byte_symbol(b) && !is_byte_symbol(a + b));
    let after_a = symbol_step(st1, a);
    assert(after_a == (flush(st1.0, st1.1) + llama_piece(a), Seq::<u8>::empty()));
    assert(symbol_step(after_a, b).0 =~= flush(st1.0, st1.1) + llama_piece(a + b));
    assert(symbol_fold(st1, seq![a, b]) == symbol_fold(st1, seq![a + b]));
}

/// Byte-pair merging leaves the decoding state unchanged.
proof fn lemma_bpe_keeps_state(ranks: Map<SymbolPair, usize>, st: (Seq<char>, Seq<u8>), s: Seq<Seq<char>>)
    requires
        bpe_avoids_bytes(ranks, s),
    ensures
        symbol_fold(st, bpe(ranks, s)) == symbol_fold(st, s),
    decreases s.len(),
{
    if exists|i: int| is_best_merge(ranks, s, i) {
        let i = choose|i: int| is_best_merge(ranks, s, i);
        lemma_merge_at_flatten(s, i);
        lemma_merge_keeps_state(ranks, st, s, i);
        lemma_bpe_keeps_state(ranks, st, merge_at(s, i));
    }
}

/// A byte token is a byte symbol for its byte.
proof fn lemma_byte_token_piece(b: u8)
    ensures
        llama_piece(byte_token(b)) == byte_token(b),
        byte_token_value(llama_piece(byte_token(b))) == Some(b),
{
    lemma_hex_digit_value(b / 16);
    lemma_hex_digit_value(b % 16);
    assert(llama_piece(byte_token(b)) =~= byte_token(b));
    lemma_byte_token_value(b);
}

/// Byte tokens gather their bytes.
proof fn lemma_fold_byte_tokens(st: (Seq<char>, Seq<u8>), bytes: Seq<u8>)
    ensures
        symbol_fold(st, byte_tokens(bytes)) == (st.0, st.1 + bytes),
    decreases bytes.len(),
{
    if bytes.len() == 0 {
        assert(st.1 + bytes =~= st.1);
    } else {
        lemma_fold_byte_tokens(st, bytes.drop_last());
        assert(byte_tokens(bytes).drop_last() =~= byte_tokens(bytes.drop_last()));
        lemma_byte_token_piece(bytes.last());
        assert(st.1 + bytes =~= (st.1 + bytes.drop_last()).push(bytes.last()));
    }
}

/// After the starting symbols of `c`: the text up to position `k` is
/// out, the characters from `k` on were not in the vocabulary and wait as
/// their UTF-8 bytes.
pub open spec fn pending_at(vocab: Map<Seq<char>, usize>, c: Seq<char>, st: (Seq<char>, Seq<u8>), k: int) -> bool {
    &&& 0 <= k <= c.len()
    &&& st.0 == llama_piece(c.take(k))
    &&& st.1 == encode_utf8(c.skip(k))
    &&& forall|j: int| k <= j < c.len() ==> !vocab.contains_key(seq![#[trigger] c[j]])
}

proof fn lemma_pending_flush(vocab: Map<Seq<char>, usize>, c: Seq<char>, st: (Seq<char>, Seq<u8>), k: int)
    requires
        pending_at(vocab, c, st, k),
        vocab.contains_key(seq![sp_space()]),
    ensures
        flush(st.0, st.1) == llama_piece(c),
{
    let tail = c.skip(k);
    assert(c =~= c.take(k) + tail);
    lemma_llama_piece_concat(c.take(k), tail);
    assert forall|j: int| 0 <= j < tail.len() implies #[trigger] tail[j] != sp_space() by {
        assert(tail[j] == c[k + j]);
        assert(!vocab.contains_key(seq![c[k + j]]));
    }
    assert(llama_piece(tail) =~= tail);
    encode_utf8_valid_utf8(tail);
    encode_utf8_decode_utf8(tail);
    if st.1.len() == 0 {
        if tail.len() > 0 {
            let rest = tail.drop_first();
            assert(encode_utf8(tail) == encode_scalar(tail[0] as u32) + encode_utf8(rest));
            assert(encode_scalar(tail[0] as u32).len() > 0);
        }
        assert(tail.len() == 0);
        assert(llama_piece(tail) =~= Seq::<char>::empty());
        assert(llama_piece(c) =~= llama_piece(c.take(k)) + llama_piece(tail));
    }
}

proof fn lemma_initial_pending(vocab: Map<Seq<char>, usize>, c: Seq<char>)
    requires
        vocab.contains_key(seq![sp_space()]),
    ensures
        exists|k: int| pending_at(vocab, c, symbol_fold((seq![], seq![]), initial_symbols(vocab, c)), k),
    decreases c.len(),
{
    let e: (Seq<char>, Seq<u8>) = (seq![], seq![]);
    if c.len() == 0 {
        assert(initial_symbols(vocab, c) =~= Seq::<Seq<char>>::empty());
        assert(pending_at(vocab, c, e, 0)) by {
            assert(llama_piece(c.take(0)) =~= Seq::<char>::empty());
            assert(encode_utf8(c.skip(0)) =~= Seq::<u8>::empty());
        }
        assert(pending_at(vocab, c, symbol_fold(e, initial_symbols(vocab, c)), 0));
    } else {
        let cp = c.drop_last();
        let x = c.last();
        lemma_initial_pending(vocab, cp);
        let st = symbol_fold(e, initial_symbols(vocab, cp));
        let k = choose|k: int| pending_at(vocab, cp, st, k);
        let parts = c.map_values(|ch: char| char_symbols(vocab, ch));
        assert(parts =~= cp.map_values(|ch: char| char_symbols(vocab, ch)).push(char_symbols(vocab, x)));
        cp.map_values(|ch: char| char_symbols(vocab, ch)).lemma_flatten_push(char_symbols(vocab, x));
        lemma_symbol_fold_concat(e, initial_symbols(vocab, cp), char_symbols(vocab, x));
        let st2 = symbol_fold(e, initial_symbols(vocab, c));
        assert(st2 == symbol_fold(st, char_symbols(vocab, x)));
        assert(c =~= cp.push(x));
        if vocab.contains_key(seq![x]) {
            let piece = llama_piece(seq![x]);
            assert(byte_token_value(piece) is None);
            assert(seq![seq![x]].drop_last() =~= Seq::<Seq<char>>::empty());
            assert(char_symbols(vocab, x) == seq![seq![x]]);
            assert(symbol_fold(st, seq![seq![x]]) == symbol_step(symbol_fold(st, Seq::<Seq<char>>::empty()), seq![x]));
            assert(st2 == (flush(st.0, st.1) + piece, Seq::<u8>::empty()));
            assert(pending_at(vocab, c, st2, c.len() as int)) by {
                assert(c.take(c.len() as int) =~= cp + seq![x]);
                lemma_llama_piece_concat(cp, seq![x]);
                assert(encode_utf8(c.skip(c.len() as int)) =~= Seq::<u8>::empty()) by {
                    assert(c.skip(c.len() as int) =~= Seq::<char>::empty());
                }
                lemma_pending_flush(vocab, cp, st, k);
            }
            assert(pending_at(vocab, c, symbol_fold(e, initial_symbols(vocab, c)), c.len() as int));
        } else {
            lemma_fold_byte_tokens(st, encode_utf8(seq![x]));
            assert(pending_at(vocab, c, st2, k)) by {
                assert(c.take(k) =~= cp.take(k));
                assert(c.skip(k) =~= cp.skip(k) + seq![x]);
                lemma_encode_utf8_concat(cp.skip(k), seq![x]);
                assert forall|j: int| k <= j < c.len() implies !vocab.contains_key(seq![#[trigger] c[j]]) by {
                    if j < cp.len() {
                        assert(c[j] == cp[j]);
                    }
                }
            }
            assert(pending_at(vocab, c, symbol_fold(e, initial_symbols(vocab, c)), k));
        }
    }
}

/// The ids of the symbols map back to the symbols.
pub open spec fn maps_back(vocab: Map<Seq<char>, usize>, tokens: Map<usize, Seq<char>>, syms: Seq<Seq<char>>) -> bool {
    forall|j: int|
        0 <= j < syms.len() ==> tokens.contains_key(vocab[#[trigger] syms[j]]) && tokens[vocab[syms[j]]] == syms[j]
}

proof fn lemma_decode_state_ids(m: LlamaModel, syms: Seq<Seq<char>>)
    requires
        maps_back(m.vocab, m.tokens, syms),
        all_known(m.vocab, syms),
        forall|j: int| 0 <= j < syms.len() ==> !m.special.contains(m.vocab[#[trigger] syms[j]]),
    ensures
        llama_decode_state(m, ids_of(m.vocab, syms)) == symbol_fold((seq![], seq![]), syms),
    decreases syms.len(),
{
    if syms.len() == 0 {
        assert(ids_of(m.vocab, syms) =~= Seq::<usize>::empty());
    } else {
        let sp = syms.drop_last();
        assert forall|j: int| 0 <= j < sp.len() implies m.vocab.contains_key(#[trigger] sp[j])
            && !m.special.contains(m.vocab[sp[j]]) by {
            assert(sp[j] == syms[j]);
        }
        lemma_decode_state_ids(m, sp);
        assert(ids_of(m.vocab, syms).drop_last() =~= ids_of(m.vocab, sp));
        assert(m.vocab.contains_key(syms[syms.len() - 1]));
        assert(!m.special.contains(m.vocab[syms[syms.len() - 1]]));
    }
}

proof fn lemma_decode_state_skip_special(m: LlamaModel, id: usize, xs: Seq<usize>)
    requires
        m.special.contains(id),
    ensures
        llama_decode_state(m, seq![id] + xs) == llama_decode_state(m, xs),
    decreases xs.len(),
{
    if xs.len() == 0 {
        assert(seq![id] + xs =~= seq![id]);
        assert(seq![id].drop_last() =~= Seq::<usize>::empty());
        assert(llama_decode_state(m, seq![id]) == llama_decode_state(m, Seq::<usize>::empty()));
    } else {
        let ys = seq![id] + xs;
        lemma_decode_state_skip_special(m, id, xs.drop_last());
        assert(ys.drop_last() =~= seq![id] + xs.drop_last());
        assert(ys.last() == xs.last());
        assert(ys.len() > 0);
        assert(llama_decode_state(m, ys.drop_last()) == llama_decode_state(m, xs.drop_last()));
    }
}

/// Llama round trip: decoding the encoding of a text gives back the text
/// after a leading space (the word separator that normalization puts in
/// front).
///
/// This holds for a vocabulary whose ids map back to their texts, whose
/// `<s>` id is special and which has the word separator; where no merge
/// made while encoding this text takes in or makes a text that reads as a
/// byte token; for a text
/// without the word separator itself (decoded as a space); and where no
/// symbol of the encoding has a special id (decoding leaves those out).
pub proof fn lemma_llama_decode_encode(m: LlamaModel, text: Seq<char>)
    requires
        vocab_consistent(m.vocab, m.tokens),
        m.special.contains(m.bos),
        m.vocab.contains_key(seq![sp_space()]),
        bpe_avoids_bytes(m.ranks, initial_symbols(m.vocab, llama_normalize(text))),
        free_of_separator(text),
        llama_can_encode(m, text),
        no_special_symbols(m, text),
    ensures
        llama_can_decode(m, llama_encode(m, text)),
        llama_decode(m, llama_encode(m, text)) == seq![' '] + text,
{
    let norm = llama_normalize(text);
    let init = initial_symbols(m.vocab, norm);
    let syms = llama_symbols(m, text);
    let ids = ids_of(m.vocab, syms);
    let enc = llama_encode(m, text);
    let e: (Seq<char>, Seq<u8>) = (seq![], seq![]);
    assert forall|j: int| 0 <= j < enc.len() implies m.special.contains(#[trigger] enc[j])
        || m.tokens.contains_key(enc[j]) by {
        if j > 0 {
            assert(enc[j] == m.vocab[syms[j - 1]]);
            assert(m.vocab.contains_key(syms[j - 1]));
        }
    }
    lemma_decode_state_skip_special(m, m.bos, ids);
    assert forall|j: int| 0 <= j < syms.len() implies !m.special.contains(m.vocab[#[trigger] syms[j]]) by {}
    assert forall|j: int| 0 <= j < syms.len() implies m.tokens.contains_key(m.vocab[#[trigger] syms[j]])
        && m.tokens[m.vocab[syms[j]]] == syms[j] by {
        assert(m.vocab.contains_key(syms[j]));
    }
    lemma_decode_state_ids(m, syms);
    lemma_bpe_keeps_state(m.ranks, e, init);
    lemma_initial_pending(m.vocab, norm);
    let st = symbol_fold(e, init);
    let k = choose|k: int| pending_at(m.vocab, norm, st, k);
    lemma_pending_flush(m.vocab, norm, st, k);
    assert(llama_piece(norm) =~= seq![' '] + text);
}

/// Decoding state of `ids` and of `ids` with the special ids left out agree.
proof fn lemma_decode_state_filter(m: LlamaModel, ids: Seq<usize>)
    ensures
        llama_decode_state(m, ids) == llama_decode_state(m, ids.filter(|id: usize| !m.special.contains(id))),
    decreases ids.len(),
{
    reveal(Seq::filter);
    let p = |id: usize| !m.special.contains(id);
    if ids.len() > 0 {
        let dl = ids.drop_last();
        lemma_decode_state_filter(m, dl);
        let f = ids.filter(p);
        assert(f == if p(ids.last()) { dl.filter(p).push(ids.last()) } else { dl.filter(p) });
        if p(ids.last()) {
            assert(f.drop_last() =~= dl.filter(p));
            assert(f.last() == ids.last());
        }
    }
}

/// Special tokens leave no trace in Llama decoding: decoding gives the same
/// text as decoding with every special id left out.
pub proof fn lemma_special_ids_skipped(m: LlamaModel, ids: Seq<usize>)
    ensures
        llama_decode(m, ids) == llama_decode(m, ids.filter(|id: usize| !m.special.contains(id))),
{
    lemma_decode_state_filter(m, ids);
}

// ---------------------------------------------------------------------------
// Encoding and decoding piece by piece
// ---------------------------------------------------------------------------
proof fn lemma_split_concat(a: Seq<char>, b: Seq<char>, sep: char)
    ensures
        split_on(a + seq![sep] + b, sep) == split_on(a, sep) + split_on(b, sep),
    decreases b.len(),
{
    lemma_split_on_nonempty(a, sep);
    let t = a + seq![sep] + b;
    if b.len() == 0 {
        assert(t.drop_last() =~= a);
        assert(t.last() == sep);
        assert(split_on(b, sep) =~= seq![Seq::<char>::empty()]);
        assert(split_on(t, sep) =~= split_on(a, sep) + split_on(b, sep));
    } else {
        let bl = b.drop_last();
        lemma_split_concat(a, bl, sep);
        lemma_split_on_nonempty(bl, sep);
        assert(t.drop_last() =~= a + seq![sep] + bl);
        assert(t.last() == b.last());
        let pa = split_on(a, sep);
        let pb = split_on(bl, sep);
        if b.last() == sep {
            assert(split_on(t, sep) =~= pa + split_on(b, sep));
        } else {
            let joined = pa + pb;
            assert(joined.last() == pb.last());
            assert(split_on(t, sep) =~= pa + split_on(b, sep));
        }
    }
}

proof fn lemma_split_prefix(c: char, y: Seq<char>, sep: char)
    requires
        c != sep,
    ensures
        split_on(seq![c] + y, sep) == split_on(y, sep).update(0, seq![c] + split_on(y, sep)[0]),
    decreases y.len(),
{
    lemma_split_on_nonempty(y, sep);
    let t = seq![c] + y;
    if y.len() == 0 {
        assert(t =~= seq![c]);
        assert(t.drop_last() =~= Seq::<char>::empty());
        assert(split_on(y, sep) =~= seq![Seq::<char>::empty()]);
        assert(t.last() == c);
        let e = Seq::<char>::empty();
        assert(split_on(t.drop_last(), sep) == seq![e]);
        assert(split_on(t, sep) == seq![e].update(0, e.push(c)));
        assert(split_on(y, sep)[0] == e);
        assert(e.push(c) =~= seq![c] + e);
        assert(split_on(t, sep) =~= split_on(y, sep).update(0, seq![c] + split_on(y, sep)[0]));
    } else {
        let yl = y.drop_last();
        lemma_split_prefix(c, yl, sep);
        lemma_split_on_nonempty(yl, sep);
        assert(t.drop_last() =~= seq![c] + yl);
        assert(t.last() == y.last());
        let p = split_on(yl, sep);
        if y.last() == sep {
            assert(split_on(t, sep) =~= split_on(y, sep).update(0, seq![c] + split_on(y, sep)[0]));
        } else {
            if p.len() == 1 {
                assert((seq![c] + p[0]).push(y.last()) =~= seq![c] + p[0].push(y.last()));
            }
            assert(split_on(t, sep) =~= split_on(y, sep).update(0, seq![c] + split_on(y, sep)[0]));
        }
    }
}

/// GPT-2 encodes the words of a text independently: encoding `x y` gives
/// the encoding of `x`, then the encoding of ` y` (whose empty first word
/// gives no ids).
pub proof fn lemma_gpt2_encode_concat(m: Gpt2Model, x: Seq<char>, y: Seq<char>)
    ensures
        gpt2_encode(m, x + seq![' '] + y) == gpt2_encode(m, x) + gpt2_encode(m, seq![' '] + y),
{
    let t = x + seq![' '] + y;
    let sy = seq![' '] + y;
    let e = Seq::<char>::empty();
    lemma_split_concat(x, y, ' ');
    lemma_split_concat(e, y, ' ');
    assert(e + seq![' '] + y =~= sy);
    assert(split_on(e, ' ') =~= seq![e]);
    lemma_split_on_nonempty(x, ' ');
    lemma_split_on_nonempty(y, ' ');
    let px = split_on(x, ' ');
    let py = split_on(y, ' ');
    let wy = gpt2_words(sy);
    assert(split_on(sy, ' ') =~= seq![e] + py);
    assert(gpt2_words(t) =~= gpt2_words(x) + wy.drop_first()) by {
        assert forall|i: int| 0 <= i < gpt2_words(t).len() implies #[trigger] gpt2_words(t)[i]
            == (gpt2_words(x) + wy.drop_first())[i] by {
            if i >= px.len() {
                assert(split_on(t, ' ')[i] == py[i - px.len()]);
                assert(split_on(sy, ' ')[i - px.len() + 1] == py[i - px.len()]);
            }
        }
    }
    assert(encode_utf8(e) =~= Seq::<u8>::empty());
    assert(wy[0] =~= e);
    assert(singletons(e) =~= Seq::<Seq<char>>::empty());
    let s0 = Seq::<Seq<char>>::empty();
    assert(!exists|i: int| is_best_merge(m.ranks, s0, i));
    assert(bpe(m.ranks, s0) == s0);
    let f = |syms: Seq<Seq<char>>| ids_of(m.vocab, syms);
    let g = |w: Seq<char>| bpe(m.ranks, singletons(w));
    let ax = gpt2_word_symbols(m.ranks, x).map_values(f);
    let ay = gpt2_word_symbols(m.ranks, sy).map_values(f);
    assert(gpt2_word_symbols(m.ranks, t).map_values(f) =~= ax + ay.drop_first());
    lemma_flatten_concat(ax, ay.drop_first());
    assert(ay[0] =~= Seq::<usize>::empty());
    assert(ay.flatten() == ay[0] + ay.drop_first().flatten());
    assert(ay.flatten() =~= ay.drop_first().flatten());
}

proof fn lemma_decode_state_append(m: LlamaModel, a: Seq<usize>, b: Seq<usize>)
    requires
        llama_decode_state(m, a).1.len() == 0,
    ensures
        llama_decode_state(m, a + b) == (llama_decode_state(m, a).0 + llama_decode_state(m, b).0,
            llama_decode_state(m, b).1),
    decreases b.len(),
{
    let oa = llama_decode_state(m, a).0;
    if b.len() == 0 {
        assert(a + b =~= a);
        assert(oa + Seq::<char>::empty() =~= oa);
        assert(llama_decode_state(m, a).1 =~= Seq::<u8>::empty());
    } else {
        let bl = b.drop_last();
        lemma_decode_state_append(m, a, bl);
        assert((a + b).drop_last() =~= a + bl);
        assert((a + b).last() == b.last());
        let (ob, bb) = llama_decode_state(m, bl);
        let id = b.last();
        if !m.special.contains(id) {
            let piece = llama_piece(m.tokens[id]);
            if byte_token_value(piece) is None {
                if bb.len() == 0 {
                    assert(flush(oa + ob, bb) + piece =~= oa + (flush(ob, bb) + piece));
                } else {
                    assert(flush(oa + ob, bb) + piece =~= oa + (flush(ob, bb) + piece));
                }
            }
        }
    }
}

/// Llama decoding of two id lists in turn is the decoding of each, when
/// the first leaves no bytes pending (its last non-special id is not a
/// byte token); decoding nothing gives nothing.
pub proof fn lemma_llama_decode_concat(m: LlamaModel, a: Seq<usize>, b: Seq<usize>)
    requires
        llama_decode_state(m, a).1.len() == 0,
    ensures
        llama_decode(m, a + b) == llama_decode(m, a) + llama_decode(m, b),
        llama_decode(m, seq![]) == Seq::<char>::empty(),
{
    lemma_decode_state_append(m, a, b);
    let (oa, ba) = llama_decode_state(m, a);
    let (ob, bb) = llama_decode_state(m, b);
    assert(flush(oa, ba) == oa);
    if bb.len() == 0 {
        assert(flush(oa + ob, bb) == oa + flush(ob, bb));
    } else {
        assert(flush(oa + ob, bb) =~= oa + flush(ob, bb));
    }
}

/// Decoding the byte tokens of a character gives the character back, for a
/// vocabulary that holds those tokens under ids that are not special and
/// map back to them.
pub proof fn lemma_decode_byte_fallback(m: LlamaModel, c: char)
    requires
        maps_back(m.vocab, m.tokens, byte_fallback_tokens(c)),
        all_known(m.vocab, byte_fallback_tokens(c)),
        forall|j: int|
            0 <= j < byte_fallback_tokens(c).len() ==> !m.special.contains(
                m.vocab[#[trigger] byte_fallback_tokens(c)[j]],
            ),
    ensures
        llama_can_decode(m, ids_of(m.vocab, byte_fallback_tokens(c))),
        llama_decode(m, ids_of(m.vocab, byte_fallback_tokens(c))) == seq![c],
{
    let syms = byte_fallback_tokens(c);
    let bytes = encode_utf8(seq![c]);
    let ids = ids_of(m.vocab, syms);
    assert forall|j: int| 0 <= j < ids.len() implies m.special.contains(#[trigger] ids[j])
        || m.tokens.contains_key(ids[j]) by {
        assert(m.tokens.contains_key(m.vocab[syms[j]]));
    }
    lemma_decode_state_ids(m, syms);
    let e: (Seq<char>, Seq<u8>) = (seq![], seq![]);
    lemma_fold_byte_tokens(e, bytes);
    assert(e.1 + bytes =~= bytes);
    encode_utf8_valid_utf8(seq![c]);
    encode_utf8_decode_utf8(seq![c]);
    assert(bytes.len() > 0) by {
        assert(seq![c].drop_first() =~= Seq::<char>::empty());
        reveal_with_fuel(encode_utf8, 2);
        assert(encode_utf8(seq![c]) =~= encode_scalar(c as u32));
    }
}

/// Merging keeps every symbol in the vocabulary when every merge makes a
/// vocabulary entry.
proof fn lemma_bpe_keeps_known(ranks: Map<SymbolPair, usize>, vocab: Map<Seq<char>, usize>, s: Seq<Seq<char>>)
    requires
        all_known(vocab, s),
        forall|p: SymbolPair| #[trigger] ranks.contains_key(p) ==> vocab.contains_key(p.0 + p.1),
    ensures
        all_known(vocab, bpe(ranks, s)),
    decreases s.len(),
{
    if exists|i: int| is_best_merge(ranks, s, i) {
        let i = choose|i: int| is_best_merge(ranks, s, i);
        let t = merge_at(s, i);
        assert(ranks.contains_key((s[i], s[i + 1])));
        assert forall|j: int| 0 <= j < t.len() implies vocab.contains_key(#[trigger] t[j]) by {
            if j < i {
                assert(t[j] == s[j]);
            } else if j > i {
                assert(t[j] == s[j + 1]);
            }
        }
        lemma_bpe_keeps_known(ranks, vocab, t);
    }
}

/// GPT-2 encoding never fails when the vocabulary holds the character of
/// every byte and every merge makes a vocabulary entry.
pub proof fn lemma_gpt2_can_encode(m: Gpt2Model, text: Seq<char>)
    requires
        forall|b: u8| m.vocab.contains_key(#[trigger] seq![byte_char(b)]),
        forall|p: SymbolPair| #[trigger] m.ranks.contains_key(p) ==> m.vocab.contains_key(p.0 + p.1),
    ensures
        gpt2_can_encode(m, text),
{
    let q = split_on(text, ' ');
    lemma_marked_space();
    assert forall|i: int| 0 <= i < gpt2_word_symbols(m.ranks, text).len() implies all_known(
        m.vocab,
        #[trigger] gpt2_word_symbols(m.ranks, text)[i],
    ) by {
        let w = gpt2_words(text)[i];
        let init = singletons(w);
        assert forall|j: int| 0 <= j < init.len() implies m.vocab.contains_key(#[trigger] init[j]) by {
            if i > 0 && j == 0 {
                assert(init[j] == seq![byte_char(32)]);
            } else {
                let jj = if i > 0 { j - 1 } else { j };
                let bs = encode_utf8(q[i]);
                assert(w[j] == byte_char(bs[jj]));
                assert(init[j] == seq![byte_char(bs[jj])]);
            }
        }
        lemma_bpe_keeps_known(m.ranks, m.vocab, init);
    }
}

/// GPT-2 round trip for every text: for a vocabulary whose ids map back to
/// their texts, that holds the character of every byte, and whose merges
/// make vocabulary entries, encoding succeeds and decoding gives the text
/// back.
pub proof fn lemma_gpt2_round_trip(m: Gpt2Model, text: Seq<char>)
    requires
        vocab_consistent(m.vocab, m.tokens),
        forall|b: u8| m.vocab.contains_key(#[trigger] seq![byte_char(b)]),
        forall|p: SymbolPair| #[trigger] m.ranks.contains_key(p) ==> m.vocab.contains_key(p.0 + p.1),
    ensures
        gpt2_can_encode(m, text),
        gpt2_can_decode(m, gpt2_encode(m, text)),
        gpt2_decode(m, gpt2_encode(m, text)) == text,
{
    lemma_gpt2_can_encode(m, text);
    lemma_gpt2_decode_encode(m, text);
}

/// Llama's normalization leaves no space: it puts the word separator first
/// and in place of every space, and keeps every other character.
pub proof fn lemma_normalize_separates(text: Seq<char>)
    ensures
        llama_normalize(text).len() == text.len() + 1,
        llama_normalize(text)[0] == sp_space(),
        forall|i: int| 0 <= i < llama_normalize(text).len() ==> #[trigger] llama_normalize(text)[i] != ' ',
        forall|i: int| 0 <= i < text.len() && text[i] != ' ' ==> llama_normalize(text)[i + 1] == #[trigger] text[i],
{
}

} // verus!
