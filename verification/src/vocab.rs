//! The tables a tokenizer is built from: the vocabulary (token text and id,
//! both ways) and the list of merges, read from the forms the tokenizer
//! files give them in.
use vstd::prelude::*;
use vstd::hash_map::{HashMapWithView, StringHashMap};
use crate::bpe::{string_views, MergeTable, SymbolPair};
use crate::text::{chars_of, lemma_split_on_nonempty, push_char, split_chars, split_on, string_from_chars};

verus! {

broadcast use vstd::std_specs::hash::group_hash_axioms;

/// Why a tokenizer could not be built from its files.
#[derive(Debug, Clone, Copy, PartialEq, Eq, Structural)]
pub enum TokenizerError {
    /// The merge at this position (counted from 0) has no space between its
    /// two halves.
    MalformedMerge(usize),
    /// The vocabulary has no beginning-of-sequence token `<s>`.
    MissingBos,
    /// The tokenizer file is not JSON, or lacks a field of the expected
    /// shape.
    MalformedJson,
}

/// The texts and ids of vocabulary entries.
pub open spec fn entries_view(entries: Seq<(String, usize)>) -> Seq<(Seq<char>, usize)> {
    entries.map_values(|e: (String, usize)| (e.0@, e.1))
}

/// Token text to id, the later of two entries for one text winning.
pub open spec fn vocab_map(entries: Seq<(Seq<char>, usize)>) -> Map<Seq<char>, usize>
    decreases entries.len(),
{
    if entries.len() == 0 {
        Map::empty()
    } else {
        vocab_map(entries.drop_last()).insert(entries.last().0, entries.last().1)
    }
}

/// Id to token text, the later of two entries for one id winning.
pub open spec fn reverse_map(entries: Seq<(Seq<char>, usize)>) -> Map<usize, Seq<char>>
    decreases entries.len(),
{
    if entries.len() == 0 {
        Map::empty()
    } else {
        reverse_map(entries.drop_last()).insert(entries.last().1, entries.last().0)
    }
}

/// Each pair's rank is its position in the list, the later position of a
/// pair that occurs twice winning.
pub open spec fn rank_map(pairs: Seq<SymbolPair>) -> Map<SymbolPair, usize>
    decreases pairs.len(),
{
    if pairs.len() == 0 {
        Map::empty()
    } else {
        rank_map(pairs.drop_last()).insert(pairs.last(), (pairs.len() - 1) as usize)
    }
}

/// The texts of owned string pairs.
pub open spec fn pairs_view(pairs: Seq<(String, String)>) -> Seq<SymbolPair> {
    pairs.map_values(|p: (String, String)| (p.0@, p.1@))
}

/// The text values of an id map.
pub open spec fn token_texts(m: Map<usize, String>) -> Map<usize, Seq<char>> {
    m.map_values(|s: String| s@)
}

/// Builds the two vocabulary maps from `(text, id)` entries.
pub fn build_vocab(entries: &Vec<(String, usize)>) -> (r: (
    StringHashMap<usize>,
    HashMapWithView<usize, String>,
))
    ensures
        r.0@ == vocab_map(entries_view(entries@)),
        token_texts(r.1@) == reverse_map(entries_view(entries@)),
{
    let mut ids: StringHashMap<usize> = StringHashMap::new();
    let mut texts: HashMapWithView<usize, String> = HashMapWithView::new();
    let ghost ev = entries_view(entries@);
    for i in 0..entries.len()
        invariant
            ev == entries_view(entries@),
            ids@ == vocab_map(ev.take(i as int)),
            token_texts(texts@) == reverse_map(ev.take(i as int)),
    {
        let text = entries[i].0.clone();
        let id = entries[i].1;
        assert(ev.take(i + 1).drop_last() =~= ev.take(i as int));
        ids.insert(text.clone(), id);
        texts.insert(id, text);
        assert(token_texts(texts@) =~= reverse_map(ev.take(i + 1)));
    }
    assert(ev.take(entries.len() as int) =~= ev);
    (ids, texts)
}

/// Builds the merge table from pairs, each ranked by its position.
pub fn build_ranks(pairs: &Vec<(String, String)>) -> (t: MergeTable)
    ensures
        t.wf(),
        t@ == rank_map(pairs_view(pairs@)),
{
    let mut t = MergeTable::new();
    let ghost pv = pairs_view(pairs@);
    for i in 0..pairs.len()
        invariant
            pv == pairs_view(pairs@),
            t.wf(),
            t@ == rank_map(pv.take(i as int)),
    {
        assert(pv.take(i + 1).drop_last() =~= pv.take(i as int));
        t.insert(pairs[i].0.clone(), pairs[i].1.clone(), i);
    }
    assert(pv.take(pairs.len() as int) =~= pv);
    t
}

/// `k` is the first position of `c` in `s`.
pub open spec fn is_first_index(s: Seq<char>, c: char, k: int) -> bool {
    &&& 0 <= k < s.len()
    &&& s[k] == c
    &&& forall|j: int| 0 <= j < k ==> s[j] != c
}

/// `s` cut at its first `c`, as `str::splitn(2, c)` does: the text before,
/// and all of the text after.
pub open spec fn split_once(s: Seq<char>, c: char) -> Option<SymbolPair> {
    if exists|k: int| is_first_index(s, c, k) {
        let k = choose|k: int| is_first_index(s, c, k);
        Some((s.take(k), s.skip(k + 1)))
    } else {
        None
    }
}

/// A string holding `cs[lo..hi]`.
fn string_from_range(cs: &Vec<char>, lo: usize, hi: usize) -> (s: String)
    requires
        lo <= hi <= cs.len(),
    ensures
        s@ == cs@.subrange(lo as int, hi as int),
{
    let mut s = String::new();
    for i in lo..hi
        invariant
            lo <= i <= hi <= cs.len(),
            s@ == cs@.subrange(lo as int, i as int),
    {
        push_char(&mut s, cs[i]);
        assert(cs@.subrange(lo as int, i + 1) =~= cs@.subrange(lo as int, i as int).push(cs@[i as int]));
    }
    s
}

/// Cuts `s` at its first `c`.
pub fn split_once_str(s: &str, c: char) -> (r: Option<(String, String)>)
    ensures
        match r {
            Some(p) => split_once(s@, c) == Some((p.0@, p.1@)),
            None => split_once(s@, c) is None,
        },
{
    let cs = chars_of(s);
    let n = cs.len();
    for k in 0..n
        invariant
            n == cs.len(),
            cs@ == s@,
            forall|j: int| 0 <= j < k ==> cs@[j] != c,
    {
        if cs[k] == c {
            assert(is_first_index(s@, c, k as int));
            proof {
                let k2 = choose|k2: int| is_first_index(s@, c, k2);
                assert(k2 == k as int);
            }
            let a = string_from_range(&cs, 0, k);
            let b = string_from_range(&cs, k + 1, n);
            assert(s@.take(k as int) =~= cs@.subrange(0, k as int));
            assert(s@.skip(k + 1) =~= cs@.subrange(k + 1, n as int));
            return Some((a, b));
        }
    }
    assert(!exists|k: int| is_first_index(s@, c, k));
    None
}

/// The pairs of Llama merges, each `"a b"` cut at its first space.
pub open spec fn llama_merge_pairs(merges: Seq<Seq<char>>) -> Seq<SymbolPair> {
    merges.map_values(|m: Seq<char>| split_once(m, ' ').unwrap())
}

/// The pairs that GPT-2 merge lines name.
pub open spec fn gpt2_merge_pairs(lines: Seq<Seq<char>>) -> Seq<SymbolPair> {
    lines.map_values(|l: Seq<char>| gpt2_merge_pair(l).unwrap())
}

/// Position `i` holds the first merge that has no space.
pub open spec fn first_unsplittable(merges: Seq<Seq<char>>, i: int) -> bool {
    &&& 0 <= i < merges.len()
    &&& split_once(merges[i], ' ') is None
    &&& forall|j: int| 0 <= j < i ==> split_once(#[trigger] merges[j], ' ') is Some
}

/// Cuts every merge `"a b"` of a Llama tokenizer file at its first space.
pub fn split_llama_merges(merges: &Vec<String>) -> (r: Result<Vec<(String, String)>, TokenizerError>)
    ensures
        match r {
            Ok(pairs) => {
                &&& forall|j: int|
                    0 <= j < merges.len() ==> split_once(#[trigger] merges@[j]@, ' ') is Some
                &&& pairs_view(pairs@) == llama_merge_pairs(string_views(merges@))
            },
            Err(e) => e matches TokenizerError::MalformedMerge(i) && first_unsplittable(
                string_views(merges@),
                i as int,
            ),
        },
{
    let ghost mv = string_views(merges@);
    let mut pairs: Vec<(String, String)> = Vec::new();
    for i in 0..merges.len()
        invariant
            mv == string_views(merges@),
            forall|j: int| 0 <= j < i ==> split_once(#[trigger] mv[j], ' ') is Some,
            pairs_view(pairs@) == llama_merge_pairs(mv.take(i as int)),
    {
        match split_once_str(merges[i].as_str(), ' ') {
            Some(p) => {
                assert(mv.take(i + 1) =~= mv.take(i as int).push(mv[i as int]));
                assert(mv[i as int] == merges@[i as int]@);
                let ghost old_pairs = pairs@;
                let ghost pp = (p.0@, p.1@);
                assert(split_once(mv[i as int], ' ') == Some(pp));
                pairs.push(p);
                assert(pairs@ == old_pairs.push(p));
                assert(pairs_view(pairs@) =~= pairs_view(old_pairs).push(pp));
                assert(llama_merge_pairs(mv.take(i + 1)) =~= llama_merge_pairs(mv.take(i as int)).push(pp));
                assert(pairs_view(pairs@) =~= llama_merge_pairs(mv.take(i + 1)));
            },
            None => {
                assert(first_unsplittable(mv, i as int));
                return Err(TokenizerError::MalformedMerge(i));
            },
        }
    }
    assert(mv.take(merges.len() as int) =~= mv);
    assert forall|j: int| 0 <= j < merges.len() implies split_once(#[trigger] merges@[j]@, ' ') is Some by {
        assert(mv[j] == merges@[j]@);
    }
    Ok(pairs)
}

/// A line with a trailing carriage return removed.
pub open spec fn strip_cr(line: Seq<char>) -> Seq<char> {
    if line.len() > 0 && line.last() == '\r' {
        line.drop_last()
    } else {
        line
    }
}

/// The lines of a text, as `str::lines` gives them: cut at `\n`, a `\r`
/// just before the `\n` dropped, no empty line after a final `\n`.
pub open spec fn text_lines(text: Seq<char>) -> Seq<Seq<char>> {
    let pieces = split_on(text, '\n');
    let ended = pieces.drop_last().map_values(|p: Seq<char>| strip_cr(p));
    if pieces.last().len() == 0 {
        ended
    } else {
        ended.push(pieces.last())
    }
}

/// The merge lines of a GPT-2 merges file: all lines but the first, which
/// names the format's version.
pub open spec fn gpt2_merge_lines(text: Seq<char>) -> Seq<Seq<char>> {
    let lines = text_lines(text);
    if lines.len() == 0 {
        lines
    } else {
        lines.drop_first()
    }
}

/// The pair a GPT-2 merge line names: its first two space-separated fields.
pub open spec fn gpt2_merge_pair(line: Seq<char>) -> Option<SymbolPair> {
    let fields = split_on(line, ' ');
    if fields.len() >= 2 {
        Some((fields[0], fields[1]))
    } else {
        None
    }
}

/// Reads the pairs of a GPT-2 merges file (`merges.txt`).
pub fn parse_merges(text: &str) -> (r: Result<Vec<(String, String)>, TokenizerError>)
    ensures
        ({
            let lines = gpt2_merge_lines(text@);
            match r {
                Ok(pairs) => {
                    &&& forall|j: int|
                        0 <= j < lines.len() ==> gpt2_merge_pair(#[trigger] lines[j]) is Some
                    &&& pairs_view(pairs@) == gpt2_merge_pairs(lines)
                },
                Err(e) => {
                    &&& e matches TokenizerError::MalformedMerge(i)
                    &&& 0 <= i < lines.len()
                    &&& gpt2_merge_pair(lines[i as int]) is None
                    &&& forall|j: int|
                        0 <= j < i ==> gpt2_merge_pair(#[trigger] lines[j]) is Some
                },
            }
        }),
{
    let cs = chars_of(text);
    let pieces = split_chars(cs.as_slice(), '\n');
    let ghost pv = pieces@.map_values(|p: Vec<char>| p@);
    proof {
        lemma_split_on_nonempty(text@, '\n');
    }
    let n = pieces.len();
    let last_empty = pieces[n - 1].len() == 0;
    let line_count = if last_empty { n - 1 } else { n };
    let ghost lines = text_lines(text@);
    assert(lines.len() == line_count);
    assert forall|k: int| 0 <= k < line_count implies #[trigger] lines[k] == (if k < n - 1 {
        strip_cr(pv[k])
    } else {
        pv[k]
    }) by {}
    let mut pairs: Vec<(String, String)> = Vec::new();
    let ghost ml = gpt2_merge_lines(text@);
    let mut k: usize = 1;
    while k < line_count
        invariant
            1 <= k,
            k <= line_count || k == 1,
            line_count <= n == pieces.len(),
            pv == pieces@.map_values(|p: Vec<char>| p@),
            lines == text_lines(text@),
            lines.len() == line_count,
            ml == gpt2_merge_lines(text@),
            line_count > 0 ==> ml == lines.drop_first(),
            forall|k: int| 0 <= k < line_count ==> #[trigger] lines[k] == (if k < n - 1 {
                strip_cr(pv[k])
            } else {
                pv[k]
            }),
            forall|j: int| 0 <= j < k - 1 ==> gpt2_merge_pair(#[trigger] ml[j]) is Some,
            pairs_view(pairs@) == gpt2_merge_pairs(ml.take(k - 1)),
        decreases line_count - k,
    {
        let piece = &pieces[k];
        let plen = piece.len();
        let strip = k < n - 1 && plen > 0 && piece[plen - 1] == '\r';
        let end = if strip { plen - 1 } else { plen };
        let mut line: Vec<char> = Vec::new();
        for t in 0..end
            invariant
                end <= plen == piece.len(),
                line@ == piece@.take(t as int),
        {
            line.push(piece[t]);
            assert(piece@.take(t + 1) =~= piece@.take(t as int).push(piece@[t as int]));
        }
        assert(line@ =~= lines[k as int]);
        assert(ml[k - 1] == lines[k as int]);
        let fields = split_chars(line.as_slice(), ' ');
        if fields.len() < 2 {
            assert(gpt2_merge_pair(ml[k - 1]) is None);
            return Err(TokenizerError::MalformedMerge(k - 1));
        }
        let a = string_from_chars(fields[0].as_slice());
        let b = string_from_chars(fields[1].as_slice());
        let ghost old_pairs = pairs@;
        let ghost pp = (a@, b@);
        assert(fields@.map_values(|p: Vec<char>| p@) == split_on(line@, ' '));
        assert(fields@[0]@ == split_on(line@, ' ')[0]);
        assert(fields@[1]@ == split_on(line@, ' ')[1]);
        assert(gpt2_merge_pair(ml[k - 1]) == Some(pp));
        pairs.push((a, b));
        assert(pairs_view(pairs@) =~= pairs_view(old_pairs).push(pp));
        assert(ml.take(k as int) =~= ml.take(k - 1).push(ml[k - 1]));
        assert(gpt2_merge_pairs(ml.take(k as int)) =~= gpt2_merge_pairs(ml.take(k - 1)).push(pp));
        assert(pairs_view(pairs@) =~= gpt2_merge_pairs(ml.take(k as int)));
        k = k + 1;
    }
    proof {
        if line_count > 0 {
            assert(k == line_count);
            assert(ml.len() == k - 1);
            assert(ml.take(ml.len() as int) =~= ml);
        } else {
            assert(ml.len() == 0);
            assert(ml.take(k - 1) =~= ml);
        }
    }
    Ok(pairs)
}

/// No two entries share an id.
pub open spec fn distinct_ids(entries: Seq<(Seq<char>, usize)>) -> bool {
    forall|i: int, j: int|
        0 <= i < entries.len() && 0 <= j < entries.len() && i != j ==> #[trigger] entries[i].1
            != #[trigger] entries[j].1
}

proof fn lemma_vocab_map_from(entries: Seq<(Seq<char>, usize)>, s: Seq<char>)
    requires
        vocab_map(entries).contains_key(s),
    ensures
        exists|i: int|
            0 <= i < entries.len() && #[trigger] entries[i] == (s, vocab_map(entries)[s]),
    decreases entries.len(),
{
    if entries.last().0 != s {
        lemma_vocab_map_from(entries.drop_last(), s);
        let i = choose|i: int|
            0 <= i < entries.len() - 1 && #[trigger] entries.drop_last()[i] == (s, vocab_map(
                entries.drop_last(),
            )[s]);
        assert(entries[i] == entries.drop_last()[i]);
    } else {
        assert(entries[entries.len() - 1] == (s, vocab_map(entries)[s]));
    }
}

proof fn lemma_reverse_map_has(entries: Seq<(Seq<char>, usize)>, i: int)
    requires
        distinct_ids(entries),
        0 <= i < entries.len(),
    ensures
        reverse_map(entries).contains_key(entries[i].1),
        reverse_map(entries)[entries[i].1] == entries[i].0,
    decreases entries.len(),
{
    let n = entries.len();
    if i < n - 1 {
        let p = entries.drop_last();
        assert forall|a: int, b: int| 0 <= a < p.len() && 0 <= b < p.len() && a != b implies #[trigger] p[a].1
            != #[trigger] p[b].1 by {
            assert(p[a] == entries[a] && p[b] == entries[b]);
        }
        lemma_reverse_map_has(p, i);
        assert(entries[n - 1].1 != entries[i].1);
        assert(p[i] == entries[i]);
    }
}

/// A vocabulary read from entries with distinct ids is consistent: every
/// token text's id maps back to that text.
pub proof fn lemma_vocab_consistent(entries: Seq<(Seq<char>, usize)>)
    requires
        distinct_ids(entries),
    ensures
        forall|s: Seq<char>| #[trigger]
            vocab_map(entries).contains_key(s) ==> reverse_map(entries).contains_key(
                vocab_map(entries)[s],
            ) && reverse_map(entries)[vocab_map(entries)[s]] == s,
{
    assert forall|s: Seq<char>| #[trigger] vocab_map(entries).contains_key(s) implies reverse_map(
        entries,
    ).contains_key(vocab_map(entries)[s]) && reverse_map(entries)[vocab_map(entries)[s]] == s by {
        lemma_vocab_map_from(entries, s);
        let i = choose|i: int|
            0 <= i < entries.len() && #[trigger] entries[i] == (s, vocab_map(entries)[s]);
        lemma_reverse_map_has(entries, i);
    }
}

} // verus!
