//! Character-level helpers: splitting text, UTF-8 bytes of a character,
//! and the `<0xHH>` byte tokens.
use vstd::prelude::*;
use vstd::utf8::*;

verus! {

/// The characters of `s`, in order.
pub fn chars_of(s: &str) -> (v: Vec<char>)
    ensures
        v@ == s@,
{
    let mut v: Vec<char> = Vec::new();
    for c in it: s.chars()
        invariant
            v@ == it.seq().take(it.index() as int),
    {
        v.push(c);
    }
    v
}

/// Appends one character to a string (`String::push`).
#[verifier::external_body]
pub(crate) fn push_char(s: &mut String, c: char)
    ensures
        final(s)@ == old(s)@.push(c),
{
    s.push(c);
}

/// A string holding the given characters.
pub fn string_from_chars(cs: &[char]) -> (s: String)
    ensures
        s@ == cs@,
{
    let mut s = String::new();
    for i in 0..cs.len()
        invariant
            s@ == cs@.take(i as int),
    {
        push_char(&mut s, cs[i]);
        assert(cs@.take(i + 1) =~= cs@.take(i as int).push(cs@[i as int]));
    }
    assert(cs@.take(cs.len() as int) =~= cs@);
    s
}

/// What `String::from_utf8_lossy` makes of a byte sequence that is not
/// well-formed UTF-8: the decoded text, with a replacement character for
/// each ill-formed part.
pub uninterp spec fn utf8_lossy(bytes: Seq<u8>) -> Seq<char>;

/// The text of a byte sequence decoded as UTF-8: the decoded characters
/// where the bytes are well-formed, else what lossy decoding makes of them.
pub open spec fn lossy_text(bytes: Seq<u8>) -> Seq<char> {
    if valid_utf8(bytes) {
        decode_utf8(bytes)
    } else {
        utf8_lossy(bytes)
    }
}

/// Decodes bytes as UTF-8, replacing ill-formed parts
/// (`String::from_utf8_lossy`). Claimed: on well-formed UTF-8 the result is
/// exactly the decoded text; otherwise it is a function of the bytes alone
/// (`utf8_lossy`), whose replacement rules are not stated here.
#[verifier::external_body]
pub(crate) fn decode_utf8_lossy(bytes: &[u8]) -> (s: String)
    ensures
        s@ == lossy_text(bytes@),
        !valid_utf8(bytes@) ==> s@ == utf8_lossy(bytes@),
{
    String::from_utf8_lossy(bytes).into_owned()
}

/// `text` cut at every `sep`, as `str::split` does: `n` separators give
/// `n + 1` pieces, empty ones included.
pub open spec fn split_on(text: Seq<char>, sep: char) -> Seq<Seq<char>>
    decreases text.len(),
{
    if text.len() == 0 {
        seq![seq![]]
    } else {
        let prev = split_on(text.drop_last(), sep);
        if text.last() == sep {
            prev.push(seq![])
        } else {
            prev.update(prev.len() - 1, prev.last().push(text.last()))
        }
    }
}

/// The pieces, joined again with `sep` between them.
pub open spec fn join_with(pieces: Seq<Seq<char>>, sep: char) -> Seq<char>
    decreases pieces.len(),
{
    if pieces.len() == 0 {
        seq![]
    } else if pieces.len() == 1 {
        pieces[0]
    } else {
        join_with(pieces.drop_last(), sep).push(sep) + pieces.last()
    }
}

pub proof fn lemma_split_on_nonempty(text: Seq<char>, sep: char)
    ensures
        split_on(text, sep).len() >= 1,
    decreases text.len(),
{
    if text.len() > 0 {
        lemma_split_on_nonempty(text.drop_last(), sep);
    }
}

/// Splitting and joining again give back the text; no piece holds the
/// separator.
pub proof fn lemma_split_join(text: Seq<char>, sep: char)
    ensures
        split_on(text, sep).len() >= 1,
        join_with(split_on(text, sep), sep) == text,
        forall|i: int, j: int|
            0 <= i < split_on(text, sep).len() && 0 <= j < split_on(text, sep)[i].len()
                ==> #[trigger] split_on(text, sep)[i][j] != sep,
    decreases text.len(),
{
    lemma_split_on_nonempty(text, sep);
    if text.len() > 0 {
        let t = text.drop_last();
        let prev = split_on(t, sep);
        lemma_split_join(t, sep);
        lemma_split_on_nonempty(t, sep);
        let cur = split_on(text, sep);
        if text.last() == sep {
            assert(cur.drop_last() =~= prev);
            assert(join_with(cur, sep) =~= text);
        } else {
            let n = prev.len();
            if n == 1 {
                assert(join_with(cur, sep) =~= text);
            } else {
                assert(cur.drop_last() =~= prev.drop_last());
                assert(join_with(prev, sep) == join_with(prev.drop_last(), sep).push(sep) + prev.last());
                assert(join_with(cur, sep) == join_with(cur.drop_last(), sep).push(sep) + cur.last());
                assert(cur.last() == prev.last().push(text.last()));
                assert(text =~= t.push(text.last()));
                assert(join_with(cur, sep) =~= text);
            }
        }
        assert forall|i: int, j: int|
            0 <= i < cur.len() && 0 <= j < cur[i].len() implies #[trigger] cur[i][j] != sep by {
            if i < prev.len() && j < prev[i].len() {
                assert(prev[i][j] != sep);
            }
        }
    }
}

/// Splits a string's characters at every `sep` (`str::split`).
pub fn split_chars(text: &[char], sep: char) -> (pieces: Vec<Vec<char>>)
    ensures
        pieces@.map_values(|p: Vec<char>| p@) == split_on(text@, sep),
{
    let mut pieces: Vec<Vec<char>> = Vec::new();
    let mut cur: Vec<char> = Vec::new();
    for i in 0..text.len()
        invariant
            pieces@.map_values(|p: Vec<char>| p@).push(cur@) == split_on(text@.take(i as int), sep),
    {
        let c = text[i];
        let ghost before = pieces@.map_values(|p: Vec<char>| p@).push(cur@);
        assert(text@.take(i + 1).drop_last() =~= text@.take(i as int));
        if c == sep {
            let done = cur;
            pieces.push(done);
            cur = Vec::new();
            assert(pieces@.map_values(|p: Vec<char>| p@).push(cur@) =~= before.push(seq![]));
        } else {
            cur.push(c);
            assert(pieces@.map_values(|p: Vec<char>| p@).push(cur@) =~= before.update(
                before.len() - 1,
                before.last().push(c),
            ));
        }
    }
    assert(text@.take(text.len() as int) =~= text@);
    pieces.push(cur);
    pieces
}

/// The uppercase hexadecimal digit for `n < 16`.
pub open spec fn hex_digit_upper(n: u8) -> char {
    if n < 10 {
        (n + 48) as char
    } else {
        (n + 55) as char
    }
}

/// The byte token of `b`: `<0x`, two uppercase hex digits, `>`.
pub open spec fn byte_token(b: u8) -> Seq<char> {
    seq!['<', '0', 'x', hex_digit_upper(b / 16), hex_digit_upper(b % 16), '>']
}

/// The value of a hexadecimal digit, in either case.
pub open spec fn hex_value(c: char) -> Option<u8> {
    if '0' <= c <= '9' {
        Some((c as u8 - 48) as u8)
    } else if 'a' <= c <= 'f' {
        Some((c as u8 - 87) as u8)
    } else if 'A' <= c <= 'F' {
        Some((c as u8 - 55) as u8)
    } else {
        None
    }
}

/// What `u8::from_str_radix(s, 16)` gives for the two characters `hi lo`:
/// an optional `+` followed by hexadecimal digits.
pub open spec fn parse_hex_pair(hi: char, lo: char) -> Option<u8> {
    if hi == '+' {
        hex_value(lo)
    } else {
        match (hex_value(hi), hex_value(lo)) {
            (Some(h), Some(l)) => Some((h * 16 + l) as u8),
            _ => None,
        }
    }
}

/// The byte that a piece of text stands for when it has the shape of a byte
/// token: six characters, `<0x`, two that read as a hexadecimal number, `>`.
pub open spec fn byte_token_value(piece: Seq<char>) -> Option<u8> {
    if piece.len() == 6 && piece[0] == '<' && piece[1] == '0' && piece[2] == 'x' && piece[5] == '>' {
        parse_hex_pair(piece[3], piece[4])
    } else {
        None
    }
}

fn hex_digit(n: u8) -> (c: char)
    requires
        n < 16,
    ensures
        c == hex_digit_upper(n),
{
    if n < 10 {
        (n + 48) as char
    } else {
        (n + 55) as char
    }
}

fn hex_value_of(c: char) -> (r: Option<u8>)
    ensures
        r == hex_value(c),
{
    if '0' <= c && c <= '9' {
        Some((c as u8) - 48)
    } else if 'a' <= c && c <= 'f' {
        Some((c as u8) - 87)
    } else if 'A' <= c && c <= 'F' {
        Some((c as u8) - 55)
    } else {
        None
    }
}

/// The byte token of `b`, as a string.
pub fn make_byte_token(b: u8) -> (s: String)
    ensures
        s@ == byte_token(b),
{
    let mut s = String::new();
    push_char(&mut s, '<');
    push_char(&mut s, '0');
    push_char(&mut s, 'x');
    push_char(&mut s, hex_digit(b / 16));
    push_char(&mut s, hex_digit(b % 16));
    push_char(&mut s, '>');
    assert(s@ =~= byte_token(b));
    s
}

/// The byte a piece stands for, if it has the shape of a byte token.
pub fn read_byte_token(piece: &[char]) -> (r: Option<u8>)
    ensures
        r == byte_token_value(piece@),
{
    if piece.len() == 6 && piece[0] == '<' && piece[1] == '0' && piece[2] == 'x' && piece[5] == '>' {
        let hi = piece[3];
        let lo = piece[4];
        if hi == '+' {
            hex_value_of(lo)
        } else {
            match (hex_value_of(hi), hex_value_of(lo)) {
                (Some(h), Some(l)) => Some(h * 16 + l),
                _ => None,
            }
        }
    } else {
        None
    }
}

/// The UTF-8 encoding of one character.
pub fn char_utf8(c: char) -> (bytes: Vec<u8>)
    ensures
        bytes@ == encode_utf8(seq![c]),
{
    let u = c as u32;
    proof {
        char_is_scalar(c);
        assert(seq![c].drop_first() =~= Seq::<char>::empty());
        reveal_with_fuel(encode_utf8, 2);
        assert(encode_utf8(seq![c]) =~= encode_scalar(u));
    }
    if u <= 0x7F {
        vec![(u & 0x7F) as u8]
    } else if u <= 0x7FF {
        vec![0xC0 | ((u >> 6) & 0x1F) as u8, 0x80 | (u & 0x3F) as u8]
    } else if u <= 0xFFFF {
        vec![0xE0 | ((u >> 12) & 0x0F) as u8, 0x80 | ((u >> 6) & 0x3F) as u8, 0x80 | (u & 0x3F) as u8]
    } else {
        vec![
            0xF0 | ((u >> 18) & 0x7) as u8,
            0x80 | ((u >> 12) & 0x3F) as u8,
            0x80 | ((u >> 6) & 0x3F) as u8,
            0x80 | (u & 0x3F) as u8,
        ]
    }
}

/// An uppercase hexadecimal digit reads back as its value.
pub proof fn lemma_hex_digit_value(n: u8)
    requires
        n < 16,
    ensures
        hex_value(hex_digit_upper(n)) == Some(n),
        hex_digit_upper(n) != '+',
{
    if n < 10 {
        assert(((n + 48) as char) as u8 == n + 48);
    } else {
        assert(((n + 55) as char) as u8 == n + 55);
    }
}

/// Reading a byte token gives back its byte.
pub proof fn lemma_byte_token_value(b: u8)
    ensures
        byte_token_value(byte_token(b)) == Some(b),
{
    lemma_hex_digit_value(b / 16);
    lemma_hex_digit_value(b % 16);
    assert((b / 16) * 16 + b % 16 == b);
}

} // verus!
