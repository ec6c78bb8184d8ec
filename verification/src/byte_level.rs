//! GPT-2's byte-level alphabet: every byte stands for one printable
//! character, so that any text can be written in symbols of the vocabulary.
use vstd::prelude::*;
use vstd::utf8::{char_u32_cast, encode_utf8};

verus! {

/// Bytes that stand for the character of the same code: the printable
/// ASCII characters and most of Latin-1.
pub open spec fn byte_kept(b: u8) -> bool {
    (33 <= b <= 126) || (161 <= b <= 172) || (174 <= b)
}

/// The code of the character a byte stands for: kept bytes their own; the
/// others, in order, the codes from 256 on.
pub open spec fn byte_code(b: u8) -> int {
    if byte_kept(b) {
        b as int
    } else if b <= 32 {
        256 + b
    } else if b <= 160 {
        289 + (b - 127)
    } else {
        323
    }
}

/// The character a byte stands for.
pub open spec fn byte_char(b: u8) -> char {
    byte_code(b) as char
}

/// The byte a character stands for, if it is one of the 256.
pub open spec fn char_byte(c: char) -> Option<u8> {
    let u = c as int;
    if (33 <= u <= 126) || (161 <= u <= 172) || (174 <= u <= 255) {
        Some(u as u8)
    } else if 256 <= u <= 288 {
        Some((u - 256) as u8)
    } else if 289 <= u <= 322 {
        Some((u - 289 + 127) as u8)
    } else if u == 323 {
        Some(173u8)
    } else {
        None
    }
}

/// The characters bytes stand for.
pub open spec fn byte_chars(bs: Seq<u8>) -> Seq<char> {
    bs.map_values(|b: u8| byte_char(b))
}

/// The bytes a character of a token stands for: its byte if it is one of
/// the 256, else its own UTF-8 encoding.
pub open spec fn char_bytes(c: char) -> Seq<u8> {
    match char_byte(c) {
        Some(b) => seq![b],
        None => encode_utf8(seq![c]),
    }
}

/// The bytes a text of symbols stands for.
pub open spec fn text_bytes(cs: Seq<char>) -> Seq<u8> {
    cs.map_values(|c: char| char_bytes(c)).flatten()
}

/// A byte's character stands for the byte.
pub proof fn lemma_byte_char_back(b: u8)
    ensures
        byte_char(b) as u32 == byte_code(b),
        char_byte(byte_char(b)) == Some(b),
{
}

/// The bytes of two texts in turn.
pub proof fn lemma_text_bytes_concat(a: Seq<char>, b: Seq<char>)
    ensures
        text_bytes(a + b) == text_bytes(a) + text_bytes(b),
{
    let f = |c: char| char_bytes(c);
    assert((a + b).map_values(f) =~= a.map_values(f) + b.map_values(f));
    vstd::seq_lib::lemma_flatten_concat(a.map_values(f), b.map_values(f));
}

/// The characters of bytes stand for those bytes.
pub proof fn lemma_text_bytes_of_bytes(bs: Seq<u8>)
    ensures
        text_bytes(byte_chars(bs)) == bs,
    decreases bs.len(),
{
    if bs.len() == 0 {
        assert(text_bytes(byte_chars(bs)) =~= bs);
    } else {
        let p = bs.drop_last();
        lemma_text_bytes_of_bytes(p);
        assert(byte_chars(bs) =~= byte_chars(p) + seq![byte_char(bs.last())]);
        lemma_text_bytes_concat(byte_chars(p), seq![byte_char(bs.last())]);
        lemma_byte_char_back(bs.last());
        assert(text_bytes(seq![byte_char(bs.last())]) =~= seq![bs.last()]) by {
            let s = seq![byte_char(bs.last())];
            assert(s.map_values(|c: char| char_bytes(c)) =~= seq![seq![bs.last()]]);
            seq![seq![bs.last()]].lemma_flatten_one_element();
        }
        assert(bs =~= p + seq![bs.last()]);
    }
}

/// The characters of two byte sequences in turn.
pub proof fn lemma_byte_chars_concat(a: Seq<u8>, b: Seq<u8>)
    ensures
        byte_chars(a + b) == byte_chars(a) + byte_chars(b),
{
    assert(byte_chars(a + b) =~= byte_chars(a) + byte_chars(b));
}

/// UTF-8 encoding of two texts in turn.
pub proof fn lemma_encode_utf8_concat(a: Seq<char>, b: Seq<char>)
    ensures
        encode_utf8(a + b) == encode_utf8(a) + encode_utf8(b),
    decreases a.len(),
{
    if a.len() == 0 {
        assert(a + b =~= b);
        assert(encode_utf8(a) =~= Seq::<u8>::empty());
        assert(encode_utf8(a) + encode_utf8(b) =~= encode_utf8(b));
    } else {
        lemma_encode_utf8_concat(a.drop_first(), b);
        assert((a + b).drop_first() =~= a.drop_first() + b);
        assert((a + b)[0] == a[0]);
    }
}

/// The character a byte stands for.
pub fn byte_char_of(b: u8) -> (c: char)
    ensures
        c == byte_char(b),
{
    let c = if (33 <= b && b <= 126) || (161 <= b && b <= 172) || 174 <= b {
        b as char
    } else {
        unkept_char(b)
    };
    proof {
        char_u32_cast(c, byte_code(b) as u32);
    }
    c
}

fn unkept_char(b: u8) -> (c: char)
    requires
        !byte_kept(b),
    ensures
        c as u32 == byte_code(b),
{
    match b {
        0 => '\u{100}',
        1 => '\u{101}',
        2 => '\u{102}',
        3 => '\u{103}',
        4 => '\u{104}',
        5 => '\u{105}',
        6 => '\u{106}',
        7 => '\u{107}',
        8 => '\u{108}',
        9 => '\u{109}',
        10 => '\u{10A}',
        11 => '\u{10B}',
        12 => '\u{10C}',
        13 => '\u{10D}',
        14 => '\u{10E}',
        15 => '\u{10F}',
        16 => '\u{110}',
        17 => '\u{111}',
        18 => '\u{112}',
        19 => '\u{113}',
        20 => '\u{114}',
        21 => '\u{115}',
        22 => '\u{116}',
        23 => '\u{117}',
        24 => '\u{118}',
        25 => '\u{119}',
        26 => '\u{11A}',
        27 => '\u{11B}',
        28 => '\u{11C}',
        29 => '\u{11D}',
        30 => '\u{11E}',
        31 => '\u{11F}',
        32 => '\u{120}',
        127 => '\u{121}',
        128 => '\u{122}',
        129 => '\u{123}',
        130 => '\u{124}',
        131 => '\u{125}',
        132 => '\u{126}',
        133 => '\u{127}',
        134 => '\u{128}',
        135 => '\u{129}',
        136 => '\u{12A}',
        137 => '\u{12B}',
        138 => '\u{12C}',
        139 => '\u{12D}',
        140 => '\u{12E}',
        141 => '\u{12F}',
        142 => '\u{130}',
        143 => '\u{131}',
        144 => '\u{132}',
        145 => '\u{133}',
        146 => '\u{134}',
        147 => '\u{135}',
        148 => '\u{136}',
        149 => '\u{137}',
        150 => '\u{138}',
        151 => '\u{139}',
        152 => '\u{13A}',
        153 => '\u{13B}',
        154 => '\u{13C}',
        155 => '\u{13D}',
        156 => '\u{13E}',
        157 => '\u{13F}',
        158 => '\u{140}',
        159 => '\u{141}',
        160 => '\u{142}',
        173 => '\u{143}',
        _ => {
            assert(false);
            ' '
        },
    }
}

/// The byte a character stands for, if it is one of the 256.
pub fn char_to_byte(c: char) -> (r: Option<u8>)
    ensures
        r == char_byte(c),
{
    let u = c as u32;
    if (33 <= u && u <= 126) || (161 <= u && u <= 172) || (174 <= u && u <= 255) {
        Some(u as u8)
    } else if 256 <= u && u <= 288 {
        Some((u - 256) as u8)
    } else if 289 <= u && u <= 322 {
        Some((u - 289 + 127) as u8)
    } else if u == 323 {
        Some(173u8)
    } else {
        None
    }
}

/// GPT-2's byte-level alphabet keeps every printable ASCII byte and every
/// Latin-1 byte but the soft hyphen as the character of the same code, and
/// writes the others, in order, as the characters from U+0100 on.
pub proof fn lemma_byte_alphabet(b: u8)
    ensures
        (33 <= b <= 126 || 161 <= b <= 172 || 174 <= b) ==> byte_char(b) as u32 == b,
        b <= 32 ==> byte_char(b) as u32 == 256 + b,
        127 <= b <= 160 ==> byte_char(b) as u32 == 289 + (b - 127),
        b == 173 ==> byte_char(b) as u32 == 323,
{
}

/// Two bytes stand for the same character only if they are the same byte.
pub proof fn lemma_byte_alphabet_one_to_one(a: u8, b: u8)
    ensures
        byte_char(a) == byte_char(b) <==> a == b,
{
    lemma_byte_char_back(a);
    lemma_byte_char_back(b);
}

/// A text of printable ASCII characters is written in the byte-level
/// alphabet as itself: one character per letter, each its own.
pub proof fn lemma_ascii_marks_itself(text: Seq<char>)
    requires
        forall|i: int| 0 <= i < text.len() ==> 33 <= #[trigger] (text[i] as u32) <= 126,
    ensures
        byte_chars(encode_utf8(text)) == text,
    decreases text.len(),
{
    if text.len() > 0 {
        let rest = text.drop_first();
        assert forall|i: int| 0 <= i < rest.len() implies 33 <= #[trigger] (rest[i] as u32) <= 126 by {
            assert(rest[i] == text[i + 1]);
        }
        lemma_ascii_marks_itself(rest);
        let u = text[0] as u32;
        assert(33 <= u <= 126);
        assert((u & 0x7F) as u8 == u) by (bit_vector)
            requires
                33 <= u <= 126,
        ;
        assert(vstd::utf8::encode_scalar(u) =~= seq![u as u8]);
        assert(encode_utf8(text) == vstd::utf8::encode_scalar(u) + encode_utf8(rest));
        lemma_byte_chars_concat(seq![u as u8], encode_utf8(rest));
        lemma_byte_alphabet(u as u8);
        vstd::utf8::char_u32_cast(text[0], u);
        assert(byte_chars(seq![u as u8]) =~= seq![text[0]]);
        assert(text =~= seq![text[0]] + rest);
    } else {
        assert(encode_utf8(text) =~= Seq::<u8>::empty());
        assert(byte_chars(encode_utf8(text)) =~= text);
    }
}

} // verus!
