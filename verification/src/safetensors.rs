//! The `.safetensors` layout: an 8-byte little-endian header length, a
//! JSON header of that length, then the tensor data, each tensor at byte
//! offsets (relative to the end of the header) that the header gives.
use vstd::prelude::*;
use vstd::utf8::{decode_utf8, valid_utf8};
use crate::json::{
    count_items,
    count_list,
    count_of,
    count_value,
    field,
    get_field,
    item_of,
    json_of,
    parse_json,
    text_of,
    text_value,
    Json,
};
use crate::text::chars_of;

verus! {

/// Why a tensor could not be read from a `.safetensors` file.
#[derive(Debug, Clone, Copy, PartialEq, Eq, Structural)]
pub enum LoadError {
    /// The file is shorter than the 8 bytes of the header length.
    TooShort,
    /// The header reaches past the end of the file.
    HeaderOutOfRange,
    /// The header is not UTF-8.
    HeaderNotUtf8,
    /// A tensor's byte range is reversed or reaches past the end of the
    /// file.
    DataOutOfRange,
    /// A tensor's bytes are not a whole number of elements.
    RaggedData,
    /// The element type is neither `F32` nor `BF16`.
    UnsupportedDtype,
    /// The header is not JSON.
    HeaderNotJson,
    /// The header has no entry of that name.
    MissingTensor,
    /// The entry's `data_offsets` does not start with two counts.
    BadOffsets,
    /// The entry's `shape` is not an array of counts.
    BadShape,
}

/// The element types this loader reads.
#[derive(Debug, Clone, Copy, PartialEq, Eq, Structural)]
pub enum DType {
    /// 32-bit floats, little-endian.
    F32,
    /// bfloat16, little-endian: the upper half of a 32-bit float.
    BF16,
}

/// Where a tensor lies and what it holds, as the header describes it.
pub struct TensorInfo {
    pub dtype: DType,
    pub shape: Vec<usize>,
    /// First byte, counted from the end of the header.
    pub start: usize,
    /// Byte after the last, counted from the end of the header.
    pub end: usize,
}

/// The value of bytes read as a little-endian unsigned number.
pub open spec fn le_value(bytes: Seq<u8>) -> nat
    decreases bytes.len(),
{
    if bytes.len() == 0 {
        0
    } else {
        (bytes[0] as nat) + 256nat * le_value(bytes.drop_first())
    }
}

/// `256` to the power `n`.
pub open spec fn pow256(n: nat) -> nat
    decreases n,
{
    if n == 0 {
        1
    } else {
        256 * pow256((n - 1) as nat)
    }
}

proof fn lemma_le_value_bound(bytes: Seq<u8>)
    ensures
        le_value(bytes) < pow256(bytes.len()),
    decreases bytes.len(),
{
    if bytes.len() > 0 {
        lemma_le_value_bound(bytes.drop_first());
        assert(bytes[0] + 256 * le_value(bytes.drop_first()) < 256 * pow256((bytes.len() - 1) as nat)) by (nonlinear_arith)
            requires
                le_value(bytes.drop_first()) < pow256((bytes.len() - 1) as nat),
                bytes[0] < 256,
        ;
    }
}

/// The length of the JSON header: the first 8 bytes of the file, as a
/// little-endian number.
pub fn header_size(file: &[u8]) -> (n: u64)
    requires
        file.len() >= 8,
    ensures
        n == le_value(file@.take(8)),
{
    let mut acc: u64 = 0;
    let mut i: usize = 8;
    while i > 0
        invariant
            i <= 8 <= file.len(),
            acc == le_value(file@.subrange(i as int, 8)),
        decreases i,
    {
        i = i - 1;
        let ghost rest = file@.subrange(i + 1, 8);
        proof {
            lemma_le_value_bound(rest);
            assert(pow256(rest.len()) <= pow256(7)) by {
                lemma_pow256_mono(rest.len(), 7);
            }
            assert(pow256(7) == 72057594037927936) by {
                reveal_with_fuel(pow256, 8);
            }
            assert(file@.subrange(i as int, 8).drop_first() =~= rest);
        }
        acc = (file[i] as u64) + 256 * acc;
    }
    assert(file@.subrange(0, 8) =~= file@.take(8));
    acc
}

proof fn lemma_pow256_mono(a: nat, b: nat)
    requires
        a <= b,
    ensures
        pow256(a) <= pow256(b),
    decreases b,
{
    if a < b {
        lemma_pow256_mono(a, (b - 1) as nat);
    }
}

/// Reads bytes as UTF-8 text (`std::str::from_utf8`): `None` exactly where
/// they are not well-formed UTF-8, else the decoded text.
#[verifier::external_body]
fn utf8_text(bytes: &[u8]) -> (r: Option<String>)
    ensures
        match r {
            Some(s) => valid_utf8(bytes@) && s@ == decode_utf8(bytes@),
            None => !valid_utf8(bytes@),
        },
{
    match std::str::from_utf8(bytes) {
        Ok(s) => Some(s.to_string()),
        Err(_) => None,
    }
}

fn copy_range(file: &[u8], lo: usize, hi: usize) -> (r: Vec<u8>)
    requires
        lo <= hi <= file.len(),
    ensures
        r@ == file@.subrange(lo as int, hi as int),
{
    let mut r: Vec<u8> = Vec::new();
    for i in lo..hi
        invariant
            lo <= i <= hi <= file.len(),
            r@ == file@.subrange(lo as int, i as int),
    {
        r.push(file[i]);
        assert(r@ =~= file@.subrange(lo as int, i + 1));
    }
    r
}

/// The JSON header of a `.safetensors` file, as text: the `header_size`
/// bytes after the first 8.
pub fn read_header(file: &[u8]) -> (r: Result<String, LoadError>)
    ensures
        file.len() < 8 ==> r == Err::<String, LoadError>(LoadError::TooShort),
        file.len() >= 8 ==> ({
            let end = 8 + le_value(file@.take(8));
            let bytes = file@.subrange(8, end as int);
            match r {
                Ok(s) => end <= file.len() && valid_utf8(bytes) && s@ == decode_utf8(bytes),
                Err(e) => (end > file.len() && e == LoadError::HeaderOutOfRange) || (end
                    <= file.len() && !valid_utf8(bytes) && e == LoadError::HeaderNotUtf8),
            }
        }),
{
    if file.len() < 8 {
        return Err(LoadError::TooShort);
    }
    let size = header_size(file);
    if size > (file.len() - 8) as u64 {
        return Err(LoadError::HeaderOutOfRange);
    }
    let end = 8 + size as usize;
    let bytes = copy_range(file, 8, end);
    match utf8_text(bytes.as_slice()) {
        Some(s) => Ok(s),
        None => Err(LoadError::HeaderNotUtf8),
    }
}

impl DType {
    /// The element type a header names: `"F32"` or `"BF16"`.
    pub fn parse(name: &str) -> (r: Option<DType>)
        ensures
            r == (if name@ == seq!['F', '3', '2'] {
                Some(DType::F32)
            } else if name@ == seq!['B', 'F', '1', '6'] {
                Some(DType::BF16)
            } else {
                None
            }),
    {
        let cs = chars_of(name);
        if cs.len() == 3 && cs[0] == 'F' && cs[1] == '3' && cs[2] == '2' {
            assert(name@ =~= seq!['F', '3', '2']);
            Some(DType::F32)
        } else if cs.len() == 4 && cs[0] == 'B' && cs[1] == 'F' && cs[2] == '1' && cs[3] == '6' {
            assert(name@ =~= seq!['B', 'F', '1', '6']);
            Some(DType::BF16)
        } else {
            assert(name@ != seq!['F', '3', '2']);
            assert(name@ != seq!['B', 'F', '1', '6']);
            None
        }
    }

    /// The size of one element, in bytes.
    pub open spec fn spec_width(self) -> nat {
        match self {
            DType::F32 => 4nat,
            DType::BF16 => 2nat,
        }
    }
}

/// The bit pattern of the 32-bit float that element `i` of `bytes` holds.
pub open spec fn element_bits(bytes: Seq<u8>, dtype: DType, i: int) -> u32 {
    match dtype {
        DType::F32 => le_value(bytes.subrange(4 * i, 4 * i + 4)) as u32,
        DType::BF16 => (le_value(bytes.subrange(2 * i, 2 * i + 2)) * 65536) as u32,
    }
}

/// The bit patterns of all elements of `bytes`.
pub open spec fn elements_bits(bytes: Seq<u8>, dtype: DType) -> Seq<u32> {
    Seq::new((bytes.len() / dtype.spec_width()) as nat, |i: int| element_bits(bytes, dtype, i))
}

/// The bytes of the tensor that `info` describes, in a file whose header
/// has `header_len` bytes.
pub open spec fn tensor_bytes(file: Seq<u8>, header_len: int, info_start: int, info_end: int) -> Seq<u8> {
    file.subrange(8 + header_len + info_start, 8 + header_len + info_end)
}

/// The byte range of the tensor lies within the file.
pub open spec fn tensor_in_file(file_len: int, header_len: int, info_start: int, info_end: int) -> bool {
    info_start <= info_end && 8 + header_len + info_end <= file_len
}

/// Reads the elements of one tensor as the bit patterns of 32-bit floats:
/// `F32` elements as they are, `BF16` elements shifted into the upper half.
pub fn tensor_bits(file: &[u8], header_len: u64, info: &TensorInfo) -> (r: Result<Vec<u32>, LoadError>)
    ensures
        ({
            let inside = tensor_in_file(file.len() as int, header_len as int, info.start as int, info.end as int);
            let bytes = tensor_bytes(file@, header_len as int, info.start as int, info.end as int);
            match r {
                Ok(bits) => inside && bytes.len() % info.dtype.spec_width() == 0 && bits@ == elements_bits(
                    bytes,
                    info.dtype,
                ),
                Err(e) => (!inside && e == LoadError::DataOutOfRange) || (inside && bytes.len()
                    % info.dtype.spec_width() != 0 && e == LoadError::RaggedData),
            }
        }),
{
    if info.start > info.end || header_len > (file.len() as u64) || (file.len() - header_len as usize)
        < 8 || info.end > file.len() - header_len as usize - 8 {
        return Err(LoadError::DataOutOfRange);
    }
    let lo = 8 + header_len as usize + info.start;
    let hi = 8 + header_len as usize + info.end;
    let bytes = copy_range(file, lo, hi);
    let width: usize = match info.dtype {
        DType::F32 => 4,
        DType::BF16 => 2,
    };
    if bytes.len() % width != 0 {
        return Err(LoadError::RaggedData);
    }
    let count = bytes.len() / width;
    let ghost goal = elements_bits(bytes@, info.dtype);
    let mut bits: Vec<u32> = Vec::new();
    for i in 0..count
        invariant
            count == bytes.len() / width,
            width == info.dtype.spec_width(),
            bytes.len() % width == 0,
            goal == elements_bits(bytes@, info.dtype),
            bits@ == goal.take(i as int),
    {
        proof {
            assert(width * i + width <= bytes.len()) by (nonlinear_arith)
                requires
                    i < count,
                    count == bytes.len() / width,
                    bytes.len() % width == 0,
                    width > 0,
            ;
        }
        let b = width * i;
        let value: u32 = match info.dtype {
            DType::F32 => {
                let v = (bytes[b] as u32) + 256 * ((bytes[b + 1] as u32) + 256 * ((bytes[b + 2] as u32)
                    + 256 * (bytes[b + 3] as u32)));
                proof {
                    let s = bytes@.subrange(b as int, b + 4);
                    reveal_with_fuel(le_value, 5);
                    assert(s.drop_first().drop_first().drop_first().drop_first() =~= Seq::<u8>::empty());
                    assert(le_value(s) == v);
                }
                v
            },
            DType::BF16 => {
                let half = (bytes[b] as u32) + 256 * (bytes[b + 1] as u32);
                proof {
                    let s = bytes@.subrange(b as int, b + 2);
                    reveal_with_fuel(le_value, 3);
                    assert(s.drop_first().drop_first() =~= Seq::<u8>::empty());
                    assert(le_value(s) == half);
                }
                half * 65536
            },
        };
        bits.push(value);
        assert(bits@ =~= goal.take(i + 1));
    }
    assert(bits@ =~= goal);
    Ok(bits)
}

/// The text starts with `prefix`.
pub open spec fn has_prefix(s: Seq<char>, prefix: Seq<char>) -> bool {
    prefix.len() <= s.len() && s.take(prefix.len() as int) == prefix
}

/// The text ends with `suffix`.
pub open spec fn has_suffix(s: Seq<char>, suffix: Seq<char>) -> bool {
    suffix.len() <= s.len() && s.skip(s.len() - suffix.len()) == suffix
}

/// The name of a GPT-2 block's first layer-norm weight: `h.` and
/// `.ln_1.weight` around the block's number.
pub open spec fn is_block_norm_name(s: Seq<char>) -> bool {
    has_prefix(s, seq!['h', '.']) && has_suffix(
        s,
        seq!['.', 'l', 'n', '_', '1', '.', 'w', 'e', 'i', 'g', 'h', 't'],
    )
}

/// The number of names that name a GPT-2 block's first layer-norm weight.
pub open spec fn count_block_names(names: Seq<Seq<char>>) -> nat
    decreases names.len(),
{
    if names.len() == 0 {
        0
    } else {
        count_block_names(names.drop_last()) + if is_block_norm_name(names.last()) {
            1nat
        } else {
            0nat
        }
    }
}

fn matches_at(cs: &Vec<char>, at: usize, pat: &Vec<char>) -> (r: bool)
    requires
        at + pat.len() <= cs.len(),
    ensures
        r == (cs@.subrange(at as int, at + pat.len()) == pat@),
{
    for i in 0..pat.len()
        invariant
            at + pat.len() <= cs.len(),
            forall|j: int| 0 <= j < i ==> cs@[at + j] == pat@[j],
    {
        if cs[at + i] != pat[i] {
            assert(cs@.subrange(at as int, at + pat.len())[i as int] != pat@[i as int]);
            return false;
        }
    }
    assert(cs@.subrange(at as int, at + pat.len()) =~= pat@);
    true
}

/// The number of layers of a GPT-2 checkpoint: how many tensor names have
/// the form `h.<block>.ln_1.weight`.
pub fn count_gpt2_layers(names: &Vec<String>) -> (n: usize)
    ensures
        n == count_block_names(names@.map_values(|s: String| s@)),
{
    let prefix = chars_of("h.");
    let suffix = chars_of(".ln_1.weight");
    proof {
        reveal_strlit("h.");
        reveal_strlit(".ln_1.weight");
    }
    assert(prefix@ =~= seq!['h', '.']);
    assert(suffix@ =~= seq!['.', 'l', 'n', '_', '1', '.', 'w', 'e', 'i', 'g', 'h', 't']);
    let ghost views = names@.map_values(|s: String| s@);
    let mut count: usize = 0;
    for i in 0..names.len()
        invariant
            views == names@.map_values(|s: String| s@),
            prefix@ == seq!['h', '.'],
            suffix@ == seq!['.', 'l', 'n', '_', '1', '.', 'w', 'e', 'i', 'g', 'h', 't'],
            count == count_block_names(views.take(i as int)),
            count <= i,
    {
        let cs = chars_of(names[i].as_str());
        let hit = cs.len() >= prefix.len() && cs.len() >= suffix.len() && matches_at(&cs, 0, &prefix)
            && matches_at(&cs, cs.len() - suffix.len(), &suffix);
        proof {
            assert(views[i as int] == cs@);
            assert(cs@.take(prefix.len() as int) =~= cs@.subrange(0, prefix.len() as int));
            assert(cs@.skip(cs.len() - suffix.len()) =~= cs@.subrange(cs.len() - suffix.len(), cs.len() as int));
            assert(hit == is_block_norm_name(views[i as int]));
            assert(views.take(i + 1).drop_last() =~= views.take(i as int));
        }
        if hit {
            count = count + 1;
        }
    }
    assert(views.take(names.len() as int) =~= views);
    count
}

/// The JSON header of a `.safetensors` file: the text `read_header` gives,
/// parsed.
pub fn read_header_json(file: &[u8]) -> (r: Result<Json, LoadError>)
    ensures
        file.len() < 8 ==> r == Err::<Json, LoadError>(LoadError::TooShort),
        file.len() >= 8 ==> ({
            let end = 8 + le_value(file@.take(8));
            let bytes = file@.subrange(8, end as int);
            match r {
                Ok(j) => end <= file.len() && valid_utf8(bytes) && json_of(decode_utf8(bytes)) == Some(j),
                Err(e) => (end > file.len() && e == LoadError::HeaderOutOfRange) || (end <= file.len()
                    && !valid_utf8(bytes) && e == LoadError::HeaderNotUtf8) || (end <= file.len()
                    && valid_utf8(bytes) && json_of(decode_utf8(bytes)) is None && e
                    == LoadError::HeaderNotJson),
            }
        }),
{
    let text = match read_header(file) {
        Ok(t) => t,
        Err(e) => {
            return Err(e);
        },
    };
    match parse_json(text.as_str()) {
        Some(j) => Ok(j),
        None => Err(LoadError::HeaderNotJson),
    }
}

/// The element type a header names, if it is one this loader reads.
pub open spec fn dtype_named(name: Seq<char>) -> Option<DType> {
    if name == seq!['F', '3', '2'] {
        Some(DType::F32)
    } else if name == seq!['B', 'F', '1', '6'] {
        Some(DType::BF16)
    } else {
        None
    }
}

/// The header entry `name` describes a tensor this loader reads: it is
/// there, its `data_offsets` start with two counts, its `shape` is an array
/// of counts, and its `dtype` is `F32` or `BF16`.
pub open spec fn tensor_entry_loads(header: Json, name: Seq<char>) -> bool {
    &&& field(header, name) matches Some(entry)
    &&& count_of(item_of(field(entry, "data_offsets"@), 0)) is Some
    &&& count_of(item_of(field(entry, "data_offsets"@), 1)) is Some
    &&& count_list(field(entry, "shape"@)) is Some
    &&& text_of(field(entry, "dtype"@)) matches Some(t)
    &&& dtype_named(t) is Some
}

/// Where the header entry `name` puts its tensor, for an entry that loads
/// (see `tensor_entry_loads`; the original panics on any other).
pub fn tensor_entry(header: &Json, name: &str) -> (info: TensorInfo)
    requires
        tensor_entry_loads(*header, name@),
    ensures
        ({
            let entry = field(*header, name@).unwrap();
            let offsets = field(entry, "data_offsets"@);
            &&& info.start == count_of(item_of(offsets, 0)).unwrap()
            &&& info.end == count_of(item_of(offsets, 1)).unwrap()
            &&& info.shape@ == count_list(field(entry, "shape"@)).unwrap()
            &&& info.dtype == dtype_named(text_of(field(entry, "dtype"@)).unwrap()).unwrap()
        }),
{
    tensor_info(header, name).unwrap()
}

/// Where the header entry `name` puts its tensor: its `data_offsets` (the
/// first two counts), its `shape` and its `dtype`.
pub fn tensor_info(header: &Json, name: &str) -> (r: Result<TensorInfo, LoadError>)
    ensures
        match field(*header, name@) {
            None => r == Err::<TensorInfo, LoadError>(LoadError::MissingTensor),
            Some(entry) => {
                let offsets = field(entry, "data_offsets"@);
                let start = count_of(item_of(offsets, 0));
                let end = count_of(item_of(offsets, 1));
                let shape = count_list(field(entry, "shape"@));
                let dtype = match text_of(field(entry, "dtype"@)) {
                    Some(t) => dtype_named(t),
                    None => None,
                };
                if start is None || end is None {
                    r == Err::<TensorInfo, LoadError>(LoadError::BadOffsets)
                } else if shape is None {
                    r == Err::<TensorInfo, LoadError>(LoadError::BadShape)
                } else if dtype is None {
                    r == Err::<TensorInfo, LoadError>(LoadError::UnsupportedDtype)
                } else {
                    r matches Ok(info) && info.start == start.unwrap() && info.end == end.unwrap()
                        && info.shape@ == shape.unwrap() && info.dtype == dtype.unwrap()
                }
            },
        },
{
    let entry = match get_field(header, name) {
        Some(e) => e,
        None => {
            return Err(LoadError::MissingTensor);
        },
    };
    let offsets = get_field(entry, "data_offsets");
    let (start, end) = match offsets {
        Some(Json::Array(xs)) => {
            if xs.len() < 2 {
                return Err(LoadError::BadOffsets);
            }
            match (count_value(Some(&xs[0])), count_value(Some(&xs[1]))) {
                (Some(a), Some(b)) => (a, b),
                _ => {
                    return Err(LoadError::BadOffsets);
                },
            }
        },
        _ => {
            return Err(LoadError::BadOffsets);
        },
    };
    let shape = match count_items(get_field(entry, "shape")) {
        Some(s) => s,
        None => {
            return Err(LoadError::BadShape);
        },
    };
    let dtype = match text_value(get_field(entry, "dtype")) {
        Some(t) => match DType::parse(t.as_str()) {
            Some(d) => d,
            None => {
                return Err(LoadError::UnsupportedDtype);
            },
        },
        None => {
            return Err(LoadError::UnsupportedDtype);
        },
    };
    Ok(TensorInfo { dtype, shape, start, end })
}

/// Tensor elements come out in file order: there are as many as whole
/// elements fit in the bytes, and element `i` is the little-endian value of
/// bytes `4i .. 4i + 4` (`F32`), or that of bytes `2i .. 2i + 2` shifted
/// into the upper half (`BF16`).
pub proof fn lemma_elements_in_order(bytes: Seq<u8>, dtype: DType, i: int)
    requires
        0 <= i < bytes.len() / dtype.spec_width(),
    ensures
        elements_bits(bytes, dtype).len() == bytes.len() / dtype.spec_width(),
        dtype == DType::F32 ==> elements_bits(bytes, dtype)[i] == bytes[4 * i] + 256 * bytes[4 * i + 1]
            + 65536 * bytes[4 * i + 2] + 16777216 * bytes[4 * i + 3],
        dtype == DType::BF16 ==> elements_bits(bytes, dtype)[i] == (bytes[2 * i] + 256 * bytes[2 * i + 1])
            * 65536,
{
    let w = dtype.spec_width() as int;
    let n = bytes.len() as int;
    assert(w * i + w <= n) by (nonlinear_arith)
        requires
            0 <= i < n / w,
            w > 0,
            n >= 0,
    ;
    let s = bytes.subrange(w * i, w * i + w);
    if dtype == DType::F32 {
        reveal_with_fuel(le_value, 5);
        assert(s.drop_first().drop_first().drop_first().drop_first() =~= Seq::<u8>::empty());
        assert(s[0] == bytes[4 * i] && s[1] == bytes[4 * i + 1] && s[2] == bytes[4 * i + 2] && s[3] == bytes[4 * i + 3]);
    } else {
        reveal_with_fuel(le_value, 3);
        assert(s.drop_first().drop_first() =~= Seq::<u8>::empty());
        assert(s[0] == bytes[2 * i] && s[1] == bytes[2 * i + 1]);
    }
}

/// The header length is the first 8 bytes read least significant first.
pub proof fn lemma_header_size_bytes(file: Seq<u8>)
    requires
        file.len() >= 8,
    ensures
        le_value(file.take(8)) == file[0] + 256 * (file[1] + 256 * (file[2] + 256 * (file[3] + 256 * (file[4]
            + 256 * (file[5] + 256 * (file[6] + 256 * file[7])))))),
{
    let s = file.take(8);
    reveal_with_fuel(le_value, 9);
    assert(s.drop_first().drop_first().drop_first().drop_first().drop_first().drop_first().drop_first().drop_first()
        =~= Seq::<u8>::empty());
}

} // verus!
