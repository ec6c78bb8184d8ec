//! JSON values as the loaders read them: parsed by serde_json, held as a
//! tree of the library's own, and looked into by verified functions.
use vstd::prelude::*;

verus! {

/// A JSON value. A number is kept as the text serde_json displays for it,
/// so that no float is involved.
#[derive(Debug)]
pub enum Json {
    Null,
    Bool(bool),
    Number(String),
    Str(String),
    Array(Vec<Json>),
    Object(Vec<(String, Json)>),
}

#[verifier::external_type_specification]
#[verifier::external_body]
pub struct ExJsonValue(serde_json::Value);

/// What serde_json makes of `text`: `None` where it reports an error, else
/// the parsed value.
pub uninterp spec fn json_of(text: Seq<char>) -> Option<Json>;

/// Parses JSON text (`serde_json::from_str` into `serde_json::Value`) and
/// converts the value one for one. Claimed: the result is a function of the
/// text alone, `json_of`; serde_json's grammar, and what it does with
/// repeated keys and the order of keys, are not stated here.
#[verifier::external_body]
pub fn parse_json(text: &str) -> (r: Option<Json>)
    ensures
        r == json_of(text@),
{
    match serde_json::from_str::<serde_json::Value>(text) {
        Ok(v) => Some(json_from_value(v)),
        Err(_) => None,
    }
}

/// Converts a `serde_json::Value`, variant for variant; a number becomes
/// the text its `Display` gives.
#[verifier::external_body]
fn json_from_value(v: serde_json::Value) -> (r: Json) {
    match v {
        serde_json::Value::Null => Json::Null,
        serde_json::Value::Bool(b) => Json::Bool(b),
        serde_json::Value::Number(n) => Json::Number(n.to_string()),
        serde_json::Value::String(s) => Json::Str(s),
        serde_json::Value::Array(a) => Json::Array(a.into_iter().map(json_from_value).collect()),
        serde_json::Value::Object(o) => Json::Object(o.into_iter().map(|(k, x)| (k, json_from_value(x))).collect()),
    }
}

/// A value that may be missing, taken from a reference.
pub open spec fn opt(j: Option<&Json>) -> Option<Json> {
    match j {
        Some(x) => Some(*x),
        None => None,
    }
}

/// The value of the first entry named `key`.
pub open spec fn entry_of(entries: Seq<(String, Json)>, key: Seq<char>) -> Option<Json>
    decreases entries.len(),
{
    if entries.len() == 0 {
        None
    } else if entries[0].0@ == key {
        Some(entries[0].1)
    } else {
        entry_of(entries.drop_first(), key)
    }
}

/// The field `key` of an object; `None` for a missing field or a value that
/// is not an object.
pub open spec fn field(j: Json, key: Seq<char>) -> Option<Json> {
    match j {
        Json::Object(es) => entry_of(es@, key),
        _ => None,
    }
}

/// The field `key` of a value that may be missing.
pub open spec fn field_of(j: Option<Json>, key: Seq<char>) -> Option<Json> {
    match j {
        Some(v) => field(v, key),
        None => None,
    }
}

/// Item `i` of an array.
pub open spec fn item_of(j: Option<Json>, i: int) -> Option<Json> {
    match j {
        Some(Json::Array(xs)) => if 0 <= i < xs.len() {
            Some(xs@[i])
        } else {
            None
        },
        _ => None,
    }
}

/// The text is one or more decimal digits.
pub open spec fn is_digits(s: Seq<char>) -> bool {
    s.len() > 0 && forall|i: int| 0 <= i < s.len() ==> '0' <= #[trigger] s[i] <= '9'
}

/// The value of a text of decimal digits.
pub open spec fn digits_value(s: Seq<char>) -> nat
    decreases s.len(),
{
    if s.len() == 0 {
        0
    } else {
        digits_value(s.drop_last()) * 10 + ((s.last() as int - 48) as nat)
    }
}

/// The count a value holds: a number written as decimal digits (a
/// non-negative integer) whose value fits a `usize`.
pub open spec fn count_of(j: Option<Json>) -> Option<usize> {
    match j {
        Some(Json::Number(s)) => if is_digits(s@) && digits_value(s@) <= usize::MAX {
            Some(digits_value(s@) as usize)
        } else {
            None
        },
        _ => None,
    }
}

/// The text a value holds, if it is a string.
pub open spec fn text_of(j: Option<Json>) -> Option<Seq<char>> {
    match j {
        Some(Json::Str(s)) => Some(s@),
        _ => None,
    }
}

/// The value is `true`.
pub open spec fn is_true(j: Option<Json>) -> bool {
    j matches Some(Json::Bool(b)) && b
}

/// The counts of all the fields of an object, with their names; `None`
/// unless the value is an object whose every field holds a count.
pub open spec fn counts_of(j: Option<Json>) -> Option<Seq<(Seq<char>, usize)>> {
    match j {
        Some(Json::Object(es)) => if forall|i: int| 0 <= i < es.len() ==> (#[trigger] count_of(Some(es@[i].1))) is Some {
            Some(Seq::new(es.len() as nat, |i: int| (es@[i].0@, count_of(Some(es@[i].1)).unwrap())))
        } else {
            None
        },
        _ => None,
    }
}

/// The texts of an array of strings; `None` unless every item is a string.
pub open spec fn texts_of(j: Option<Json>) -> Option<Seq<Seq<char>>> {
    match j {
        Some(Json::Array(xs)) => if forall|i: int| 0 <= i < xs.len() ==> (#[trigger] text_of(Some(xs@[i]))) is Some {
            Some(Seq::new(xs.len() as nat, |i: int| text_of(Some(xs@[i])).unwrap()))
        } else {
            None
        },
        _ => None,
    }
}

/// The counts of an array of counts; `None` unless every item is a count.
pub open spec fn count_list(j: Option<Json>) -> Option<Seq<usize>> {
    match j {
        Some(Json::Array(xs)) => if forall|i: int| 0 <= i < xs.len() ==> (#[trigger] count_of(Some(xs@[i]))) is Some {
            Some(Seq::new(xs.len() as nat, |i: int| count_of(Some(xs@[i])).unwrap()))
        } else {
            None
        },
        _ => None,
    }
}

/// The names of an object's fields, in order.
pub open spec fn keys_of(j: Option<Json>) -> Option<Seq<Seq<char>>> {
    match j {
        Some(Json::Object(es)) => Some(es@.map_values(|e: (String, Json)| e.0@)),
        _ => None,
    }
}

proof fn lemma_entry_first(entries: Seq<(String, Json)>, key: Seq<char>, i: int)
    requires
        0 <= i <= entries.len(),
        forall|k: int| 0 <= k < i ==> (#[trigger] entries[k]).0@ != key,
    ensures
        i < entries.len() && entries[i].0@ == key ==> entry_of(entries, key) == Some(entries[i].1),
        i == entries.len() ==> entry_of(entries, key) is None,
    decreases i,
{
    if i > 0 {
        let rest = entries.drop_first();
        assert forall|k: int| 0 <= k < i - 1 implies (#[trigger] rest[k]).0@ != key by {
            assert(rest[k] == entries[k + 1]);
        }
        lemma_entry_first(rest, key, i - 1);
        assert(entries[0].0@ != key);
    } else if entries.len() > 0 {
        assert(entries[0] == entries[i]);
    }
}

/// The field `key` of `j`.
pub fn get_field<'a>(j: &'a Json, key: &str) -> (r: Option<&'a Json>)
    ensures
        match r {
            Some(v) => field(*j, key@) == Some(*v),
            None => field(*j, key@) is None,
        },
{
    match j {
        Json::Object(es) => {
            let k = key.to_owned();
            for i in 0..es.len()
                invariant
                    k@ == key@,
                    *j == Json::Object(*es),
                    forall|m: int| 0 <= m < i ==> (#[trigger] es@[m]).0@ != key@,
            {
                if es[i].0 == k {
                    assert(es@[i as int].0@ == key@);
                    proof {
                        lemma_entry_first(es@, key@, i as int);
                    }
                    return Some(&es[i].1);
                }
            }
            proof {
                lemma_entry_first(es@, key@, es.len() as int);
            }
            None
        },
        _ => None,
    }
}

/// The field `key` of a value that may be missing.
pub fn get_field_of<'a>(j: Option<&'a Json>, key: &str) -> (r: Option<&'a Json>)
    ensures
        match r {
            Some(v) => field_of(opt(j), key@) == Some(*v),
            None => field_of(opt(j), key@) is None,
        },
{
    match j {
        Some(v) => get_field(v, key),
        None => None,
    }
}

proof fn lemma_digits_prefix(s: Seq<char>, k: int)
    requires
        0 <= k <= s.len(),
        forall|i: int| 0 <= i < s.len() ==> '0' <= #[trigger] s[i] <= '9',
    ensures
        digits_value(s.take(k)) <= digits_value(s),
    decreases s.len() - k,
{
    if k < s.len() {
        lemma_digits_prefix(s, k + 1);
        assert(s.take(k + 1).drop_last() =~= s.take(k));
        assert(s.take(k + 1).last() == s[k]);
    } else {
        assert(s.take(k) =~= s);
    }
}

/// The count a value holds (see `count_of`).
pub fn count_value(j: Option<&Json>) -> (r: Option<usize>)
    ensures
        r == count_of(opt(j)),
{
    let v = match j {
        Some(v) => v,
        None => {
            return None;
        },
    };
    match v {
        Json::Number(s) => {
            assert(opt(j) == Some(Json::Number(*s)));
            let cs = crate::text::chars_of(s.as_str());
            if cs.len() == 0 {
                return None;
            }
            let mut acc: usize = 0;
            for i in 0..cs.len()
                invariant
                    opt(j) == Some(Json::Number(*s)),
                    cs@ == s@,
                    cs.len() > 0,
                    acc == digits_value(cs@.take(i as int)),
                    forall|m: int| 0 <= m < i ==> '0' <= #[trigger] cs@[m] <= '9',
            {
                let c = cs[i];
                assert(cs@.take(i + 1).drop_last() =~= cs@.take(i as int));
                if !('0' <= c && c <= '9') {
                    assert(!is_digits(s@));
                    return None;
                }
                let d = (c as u32 - 48) as usize;
                assert(cs@.take(i + 1).last() == c);
                assert(digits_value(cs@.take(i + 1)) == acc * 10 + d);
                match acc.checked_mul(10) {
                    None => {
                        proof {
                            if is_digits(s@) {
                                lemma_digits_prefix(s@, i + 1);
                            }
                        }
                        return None;
                    },
                    Some(m) => match m.checked_add(d) {
                        None => {
                            proof {
                                if is_digits(s@) {
                                    lemma_digits_prefix(s@, i + 1);
                                }
                            }
                            return None;
                        },
                        Some(v) => {
                            acc = v;
                        },
                    },
                }
            }
            assert(cs@.take(cs.len() as int) =~= cs@);
            Some(acc)
        },
        _ => {
            assert(count_of(opt(j)) is None);
            None
        },
    }
}

/// The text a value holds, if it is a string.
pub fn text_value(j: Option<&Json>) -> (r: Option<String>)
    ensures
        match r {
            Some(s) => text_of(opt(j)) == Some(s@),
            None => text_of(opt(j)) is None,
        },
{
    match j {
        Some(Json::Str(s)) => Some(s.clone()),
        _ => None,
    }
}

/// The value is `true`.
pub fn true_value(j: Option<&Json>) -> (r: bool)
    ensures
        r == is_true(opt(j)),
{
    match j {
        Some(Json::Bool(b)) => *b,
        _ => false,
    }
}

/// The counts of an object's fields with their names (see `counts_of`).
pub fn count_fields(j: Option<&Json>) -> (r: Option<Vec<(String, usize)>>)
    ensures
        match r {
            Some(v) => counts_of(opt(j)) == Some(v@.map_values(|e: (String, usize)| (e.0@, e.1))),
            None => counts_of(opt(j)) is None,
        },
{
    match j {
        Some(Json::Object(es)) => {
            let mut out: Vec<(String, usize)> = Vec::new();
            for i in 0..es.len()
                invariant
                    opt(j) == Some(Json::Object(*es)),
                    out@.len() == i,
                    forall|m: int| 0 <= m < i ==> (#[trigger] count_of(Some(es@[m].1))) is Some,
                    forall|m: int|
                        0 <= m < i ==> (#[trigger] out@[m]).0@ == es@[m].0@ && out@[m].1 == count_of(
                            Some(es@[m].1),
                        ).unwrap(),
            {
                match count_value(Some(&es[i].1)) {
                    Some(n) => {
                        out.push((es[i].0.clone(), n));
                    },
                    None => {
                        assert(count_of(Some(es@[i as int].1)) is None);
                        return None;
                    },
                }
            }
            assert(out@.map_values(|e: (String, usize)| (e.0@, e.1)) =~= Seq::new(
                es.len() as nat,
                |i: int| (es@[i].0@, count_of(Some(es@[i].1)).unwrap()),
            ));
            Some(out)
        },
        _ => None,
    }
}

/// The texts of an array of strings (see `texts_of`).
pub fn text_items(j: Option<&Json>) -> (r: Option<Vec<String>>)
    ensures
        match r {
            Some(v) => texts_of(opt(j)) == Some(v@.map_values(|s: String| s@)),
            None => texts_of(opt(j)) is None,
        },
{
    match j {
        Some(Json::Array(xs)) => {
            let mut out: Vec<String> = Vec::new();
            for i in 0..xs.len()
                invariant
                    opt(j) == Some(Json::Array(*xs)),
                    out@.len() == i,
                    forall|m: int| 0 <= m < i ==> (#[trigger] text_of(Some(xs@[m]))) is Some,
                    forall|m: int| 0 <= m < i ==> Some((#[trigger] out@[m])@) == text_of(Some(xs@[m])),
            {
                match text_value(Some(&xs[i])) {
                    Some(s) => {
                        out.push(s);
                    },
                    None => {
                        assert(text_of(Some(xs@[i as int])) is None);
                        return None;
                    },
                }
            }
            assert(out@.map_values(|s: String| s@) =~= Seq::new(
                xs.len() as nat,
                |i: int| text_of(Some(xs@[i])).unwrap(),
            ));
            Some(out)
        },
        _ => None,
    }
}

/// The counts of an array of counts (see `count_list`).
pub fn count_items(j: Option<&Json>) -> (r: Option<Vec<usize>>)
    ensures
        match r {
            Some(v) => count_list(opt(j)) == Some(v@),
            None => count_list(opt(j)) is None,
        },
{
    match j {
        Some(Json::Array(xs)) => {
            let mut out: Vec<usize> = Vec::new();
            for i in 0..xs.len()
                invariant
                    opt(j) == Some(Json::Array(*xs)),
                    out@.len() == i,
                    forall|m: int| 0 <= m < i ==> (#[trigger] count_of(Some(xs@[m]))) is Some,
                    forall|m: int| 0 <= m < i ==> Some(#[trigger] out@[m]) == count_of(Some(xs@[m])),
            {
                match count_value(Some(&xs[i])) {
                    Some(n) => {
                        out.push(n);
                    },
                    None => {
                        assert(count_of(Some(xs@[i as int])) is None);
                        return None;
                    },
                }
            }
            assert(out@ =~= Seq::new(xs.len() as nat, |i: int| count_of(Some(xs@[i])).unwrap()));
            Some(out)
        },
        _ => None,
    }
}

/// The names of an object's fields, in order.
pub fn field_names(j: &Json) -> (r: Option<Vec<String>>)
    ensures
        match r {
            Some(v) => keys_of(Some(*j)) == Some(v@.map_values(|s: String| s@)),
            None => keys_of(Some(*j)) is None,
        },
{
    match j {
        Json::Object(es) => {
            let mut out: Vec<String> = Vec::new();
            for i in 0..es.len()
                invariant
                    out@.len() == i,
                    forall|m: int| 0 <= m < i ==> (#[trigger] out@[m])@ == es@[m].0@,
            {
                out.push(es[i].0.clone());
            }
            assert(out@.map_values(|s: String| s@) =~= es@.map_values(|e: (String, Json)| e.0@));
            Some(out)
        },
        _ => None,
    }
}

} // verus!
