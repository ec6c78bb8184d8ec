//! Reading a JSON number as a count the way a float-to-integer cast does:
//! the value of the number truncated toward zero, `0` for a negative
//! number, `usize::MAX` for one beyond it.
use vstd::prelude::*;
use crate::json::{digits_value, is_digits, opt, Json};

verus! {

/// The first position whose character satisfies `p`, or the length.
pub open spec fn first_where(s: Seq<char>, p: spec_fn(char) -> bool) -> int
    decreases s.len(),
{
    if s.len() == 0 {
        0
    } else if p(s[0]) {
        0
    } else {
        1 + first_where(s.drop_first(), p)
    }
}

/// An exponent mark.
pub open spec fn is_exp_mark(c: char) -> bool {
    c == 'e' || c == 'E'
}

/// A decimal point.
pub open spec fn is_dot(c: char) -> bool {
    c == '.'
}

/// `10` to the power `n`.
pub open spec fn pow10(n: nat) -> nat
    decreases n,
{
    if n == 0 {
        1
    } else {
        10 * pow10((n - 1) as nat)
    }
}

/// The parts of a number's text: whether it is negative, its digits (of
/// the integer part, then of the fraction), the power of ten that scales
/// them, and whether the text has the form of a JSON number: an optional
/// `-`, digits, optionally `.` and digits, optionally `e` or `E`, an
/// optional sign and digits.
pub open spec fn number_parts(s: Seq<char>) -> (bool, Seq<char>, int, bool) {
    let neg = s.len() > 0 && s[0] == '-';
    let b = if neg { s.skip(1) } else { s };
    let k = first_where(b, |c: char| is_exp_mark(c));
    let mant = b.take(k);
    let has_exp = k < b.len();
    let ex = b.skip(k + 1);
    let d = first_where(mant, |c: char| is_dot(c));
    let int_part = mant.take(d);
    let has_dot = d < mant.len();
    let frac = if has_dot { mant.skip(d + 1) } else { Seq::<char>::empty() };
    let ex_signed = ex.len() > 0 && (ex[0] == '-' || ex[0] == '+');
    let ex_digits = if ex_signed { ex.skip(1) } else { ex };
    let ex_value: int = if !has_exp {
        0
    } else if ex_signed && ex[0] == '-' {
        -digits_value(ex_digits)
    } else {
        digits_value(ex_digits) as int
    };
    let valid = is_digits(int_part) && (!has_dot || is_digits(frac)) && (!has_exp || is_digits(ex_digits));
    (neg, int_part + frac, ex_value - frac.len(), valid)
}

/// The value of digits scaled by `10^e`, truncated toward zero.
pub open spec fn scaled_value(digits: Seq<char>, e: int) -> nat {
    if e >= 0 {
        digits_value(digits) * pow10(e as nat)
    } else if digits.len() + e > 0 {
        digits_value(digits.take(digits.len() + e))
    } else {
        0
    }
}

/// A number's text as a count: `None` unless it has the form of a JSON
/// number; else `0` for a negative number, and otherwise its value
/// truncated toward zero, `usize::MAX` where the value is larger.
///
/// For values below `2^53` this is what `as_f64()` followed by `as usize`
/// gives, since such a float is within one unit of the text's value and
/// no integer lies between them.
pub open spec fn number_count(s: Seq<char>) -> Option<usize> {
    let (neg, digits, e, valid) = number_parts(s);
    if !valid {
        None
    } else if neg {
        Some(0)
    } else if scaled_value(digits, e) > usize::MAX {
        Some(usize::MAX)
    } else {
        Some(scaled_value(digits, e) as usize)
    }
}

proof fn lemma_first_where(s: Seq<char>, p: spec_fn(char) -> bool, i: int)
    requires
        0 <= i <= s.len(),
        forall|k: int| 0 <= k < i ==> !p(#[trigger] s[k]),
        i == s.len() || p(s[i]),
    ensures
        first_where(s, p) == i,
    decreases i,
{
    if i > 0 {
        let r = s.drop_first();
        assert forall|k: int| 0 <= k < i - 1 implies !p(#[trigger] r[k]) by {
            assert(r[k] == s[k + 1]);
        }
        if i < s.len() {
            assert(r[i - 1] == s[i]);
        }
        lemma_first_where(r, p, i - 1);
        assert(!p(s[0]));
    }
}

fn is_mark(c: char, want_exp: bool) -> (r: bool)
    ensures
        r == (if want_exp { is_exp_mark(c) } else { is_dot(c) }),
{
    if want_exp {
        c == 'e' || c == 'E'
    } else {
        c == '.'
    }
}

fn find(cs: &Vec<char>, lo: usize, hi: usize, want_exp: bool) -> (r: usize)
    requires
        lo <= hi <= cs.len(),
    ensures
        lo <= r <= hi,
        want_exp ==> r - lo == first_where(cs@.subrange(lo as int, hi as int), |c: char| is_exp_mark(c)),
        !want_exp ==> r - lo == first_where(cs@.subrange(lo as int, hi as int), |c: char| is_dot(c)),
{
    let ghost s = cs@.subrange(lo as int, hi as int);
    let mut i = lo;
    while i < hi && !is_mark(cs[i], want_exp)
        invariant
            lo <= i <= hi <= cs.len(),
            s == cs@.subrange(lo as int, hi as int),
            want_exp ==> forall|k: int| 0 <= k < i - lo ==> !is_exp_mark(#[trigger] s[k]),
            !want_exp ==> forall|k: int| 0 <= k < i - lo ==> !is_dot(#[trigger] s[k]),
        decreases hi - i,
    {
        assert(s[i - lo] == cs@[i as int]);
        i = i + 1;
    }
    proof {
        if i < hi {
            assert(s[i - lo] == cs@[i as int]);
        }
        if want_exp {
            lemma_first_where(s, |c: char| is_exp_mark(c), i - lo);
        } else {
            lemma_first_where(s, |c: char| is_dot(c), i - lo);
        }
    }
    i
}

fn all_digits(cs: &Vec<char>, lo: usize, hi: usize) -> (r: bool)
    requires
        lo <= hi <= cs.len(),
    ensures
        r == is_digits(cs@.subrange(lo as int, hi as int)),
{
    let ghost s = cs@.subrange(lo as int, hi as int);
    if lo == hi {
        return false;
    }
    let mut i = lo;
    while i < hi
        invariant
            lo <= i <= hi <= cs.len(),
            s == cs@.subrange(lo as int, hi as int),
            forall|k: int| 0 <= k < i - lo ==> '0' <= #[trigger] s[k] <= '9',
        decreases hi - i,
    {
        if !('0' <= cs[i] && cs[i] <= '9') {
            assert(!('0' <= s[i - lo] <= '9'));
            return false;
        }
        i = i + 1;
    }
    true
}

proof fn lemma_sat_step(v: int, a: int, d: int)
    requires
        v >= 0,
        0 <= d <= 9,
        a == (if v > usize::MAX { usize::MAX as int } else { v }),
    ensures
        ({
            let m = if a * 10 > usize::MAX { usize::MAX as int } else { a * 10 };
            let r = if m + d > usize::MAX { usize::MAX as int } else { m + d };
            r == (if v * 10 + d > usize::MAX { usize::MAX as int } else { v * 10 + d })
        }),
{
    assert(v > usize::MAX ==> v * 10 + d > usize::MAX) by (nonlinear_arith)
        requires
            v >= 0,
            d >= 0,
    ;
    assert(v > usize::MAX ==> a * 10 > usize::MAX) by (nonlinear_arith)
        requires
            a == (if v > usize::MAX { usize::MAX as int } else { v }),
    ;
}

/// `min(value, usize::MAX)` of the digits `cs[lo..hi]`.
fn saturated_digits(cs: &Vec<char>, lo: usize, hi: usize) -> (r: usize)
    requires
        lo <= hi <= cs.len(),
        forall|k: int| lo <= k < hi ==> '0' <= #[trigger] cs@[k] <= '9',
    ensures
        r == (if digits_value(cs@.subrange(lo as int, hi as int)) > usize::MAX {
            usize::MAX as int
        } else {
            digits_value(cs@.subrange(lo as int, hi as int)) as int
        }),
{
    let mut acc: usize = 0;
    let mut i = lo;
    assert(cs@.subrange(lo as int, lo as int) =~= Seq::<char>::empty());
    while i < hi
        invariant
            lo <= i <= hi <= cs.len(),
            forall|k: int| lo <= k < hi ==> '0' <= #[trigger] cs@[k] <= '9',
            acc == (if digits_value(cs@.subrange(lo as int, i as int)) > usize::MAX {
                usize::MAX as int
            } else {
                digits_value(cs@.subrange(lo as int, i as int)) as int
            }),
        decreases hi - i,
    {
        let ghost v = digits_value(cs@.subrange(lo as int, i as int));
        let c = cs[i];
        assert('0' <= cs@[i as int] <= '9');
        let d = (c as u32 - 48) as usize;
        assert(cs@.subrange(lo as int, i + 1).drop_last() =~= cs@.subrange(lo as int, i as int));
        assert(cs@.subrange(lo as int, i + 1).last() == c);
        assert(digits_value(cs@.subrange(lo as int, i + 1)) == v * 10 + d);
        proof {
            lemma_sat_step(v as int, acc as int, d as int);
        }
        let m = match acc.checked_mul(10) {
            Some(m) => m,
            None => usize::MAX,
        };
        acc = m.saturating_add(d);
        i = i + 1;
    }
    acc
}

proof fn lemma_pow10_grows(n: nat)
    ensures
        pow10(n) >= 1,
        n >= 20 ==> pow10(n) > usize::MAX,
    decreases n,
{
    if n > 0 {
        lemma_pow10_grows((n - 1) as nat);
        if n == 20 {
            assert(pow10(20) == 100000000000000000000) by {
                reveal_with_fuel(pow10, 21);
            }
        }
    }
}

/// Where the parts of a number's text lie: `(b0, d, k, ed, has_dot,
/// has_exp, ex_neg)` are the start of the digits (after a `-`), the end of
/// the integer part, the end of the mantissa, the start of the exponent's
/// digits, and whether there is a fraction, an exponent, and a negative
/// exponent.
pub open spec fn layout_matches(s: Seq<char>, l: (usize, usize, usize, usize, bool, bool, bool)) -> bool {
    let (b0, d, k, ed, has_dot, has_exp, ex_neg) = l;
    let n = s.len();
    let parts = number_parts(s);
    let frac_len: int = if has_dot { k - d - 1 } else { 0 };
    let xv: int = if has_exp { digits_value(s.subrange(ed as int, n as int)) as int } else { 0 };
    &&& b0 <= d <= k <= n
    &&& ed <= n
    &&& parts.0 == (b0 == 1)
    &&& (has_dot ==> d + 1 <= k)
    &&& parts.1 == s.subrange(b0 as int, d as int) + (if has_dot {
        s.subrange(d + 1, k as int)
    } else {
        Seq::<char>::empty()
    })
    &&& parts.2 == (if ex_neg { -xv } else { xv }) - frac_len
    &&& parts.3 ==> (has_exp ==> forall|j: int| ed <= j < n ==> '0' <= #[trigger] s[j] <= '9')
    &&& parts.3 ==> (has_exp ==> k < ed)
    &&& parts.3 ==> forall|j: int| 0 <= j < parts.1.len() ==> '0' <= #[trigger] parts.1[j] <= '9'
}

#[verifier::rlimit(60)]
fn layout(cs: &Vec<char>) -> (r: ((usize, usize, usize, usize, bool, bool, bool), bool))
    ensures
        layout_matches(cs@, r.0),
        r.1 == number_parts(cs@).3,
{
    let n = cs.len();
    let neg = n > 0 && cs[0] == '-';
    let b0: usize = if neg { 1 } else { 0 };
    let ghost b = if neg { cs@.skip(1) } else { cs@ };
    assert(b =~= cs@.subrange(b0 as int, n as int));
    let k = find(cs, b0, n, true);
    let ghost mant = b.take(k - b0);
    assert(mant =~= cs@.subrange(b0 as int, k as int));
    let has_exp = k < n;
    let d = find(cs, b0, k, false);
    let has_dot = d < k;
    let int_ok = all_digits(cs, b0, d);
    assert(cs@.subrange(b0 as int, d as int) =~= mant.take(d - b0));
    let frac_ok = !has_dot || all_digits(cs, d + 1, k);
    if has_dot {
        assert(cs@.subrange(d + 1, k as int) =~= mant.skip(d - b0 + 1));
    }
    let ex_lo: usize = if has_exp { k + 1 } else { n };
    let ghost ex = b.skip(k - b0 + 1);
    if has_exp {
        assert(ex =~= cs@.subrange(ex_lo as int, n as int));
    }
    let ex_signed = has_exp && ex_lo < n && (cs[ex_lo] == '-' || cs[ex_lo] == '+');
    let ex_neg = ex_signed && cs[ex_lo] == '-';
    let ed: usize = if ex_signed { ex_lo + 1 } else { ex_lo };
    let ex_ok = !has_exp || all_digits(cs, ed, n);
    if has_exp {
        if ex_signed {
            assert(cs@.subrange(ed as int, n as int) =~= ex.skip(1));
        } else {
            assert(cs@.subrange(ed as int, n as int) =~= ex);
        }
    }
    let valid = int_ok && frac_ok && ex_ok;
    let l = (b0, d, k, ed, has_dot, has_exp, ex_neg);
    proof {
        let parts = number_parts(cs@);
        if valid {
            if has_exp {
                assert forall|j: int| ed <= j < n implies '0' <= #[trigger] cs@[j] <= '9' by {
                    assert(cs@.subrange(ed as int, n as int)[j - ed] == cs@[j]);
                }
            }
            assert forall|j: int| 0 <= j < parts.1.len() implies '0' <= #[trigger] parts.1[j] <= '9' by {
                if j < d - b0 {
                    assert(parts.1[j] == cs@.subrange(b0 as int, d as int)[j]);
                } else {
                    assert(parts.1[j] == cs@.subrange(d + 1, k as int)[j - (d - b0)]);
                }
            }
        }
    }
    (l, valid)
}

/// A JSON number's text as a count (see `number_count`).
pub fn number_to_count(s: &str) -> (r: Option<usize>)
    ensures
        r == number_count(s@),
{
    let cs = crate::text::chars_of(s);
    let n = cs.len();
    let (l, valid) = layout(&cs);
    let (b0, d, k, ed, has_dot, has_exp, ex_neg) = l;
    let ghost parts = number_parts(s@);
    if !valid {
        return None;
    }
    if b0 == 1 {
        return Some(0);
    }
    let mut digits: Vec<char> = Vec::new();
    for i in b0..d
        invariant
            b0 <= d <= k <= n,
            n == cs.len(),
            digits@ == cs@.subrange(b0 as int, i as int),
    {
        digits.push(cs[i]);
        assert(digits@ =~= cs@.subrange(b0 as int, i + 1));
    }
    let frac_lo: usize = if has_dot { d + 1 } else { k };
    for i in frac_lo..k
        invariant
            frac_lo <= k <= n,
            n == cs.len(),
            digits@ == cs@.subrange(b0 as int, d as int) + cs@.subrange(frac_lo as int, i as int),
    {
        digits.push(cs[i]);
        assert(digits@ =~= cs@.subrange(b0 as int, d as int) + cs@.subrange(frac_lo as int, i + 1));
    }
    let frac_len = k - frac_lo;
    assert(digits@ =~= parts.1);
    let ex_sat: usize = if has_exp {
        saturated_digits(&cs, ed, n)
    } else {
        0
    };
    let ghost xv: nat = if has_exp {
        digits_value(cs@.subrange(ed as int, n as int))
    } else {
        0
    };
    proof {
        if xv > usize::MAX {
            let t = cs@.subrange(ed as int, n as int);
            assert forall|i: int| 0 <= i < t.len() implies '0' <= #[trigger] t[i] <= '9' by {
                assert(t[i] == cs@[ed + i]);
            }
            lemma_digits_bound(t);
            assert(k < ed);
            assert(frac_len <= k);
            assert(frac_len + t.len() <= n);
            assert(ex_sat == usize::MAX);
            lemma_pow10_mono(t.len(), (ex_sat - frac_len) as nat);
        }
    }
    Some(scaled_count(&digits, frac_len, ex_neg, ex_sat, Ghost(xv), Ghost(parts.2)))
}

/// `min(scaled_value(digits, e), usize::MAX)`, given the magnitude of the
/// exponent saturated to a `usize` and its sign.
#[verifier::rlimit(30)]
fn scaled_count(digits: &Vec<char>, frac_len: usize, ex_neg: bool, ex_sat: usize, Ghost(x): Ghost<nat>, Ghost(e): Ghost<int>) -> (r: usize)
    requires
        frac_len <= digits.len(),
        forall|j: int| 0 <= j < digits.len() ==> '0' <= #[trigger] digits@[j] <= '9',
        (x > usize::MAX && ex_sat == usize::MAX) || (x <= usize::MAX && ex_sat == x),
        x > usize::MAX ==> frac_len <= ex_sat && pow10((ex_sat - frac_len) as nat) > usize::MAX,
        e == (if ex_neg {
            -x
        } else {
            x as int
        }) - frac_len,
    ensures
        r == (if scaled_value(digits@, e) > usize::MAX {
            usize::MAX as int
        } else {
            scaled_value(digits@, e) as int
        }),
{
    let total = digits.len();
    assert(digits@.subrange(0, total as int) =~= digits@);
    if !ex_neg && ex_sat >= frac_len {
        let times = ex_sat - frac_len;
        let mut acc = saturated_digits(digits, 0, total);
        let mut i: usize = 0;
        assert(pow10(0) == 1);
        assert(digits_value(digits@) * pow10(0) == digits_value(digits@));
        while i < times && acc != 0 && acc != usize::MAX
            invariant
                i <= times,
                acc == (if digits_value(digits@) * pow10(i as nat) > usize::MAX {
                    usize::MAX as int
                } else {
                    (digits_value(digits@) * pow10(i as nat)) as int
                }),
            decreases times - i,
        {
            proof {
                lemma_pow10_grows(i as nat);
                lemma_sat_step((digits_value(digits@) * pow10(i as nat)) as int, acc as int, 0);
                assert(pow10((i + 1) as nat) == 10 * pow10(i as nat));
                assert(digits_value(digits@) * pow10((i + 1) as nat) == digits_value(digits@) * pow10(i as nat) * 10)
                    by (nonlinear_arith)
                    requires
                        pow10((i + 1) as nat) == 10 * pow10(i as nat),
                ;
            }
            acc = match acc.checked_mul(10) {
                Some(m) => m,
                None => usize::MAX,
            };
            i = i + 1;
        }
        proof {
            let v = digits_value(digits@);
            assert(e >= i);
            lemma_pow10_grows(i as nat);
            lemma_pow10_mono(i as nat, e as nat);
            if acc == 0 {
                assert(v == 0) by (nonlinear_arith)
                    requires
                        v * pow10(i as nat) == 0,
                        pow10(i as nat) >= 1,
                ;
                assert(v * pow10(e as nat) == 0) by (nonlinear_arith)
                    requires
                        v == 0,
                ;
            } else if acc == usize::MAX {
                assert(v * pow10(e as nat) >= v * pow10(i as nat)) by (nonlinear_arith)
                    requires
                        pow10(e as nat) >= pow10(i as nat),
                        v >= 0,
                ;
            } else {
                assert(i == times);
                if times != e {
                    assert(x > usize::MAX);
                    lemma_pow10_grows(times as nat);
                    assert(v * pow10(times as nat) != 0);
                    assert(v >= 1) by (nonlinear_arith)
                        requires
                            v * pow10(times as nat) != 0,
                            v >= 0,
                    ;
                    assert(v * pow10(times as nat) >= pow10(times as nat)) by (nonlinear_arith)
                        requires
                            v >= 1,
                            pow10(times as nat) >= 1,
                    ;
                }
            }
        }
        acc
    } else {
        let drop: usize = if ex_neg {
            frac_len.saturating_add(ex_sat)
        } else {
            frac_len - ex_sat
        };
        if drop >= total {
            assert(total + e <= 0);
            0
        } else {
            let keep = total - drop;
            assert(total + e == keep);
            assert(digits@.subrange(0, keep as int) =~= digits@.take(keep as int));
            saturated_digits(digits, 0, keep)
        }
    }
}

proof fn lemma_digits_bound(s: Seq<char>)
    requires
        forall|i: int| 0 <= i < s.len() ==> '0' <= #[trigger] s[i] <= '9',
    ensures
        digits_value(s) < pow10(s.len()),
    decreases s.len(),
{
    if s.len() > 0 {
        let t = s.drop_last();
        assert forall|i: int| 0 <= i < t.len() implies '0' <= #[trigger] t[i] <= '9' by {
            assert(t[i] == s[i]);
        }
        lemma_digits_bound(t);
        assert('0' <= s.last() <= '9');
        let d = (s.last() as int - 48);
        assert(0 <= d <= 9);
        assert(digits_value(t) * 10 + d < pow10(t.len()) * 10) by (nonlinear_arith)
            requires
                digits_value(t) < pow10(t.len()),
                0 <= d <= 9,
        ;
    }
}

proof fn lemma_pow10_mono(a: nat, b: nat)
    requires
        a <= b,
    ensures
        pow10(a) <= pow10(b),
    decreases b,
{
    if a < b {
        lemma_pow10_mono(a, (b - 1) as nat);
        lemma_pow10_grows((b - 1) as nat);
    }
}

/// The id a value holds: any number, read as a count (`number_count`).
pub open spec fn id_of(j: Option<Json>) -> Option<usize> {
    match j {
        Some(Json::Number(s)) => number_count(s@),
        _ => None,
    }
}

/// The ids of all the fields of an object, with their names; `None` unless
/// the value is an object whose every field holds a number.
pub open spec fn ids_of_fields(j: Option<Json>) -> Option<Seq<(Seq<char>, usize)>> {
    match j {
        Some(Json::Object(es)) => if forall|i: int| 0 <= i < es.len() ==> (#[trigger] id_of(Some(es@[i].1))) is Some {
            Some(Seq::new(es.len() as nat, |i: int| (es@[i].0@, id_of(Some(es@[i].1)).unwrap())))
        } else {
            None
        },
        _ => None,
    }
}

/// The ids of an object's fields with their names (see `ids_of_fields`).
pub fn id_fields(j: Option<&Json>) -> (r: Option<Vec<(String, usize)>>)
    ensures
        match r {
            Some(v) => ids_of_fields(opt(j)) == Some(v@.map_values(|e: (String, usize)| (e.0@, e.1))),
            None => ids_of_fields(opt(j)) is None,
        },
{
    match j {
        Some(Json::Object(es)) => {
            let mut out: Vec<(String, usize)> = Vec::new();
            for i in 0..es.len()
                invariant
                    opt(j) == Some(Json::Object(*es)),
                    out@.len() == i,
                    forall|m: int| 0 <= m < i ==> (#[trigger] id_of(Some(es@[m].1))) is Some,
                    forall|m: int|
                        0 <= m < i ==> (#[trigger] out@[m]).0@ == es@[m].0@ && out@[m].1 == id_of(
                            Some(es@[m].1),
                        ).unwrap(),
            {
                let id = match &es[i].1 {
                    Json::Number(t) => number_to_count(t.as_str()),
                    _ => None,
                };
                match id {
                    Some(n) => {
                        out.push((es[i].0.clone(), n));
                    },
                    None => {
                        assert(id_of(Some(es@[i as int].1)) is None);
                        return None;
                    },
                }
            }
            assert(out@.map_values(|e: (String, usize)| (e.0@, e.1)) =~= Seq::new(
                es.len() as nat,
                |i: int| (es@[i].0@, id_of(Some(es@[i].1)).unwrap()),
            ));
            Some(out)
        },
        _ => None,
    }
}

} // verus!
