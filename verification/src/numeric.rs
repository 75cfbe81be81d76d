//! Numeric token grammar: PDF's simple decimal form, the unsigned-integer form
//! read by `str::parse` for unsigned types, and the floating-point literal form
//! accepted by `str::parse::<f64>`.

use vstd::prelude::*;

use crate::object::{Object, Real, RealVal, Val};

verus! {

pub open spec fn digit_byte(b: u8) -> bool {
    0x30 <= b <= 0x39
}

/// The decimal value of a run of digit bytes.
pub open spec fn digits_value(s: Seq<u8>) -> int
    decreases s.len(),
{
    if s.len() == 0 {
        0
    } else {
        digits_value(s.drop_last()) * 10 + (s.last() - 0x30)
    }
}

pub open spec fn all_digits(s: Seq<u8>) -> bool {
    forall|i: int| 0 <= i < s.len() ==> digit_byte(#[trigger] s[i])
}

/// What `str::parse` gives for an unsigned integer type whose largest value is
/// `max`: an optional `+`, one or more ASCII digits, and a value within range.
pub open spec fn uint_literal(tok: Seq<u8>, max: int) -> Option<int> {
    let d = if tok.len() > 0 && tok[0] == 0x2b {
        tok.drop_first()
    } else {
        tok
    };
    if d.len() > 0 && all_digits(d) && digits_value(d) <= max {
        Some(digits_value(d))
    } else {
        None
    }
}

/// A run of decimal digits is worth a non-negative number.
pub proof fn lemma_digits_value_nonneg(s: Seq<u8>)
    requires
        all_digits(s),
    ensures
        digits_value(s) >= 0,
    decreases s.len(),
{
    if s.len() > 0 {
        assert(all_digits(s.drop_last())) by {
            assert forall|i: int| 0 <= i < s.drop_last().len() implies digit_byte(
                #[trigger] s.drop_last()[i],
            ) by {
                assert(s.drop_last()[i] == s[i]);
            }
        }
        lemma_digits_value_nonneg(s.drop_last());
    }
}

/// A longer digit run is worth at least as much as its prefix.
pub proof fn lemma_digits_value_prefix(s: Seq<u8>, k: int)
    requires
        all_digits(s),
        0 <= k <= s.len(),
    ensures
        digits_value(s.take(k)) <= digits_value(s),
    decreases s.len(),
{
    if k < s.len() {
        let t = s.drop_last();
        assert(all_digits(t)) by {
            assert forall|i: int| 0 <= i < t.len() implies digit_byte(#[trigger] t[i]) by {
                assert(t[i] == s[i]);
            }
        }
        assert(t.take(k) =~= s.take(k));
        lemma_digits_value_prefix(t, k);
        lemma_digits_value_nonneg(t);
    } else {
        assert(s.take(k) =~= s);
    }
}

/// Parse an unsigned decimal token the way `str::parse` does for an unsigned
/// type whose largest value is `max`.
pub fn parse_uint(tok: &[u8], max: u64) -> (r: Option<u64>)
    ensures
        match uint_literal(tok@, max as int) {
            Some(v) => 0 <= v <= max && r == Some(v as u64),
            None => r is None,
        },
{
    let mut start: usize = 0;
    if tok.len() > 0 && tok[0] == 0x2b {
        start = 1;
    }
    let ghost d = if tok@.len() > 0 && tok@[0] == 0x2b {
        tok@.drop_first()
    } else {
        tok@
    };
    assert(d =~= tok@.subrange(start as int, tok@.len() as int));
    if start >= tok.len() {
        return None;
    }
    let mut value: u64 = 0;
    let mut i: usize = start;
    while i < tok.len()
        invariant
            start <= i <= tok@.len(),
            d == tok@.subrange(start as int, tok@.len() as int),
            d == (if tok@.len() > 0 && tok@[0] == 0x2b {
                tok@.drop_first()
            } else {
                tok@
            }),
            all_digits(d.take(i - start)),
            value as int == digits_value(d.take(i - start)),
            value <= max,
        decreases tok@.len() - i,
    {
        let b = tok[i];
        if !(0x30 <= b && b <= 0x39) {
            proof {
                assert(d[i - start] == b);
                assert(!digit_byte(d[i - start]));
                assert(!all_digits(d));
            }
            return None;
        }
        let digit = (b - 0x30) as u64;
        proof {
            assert(d.take(i - start + 1).drop_last() =~= d.take(i - start));
            assert(d.take(i - start + 1).last() == b);
            assert(all_digits(d.take(i - start + 1))) by {
                assert forall|j: int| 0 <= j < d.take(i - start + 1).len() implies digit_byte(
                    #[trigger] d.take(i - start + 1)[j],
                ) by {
                    if j < i - start {
                        assert(d.take(i - start + 1)[j] == d.take(i - start)[j]);
                    }
                }
            }
        }
        if digit > max || value > (max - digit) / 10 {
            proof {
                assert(value * 10 + digit > max) by (nonlinear_arith)
                    requires
                        digit > max || (digit <= max && value > (max - digit) / 10),
                ;
                assert(digits_value(d.take(i - start + 1)) == value * 10 + digit);
                if all_digits(d) {
                    lemma_digits_value_prefix(d, i - start + 1);
                }
            }
            return None;
        }
        proof {
            assert(value * 10 + digit <= max) by (nonlinear_arith)
                requires
                    value <= (max - digit) / 10,
                    digit <= 9,
            ;
        }
        value = value * 10 + digit;
        i = i + 1;
    }
    assert(d.take(i - start) =~= d);
    proof {
        lemma_digits_value_nonneg(d);
    }
    Some(value)
}


/// The end of the run of digit bytes that starts at `p`.
pub open spec fn digits_end(s: Seq<u8>, p: int) -> int
    decreases s.len() - p,
{
    if p < 0 || p >= s.len() || !digit_byte(s[p]) {
        p
    } else {
        digits_end(s, p + 1)
    }
}

/// The digit run from `p` stays within the data, holds only digits, and ends at a non-digit.
pub proof fn lemma_digits_end(s: Seq<u8>, p: int)
    requires
        0 <= p <= s.len(),
    ensures
        p <= digits_end(s, p) <= s.len(),
        forall|i: int| p <= i < digits_end(s, p) ==> digit_byte(#[trigger] s[i]),
        digits_end(s, p) < s.len() ==> !digit_byte(s[digits_end(s, p)]),
    decreases s.len() - p,
{
    if p < s.len() && digit_byte(s[p]) {
        lemma_digits_end(s, p + 1);
    }
}

/// ASCII lower-casing of one byte.
pub open spec fn ascii_lower(b: u8) -> u8 {
    if 0x41 <= b <= 0x5a {
        (b + 0x20) as u8
    } else {
        b
    }
}

/// Whether `s` equals the lower-case `word` ignoring ASCII case.
pub open spec fn eq_ignore_case(s: Seq<u8>, word: Seq<u8>) -> bool {
    s.len() == word.len() && forall|i: int| 0 <= i < s.len() ==> ascii_lower(#[trigger] s[i]) == word[i]
}

/// The exponent part `e[+-]digits` starting at `b`, running to the end.
pub open spec fn exponent_form(s: Seq<u8>, b: int) -> bool {
    &&& b < s.len()
    &&& ascii_lower(s[b]) == 0x65
    &&& {
        let c = if b + 1 < s.len() && (s[b + 1] == 0x2b || s[b + 1] == 0x2d) {
            b + 2
        } else {
            b + 1
        };
        let e = digits_end(s, c);
        e > c && e == s.len()
    }
}

/// `Digit+ | Digit+ '.' Digit* | Digit* '.' Digit+`, then an optional exponent.
pub open spec fn number_form(s: Seq<u8>) -> bool {
    let a = digits_end(s, 0);
    let has_dot = a < s.len() && s[a] == 0x2e;
    let b = if has_dot {
        digits_end(s, a + 1)
    } else {
        a
    };
    let frac_digits = if has_dot {
        b - (a + 1)
    } else {
        0
    };
    &&& (a > 0 || frac_digits > 0)
    &&& (b == s.len() || exponent_form(s, b))
}

/// The text of a token without one leading sign.
pub open spec fn unsigned_part(tok: Seq<u8>) -> Seq<u8> {
    if tok.len() > 0 && (tok[0] == 0x2b || tok[0] == 0x2d) {
        tok.drop_first()
    } else {
        tok
    }
}

/// The tokens `str::parse::<f64>` accepts: an optional sign, then `inf`,
/// `infinity`, `nan` (any case) or a decimal number with optional exponent.
pub open spec fn float_literal(tok: Seq<u8>) -> bool {
    let s = unsigned_part(tok);
    ||| eq_ignore_case(s, seq![0x69u8, 0x6e, 0x66])
    ||| eq_ignore_case(s, seq![0x69u8, 0x6e, 0x66, 0x69, 0x6e, 0x69, 0x74, 0x79])
    ||| eq_ignore_case(s, seq![0x6eu8, 0x61, 0x6e])
    ||| number_form(s)
}

fn lower_byte(b: u8) -> (r: u8)
    ensures
        r == ascii_lower(b),
{
    if 0x41 <= b && b <= 0x5a {
        b + 0x20
    } else {
        b
    }
}

fn matches_word(s: &[u8], start: usize, word: &[u8]) -> (r: bool)
    requires
        start <= s@.len(),
    ensures
        r == eq_ignore_case(s@.subrange(start as int, s@.len() as int), word@),
{
    let ghost t = s@.subrange(start as int, s@.len() as int);
    if s.len() - start != word.len() {
        return false;
    }
    let mut i: usize = 0;
    while i < word.len()
        invariant
            s@.len() == start + word@.len(),
            s@.len() <= usize::MAX,
            t == s@.subrange(start as int, s@.len() as int),
            i <= word@.len(),
            forall|j: int| 0 <= j < i ==> ascii_lower(#[trigger] t[j]) == word@[j],
        decreases word@.len() - i,
    {
        assert(i < word@.len());
        assert(start + i < s@.len());
        let k: usize = start + i;
        if lower_byte(s[k]) != word[i] {
            assert(t[i as int] == s@[k as int]);
            return false;
        }
        assert(t[i as int] == s@[k as int]);
        i = i + 1;
    }
    true
}

fn skip_digits(s: &[u8], p: usize) -> (r: usize)
    requires
        p <= s@.len(),
    ensures
        r == digits_end(s@, p as int),
{
    let mut i = p;
    while i < s.len() && 0x30 <= s[i] && s[i] <= 0x39
        invariant
            p <= i <= s@.len(),
            digits_end(s@, i as int) == digits_end(s@, p as int),
        decreases s@.len() - i,
    {
        i = i + 1;
    }
    i
}

/// Whether `tok` is a floating-point literal `str::parse::<f64>` accepts.
pub fn is_float_literal(tok: &[u8]) -> (r: bool)
    ensures
        r == float_literal(tok@),
{
    let start: usize = if tok.len() > 0 && (tok[0] == 0x2b || tok[0] == 0x2d) {
        1
    } else {
        0
    };
    let ghost s = unsigned_part(tok@);
    assert(s =~= tok@.subrange(start as int, tok@.len() as int));
    if matches_word(tok, start, &[0x69, 0x6e, 0x66]) {
        return true;
    }
    if matches_word(tok, start, &[0x69, 0x6e, 0x66, 0x69, 0x6e, 0x69, 0x74, 0x79]) {
        return true;
    }
    if matches_word(tok, start, &[0x6e, 0x61, 0x6e]) {
        return true;
    }
    let a = skip_digits(tok, start);
    proof {
        lemma_digits_end(tok@, start as int);
        lemma_digits_end(s, 0);
        lemma_digits_end_shift(tok@, start as int, 0);
    }
    let has_dot = a < tok.len() && tok[a] == 0x2e;
    let b = if has_dot {
        skip_digits(tok, a + 1)
    } else {
        a
    };
    proof {
        if has_dot {
            lemma_digits_end(tok@, a + 1);
            lemma_digits_end_shift(tok@, start as int, a - start + 1);
        }
    }
    let frac_digits = if has_dot {
        b - (a + 1)
    } else {
        0
    };
    if !(a > start || frac_digits > 0) {
        return false;
    }
    if b == tok.len() {
        return true;
    }
    if lower_byte(tok[b]) != 0x65 {
        return false;
    }
    let c = if b + 1 < tok.len() && (tok[b + 1] == 0x2b || tok[b + 1] == 0x2d) {
        b + 2
    } else {
        b + 1
    };
    let e = skip_digits(tok, c);
    proof {
        lemma_digits_end(tok@, c as int);
        lemma_digits_end_shift(tok@, start as int, c - start);
    }
    e > c && e == tok.len()
}

/// Digit runs are found at the same place in a suffix.
proof fn lemma_digits_end_shift(t: Seq<u8>, start: int, p: int)
    requires
        0 <= start <= t.len(),
        0 <= p <= t.len() - start,
    ensures
        digits_end(t.subrange(start, t.len() as int), p) == digits_end(t, start + p) - start,
    decreases t.len() - start - p,
{
    let s = t.subrange(start, t.len() as int);
    if p < s.len() {
        assert(s[p] == t[start + p]);
        if digit_byte(s[p]) {
            lemma_digits_end_shift(t, start, p + 1);
        }
    }
}

/// The fast-path digit accumulator over `rest` from index `i`: the mantissa of
/// all digits, the count of fractional digits (`-1` before any `.`), and
/// whether a digit was seen. `None` when the token leaves the simple form or
/// the mantissa leaves `i64`.
pub open spec fn fast_acc(rest: Seq<u8>, i: int, m: int, frac: int, any: bool) -> Option<
    (int, int, bool),
>
    decreases rest.len() - i,
{
    if i < 0 || i >= rest.len() {
        Some((m, frac, any))
    } else if digit_byte(rest[i]) {
        let m2 = m * 10 + (rest[i] - 0x30);
        if m2 > i64::MAX {
            None
        } else {
            fast_acc(rest, i + 1, m2, if frac >= 0 { frac + 1 } else { frac }, true)
        }
    } else if rest[i] == 0x2e && frac < 0 {
        fast_acc(rest, i + 1, m, 0, any)
    } else {
        None
    }
}

/// The value of a numeric token on the fast path: an integer, or a short
/// decimal with at most 22 fractional digits.
pub open spec fn fast_value(tok: Seq<u8>) -> Option<Val> {
    let neg = tok.len() > 0 && tok[0] == 0x2d;
    let rest = unsigned_part(tok);
    match fast_acc(rest, 0, 0, -1, false) {
        None => None,
        Some((m, f, any)) => if !any {
            None
        } else if f < 0 {
            Some(Val::Integer((if neg { -m } else { m }) as i64))
        } else if f <= 22 {
            Some(Val::Real(RealVal::Decimal((if neg { -m } else { m }) as i64, f as u32)))
        } else {
            None
        },
    }
}

/// The value of a numeric token: the fast path, else a floating-point literal
/// kept as text, else nothing.
pub open spec fn numeric_value(tok: Seq<u8>) -> Option<Val> {
    match fast_value(tok) {
        Some(v) => Some(v),
        None => if float_literal(tok) {
            Some(Val::Real(RealVal::Literal(tok)))
        } else {
            None
        },
    }
}

fn fast_numeric(tok: &[u8]) -> (r: Option<Object>)
    ensures
        match fast_value(tok@) {
            Some(v) => r matches Some(o) && o@ == v,
            None => r is None,
        },
{
    let neg = tok.len() > 0 && tok[0] == 0x2d;
    let start: usize = if tok.len() > 0 && (tok[0] == 0x2b || tok[0] == 0x2d) {
        1
    } else {
        0
    };
    let ghost rest = unsigned_part(tok@);
    assert(rest =~= tok@.subrange(start as int, tok@.len() as int));
    let mut mantissa: i64 = 0;
    let mut dot = false;
    let mut frac: usize = 0;
    let mut any = false;
    let mut i: usize = start;
    while i < tok.len()
        invariant
            start <= i <= tok@.len(),
            rest == tok@.subrange(start as int, tok@.len() as int),
            rest == unsigned_part(tok@),
            0 <= mantissa,
            frac <= i - start,
            !dot ==> frac == 0,
            fast_acc(rest, i - start, mantissa as int, if dot { frac as int } else { -1 }, any) == fast_acc(
                rest,
                0,
                0,
                -1,
                false,
            ),
        decreases tok@.len() - i,
    {
        let b = tok[i];
        assert(rest[i - start] == b);
        if 0x30 <= b && b <= 0x39 {
            let d = (b - 0x30) as i64;
            if mantissa > (i64::MAX - d) / 10 {
                proof {
                    assert(mantissa * 10 + d > i64::MAX) by (nonlinear_arith)
                        requires
                            mantissa > (i64::MAX - d) / 10,
                            0 <= d <= 9,
                    ;
                    assert(rest[i - start] - 0x30 == d);
                    assert(fast_acc(rest, i - start, mantissa as int, if dot { frac as int } else { -1 }, any) is None);
                    assert(fast_acc(rest, 0, 0, -1, false) is None);
                    assert(fast_value(tok@) is None);
                }
                return None;
            }
            proof {
                assert(mantissa * 10 + d <= i64::MAX) by (nonlinear_arith)
                    requires
                        mantissa <= (i64::MAX - d) / 10,
                        0 <= d <= 9,
                        0 <= mantissa,
                ;
            }
            mantissa = mantissa * 10 + d;
            if dot {
                frac = frac + 1;
            }
            any = true;
        } else if b == 0x2e && !dot {
            dot = true;
        } else {
            proof {
                assert(fast_acc(rest, i - start, mantissa as int, if dot { frac as int } else { -1 }, any) is None);
                assert(fast_acc(rest, 0, 0, -1, false) is None);
                assert(fast_value(tok@) is None);
            }
            return None;
        }
        i = i + 1;
    }
    if !any {
        return None;
    }
    let m = if neg {
        -mantissa
    } else {
        mantissa
    };
    if !dot {
        Some(Object::Integer(m))
    } else if frac <= 22 {
        Some(Object::Real(Real::Decimal { mantissa: m, scale: frac as u32 }))
    } else {
        None
    }
}

/// Parse a numeric token into an integer or real object.
pub fn parse_numeric(tok: &[u8]) -> (r: Option<Object>)
    ensures
        match numeric_value(tok@) {
            Some(v) => r matches Some(o) && o@ == v,
            None => r is None,
        },
{
    match fast_numeric(tok) {
        Some(o) => Some(o),
        None => {
            if is_float_literal(tok) {
                Some(Object::Real(Real::Literal(crate::object::copy_bytes(tok))))
            } else {
                None
            }
        },
    }
}

} // verus!
