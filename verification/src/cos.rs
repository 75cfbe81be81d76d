//! Recursive-descent parser for COS values.
//!
//! Given a [`Lexer`] positioned at the start of an object, [`parse_object`]
//! produces one [`Object`]: a number, string, name, array, dictionary, boolean,
//! null, or an indirect reference (`n g R`). Streams are not handled here — a
//! stream is only ever the value of a top-level indirect object, where the
//! `/Length` is known, so the resolver assembles it.
//!
//! The grammar is stated by the spec function [`object_at`], which gives for a
//! byte sequence and a start position both the outcome and where the cursor
//! ends up (also on an error, since callers resume scanning from there).

use vstd::prelude::*;
use vstd::utf8::{decode_utf8, valid_utf8};

use crate::error::{ErrorCode, TurboParsePdfError};
use crate::lex::{is_regular, is_whitespace, lemma_skip_ws_bounds, lemma_regular_end_bounds, regular_byte, regular_end, skip_ws, ws_byte, Lexer};
use crate::numeric::{numeric_value, parse_numeric, parse_uint, uint_literal};
use crate::object::{bytes_eq, entries_insert, lemma_array_val, vals, Dictionary, ObjRef, Object, Val};

verus! {

broadcast use Lexer::lemma_cursor_bounded;

/// The text of `bytes` decoded as UTF-8 with every invalid sequence replaced by
/// U+FFFD (what `String::from_utf8_lossy` returns).
pub uninterp spec fn utf8_lossy(bytes: Seq<u8>) -> Seq<char>;

/// Bytes read as text: their UTF-8 decoding when they are valid UTF-8, else
/// the lossy decoding.
pub open spec fn lossy_text(bytes: Seq<u8>) -> Seq<char> {
    if valid_utf8(bytes) {
        decode_utf8(bytes)
    } else {
        utf8_lossy(bytes)
    }
}

/// `String::from_utf8_lossy(bytes).into_owned()`. Claimed: the result is
/// `utf8_lossy(bytes)`, and for valid UTF-8 it is exactly the decoded text.
/// How invalid sequences are replaced is left to the name.
#[verifier::external_body]
pub(crate) fn lossy_string(bytes: &[u8]) -> (r: String)
    ensures
        r@ == utf8_lossy(bytes@),
        valid_utf8(bytes@) ==> r@ == decode_utf8(bytes@),
{
    String::from_utf8_lossy(bytes).into_owned()
}

/// The outcome of a parse step together with where the cursor ends.
pub type Parsed<T> = (Result<T, ErrorCode>, int);

/// Whether an executable result agrees with a specified outcome.
pub open spec fn agrees<T: View>(r: Result<T, TurboParsePdfError>, s: Result<T::V, ErrorCode>) -> bool {
    match r {
        Ok(v) => s == Ok::<T::V, ErrorCode>(v@),
        Err(e) => s == Err::<T::V, ErrorCode>(e.code),
    }
}

/// Hex digit value (0–15) of an ASCII hex byte.
pub open spec fn hex_nibble(b: u8) -> Option<u8> {
    if 0x30 <= b <= 0x39 {
        Some((b - 0x30) as u8)
    } else if 0x61 <= b <= 0x66 {
        Some((b - 0x61 + 10) as u8)
    } else if 0x41 <= b <= 0x46 {
        Some((b - 0x41 + 10) as u8)
    } else {
        None
    }
}

/// Hex digit value (0–15) for an ASCII hex byte, or `None`.
pub fn hex_val(b: u8) -> (r: Option<u8>)
    ensures
        r == hex_nibble(b),
{
    if 0x30 <= b && b <= 0x39 {
        Some(b - 0x30)
    } else if 0x61 <= b && b <= 0x66 {
        Some(b - 0x61 + 10)
    } else if 0x41 <= b && b <= 0x46 {
        Some(b - 0x41 + 10)
    } else {
        None
    }
}

/// The body of a name from `p` (after the `/`): regular bytes, with `#xx`
/// escapes decoded.
pub open spec fn name_body(data: Seq<u8>, p: int, acc: Seq<u8>) -> Parsed<Seq<u8>>
    decreases data.len() - p,
{
    if p < 0 || p >= data.len() || !regular_byte(data[p]) {
        (Ok(acc), p)
    } else if data[p] == 0x23 {
        if p + 1 >= data.len() {
            (Err(ErrorCode::UnexpectedEof), p + 1)
        } else {
            match hex_nibble(data[p + 1]) {
                None => (Err(ErrorCode::UnexpectedToken), p + 2),
                Some(hi) => if p + 2 >= data.len() {
                    (Err(ErrorCode::UnexpectedEof), p + 2)
                } else {
                    match hex_nibble(data[p + 2]) {
                        None => (Err(ErrorCode::UnexpectedToken), p + 3),
                        Some(lo) => name_body(data, p + 3, acc.push((hi * 16 + lo) as u8)),
                    }
                },
            }
        }
    } else {
        name_body(data, p + 1, acc.push(data[p]))
    }
}

/// Up to two further octal digits after the first: the value and the end.
pub open spec fn octal_run(data: Seq<u8>, p: int, val: int, count: int) -> (int, int)
    decreases 2 - count,
{
    if count < 2 && 0 <= p < data.len() && 0x30 <= data[p] <= 0x37 {
        octal_run(data, p + 1, val * 8 + (data[p] - 0x30), count + 1)
    } else {
        (val, p)
    }
}

/// One backslash escape inside a literal string; `p` is just past the `\`.
pub open spec fn escape_step(data: Seq<u8>, p: int, acc: Seq<u8>) -> Parsed<Seq<u8>> {
    if p < 0 || p >= data.len() {
        (Err(ErrorCode::UnexpectedEof), p)
    } else {
        let e = data[p];
        let p2 = p + 1;
        if e == 0x6e {
            (Ok(acc.push(0x0a)), p2)
        } else if e == 0x72 {
            (Ok(acc.push(0x0d)), p2)
        } else if e == 0x74 {
            (Ok(acc.push(0x09)), p2)
        } else if e == 0x62 {
            (Ok(acc.push(0x08)), p2)
        } else if e == 0x66 {
            (Ok(acc.push(0x0c)), p2)
        } else if e == 0x0d {
            (Ok(acc), if p2 < data.len() && data[p2] == 0x0a { p2 + 1 } else { p2 })
        } else if e == 0x0a {
            (Ok(acc), p2)
        } else if 0x30 <= e <= 0x37 {
            let (val, p3) = octal_run(data, p2, e - 0x30, 0);
            (Ok(acc.push((val % 256) as u8)), p3)
        } else {
            (Ok(acc.push(e)), p2)
        }
    }
}

/// An octal escape's digit run stays within the data and yields a value below 512.
pub proof fn lemma_octal_run(data: Seq<u8>, p: int, val: int, count: int)
    requires
        0 <= p <= data.len(),
        0 <= count <= 2,
        0 <= val < 8 * pow8(count),
    ensures
        p <= octal_run(data, p, val, count).1 <= data.len(),
        0 <= octal_run(data, p, val, count).0 < 512,
    decreases 2 - count,
{
    if count < 2 && p < data.len() && 0x30 <= data[p] <= 0x37 {
        assert(val * 8 + (data[p] - 0x30) < 8 * pow8(count + 1)) by (nonlinear_arith)
            requires
                0 <= val < 8 * pow8(count),
                0 <= data[p] - 0x30 < 8,
                pow8(count + 1) == 8 * pow8(count),
        ;
        lemma_octal_run(data, p + 1, val * 8 + (data[p] - 0x30), count + 1);
    }
}

pub open spec fn pow8(n: int) -> int {
    if n <= 0 {
        1
    } else if n == 1 {
        8
    } else {
        64
    }
}

/// An escape sequence stays within the data and, when it reads, consumes at least one byte.
pub proof fn lemma_escape_step(data: Seq<u8>, p: int, acc: Seq<u8>)
    requires
        0 <= p <= data.len(),
    ensures
        p <= escape_step(data, p, acc).1 <= data.len(),
        escape_step(data, p, acc).0 is Ok ==> p < escape_step(data, p, acc).1,
{
    if p < data.len() && 0x30 <= data[p] <= 0x37 {
        lemma_octal_run(data, p + 1, data[p] - 0x30, 0);
    }
}

/// The body of a literal string from `p` (after the opening paren) at nesting
/// `depth`, with `acc` the bytes so far.
pub open spec fn literal_body(data: Seq<u8>, p: int, depth: int, acc: Seq<u8>) -> Parsed<Seq<u8>>
    decreases data.len() - p,
{
    if p < 0 || p >= data.len() {
        (Err(ErrorCode::UnexpectedEof), p)
    } else {
        let b = data[p];
        if b == 0x5c {
            proof {
                lemma_escape_step(data, p + 1, acc);
            }
            let (r, p2) = escape_step(data, p + 1, acc);
            match r {
                Err(c) => (Err(c), p2),
                Ok(acc2) => literal_body(data, p2, depth, acc2),
            }
        } else if b == 0x28 {
            literal_body(data, p + 1, depth + 1, acc.push(0x28))
        } else if b == 0x29 {
            if depth - 1 > 0 {
                literal_body(data, p + 1, depth - 1, acc.push(0x29))
            } else {
                (Ok(acc), p + 1)
            }
        } else {
            literal_body(data, p + 1, depth, acc.push(b))
        }
    }
}

/// The digits of a hex string from `p` (after the `<`), `high` a pending nibble.
pub open spec fn hex_body(data: Seq<u8>, p: int, acc: Seq<u8>, high: Option<u8>) -> Parsed<
    Seq<u8>,
>
    decreases data.len() - p,
{
    if p < 0 || p >= data.len() {
        (Err(ErrorCode::UnexpectedEof), p)
    } else {
        let b = data[p];
        if b == 0x3e {
            (
                Ok(
                    match high {
                        Some(h) => acc.push((h * 16) as u8),
                        None => acc,
                    },
                ),
                p + 1,
            )
        } else if ws_byte(b) {
            hex_body(data, p + 1, acc, high)
        } else {
            match hex_nibble(b) {
                None => (Err(ErrorCode::UnexpectedToken), p + 1),
                Some(n) => match high {
                    Some(h) => hex_body(data, p + 1, acc.push((h * 16 + n) as u8), None),
                    None => hex_body(data, p + 1, acc, Some(n)),
                },
            }
        }
    }
}

/// After an object number ending at `e`: `gen R`, giving the generation and
/// the position after `R`.
pub open spec fn ref_tail(data: Seq<u8>, e: int) -> Option<(int, int)> {
    let q = skip_ws(data, e);
    let ge = regular_end(data, q);
    if ge == q {
        None
    } else {
        match uint_literal(data.subrange(q, ge), 65535) {
            None => None,
            Some(g) => {
                let q2 = skip_ws(data, ge);
                let re = regular_end(data, q2);
                if re == q2 {
                    None
                } else if data.subrange(q2, re) == seq![0x52u8] {
                    Some((g, re))
                } else {
                    None
                }
            },
        }
    }
}

/// A numeric token at `q`, promoted to a reference when `gen R` follows a
/// non-negative integer that fits `u32`.
pub open spec fn number_at(data: Seq<u8>, q: int) -> Parsed<Val> {
    let e = regular_end(data, q);
    if e == q {
        (Err(ErrorCode::UnexpectedToken), q)
    } else {
        match numeric_value(data.subrange(q, e)) {
            None => (Err(ErrorCode::UnexpectedToken), e),
            Some(v) => match v {
                Val::Integer(n) => if 0 <= n <= u32::MAX {
                    match ref_tail(data, e) {
                        Some((g, e2)) => (
                            Ok(Val::Reference(ObjRef { num: n as u32, gen: g as u16 })),
                            e2,
                        ),
                        None => (Ok(v), e),
                    }
                } else {
                    (Ok(v), e)
                },
                _ => (Ok(v), e),
            },
        }
    }
}

/// The bare keyword literals `true`, `false`, `null`.
pub open spec fn keyword_value(tok: Seq<u8>) -> Option<Val> {
    if tok == seq![0x74u8, 0x72, 0x75, 0x65] {
        Some(Val::Boolean(true))
    } else if tok == seq![0x66u8, 0x61, 0x6c, 0x73, 0x65] {
        Some(Val::Boolean(false))
    } else if tok == seq![0x6eu8, 0x75, 0x6c, 0x6c] {
        Some(Val::Null)
    } else {
        None
    }
}

/// A parsed name body as a name value.
pub open spec fn name_val(r: Result<Seq<u8>, ErrorCode>) -> Result<Val, ErrorCode> {
    match r {
        Ok(bytes) => Ok(Val::Name(lossy_text(bytes))),
        Err(c) => Err(c),
    }
}

/// Parsed string bytes as a string value.
pub open spec fn str_val(r: Result<Seq<u8>, ErrorCode>) -> Result<Val, ErrorCode> {
    match r {
        Ok(bytes) => Ok(Val::Str(bytes)),
        Err(c) => Err(c),
    }
}

/// Parsed dictionary entries as a dictionary value.
pub open spec fn dict_val_of(r: Result<Seq<(Seq<char>, Val)>, ErrorCode>) -> Result<Val, ErrorCode> {
    match r {
        Ok(entries) => Ok(Val::Dict(entries)),
        Err(c) => Err(c),
    }
}

/// A keyword literal at `q`.
pub open spec fn keyword_at_val(data: Seq<u8>, q: int) -> Parsed<Val> {
    let e = regular_end(data, q);
    match keyword_value(data.subrange(q, e)) {
        Some(v) => (Ok(v), e),
        None => (Err(ErrorCode::UnexpectedToken), e),
    }
}

/// The value at `q`, which is not whitespace, opening with `<`.
pub open spec fn angle_at(data: Seq<u8>, q: int) -> Parsed<Val>
    decreases data.len() - q, 0int,
{
    if q < 0 || q >= data.len() {
        (Err(ErrorCode::UnexpectedEof), q)
    } else if q + 1 < data.len() && data[q + 1] == 0x3c {
        let (r, e) = dict_body(data, q + 2, Seq::empty());
        (dict_val_of(r), e)
    } else {
        let (r, e) = hex_body(data, q + 1, Seq::empty(), None);
        (str_val(r), e)
    }
}

/// One COS value at `p` (after skipping whitespace and comments).
pub open spec fn object_at(data: Seq<u8>, p: int) -> Parsed<Val>
    decreases data.len() - p, 1int,
{
    if p < 0 || p > data.len() {
        (Err(ErrorCode::UnexpectedEof), p)
    } else {
        proof {
            lemma_skip_ws_bounds(data, p);
        }
        let q = skip_ws(data, p);
        if q >= data.len() {
            (Err(ErrorCode::UnexpectedEof), q)
        } else {
            let b = data[q];
            if b == 0x2f {
                let (r, e) = name_body(data, q + 1, Seq::empty());
                (name_val(r), e)
            } else if b == 0x28 {
                let (r, e) = literal_body(data, q + 1, 1, Seq::empty());
                (str_val(r), e)
            } else if b == 0x3c {
                angle_at(data, q)
            } else if b == 0x5b {
                array_body(data, q + 1, Seq::empty())
            } else if (0x30 <= b <= 0x39) || b == 0x2b || b == 0x2d || b == 0x2e {
                number_at(data, q)
            } else {
                keyword_at_val(data, q)
            }
        }
    }
}

/// The elements of an array from `p` (after the `[`), `items` those so far.
pub open spec fn array_body(data: Seq<u8>, p: int, items: Seq<Val>) -> Parsed<Val>
    decreases data.len() - p, 2int,
{
    if p < 0 || p > data.len() {
        (Err(ErrorCode::UnexpectedEof), p)
    } else {
        proof {
            lemma_skip_ws_bounds(data, p);
        }
        let q = skip_ws(data, p);
        if q >= data.len() {
            (Err(ErrorCode::UnexpectedEof), q)
        } else if data[q] == 0x5d {
            (Ok(Val::Array(items)), q + 1)
        } else {
            let (r, e) = object_at(data, q);
            match r {
                Err(c) => (Err(c), e),
                Ok(v) => if q < e <= data.len() {
                    array_body(data, e, items.push(v))
                } else {
                    (Err(ErrorCode::UnexpectedEof), e)
                },
            }
        }
    }
}

/// The entries of a dictionary from `p` (after the `<<`).
pub open spec fn dict_body(data: Seq<u8>, p: int, entries: Seq<(Seq<char>, Val)>) -> Parsed<
    Seq<(Seq<char>, Val)>,
>
    decreases data.len() - p, 2int,
{
    if p < 0 || p > data.len() {
        (Err(ErrorCode::UnexpectedEof), p)
    } else {
        proof {
            lemma_skip_ws_bounds(data, p);
        }
        let q = skip_ws(data, p);
        if q >= data.len() {
            (Err(ErrorCode::UnexpectedEof), q)
        } else if data[q] == 0x3e {
            (Ok(entries), if q + 2 <= data.len() { q + 2 } else { data.len() as int })
        } else {
            let (kr, ke) = object_at(data, q);
            match kr {
                Err(c) => (Err(c), ke),
                Ok(Val::Name(k)) => if q < ke <= data.len() {
                    let (vr, ve) = object_at(data, ke);
                    match vr {
                        Err(c) => (Err(c), ve),
                        Ok(v) => if ke < ve <= data.len() {
                            dict_body(data, ve, entries_insert(entries, k, v))
                        } else {
                            (Err(ErrorCode::UnexpectedEof), ve)
                        },
                    }
                } else {
                    (Err(ErrorCode::UnexpectedEof), ke)
                },
                Ok(_) => (Err(ErrorCode::UnexpectedToken), ke),
            }
        }
    }
}


/// A name body never moves the cursor backwards.
pub proof fn lemma_name_body(data: Seq<u8>, p: int, acc: Seq<u8>)
    requires
        0 <= p <= data.len(),
    ensures
        p <= name_body(data, p, acc).1,
    decreases data.len() - p,
{
    if p < data.len() && regular_byte(data[p]) {
        if data[p] == 0x23 {
            if p + 2 < data.len() && hex_nibble(data[p + 1]) is Some && hex_nibble(data[p + 2]) is Some {
                let hi = hex_nibble(data[p + 1]).unwrap();
                let lo = hex_nibble(data[p + 2]).unwrap();
                lemma_name_body(data, p + 3, acc.push((hi * 16 + lo) as u8));
            }
        } else {
            lemma_name_body(data, p + 1, acc.push(data[p]));
        }
    }
}

/// A literal string body that reads consumes at least one byte.
pub proof fn lemma_literal_body(data: Seq<u8>, p: int, depth: int, acc: Seq<u8>)
    requires
        0 <= p <= data.len(),
    ensures
        literal_body(data, p, depth, acc).0 is Ok ==> p < literal_body(data, p, depth, acc).1,
    decreases data.len() - p,
{
    if p < data.len() {
        let b = data[p];
        if b == 0x5c {
            lemma_escape_step(data, p + 1, acc);
            let (r, p2) = escape_step(data, p + 1, acc);
            if let Ok(acc2) = r {
                lemma_literal_body(data, p2, depth, acc2);
            }
        } else if b == 0x28 {
            lemma_literal_body(data, p + 1, depth + 1, acc.push(0x28));
        } else if b == 0x29 {
            if depth - 1 > 0 {
                lemma_literal_body(data, p + 1, depth - 1, acc.push(0x29));
            }
        } else {
            lemma_literal_body(data, p + 1, depth, acc.push(b));
        }
    }
}

/// A hex string body that reads consumes at least one byte.
pub proof fn lemma_hex_body(data: Seq<u8>, p: int, acc: Seq<u8>, high: Option<u8>)
    requires
        0 <= p <= data.len(),
    ensures
        hex_body(data, p, acc, high).0 is Ok ==> p < hex_body(data, p, acc, high).1,
    decreases data.len() - p,
{
    if p < data.len() {
        let b = data[p];
        if b != 0x3e {
            if ws_byte(b) {
                lemma_hex_body(data, p + 1, acc, high);
            } else if let Some(n) = hex_nibble(b) {
                match high {
                    Some(h) => lemma_hex_body(data, p + 1, acc.push((h * 16 + n) as u8), None),
                    None => lemma_hex_body(data, p + 1, acc, Some(n)),
                }
            }
        }
    }
}

/// An array body that reads consumes at least one byte.
pub proof fn lemma_array_body(data: Seq<u8>, p: int, items: Seq<Val>)
    requires
        0 <= p <= data.len(),
    ensures
        array_body(data, p, items).0 is Ok ==> p < array_body(data, p, items).1,
    decreases data.len() - p,
{
    lemma_skip_ws_bounds(data, p);
    let q = skip_ws(data, p);
    if q < data.len() && data[q] != 0x5d {
        let (r, e) = object_at(data, q);
        if let Ok(v) = r {
            if q < e <= data.len() {
                lemma_array_body(data, e, items.push(v));
            }
        }
    }
}

/// A dictionary body that reads consumes at least one byte.
pub proof fn lemma_dict_body(data: Seq<u8>, p: int, entries: Seq<(Seq<char>, Val)>)
    requires
        0 <= p <= data.len(),
    ensures
        dict_body(data, p, entries).0 is Ok ==> p < dict_body(data, p, entries).1,
    decreases data.len() - p,
{
    lemma_skip_ws_bounds(data, p);
    let q = skip_ws(data, p);
    if q < data.len() && data[q] != 0x3e {
        let (kr, ke) = object_at(data, q);
        if let Ok(Val::Name(k)) = kr {
            if q < ke <= data.len() {
                let (vr, ve) = object_at(data, ke);
                if let Ok(v) = vr {
                    if ke < ve <= data.len() {
                        lemma_dict_body(data, ve, entries_insert(entries, k, v));
                    }
                }
            }
        }
    }
}

/// A value that parses consumes at least one byte past the skipped whitespace.
pub proof fn lemma_object_at_advances(data: Seq<u8>, p: int)
    requires
        0 <= p <= data.len(),
    ensures
        object_at(data, p).0 is Ok ==> skip_ws(data, p) < object_at(data, p).1,
        p <= skip_ws(data, p),
{
    lemma_skip_ws_bounds(data, p);
    let q = skip_ws(data, p);
    if q < data.len() {
        let b = data[q];
        if b == 0x2f {
            lemma_name_body(data, q + 1, Seq::empty());
        } else if b == 0x28 {
            lemma_literal_body(data, q + 1, 1, Seq::empty());
        } else if b == 0x3c {
            if q + 1 < data.len() && data[q + 1] == 0x3c {
                lemma_dict_body(data, q + 2, Seq::empty());
            } else {
                lemma_hex_body(data, q + 1, Seq::empty(), None);
            }
        } else if b == 0x5b {
            lemma_array_body(data, q + 1, Seq::empty());
        } else if (0x30 <= b <= 0x39) || b == 0x2b || b == 0x2d || b == 0x2e {
            lemma_regular_end_bounds(data, q);
            let e = regular_end(data, q);
            lemma_skip_ws_bounds(data, e);
            let q1 = skip_ws(data, e);
            lemma_regular_end_bounds(data, q1);
            let ge = regular_end(data, q1);
            lemma_skip_ws_bounds(data, ge);
            lemma_regular_end_bounds(data, skip_ws(data, ge));
        } else {
            lemma_regular_end_bounds(data, q);
            let e = regular_end(data, q);
            if e == q {
                assert(data.subrange(q, e).len() == 0);
            }
        }
    }
}

fn err(code: ErrorCode, msg: &str) -> (r: TurboParsePdfError)
    ensures
        r.code == code,
{
    TurboParsePdfError::new(code, msg)
}

fn eof() -> (r: TurboParsePdfError)
    ensures
        r.code == ErrorCode::UnexpectedEof,
{
    err(ErrorCode::UnexpectedEof, "input ended mid-object")
}

/// Parse one COS value at the lexer's current position (after skipping leading
/// whitespace and comments).
pub fn parse_object(lx: &mut Lexer) -> (r: Result<Object, TurboParsePdfError>)
    ensures
        final(lx).bytes() == old(lx).bytes(),
        agrees(r, object_at(old(lx).bytes(), old(lx).cursor()).0),
        final(lx).cursor() == object_at(old(lx).bytes(), old(lx).cursor()).1,
    decreases old(lx).bytes().len() - old(lx).cursor(), 3int,
{
    proof {
        lemma_skip_ws_bounds(lx.bytes(), lx.cursor());
    }
    lx.skip_whitespace();
    let b = match lx.peek() {
        None => return Err(eof()),
        Some(b) => b,
    };
    if b == 0x2f {
        parse_name(lx)
    } else if b == 0x28 {
        parse_literal_string(lx)
    } else if b == 0x3c {
        parse_angle(lx)
    } else if b == 0x5b {
        parse_array(lx)
    } else if (0x30 <= b && b <= 0x39) || b == 0x2b || b == 0x2d || b == 0x2e {
        parse_number_or_ref(lx)
    } else {
        parse_keyword_literal(lx)
    }
}


/// Dispatch the two `<`-prefixed shapes: `<<` a dictionary, `<` a hex string.
fn parse_angle(lx: &mut Lexer) -> (r: Result<Object, TurboParsePdfError>)
    requires
        old(lx).cursor() < old(lx).bytes().len(),
        old(lx).bytes()[old(lx).cursor()] == 0x3c,
    ensures
        final(lx).bytes() == old(lx).bytes(),
        agrees(r, angle_at(old(lx).bytes(), old(lx).cursor()).0),
        final(lx).cursor() == angle_at(old(lx).bytes(), old(lx).cursor()).1,
    decreases old(lx).bytes().len() - old(lx).cursor(), 2int,
{
    if lx.peek_at(1) == Some(0x3c) {
        match parse_dictionary(lx) {
            Ok(d) => Ok(Object::Dictionary(d)),
            Err(e) => Err(e),
        }
    } else {
        parse_hex_string(lx)
    }
}

/// Parse a name token (`/Foo`), decoding `#xx` hex escapes.
#[verifier::loop_isolation(false)]
fn parse_name(lx: &mut Lexer) -> (r: Result<Object, TurboParsePdfError>)
    requires
        old(lx).cursor() < old(lx).bytes().len(),
    ensures
        final(lx).bytes() == old(lx).bytes(),
        agrees(r, name_val(name_body(old(lx).bytes(), old(lx).cursor() + 1, Seq::empty()).0)),
        final(lx).cursor() == name_body(old(lx).bytes(), old(lx).cursor() + 1, Seq::empty()).1,
{
    let ghost data = lx.bytes();
    let ghost start = lx.cursor() + 1;
    lx.bump();
    let mut bytes: Vec<u8> = Vec::new();
    loop
        invariant
            lx.bytes() == data,
            name_body(data, lx.cursor(), bytes@) == name_body(data, start, Seq::empty()),
        decreases data.len() - lx.cursor(),
    {
        let b = match lx.peek() {
            None => return Ok(Object::Name(lossy_string(bytes.as_slice()))),
            Some(b) => b,
        };
        if !is_regular(b) {
            return Ok(Object::Name(lossy_string(bytes.as_slice())));
        }
        lx.bump();
        if b == 0x23 {
            let hi = match lx.bump() {
                None => return Err(eof()),
                Some(x) => match hex_val(x) {
                    None => return Err(err(ErrorCode::UnexpectedToken, "bad #xx escape in name")),
                    Some(h) => h,
                },
            };
            let lo = match lx.bump() {
                None => return Err(eof()),
                Some(x) => match hex_val(x) {
                    None => return Err(err(ErrorCode::UnexpectedToken, "bad #xx escape in name")),
                    Some(l) => l,
                },
            };
            bytes.push(hi * 16 + lo);
        } else {
            bytes.push(b);
        }
    }
}

/// Decode one backslash escape inside a literal string.
fn handle_escape(lx: &mut Lexer, out: &mut Vec<u8>) -> (r: Result<(), TurboParsePdfError>)
    ensures
        final(lx).bytes() == old(lx).bytes(),
        final(lx).cursor() == escape_step(old(lx).bytes(), old(lx).cursor(), old(out)@).1,
        match escape_step(old(lx).bytes(), old(lx).cursor(), old(out)@).0 {
            Ok(acc) => r is Ok && final(out)@ == acc,
            Err(c) => r matches Err(e) && e.code == c,
        },
{
    let b = match lx.bump() {
        None => return Err(eof()),
        Some(b) => b,
    };
    if b == 0x6e {
        out.push(0x0a);
    } else if b == 0x72 {
        out.push(0x0d);
    } else if b == 0x74 {
        out.push(0x09);
    } else if b == 0x62 {
        out.push(0x08);
    } else if b == 0x66 {
        out.push(0x0c);
    } else if b == 0x0d {
        if lx.peek() == Some(0x0a) {
            lx.bump();
        }
    } else if b == 0x0a {
    } else if 0x30 <= b && b <= 0x37 {
        read_octal(lx, out, b);
    } else {
        out.push(b);
    }
    Ok(())
}

/// Read up to two further octal digits after the first, pushing the byte.
#[verifier::loop_isolation(false)]
fn read_octal(lx: &mut Lexer, out: &mut Vec<u8>, first: u8)
    requires
        0x30 <= first <= 0x37,
    ensures
        final(lx).bytes() == old(lx).bytes(),
        ({
            let (val, e) = octal_run(old(lx).bytes(), old(lx).cursor(), first - 0x30, 0);
            final(out)@ == old(out)@.push((val % 256) as u8) && final(lx).cursor() == e
        }),
{
    let ghost data = lx.bytes();
    let ghost start = lx.cursor();
    let mut val: u16 = (first - 0x30) as u16;
    let mut count: usize = 0;
    loop
        invariant
            lx.bytes() == data,
            out@ == old(out)@,
            count <= 2,
            val < 8 * pow8(count as int),
            octal_run(data, lx.cursor(), val as int, count as int) == octal_run(data, start, first - 0x30, 0),
        decreases 2 - count,
    {
        let next = if count < 2 {
            lx.peek()
        } else {
            None
        };
        match next {
            Some(d) => {
                if 0x30 <= d && d <= 0x37 {
                    lx.bump();
                    proof {
                        assert(val * 8 + (d - 0x30) < 8 * pow8(count + 1)) by (nonlinear_arith)
                            requires
                                val < 8 * pow8(count as int),
                                0 <= d - 0x30 < 8,
                                pow8(count + 1) == 8 * pow8(count as int),
                        ;
                    }
                    val = val * 8 + (d - 0x30) as u16;
                    count = count + 1;
                } else {
                    assert(octal_run(data, lx.cursor(), val as int, count as int) == (val as int, lx.cursor()));
                    assert((val as int, lx.cursor()) == octal_run(data, start, first - 0x30, 0));
                    assert(data == old(lx).bytes() && start == old(lx).cursor());
                    out.push((val % 256) as u8);
                    return;
                }
            },
            None => {
                assert(octal_run(data, lx.cursor(), val as int, count as int) == (val as int, lx.cursor()));
                assert((val as int, lx.cursor()) == octal_run(data, start, first - 0x30, 0));
                assert(data == old(lx).bytes() && start == old(lx).cursor());
                out.push((val % 256) as u8);
                return;
            },
        }
    }
}

/// Parse a literal string `(...)` with balanced parens and backslash escapes.
#[verifier::loop_isolation(false)]
fn parse_literal_string(lx: &mut Lexer) -> (r: Result<Object, TurboParsePdfError>)
    requires
        old(lx).cursor() < old(lx).bytes().len(),
    ensures
        final(lx).bytes() == old(lx).bytes(),
        agrees(r, str_val(literal_body(old(lx).bytes(), old(lx).cursor() + 1, 1, Seq::empty()).0)),
        final(lx).cursor() == literal_body(old(lx).bytes(), old(lx).cursor() + 1, 1, Seq::empty()).1,
{
    let ghost data = lx.bytes();
    let ghost start = lx.cursor() + 1;
    lx.bump();
    let mut out: Vec<u8> = Vec::new();
    let mut depth: usize = 1;
    loop
        invariant
            lx.bytes() == data,
            1 <= depth <= lx.cursor(),
            literal_body(data, lx.cursor(), depth as int, out@) == literal_body(data, start, 1, Seq::empty()),
        decreases data.len() - lx.cursor(),
    {
        let ghost p = lx.cursor();
        let b = match lx.bump() {
            None => return Err(eof()),
            Some(b) => b,
        };
        if b == 0x5c {
            proof {
                lemma_escape_step(data, p + 1, out@);
            }
            match handle_escape(lx, &mut out) {
                Err(e) => return Err(e),
                Ok(()) => {},
            }
        } else if b == 0x28 {
            depth = depth + 1;
            out.push(0x28);
        } else if b == 0x29 {
            depth = depth - 1;
            if depth > 0 {
                out.push(0x29);
            } else {
                return Ok(Object::String(out));
            }
        } else {
            out.push(b);
        }
    }
}

/// Parse a hex string `<...>` (whitespace ignored, odd final nibble padded).
#[verifier::loop_isolation(false)]
fn parse_hex_string(lx: &mut Lexer) -> (r: Result<Object, TurboParsePdfError>)
    requires
        old(lx).cursor() < old(lx).bytes().len(),
    ensures
        final(lx).bytes() == old(lx).bytes(),
        agrees(r, str_val(hex_body(old(lx).bytes(), old(lx).cursor() + 1, Seq::empty(), None).0)),
        final(lx).cursor() == hex_body(old(lx).bytes(), old(lx).cursor() + 1, Seq::empty(), None).1,
{
    let ghost data = lx.bytes();
    let ghost start = lx.cursor() + 1;
    lx.bump();
    let mut out: Vec<u8> = Vec::new();
    let mut high: Option<u8> = None;
    loop
        invariant
            lx.bytes() == data,
            high matches Some(h) ==> h < 16,
            hex_body(data, lx.cursor(), out@, high) == hex_body(data, start, Seq::empty(), None),
        decreases data.len() - lx.cursor(),
    {
        let b = match lx.bump() {
            None => return Err(eof()),
            Some(b) => b,
        };
        if b == 0x3e {
            match high {
                Some(h) => out.push(h * 16),
                None => {},
            }
            return Ok(Object::String(out));
        }
        if !is_whitespace(b) {
            let nib = match hex_val(b) {
                None => return Err(err(ErrorCode::UnexpectedToken, "bad hex digit")),
                Some(n) => n,
            };
            match high {
                Some(h) => {
                    out.push(h * 16 + nib);
                    high = None;
                },
                None => {
                    high = Some(nib);
                },
            }
        }
    }
}

/// Parse an array `[ obj obj ... ]`.
#[verifier::loop_isolation(false)]
fn parse_array(lx: &mut Lexer) -> (r: Result<Object, TurboParsePdfError>)
    requires
        old(lx).cursor() < old(lx).bytes().len(),
    ensures
        final(lx).bytes() == old(lx).bytes(),
        agrees(r, array_body(old(lx).bytes(), old(lx).cursor() + 1, Seq::empty()).0),
        final(lx).cursor() == array_body(old(lx).bytes(), old(lx).cursor() + 1, Seq::empty()).1,
    decreases old(lx).bytes().len() - old(lx).cursor(), 1int,
{
    let ghost data = lx.bytes();
    let ghost c0 = lx.cursor();
    lx.bump();
    let mut items: Vec<Object> = Vec::new();
    assert(vals(items@) =~= Seq::empty());
    loop
        invariant
            lx.bytes() == data,
            c0 < lx.cursor() <= data.len(),
            array_body(data, lx.cursor(), vals(items@)) == array_body(data, c0 + 1, Seq::empty()),
        decreases data.len() - lx.cursor(),
    {
        proof {
            lemma_skip_ws_bounds(data, lx.cursor());
            lemma_object_at_advances(data, lx.cursor());
        }
        let ghost p = lx.cursor();
        lx.skip_whitespace();
        match lx.peek() {
            None => return Err(eof()),
            Some(b) => {
                if b == 0x5d {
                    lx.bump();
                    proof {
                        lemma_array_val(items);
                    }
                    return Ok(Object::Array(items));
                }
            },
        }
        let ghost q = lx.cursor();
        proof {
            lemma_object_at_advances(data, q);
            assert(skip_ws(data, q) == q);
        }
        let o = match parse_object(lx) {
            Ok(o) => o,
            Err(e) => return Err(e),
        };
        proof {
            assert(vals(items@.push(o)) =~= vals(items@).push(o@));
        }
        items.push(o);
    }
}

/// Parse a dictionary `<< /Key value ... >>` (the cursor at the `<<`).
#[verifier::loop_isolation(false)]
pub fn parse_dictionary(lx: &mut Lexer) -> (r: Result<Dictionary, TurboParsePdfError>)
    ensures
        final(lx).bytes() == old(lx).bytes(),
        ({
            let start = if old(lx).cursor() + 2 <= old(lx).bytes().len() {
                old(lx).cursor() + 2
            } else {
                old(lx).bytes().len() as int
            };
            let (s, e) = dict_body(old(lx).bytes(), start, Seq::empty());
            agrees(r, s) && final(lx).cursor() == e
        }),
    decreases old(lx).bytes().len() - old(lx).cursor(), 1int,
{
    let ghost data = lx.bytes();
    let ghost c0 = lx.cursor();
    lx.bump();
    lx.bump();
    let ghost start = lx.cursor();
    let mut dict = Dictionary::new();
    assert(dict@ =~= Seq::empty());
    loop
        invariant
            lx.bytes() == data,
            start <= lx.cursor() <= data.len(),
            c0 < start || start == data.len(),
            dict_body(data, lx.cursor(), dict@) == dict_body(data, start, Seq::empty()),
        decreases data.len() - lx.cursor(),
    {
        proof {
            lemma_skip_ws_bounds(data, lx.cursor());
        }
        lx.skip_whitespace();
        match lx.peek() {
            None => return Err(eof()),
            Some(b) => {
                if b == 0x3e {
                    lx.bump();
                    lx.bump();
                    return Ok(dict);
                }
            },
        }
        let ghost q = lx.cursor();
        proof {
            lemma_object_at_advances(data, q);
            assert(skip_ws(data, q) == q);
        }
        let key_obj = match parse_object(lx) {
            Ok(o) => o,
            Err(e) => return Err(e),
        };
        let key = match key_obj {
            Object::Name(n) => n,
            _ => return Err(err(ErrorCode::UnexpectedToken, "dictionary key is not a name")),
        };
        let ghost ke = lx.cursor();
        proof {
            lemma_object_at_advances(data, ke);
        }
        let value = match parse_object(lx) {
            Ok(o) => o,
            Err(e) => return Err(e),
        };
        dict.insert(key.as_str(), value);
    }
}

/// Parse a numeric token, promoting `n g R` to a reference on lookahead.
fn parse_number_or_ref(lx: &mut Lexer) -> (r: Result<Object, TurboParsePdfError>)
    ensures
        final(lx).bytes() == old(lx).bytes(),
        agrees(r, number_at(old(lx).bytes(), old(lx).cursor()).0),
        final(lx).cursor() == number_at(old(lx).bytes(), old(lx).cursor()).1,
{
    let tok = match lx.read_keyword() {
        None => return Err(err(ErrorCode::UnexpectedToken, "empty number")),
        Some(t) => t,
    };
    let value = match parse_numeric(tok) {
        None => return Err(err(ErrorCode::UnexpectedToken, "bad number")),
        Some(v) => v,
    };
    match reference_lookahead(lx, &value) {
        Some(r) => Ok(Object::Reference(r)),
        None => Ok(value),
    }
}

/// If `value` is a non-negative integer that fits `u32` and `gen R` follows,
/// build a reference; otherwise restore the cursor and return `None`.
fn reference_lookahead(lx: &mut Lexer, value: &Object) -> (r: Option<ObjRef>)
    ensures
        final(lx).bytes() == old(lx).bytes(),
        match value@ {
            Val::Integer(n) => if 0 <= n <= u32::MAX {
                match ref_tail(old(lx).bytes(), old(lx).cursor()) {
                    Some((g, e)) => r == Some(ObjRef { num: n as u32, gen: g as u16 })
                        && final(lx).cursor() == e,
                    None => r is None && final(lx).cursor() == old(lx).cursor(),
                }
            } else {
                r is None && final(lx).cursor() == old(lx).cursor()
            },
            _ => r is None && final(lx).cursor() == old(lx).cursor(),
        },
{
    let num: u32 = match value {
        Object::Integer(n) => {
            if 0 <= *n && *n <= 0xffff_ffff {
                *n as u32
            } else {
                return None;
            }
        },
        _ => return None,
    };
    let save = lx.pos();
    match read_gen_and_marker(lx, num) {
        Some(r) => Some(r),
        None => {
            lx.seek(save);
            None
        },
    }
}

/// Read `gen R` after an already-parsed object number.
fn read_gen_and_marker(lx: &mut Lexer, num: u32) -> (r: Option<ObjRef>)
    ensures
        final(lx).bytes() == old(lx).bytes(),
        match ref_tail(old(lx).bytes(), old(lx).cursor()) {
            Some((g, e)) => r == Some(ObjRef { num, gen: g as u16 }) && final(lx).cursor() == e,
            None => r is None,
        },
{
    let ghost data = lx.bytes();
    let ghost e0 = lx.cursor();
    lx.skip_whitespace();
    let ghost q = lx.cursor();
    let gtok = match lx.read_keyword() {
        None => return None,
        Some(t) => t,
    };
    let ghost ge = lx.cursor();
    let g = match parse_uint(gtok, 65535) {
        None => return None,
        Some(g) => g,
    };
    assert(gtok@ == data.subrange(q, ge));
    assert(uint_literal(gtok@, 65535u64 as int) is Some);
    let ghost gv = uint_literal(data.subrange(q, ge), 65535).unwrap();
    assert(gv == g as int);
    assert(g <= 65535);
    let gen = g as u16;
    assert(gen as int == gv);
    lx.skip_whitespace();
    let ghost q2 = lx.cursor();
    let kw = match lx.read_keyword() {
        None => return None,
        Some(t) => t,
    };
    let ghost re = lx.cursor();
    if kw.len() == 1 && kw[0] == 0x52 {
        assert(kw@ =~= seq![0x52u8]);
        assert(ref_tail(data, e0) == Some((gv, re)));
        Some(ObjRef::new(num, gen))
    } else {
        proof {
            if kw@ == seq![0x52u8] {
                assert(kw@.len() == 1);
                assert(kw@[0] == 0x52);
            }
        }
        None
    }
}

/// Parse the bare keyword literals `true`, `false`, and `null`.
fn parse_keyword_literal(lx: &mut Lexer) -> (r: Result<Object, TurboParsePdfError>)
    ensures
        final(lx).bytes() == old(lx).bytes(),
        agrees(r, keyword_at_val(old(lx).bytes(), old(lx).cursor()).0),
        final(lx).cursor() == keyword_at_val(old(lx).bytes(), old(lx).cursor()).1,
{
    let ghost data = lx.bytes();
    let ghost q = lx.cursor();
    let kw = lx.read_keyword();
    let tok: &[u8] = match kw {
        Some(t) => t,
        None => &[],
    };
    proof {
        if kw is None {
            assert(data.subrange(q, q) =~= tok@);
        }
    }
    if bytes_eq(tok, &[0x74, 0x72, 0x75, 0x65]) {
        Ok(Object::Boolean(true))
    } else if bytes_eq(tok, &[0x66, 0x61, 0x6c, 0x73, 0x65]) {
        Ok(Object::Boolean(false))
    } else if bytes_eq(tok, &[0x6e, 0x75, 0x6c, 0x6c]) {
        Ok(Object::Null)
    } else {
        Err(err(ErrorCode::UnexpectedToken, "unexpected token"))
    }
}

} // verus!
