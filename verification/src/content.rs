//! Content-stream tokenizer (ISO 32000-1 §7.8.2).
//!
//! A page content stream is postfix: zero or more operands (COS objects)
//! followed by an operator keyword (`Tj`, `Td`, `re`, `cm`, …).
//! [`parse_content`] splits the byte stream into a flat list of [`Op`]s,
//! reusing the COS value parser for operands and reading bare keywords as
//! operators. Inline images (`BI … ID … EI`) carry raw binary that is not COS,
//! so they are recognized and skipped.

use vstd::prelude::*;
use vstd::utf8::{decode_utf8, valid_utf8};

use crate::cos::{lemma_object_at_advances, object_at, parse_object};
use crate::lex::{lemma_regular_end_bounds, lemma_skip_ws_bounds, regular_end, skip_ws, Lexer};
use crate::object::{vals, Object, Val};

verus! {

broadcast use Lexer::lemma_cursor_bounded;

/// A content-stream operator name, stored inline (every PDF operator is at
/// most 3 bytes; longer keywords are truncated to 4 bytes).
#[derive(Debug, Clone, Copy, PartialEq, Eq)]
pub struct Operator {
    buf: [u8; 4],
    len: u8,
}

/// `std::str::from_utf8(bytes).ok()` (std). Claimed, as documented: the text
/// exactly when the bytes are valid UTF-8.
#[verifier::external_body]
fn str_from_utf8(bytes: &[u8]) -> (r: Option<&str>)
    ensures
        r is Some == valid_utf8(bytes@),
        r matches Some(s) ==> s@ == decode_utf8(bytes@),
{
    std::str::from_utf8(bytes).ok()
}

/// The first four bytes (or fewer) of a keyword: what an operator keeps.
pub open spec fn operator_bytes(kw: Seq<u8>) -> Seq<u8> {
    if kw.len() <= 4 {
        kw
    } else {
        kw.subrange(0, 4)
    }
}

impl Operator {
    /// The operator's bytes.
    pub closed spec fn bytes(&self) -> Seq<u8> {
        if self.len <= 4 {
            self.buf@.subrange(0, self.len as int)
        } else {
            self.buf@
        }
    }

    /// Build an operator from its keyword bytes (truncated to 4 — longer runs
    /// are never valid operators).
    pub fn from_bytes(bytes: &[u8]) -> (r: Operator)
        ensures
            r.bytes() == operator_bytes(bytes@),
    {
        let len = if bytes.len() < 4 { bytes.len() } else { 4 };
        let mut buf = [0u8; 4];
        let mut i: usize = 0;
        while i < len
            invariant
                len <= 4,
                len <= bytes@.len(),
                i <= len,
                buf@.len() == 4,
                forall|k: int| 0 <= k < i ==> #[trigger] buf@[k] == bytes@[k],
            decreases len - i,
        {
            buf.set(i, bytes[i]);
            i += 1;
        }
        let r = Operator { buf, len: len as u8 };
        assert(r.bytes() =~= operator_bytes(bytes@));
        r
    }

    /// The operator as a string slice (empty for non-UTF-8 bytes).
    pub fn as_str(&self) -> (r: &str)
        ensures
            valid_utf8(self.bytes()) ==> r@ == decode_utf8(self.bytes()),
            !valid_utf8(self.bytes()) ==> r@ == Seq::<char>::empty(),
    {
        let n: usize = if self.len <= 4 { self.len as usize } else { 4 };
        let bytes = &self.buf.as_slice()[0..n];
        assert(bytes@ =~= self.bytes());
        match str_from_utf8(bytes) {
            Some(s) => s,
            None => {
                proof {
                    reveal_strlit("");
                }
                ""
            },
        }
    }
}

/// One content-stream operation: an operator and the operands that preceded it.
#[derive(Debug)]
pub struct Op {
    pub operator: Operator,
    pub operands: Vec<Object>,
}

/// An operation's value: operator bytes and operand values.
pub open spec fn op_view(op: Op) -> (Seq<u8>, Seq<Val>) {
    (op.operator.bytes(), vals(op.operands@))
}

/// The values of a list of operations.
pub open spec fn ops_view(ops: Seq<Op>) -> Seq<(Seq<u8>, Seq<Val>)> {
    ops.map_values(|o: Op| op_view(o))
}

/// Bytes that begin a COS operand (number, name, string, array, dict).
pub open spec fn operand_start_spec(b: u8) -> bool {
    b == 0x2f || b == 0x28 || b == 0x3c || b == 0x5b || (0x30 <= b <= 0x39) || b == 0x2b || b == 0x2d
        || b == 0x2e
}

/// True for bytes that begin a COS operand (number, name, string, array, dict).
pub fn is_operand_start(b: u8) -> (r: bool)
    ensures
        r == operand_start_spec(b),
{
    b == 0x2f || b == 0x28 || b == 0x3c || b == 0x5b || (0x30 <= b && b <= 0x39) || b == 0x2b || b
        == 0x2d || b == 0x2e
}

/// Just past the first `EI` at or after `k`, or the end of the data.
pub open spec fn ei_end(data: Seq<u8>, k: int) -> int
    decreases data.len() - k,
{
    if k < 0 || k + 1 >= data.len() {
        data.len() as int
    } else if data[k] == 0x45 && data[k + 1] == 0x49 {
        k + 2
    } else {
        ei_end(data, k + 1)
    }
}

/// The operations read from `p` on, with `operands` pending and `ops` done:
/// operands accumulate until an operator keyword collects them; a parse error
/// in an operand ends the stream; `BI` skips through `EI`; a byte that starts
/// neither is skipped and drops the pending operands.
pub open spec fn content_from(data: Seq<u8>, p: int, operands: Seq<Val>, ops: Seq<(Seq<u8>, Seq<Val>)>) -> Seq<(Seq<u8>, Seq<Val>)>
    decreases data.len() - p,
{
    if p < 0 || p > data.len() {
        ops
    } else {
        proof {
            lemma_skip_ws_bounds(data, p);
        }
        let q = skip_ws(data, p);
        if q >= data.len() {
            ops
        } else if operand_start_spec(data[q]) {
            let (r, e) = object_at(data, q);
            match r {
                Err(_) => ops,
                Ok(v) => if e <= q || e > data.len() {
                    ops
                } else {
                    content_from(data, e, operands.push(v), ops)
                },
            }
        } else {
            proof {
                lemma_regular_end_bounds(data, q);
            }
            let e = regular_end(data, q);
            if e == q {
                content_from(data, q + 1, seq![], ops)
            } else {
                let kw = data.subrange(q, e);
                if kw == seq![0x42u8, 0x49u8] {
                    let next = ei_end(data, e);
                    if next <= q || next > data.len() {
                        ops
                    } else {
                        content_from(data, next, seq![], ops)
                    }
                } else {
                    content_from(data, e, seq![], ops.push((operator_bytes(kw), operands)))
                }
            }
        }
    }
}

/// The operations of a content stream.
pub open spec fn content_spec(data: Seq<u8>) -> Seq<(Seq<u8>, Seq<Val>)> {
    content_from(data, 0, seq![], seq![])
}

proof fn lemma_ei_end_bounds(data: Seq<u8>, k: int)
    requires
        0 <= k,
    ensures
        k < ei_end(data, k) <= data.len() || ei_end(data, k) == data.len(),
    decreases data.len() - k,
{
    if k + 1 < data.len() && !(data[k] == 0x45 && data[k + 1] == 0x49) {
        lemma_ei_end_bounds(data, k + 1);
    }
}

/// Skip an inline image's binary data through its `EI` terminator.
fn skip_inline_image(lx: &mut Lexer)
    ensures
        final(lx).bytes() == old(lx).bytes(),
        final(lx).cursor() == ei_end(old(lx).bytes(), old(lx).cursor()),
{
    let data = lx.data();
    let from = lx.pos();
    let n = data.len();
    let mut k = from;
    while k < n && n - k >= 2
        invariant
            from <= k <= n,
            n == data@.len(),
            data@ == old(lx).bytes(),
            lx.bytes() == data@,
            lx.cursor() == from,
            from == old(lx).cursor(),
            ei_end(data@, from as int) == ei_end(data@, k as int),
        decreases n - k,
    {
        if data[k] == 0x45 && data[k + 1] == 0x49 {
            lx.seek(k + 2);
            return;
        }
        k += 1;
    }
    lx.seek(n);
}

/// Parse one operand; returns false on a parse error (stop tokenizing).
fn push_operand(lx: &mut Lexer, operands: &mut Vec<Object>) -> (r: bool)
    ensures
        final(lx).bytes() == old(lx).bytes(),
        final(lx).cursor() == object_at(old(lx).bytes(), old(lx).cursor()).1,
        match object_at(old(lx).bytes(), old(lx).cursor()).0 {
            Ok(v) => r && vals(final(operands)@) == vals(old(operands)@).push(v),
            Err(_) => !r,
        },
{
    match parse_object(lx) {
        Ok(obj) => {
            let ghost before = operands@;
            operands.push(obj);
            assert(vals(operands@) =~= vals(before).push(obj@));
            true
        },
        Err(_) => false,
    }
}

/// Read an operator and move the pending operands into an [`Op`]; `BI`
/// skips an inline image; a byte that starts no keyword is stepped over.
fn read_operator(lx: &mut Lexer, operands: &mut Vec<Object>, ops: &mut Vec<Op>)
    requires
        old(lx).cursor() < old(lx).bytes().len(),
    ensures
        final(lx).bytes() == old(lx).bytes(),
        final(operands)@.len() == 0,
        ({
            let data = old(lx).bytes();
            let q = old(lx).cursor();
            let e = regular_end(data, q);
            if e == q {
                final(lx).cursor() == q + 1 && ops_view(final(ops)@) == ops_view(old(ops)@)
            } else if data.subrange(q, e) == seq![0x42u8, 0x49u8] {
                final(lx).cursor() == ei_end(data, e) && ops_view(final(ops)@) == ops_view(old(ops)@)
            } else {
                final(lx).cursor() == e && ops_view(final(ops)@) == ops_view(old(ops)@).push(
                    (operator_bytes(data.subrange(q, e)), vals(old(operands)@)),
                )
            }
        }),
{
    let kw = match lx.read_keyword() {
        Some(k) => k,
        None => {
            lx.bump();
            operands.clear();
            return;
        },
    };
    let operator = Operator::from_bytes(kw);
    if kw.len() == 2 && kw[0] == 0x42 && kw[1] == 0x49 {
        assert(kw@ =~= seq![0x42u8, 0x49u8]);
        skip_inline_image(lx);
        operands.clear();
        return;
    }
    assert(kw@ != seq![0x42u8, 0x49u8]);
    let mut taken: Vec<Object> = Vec::new();
    std::mem::swap(&mut taken, operands);
    let ghost before = ops@;
    ops.push(Op { operator, operands: taken });
    assert(ops_view(ops@) =~= ops_view(before).push(op_view(ops@.last())));
}

/// Tokenize a (decoded) content stream into a list of operations.
pub fn parse_content(data: &[u8]) -> (r: Vec<Op>)
    ensures
        ops_view(r@) == content_spec(data@),
{
    let mut lx = Lexer::new(data);
    let mut operands: Vec<Object> = Vec::new();
    let mut ops: Vec<Op> = Vec::new();
    assert(vals(operands@) =~= Seq::<Val>::empty());
    assert(ops_view(ops@) =~= Seq::<(Seq<u8>, Seq<Val>)>::empty());
    loop
        invariant
            lx.bytes() == data@,
            content_spec(data@) == content_from(data@, lx.cursor(), vals(operands@), ops_view(ops@)),
        decreases data@.len() - lx.cursor(),
    {
        proof {
            lemma_skip_ws_bounds(data@, lx.cursor());
        }
        lx.skip_whitespace();
        let q = lx.pos();
        match lx.peek() {
            None => return ops,
            Some(b) => {
                if is_operand_start(b) {
                    proof {
                        lemma_object_at_advances(data@, q as int);
                    }
                    if !push_operand(&mut lx, &mut operands) {
                        return ops;
                    }
                } else {
                    proof {
                        lemma_regular_end_bounds(data@, q as int);
                        lemma_ei_end_bounds(data@, regular_end(data@, q as int));
                    }
                    read_operator(&mut lx, &mut operands, &mut ops);
                    assert(vals(operands@) =~= Seq::<Val>::empty());
                }
            },
        }
    }
}

} // verus!
