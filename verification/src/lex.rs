//! The low-level COS byte scanner.
//!
//! A [`Lexer`] is a cursor over the raw PDF bytes that knows the PDF character
//! classes: whitespace, the delimiter bytes, and the "regular" bytes that make up
//! numbers, names and keywords. It offers the primitives the recursive-descent
//! object parser builds on — whitespace/comment skipping and keyword scanning —
//! but does not itself decide what an object is.

use vstd::prelude::*;

verus! {

/// The six PDF whitespace bytes: NUL, TAB, LF, FF, CR, SPACE.
pub open spec fn ws_byte(b: u8) -> bool {
    b == 0x00 || b == 0x09 || b == 0x0a || b == 0x0c || b == 0x0d || b == 0x20
}

/// The PDF delimiter bytes `( ) < > [ ] { } /` and `%`.
pub open spec fn delim_byte(b: u8) -> bool {
    b == 0x28 || b == 0x29 || b == 0x3c || b == 0x3e || b == 0x5b || b == 0x5d || b == 0x7b
        || b == 0x7d || b == 0x2f || b == 0x25
}

/// A regular byte: neither whitespace nor a delimiter.
pub open spec fn regular_byte(b: u8) -> bool {
    !ws_byte(b) && !delim_byte(b)
}

/// True for the PDF whitespace bytes.
pub fn is_whitespace(b: u8) -> (r: bool)
    ensures
        r == ws_byte(b),
{
    b == 0x00 || b == 0x09 || b == 0x0a || b == 0x0c || b == 0x0d || b == 0x20
}

/// True for the PDF delimiter bytes.
pub fn is_delimiter(b: u8) -> (r: bool)
    ensures
        r == delim_byte(b),
{
    b == 0x28 || b == 0x29 || b == 0x3c || b == 0x3e || b == 0x5b || b == 0x5d || b == 0x7b
        || b == 0x7d || b == 0x2f || b == 0x25
}

/// True for regular bytes (the runs that form numbers, names and keywords).
pub fn is_regular(b: u8) -> (r: bool)
    ensures
        r == regular_byte(b),
{
    !is_whitespace(b) && !is_delimiter(b)
}

/// The index just past a comment body scanned from `p`: one past the first
/// CR or LF at or after `p`, or the end of the data.
pub open spec fn comment_end(data: Seq<u8>, p: int) -> int
    decreases data.len() - p,
{
    if p >= data.len() {
        data.len() as int
    } else if data[p] == 0x0a || data[p] == 0x0d {
        p + 1
    } else {
        comment_end(data, p + 1)
    }
}

/// A comment ends within the data, past its first byte when there is one.
pub proof fn lemma_comment_end_bounds(data: Seq<u8>, p: int)
    requires
        p <= data.len(),
    ensures
        p <= comment_end(data, p) <= data.len(),
        p < data.len() ==> p < comment_end(data, p),
    decreases data.len() - p,
{
    if p < data.len() && !(data[p] == 0x0a || data[p] == 0x0d) {
        lemma_comment_end_bounds(data, p + 1);
    }
}

/// Where whitespace and `%` comments starting at `p` end.
pub open spec fn skip_ws(data: Seq<u8>, p: int) -> int
    decreases data.len() - p,
{
    if p < 0 || p >= data.len() {
        p
    } else if data[p] == 0x25 {
        proof {
            lemma_comment_end_bounds(data, p);
        }
        skip_ws(data, comment_end(data, p))
    } else if ws_byte(data[p]) {
        skip_ws(data, p + 1)
    } else {
        p
    }
}

/// Skipping whitespace and comments stays within the data and stops at a byte that starts neither.
pub proof fn lemma_skip_ws_bounds(data: Seq<u8>, p: int)
    requires
        0 <= p <= data.len(),
    ensures
        p <= skip_ws(data, p) <= data.len(),
        skip_ws(data, p) < data.len() ==> {
            let b = data[skip_ws(data, p)];
            b != 0x25 && !ws_byte(b)
        },
    decreases data.len() - p,
{
    if p < data.len() {
        if data[p] == 0x25 {
            lemma_comment_end_bounds(data, p);
            lemma_skip_ws_bounds(data, comment_end(data, p));
        } else if ws_byte(data[p]) {
            lemma_skip_ws_bounds(data, p + 1);
        }
    }
}

/// Every byte that skipping passes over is whitespace or part of a comment:
/// a `%` through the next CR or LF.
pub proof fn lemma_skip_ws_skips_only_blanks(data: Seq<u8>, p: int)
    requires
        0 <= p <= data.len(),
    ensures
        forall|i: int|
            p <= i < skip_ws(data, p) ==> ws_byte(#[trigger] data[i]) || exists|s: int|
                p <= s <= i && data[s] == 0x25 && i < comment_end(data, s),
    decreases data.len() - p,
{
    if p < data.len() {
        if data[p] == 0x25 {
            lemma_comment_end_bounds(data, p);
            let q = comment_end(data, p);
            lemma_skip_ws_skips_only_blanks(data, q);
            assert forall|i: int| p <= i < skip_ws(data, p) implies ws_byte(#[trigger] data[i]) || exists|s: int|
                p <= s <= i && data[s] == 0x25 && i < comment_end(data, s) by {
                if i < q {
                    assert(p <= p <= i && data[p] == 0x25 && i < comment_end(data, p));
                } else if !ws_byte(data[i]) {
                    let s = choose|s: int| q <= s <= i && data[s] == 0x25 && i < comment_end(data, s);
                    assert(p <= s <= i && data[s] == 0x25 && i < comment_end(data, s));
                }
            }
        } else if ws_byte(data[p]) {
            lemma_skip_ws_skips_only_blanks(data, p + 1);
            assert forall|i: int| p <= i < skip_ws(data, p) implies ws_byte(#[trigger] data[i]) || exists|s: int|
                p <= s <= i && data[s] == 0x25 && i < comment_end(data, s) by {
                if i > p && !ws_byte(data[i]) {
                    let s = choose|s: int| p + 1 <= s <= i && data[s] == 0x25 && i < comment_end(data, s);
                    assert(p <= s <= i && data[s] == 0x25 && i < comment_end(data, s));
                }
            }
        }
    }
}

/// The end of the run of regular bytes that starts at `p`.
pub open spec fn regular_end(data: Seq<u8>, p: int) -> int
    decreases data.len() - p,
{
    if p < 0 || p >= data.len() || !regular_byte(data[p]) {
        p
    } else {
        regular_end(data, p + 1)
    }
}

/// The regular-character run from `p` stays within the data and ends at a non-regular byte.
pub proof fn lemma_regular_end_bounds(data: Seq<u8>, p: int)
    requires
        0 <= p <= data.len(),
    ensures
        p <= regular_end(data, p) <= data.len(),
        forall|i: int| p <= i < regular_end(data, p) ==> regular_byte(#[trigger] data[i]),
        regular_end(data, p) < data.len() ==> !regular_byte(data[regular_end(data, p)]),
    decreases data.len() - p,
{
    if p < data.len() && regular_byte(data[p]) {
        lemma_regular_end_bounds(data, p + 1);
    }
}

/// Whether `kw` stands at `p`, followed by a non-regular byte or the end.
pub open spec fn keyword_at(data: Seq<u8>, p: int, kw: Seq<u8>) -> bool {
    &&& 0 <= p
    &&& p + kw.len() <= data.len()
    &&& data.subrange(p, p + kw.len()) == kw
    &&& !(p + kw.len() < data.len() && regular_byte(data[p + kw.len()]))
}

/// Skip a `%` comment starting at `pos` through the next end-of-line,
/// returning the position just past it.
fn skip_comment(data: &[u8], pos: usize) -> (r: usize)
    requires
        pos < data@.len(),
    ensures
        r == comment_end(data@, pos as int),
{
    let mut p = pos;
    loop
        invariant_except_break
            pos <= p <= data@.len(),
            comment_end(data@, p as int) == comment_end(data@, pos as int),
        ensures
            p == comment_end(data@, pos as int),
        decreases data@.len() - p,
    {
        if p >= data.len() {
            break;
        }
        let b = data[p];
        p = p + 1;
        if b == 0x0a || b == 0x0d {
            break;
        }
    }
    p
}

/// A forward cursor over PDF bytes.
#[derive(Debug)]
pub struct Lexer<'a> {
    data: &'a [u8],
    pos: usize,
}

impl<'a> Clone for Lexer<'a> {
    fn clone(&self) -> (r: Lexer<'a>)
        ensures
            r.bytes() == self.bytes(),
            r.cursor() == self.cursor(),
    {
        proof {
            use_type_invariant(self);
        }
        Lexer { data: self.data, pos: self.pos }
    }
}

impl<'a> Lexer<'a> {
    #[verifier::type_invariant]
    spec fn inv(self) -> bool {
        self.pos <= self.data@.len()
    }

    /// The bytes under the cursor.
    pub closed spec fn bytes(&self) -> Seq<u8> {
        self.data@
    }

    /// The cursor position (never past the end of the bytes).
    pub closed spec fn cursor(&self) -> int {
        if self.pos <= self.data@.len() {
            self.pos as int
        } else {
            self.data@.len() as int
        }
    }

    pub broadcast proof fn lemma_cursor_bounded(lx: &Lexer<'a>)
        ensures
            0 <= #[trigger] lx.cursor() <= lx.bytes().len(),
            lx.bytes().len() <= usize::MAX,
    {
        assert(vstd::slice::spec_slice_len(lx.data) == lx.data@.len());
    }

    /// A lexer positioned at the start of `data`.
    pub fn new(data: &'a [u8]) -> (r: Lexer<'a>)
        ensures
            r.bytes() == data@,
            r.cursor() == 0,
    {
        Lexer { data, pos: 0 }
    }

    /// A lexer positioned at byte offset `pos` within `data` (clamped).
    pub fn at(data: &'a [u8], pos: usize) -> (r: Lexer<'a>)
        ensures
            r.bytes() == data@,
            r.cursor() == if pos <= data@.len() { pos as int } else { data@.len() as int },
    {
        let p = if pos < data.len() { pos } else { data.len() };
        Lexer { data, pos: p }
    }

    /// The full underlying buffer.
    pub fn data(&self) -> (r: &'a [u8])
        ensures
            r@ == self.bytes(),
    {
        self.data
    }

    /// The current byte offset.
    pub fn pos(&self) -> (r: usize)
        ensures
            r == self.cursor(),
            r <= self.bytes().len(),
    {
        proof {
            use_type_invariant(self);
        }
        self.pos
    }

    /// Move the cursor to an absolute offset (clamped to the buffer length).
    pub fn seek(&mut self, pos: usize)
        ensures
            final(self).bytes() == old(self).bytes(),
            final(self).cursor() == if pos <= old(self).bytes().len() {
                pos as int
            } else {
                old(self).bytes().len() as int
            },
    {
        self.pos = if pos < self.data.len() { pos } else { self.data.len() };
    }

    /// True once the cursor has reached the end of the buffer.
    pub fn at_end(&self) -> (r: bool)
        ensures
            r == (self.cursor() == self.bytes().len()),
    {
        proof {
            use_type_invariant(self);
        }
        self.pos >= self.data.len()
    }

    /// The byte at the cursor without advancing.
    pub fn peek(&self) -> (r: Option<u8>)
        ensures
            r == if self.cursor() < self.bytes().len() {
                Some(self.bytes()[self.cursor()])
            } else {
                None::<u8>
            },
    {
        proof {
            use_type_invariant(self);
        }
        if self.pos < self.data.len() {
            Some(self.data[self.pos])
        } else {
            None
        }
    }

    /// The byte `n` ahead of the cursor without advancing.
    pub fn peek_at(&self, n: usize) -> (r: Option<u8>)
        requires
            self.cursor() + n <= usize::MAX,
        ensures
            r == if self.cursor() + n < self.bytes().len() {
                Some(self.bytes()[self.cursor() + n])
            } else {
                None::<u8>
            },
    {
        proof {
            use_type_invariant(self);
        }
        let i = self.pos + n;
        if i < self.data.len() {
            Some(self.data[i])
        } else {
            None
        }
    }

    /// Return the byte at the cursor and advance past it.
    pub fn bump(&mut self) -> (r: Option<u8>)
        ensures
            final(self).bytes() == old(self).bytes(),
            old(self).cursor() < old(self).bytes().len() ==> {
                &&& r == Some(old(self).bytes()[old(self).cursor()])
                &&& final(self).cursor() == old(self).cursor() + 1
            },
            old(self).cursor() >= old(self).bytes().len() ==> {
                &&& r is None
                &&& final(self).cursor() == old(self).cursor()
            },
    {
        proof {
            use_type_invariant(&*self);
        }
        if self.pos < self.data.len() {
            let b = self.data[self.pos];
            self.pos = self.pos + 1;
            Some(b)
        } else {
            None
        }
    }

    /// Advance the cursor by `n` bytes (clamped to the buffer length).
    pub fn advance(&mut self, n: usize)
        requires
            old(self).cursor() + n <= usize::MAX,
        ensures
            final(self).bytes() == old(self).bytes(),
            final(self).cursor() == if old(self).cursor() + n <= old(self).bytes().len() {
                old(self).cursor() + n
            } else {
                old(self).bytes().len() as int
            },
    {
        proof {
            use_type_invariant(&*self);
        }
        let target = self.pos + n;
        self.seek(target);
    }

    /// Skip past whitespace and `%`-to-end-of-line comments.
    pub fn skip_whitespace(&mut self)
        ensures
            final(self).bytes() == old(self).bytes(),
            final(self).cursor() == skip_ws(old(self).bytes(), old(self).cursor()),
    {
        proof {
            use_type_invariant(&*self);
        }
        let data = self.data;
        let mut pos = self.pos;
        loop
            invariant
                pos <= data@.len(),
                data@ == old(self).bytes(),
                skip_ws(data@, pos as int) == skip_ws(data@, old(self).cursor()),
            ensures
                pos <= data@.len(),
                pos as int == skip_ws(data@, old(self).cursor()),
            decreases data@.len() - pos,
        {
            if pos >= data.len() {
                break;
            }
            let b = data[pos];
            if b == 0x25 {
                proof {
                    lemma_comment_end_bounds(data@, pos as int);
                }
                pos = skip_comment(data, pos);
            } else if is_whitespace(b) {
                pos = pos + 1;
            } else {
                break;
            }
        }
        self.pos = pos;
    }

    /// Read a run of regular bytes as a keyword (e.g. `obj`, `R`, `true`).
    /// Returns `None` at a delimiter, whitespace or the end.
    pub fn read_keyword(&mut self) -> (r: Option<&'a [u8]>)
        ensures
            final(self).bytes() == old(self).bytes(),
            final(self).cursor() == regular_end(old(self).bytes(), old(self).cursor()),
            r is None <==> final(self).cursor() == old(self).cursor(),
            r matches Some(kw) ==> kw@ == old(self).bytes().subrange(
                old(self).cursor(),
                final(self).cursor(),
            ),
    {
        proof {
            use_type_invariant(&*self);
        }
        let start = self.pos;
        let data = self.data;
        let mut pos = self.pos;
        while pos < data.len() && is_regular(data[pos])
            invariant
                start <= pos <= data@.len(),
                data@ == old(self).bytes(),
                start == old(self).cursor(),
                regular_end(data@, pos as int) == regular_end(data@, start as int),
            decreases data@.len() - pos,
        {
            pos = pos + 1;
        }
        self.pos = pos;
        if self.pos == start {
            None
        } else {
            Some(vstd::slice::slice_subrange(self.data, start, self.pos))
        }
    }

    /// If the bytes at the cursor equal `kw`, consume them and return true.
    /// Requires a non-regular byte (or the end) after, so `stream` does not
    /// match a prefix of `streamfoo`.
    pub fn eat_keyword(&mut self, kw: &[u8]) -> (r: bool)
        ensures
            final(self).bytes() == old(self).bytes(),
            r == keyword_at(old(self).bytes(), old(self).cursor(), kw@),
            final(self).cursor() == if r {
                old(self).cursor() + kw@.len()
            } else {
                old(self).cursor()
            },
    {
        proof {
            use_type_invariant(&*self);
        }
        if self.data.len() - self.pos < kw.len() {
            return false;
        }
        let end = self.pos + kw.len();
        let mut i: usize = 0;
        while i < kw.len()
            invariant
                i <= kw@.len(),
                end == self.pos + kw@.len(),
                end <= self.data@.len(),
                forall|j: int| 0 <= j < i ==> self.data@[self.pos + j] == kw@[j],
            decreases kw@.len() - i,
        {
            if self.data[self.pos + i] != kw[i] {
                proof {
                    assert(self.data@.subrange(self.pos as int, end as int)[i as int] != kw@[i as int]);
                }
                return false;
            }
            i = i + 1;
        }
        assert(self.data@.subrange(self.pos as int, end as int) =~= kw@);
        if end < self.data.len() && is_regular(self.data[end]) {
            return false;
        }
        self.pos = end;
        true
    }
}

} // verus!
