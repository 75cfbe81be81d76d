//! Object streams (`/Type /ObjStm`, ISO 32000-1 §7.5.7).
//!
//! PDF 1.5+ packs many non-stream indirect objects into one compressed stream.
//! After decompression the stream is a header of `N` integer pairs
//! `(object-number, relative-offset)` followed, at byte `/First`, by the objects
//! themselves. A cross-reference entry of type 2 names the object stream and the
//! index of the wanted object within it.

use vstd::prelude::*;

use crate::cos::{agrees, object_at, parse_object};
use crate::error::{ErrorCode, TurboParsePdfError};
use crate::lex::{lemma_regular_end_bounds, lemma_skip_ws_bounds, regular_end, skip_ws, Lexer};
use crate::numeric::{parse_uint, uint_literal};
use crate::object::{lookup, Dictionary, Object, Val};

verus! {

broadcast use Lexer::lemma_cursor_bounded;

fn bad(msg: &str) -> (e: TurboParsePdfError)
    ensures
        e.code == ErrorCode::InvalidObject,
{
    TurboParsePdfError::new(ErrorCode::InvalidObject, msg)
}

/// A decoded object stream: the packed objects plus their offset header.
#[derive(Debug)]
pub struct ObjStm {
    numbers: Vec<u32>,
    offsets: Vec<usize>,
    first: usize,
    data: Vec<u8>,
}

/// A required non-negative integer entry of the stream dictionary.
pub open spec fn uint_entry(d: Seq<(Seq<char>, Val)>, key: Seq<char>) -> Option<usize> {
    match lookup(d, key) {
        Some(Val::Integer(n)) => if 0 <= n <= usize::MAX {
            Some(n as usize)
        } else {
            None
        },
        _ => None,
    }
}

/// A whitespace-led unsigned integer token at `p`: its value and the position
/// after it.
pub open spec fn read_uint_spec(data: Seq<u8>, p: int) -> Option<(int, int)> {
    let q = skip_ws(data, p);
    let e = regular_end(data, q);
    if e == q {
        None
    } else {
        match uint_literal(data.subrange(q, e), u64::MAX as int) {
            Some(v) => Some((v, e)),
            None => None,
        }
    }
}

/// The first `k` header pairs from `p`, numbers as `u32` and offsets as
/// `usize`, and the position after them.
pub open spec fn header_spec(data: Seq<u8>, k: nat) -> Option<(Seq<u32>, Seq<usize>, int)>
    decreases k,
{
    if k == 0 {
        Some((seq![], seq![], 0))
    } else {
        match header_spec(data, (k - 1) as nat) {
            None => None,
            Some((ns, os, p)) => match read_uint_spec(data, p) {
                None => None,
                Some((a, p1)) => match read_uint_spec(data, p1) {
                    None => None,
                    Some((b, p2)) => Some((ns.push(a as u32), os.push(b as usize), p2)),
                },
            },
        }
    }
}

impl ObjStm {
    /// The object numbers, in header order.
    pub closed spec fn numbers_view(&self) -> Seq<u32> {
        self.numbers@
    }

    /// The relative offsets, in header order.
    pub closed spec fn offsets_view(&self) -> Seq<usize> {
        self.offsets@
    }

    /// The offset of the first object.
    pub closed spec fn first_view(&self) -> usize {
        self.first
    }

    /// The decoded stream bytes.
    pub closed spec fn data_view(&self) -> Seq<u8> {
        self.data@
    }

    /// Parse the header of a decoded object stream given its dictionary:
    /// `/N` pairs, objects from `/First`. Missing or negative keys and a
    /// short or non-numeric header are `InvalidObject`.
    pub fn parse(dict: &Dictionary, data: Vec<u8>) -> (r: Result<ObjStm, TurboParsePdfError>)
        ensures
            match (uint_entry(dict@, "N"@), uint_entry(dict@, "First"@)) {
                (Some(n), Some(first)) => match header_spec(data@, n as nat) {
                    Some((ns, os, p)) => r matches Ok(s) && s.numbers_view() == ns
                        && s.offsets_view() == os && s.first_view() == first && s.data_view()
                        == data@,
                    None => r matches Err(e) && e.code == ErrorCode::InvalidObject,
                },
                _ => r matches Err(e) && e.code == ErrorCode::InvalidObject,
            },
    {
        let n = uint(dict, "N")?;
        let first = uint(dict, "First")?;
        let (numbers, offsets) = read_header(data.as_slice(), n)?;
        Ok(ObjStm { numbers, offsets, first, data })
    }

    /// The number of packed objects.
    pub fn len(&self) -> (r: usize)
        ensures
            r == self.numbers_view().len(),
    {
        self.numbers.len()
    }

    /// True when the stream packs no objects.
    pub fn is_empty(&self) -> (r: bool)
        ensures
            r == (self.numbers_view().len() == 0),
    {
        self.numbers.len() == 0
    }

    /// The object number stored at `index`.
    pub fn object_number(&self, index: usize) -> (r: Option<u32>)
        ensures
            r == if index < self.numbers_view().len() {
                Some(self.numbers_view()[index as int])
            } else {
                None
            },
    {
        if index < self.numbers.len() {
            Some(self.numbers[index])
        } else {
            None
        }
    }

    /// Parse and return the object at `index` within the stream: the value at
    /// `/First` plus its offset (clamped to the end of the data).
    pub fn get(&self, index: usize) -> (r: Result<Object, TurboParsePdfError>)
        ensures
            index >= self.offsets_view().len() ==> (r matches Err(e) && e.code
                == ErrorCode::InvalidObject),
            index < self.offsets_view().len() ==> agrees(
                r,
                object_at(
                    self.data_view(),
                    if self.first_view() + self.offsets_view()[index as int] <= self.data_view().len() {
                        self.first_view() + self.offsets_view()[index as int]
                    } else {
                        self.data_view().len() as int
                    },
                ).0,
            ),
    {
        if index >= self.offsets.len() {
            return Err(bad("objstm index out of range"));
        }
        let rel = self.offsets[index];
        let start = match self.first.checked_add(rel) {
            Some(s) => s,
            None => self.data.len(),
        };
        let mut lx = Lexer::at(self.data.as_slice(), start);
        parse_object(&mut lx)
    }
}

/// Read the `N` `(number, offset)` integer pairs at the head of the stream.
fn read_header(data: &[u8], n: usize) -> (r: Result<(Vec<u32>, Vec<usize>), TurboParsePdfError>)
    ensures
        match header_spec(data@, n as nat) {
            Some((ns, os, p)) => r matches Ok((a, b)) && a@ == ns && b@ == os,
            None => r matches Err(e) && e.code == ErrorCode::InvalidObject,
        },
{
    let mut lx = Lexer::new(data);
    let mut numbers: Vec<u32> = Vec::new();
    let mut offsets: Vec<usize> = Vec::new();
    let mut i: usize = 0;
    while i < n
        invariant
            i <= n,
            lx.bytes() == data@,
            header_spec(data@, i as nat) == Some((numbers@, offsets@, lx.cursor())),
        decreases n - i,
    {
        let a = match read_uint(&mut lx) {
            Ok(v) => v,
            Err(e) => {
                proof {
                    lemma_header_none(data@, (i + 1) as nat, n as nat);
                }
                return Err(e);
            },
        };
        let b = match read_uint(&mut lx) {
            Ok(v) => v,
            Err(e) => {
                proof {
                    lemma_header_none(data@, (i + 1) as nat, n as nat);
                }
                return Err(e);
            },
        };
        numbers.push(#[verifier::truncate] (a as u32));
        offsets.push(#[verifier::truncate] (b as usize));
        i += 1;
    }
    Ok((numbers, offsets))
}

proof fn lemma_header_none(data: Seq<u8>, k: nat, n: nat)
    requires
        k <= n,
        header_spec(data, k) is None,
    ensures
        header_spec(data, n) is None,
    decreases n,
{
    if n > k {
        lemma_header_none(data, k, (n - 1) as nat);
    }
}

/// Read a required non-negative integer entry from the stream dictionary.
fn uint(dict: &Dictionary, key: &str) -> (r: Result<usize, TurboParsePdfError>)
    ensures
        match uint_entry(dict@, key@) {
            Some(v) => r == Ok::<usize, TurboParsePdfError>(v),
            None => r matches Err(e) && e.code == ErrorCode::InvalidObject,
        },
{
    let n = match dict.get(key) {
        Some(o) => match o.as_integer() {
            Some(n) => n,
            None => return Err(bad("objstm missing key")),
        },
        None => return Err(bad("objstm missing key")),
    };
    if n < 0 || n as u64 > usize::MAX as u64 {
        return Err(bad("objstm negative key"));
    }
    Ok(n as usize)
}

/// Read a whitespace-led unsigned integer token from the header.
fn read_uint(lx: &mut Lexer) -> (r: Result<u64, TurboParsePdfError>)
    ensures
        final(lx).bytes() == old(lx).bytes(),
        match read_uint_spec(old(lx).bytes(), old(lx).cursor()) {
            Some((v, e)) => 0 <= v <= u64::MAX && r == Ok::<u64, TurboParsePdfError>(v as u64)
                && final(lx).cursor() == e,
            None => r matches Err(e) && e.code == ErrorCode::InvalidObject,
        },
{
    lx.skip_whitespace();
    let tok = match lx.read_keyword() {
        Some(t) => t,
        None => return Err(bad("objstm truncated header")),
    };
    match parse_uint(tok, u64::MAX) {
        Some(v) => Ok(v),
        None => Err(bad("objstm bad integer")),
    }
}

} // verus!
