//! Indirect-object envelopes: `n g obj <value> [stream … endstream] endobj`.
//!
//! [`parse_indirect_direct`] parses the envelope at a byte offset and assembles
//! a trailing `stream` body. The body is taken by its `/Length` when that is
//! known, in range and followed by `endstream`; otherwise it is recovered by
//! scanning for `endstream`.
//!
//! A [`Resolver`] turns an [`ObjRef`] into a concrete [`Object`] by seeking to
//! the byte offset the [`Xref`] records, parsing the envelope there (resolving
//! an indirect `/Length` on the way), or by unpacking it from its object
//! stream; with a decryptor installed, loaded objects are decrypted. Objects
//! fetched by reference are cached, so a repeated fetch is not parsed again.

use std::collections::HashMap;

use vstd::cell::invcell::InvCell;
use vstd::prelude::*;
use vstd::predicate::Predicate;

use crate::cos::{agrees, object_at, parse_object};
use crate::encode::extend_bytes;
use crate::error::{ErrorCode, TurboParsePdfError};
use crate::lex::{keyword_at, regular_end, skip_ws, Lexer};
use crate::numeric::{parse_uint, uint_literal};
use crate::crypt::{decrypt_val, Decryptor, Method};
use crate::filter::{decode_stream, decode_stream_spec};
use crate::object::{lookup, Dictionary, ObjRef, Object, Stream, Val};
use crate::objstm::{uint_entry, ObjStm};
use crate::xref::{Xref, XrefEntry};

verus! {

broadcast use {Lexer::lemma_cursor_bounded, vstd::std_specs::hash::group_hash_axioms};

fn bad_object(msg: &str) -> (e: TurboParsePdfError)
    ensures
        e.code == ErrorCode::InvalidObject,
{
    TurboParsePdfError::new(ErrorCode::InvalidObject, msg)
}

/// `obj`.
pub const KW_OBJ: [u8; 3] = [0x6f, 0x62, 0x6a];

/// `stream`.
pub const KW_STREAM: [u8; 6] = [0x73, 0x74, 0x72, 0x65, 0x61, 0x6d];

/// `endstream`.
pub const KW_ENDSTREAM: [u8; 9] = [0x65, 0x6e, 0x64, 0x73, 0x74, 0x72, 0x65, 0x61, 0x6d];

/// `kw` occurs at `i`.
pub open spec fn occurs_at(data: Seq<u8>, i: int, kw: Seq<u8>) -> bool {
    0 <= i && i + kw.len() <= data.len() && data.subrange(i, i + kw.len()) == kw
}

/// Past the end-of-line after `stream`: an optional CR, then an optional LF.
pub open spec fn consume_eol_spec(data: Seq<u8>, p: int) -> int {
    let p1 = if 0 <= p < data.len() && data[p] == 0x0d {
        p + 1
    } else {
        p
    };
    if 0 <= p1 < data.len() && data[p1] == 0x0a {
        p1 + 1
    } else {
        p1
    }
}

/// `endstream` begins within the 24 bytes from `pos` (and fits in them).
pub open spec fn endstream_follows_spec(data: Seq<u8>, pos: int) -> bool {
    let lim = if pos + 24 < data.len() {
        pos + 24
    } else {
        data.len() as int
    };
    0 <= pos <= data.len() && exists|i: int|
        pos <= i && i + 9 <= lim && #[trigger] occurs_at(data, i, KW_ENDSTREAM@)
}

/// The first `endstream` at or after `k`, or the end of the data.
pub open spec fn find_endstream(data: Seq<u8>, k: int) -> int
    decreases data.len() - k,
{
    if k < 0 || k + 9 > data.len() {
        data.len() as int
    } else if occurs_at(data, k, KW_ENDSTREAM@) {
        k
    } else {
        find_endstream(data, k + 1)
    }
}

/// The length of `body` without one trailing end-of-line (CRLF, LF or CR).
pub open spec fn trim_eol_spec(body: Seq<u8>) -> int {
    let n = body.len() as int;
    if n > 0 && body[n - 1] == 0x0a {
        if n >= 2 && body[n - 2] == 0x0d {
            n - 2
        } else {
            n - 1
        }
    } else if n > 0 && body[n - 1] == 0x0d {
        n - 1
    } else {
        n
    }
}

/// A stream body recovered by scanning from `start` to `endstream`, less one
/// trailing end-of-line.
pub open spec fn scan_spec(data: Seq<u8>, start: int) -> Seq<u8> {
    if start < 0 || start > data.len() {
        seq![]
    } else {
        let body = data.subrange(start, find_endstream(data, start));
        body.subrange(0, trim_eol_spec(body))
    }
}

/// Exactly `n` bytes at `start`, when they fit and `endstream` follows.
pub open spec fn take_exact_spec(data: Seq<u8>, start: int, n: int) -> Option<Seq<u8>> {
    if 0 <= start && start + n <= data.len() && endstream_follows_spec(data, start + n) {
        Some(data.subrange(start, start + n))
    } else {
        None
    }
}

/// Consume the end-of-line after the `stream` keyword (CRLF or LF, lenient CR).
pub fn consume_eol(lx: &mut Lexer)
    ensures
        final(lx).bytes() == old(lx).bytes(),
        final(lx).cursor() == consume_eol_spec(old(lx).bytes(), old(lx).cursor()),
{
    if lx.peek() == Some(0x0d) {
        lx.bump();
    }
    if lx.peek() == Some(0x0a) {
        lx.bump();
    }
}

/// True when `endstream` appears within a few bytes of `pos` (allowing EOL).
pub fn endstream_follows(data: &[u8], pos: usize) -> (r: bool)
    ensures
        r == endstream_follows_spec(data@, pos as int),
{
    let n = data.len();
    if pos > n {
        return false;
    }
    let lim = if n - pos > 24 { pos + 24 } else { n };
    let kw = KW_ENDSTREAM;
    let mut i = pos;
    while i < lim && lim - i >= 9
        invariant
            n == data@.len(),
            pos <= i <= lim,
            lim == (if pos + 24 < n { pos + 24 } else { n as int }),
            lim <= n,
            kw@ == KW_ENDSTREAM@,
            forall|j: int| pos <= j < i ==> !#[trigger] occurs_at(data@, j, KW_ENDSTREAM@),
        decreases lim - i,
    {
        if crate::object::bytes_eq(&data[i..i + 9], kw.as_slice()) {
            assert(occurs_at(data@, i as int, KW_ENDSTREAM@));
            return true;
        }
        i += 1;
    }
    false
}

/// Slice exactly `n` bytes at `start`, if they fit and `endstream` follows.
pub fn take_exact(data: &[u8], start: usize, n: usize) -> (r: Option<Vec<u8>>)
    ensures
        match take_exact_spec(data@, start as int, n as int) {
            Some(b) => r matches Some(v) && v@ == b,
            None => r is None,
        },
{
    let len = data.len();
    let end = match start.checked_add(n) {
        Some(e) => e,
        None => return None,
    };
    if end > len {
        return None;
    }
    if endstream_follows(data, end) {
        let mut v: Vec<u8> = Vec::new();
        extend_bytes(&mut v, &data[start..end]);
        Some(v)
    } else {
        None
    }
}

/// Length of `body` with one trailing EOL (CRLF/LF/CR) removed.
pub fn trim_trailing_eol(body: &[u8]) -> (r: usize)
    ensures
        r == trim_eol_spec(body@),
{
    let n = body.len();
    if n > 0 && body[n - 1] == 0x0a {
        drop_lf(body)
    } else if n > 0 && body[n - 1] == 0x0d {
        n - 1
    } else {
        n
    }
}

/// The length without a final LF, and without a CR just before it.
fn drop_lf(body: &[u8]) -> (r: usize)
    requires
        body@.len() > 0,
    ensures
        r == if body@.len() >= 2 && body@[body@.len() - 2] == 0x0d {
            body@.len() - 2
        } else {
            body@.len() - 1
        },
{
    let without_lf = body.len() - 1;
    if without_lf >= 1 && body[without_lf - 1] == 0x0d {
        without_lf - 1
    } else {
        without_lf
    }
}

/// The index of the first `endstream` at or after `start`, or the length.
fn endstream_index(data: &[u8], start: usize) -> (r: usize)
    requires
        start <= data@.len(),
    ensures
        r == find_endstream(data@, start as int),
        start <= r <= data@.len(),
{
    let n = data.len();
    let kw = KW_ENDSTREAM;
    let mut i = start;
    while i < n && n - i >= 9
        invariant
            n == data@.len(),
            start <= i <= n,
            kw@ == KW_ENDSTREAM@,
            find_endstream(data@, start as int) == find_endstream(data@, i as int),
        decreases n - i,
    {
        if crate::object::bytes_eq(&data[i..i + 9], kw.as_slice()) {
            return i;
        }
        i += 1;
    }
    n
}

/// Recover a stream body by scanning forward to `endstream`.
pub fn scan_to_endstream(data: &[u8], start: usize) -> (r: Vec<u8>)
    ensures
        r@ == scan_spec(data@, start as int),
{
    let n = data.len();
    if start > n {
        return Vec::new();
    }
    let idx = endstream_index(data, start);
    let body = &data[start..idx];
    let keep = trim_trailing_eol(body);
    let mut v: Vec<u8> = Vec::new();
    extend_bytes(&mut v, &body[0..keep]);
    v
}

/// A whitespace-led unsigned 32-bit integer at `p` and the position after it.
pub open spec fn read_u32_spec(data: Seq<u8>, p: int) -> Option<(int, int)> {
    let q = skip_ws(data, p);
    let e = regular_end(data, q);
    if e == q {
        None
    } else {
        match uint_literal(data.subrange(q, e), u32::MAX as int) {
            Some(v) => Some((v, e)),
            None => None,
        }
    }
}

/// Read a whitespace-led unsigned integer.
pub fn read_uint(lx: &mut Lexer) -> (r: Result<u32, TurboParsePdfError>)
    ensures
        final(lx).bytes() == old(lx).bytes(),
        match read_u32_spec(old(lx).bytes(), old(lx).cursor()) {
            Some((v, e)) => 0 <= v <= u32::MAX && r == Ok::<u32, TurboParsePdfError>(v as u32)
                && final(lx).cursor() == e,
            None => r matches Err(e) && e.code == ErrorCode::InvalidObject,
        },
{
    lx.skip_whitespace();
    let tok = match lx.read_keyword() {
        Some(t) => t,
        None => return Err(bad_object("expected integer")),
    };
    match parse_uint(tok, 0xffff_ffff) {
        Some(v) => Ok(v as u32),
        None => Err(bad_object("bad integer")),
    }
}

/// The `n g obj` header at `p`: object number, generation (kept to 16 bits)
/// and the position after `obj`.
pub open spec fn header_spec(data: Seq<u8>, p: int) -> Option<(u32, u16, int)> {
    match read_u32_spec(data, p) {
        None => None,
        Some((num, p1)) => match read_u32_spec(data, p1) {
            None => None,
            Some((g, p2)) => {
                let q = skip_ws(data, p2);
                if keyword_at(data, q, KW_OBJ@) {
                    Some((num as u32, g as u16, q + 3))
                } else {
                    None
                }
            },
        },
    }
}

/// Read `n g obj` and return the object number and generation.
pub fn read_header(lx: &mut Lexer) -> (r: Result<(u32, u16), TurboParsePdfError>)
    ensures
        final(lx).bytes() == old(lx).bytes(),
        match header_spec(old(lx).bytes(), old(lx).cursor()) {
            Some((num, g, e)) => r == Ok::<(u32, u16), TurboParsePdfError>((num, g)) && final(lx).cursor() == e,
            None => r matches Err(e) && e.code == ErrorCode::InvalidObject,
        },
{
    let num = read_uint(lx)?;
    let generation = #[verifier::truncate] (read_uint(lx)? as u16);
    lx.skip_whitespace();
    let kw = KW_OBJ;
    if !lx.eat_keyword(kw.as_slice()) {
        return Err(bad_object("missing obj keyword"));
    }
    Ok((num, generation))
}

/// A value followed by `stream`: the body by `length` when exact, else by scan.
/// Other values, and a dictionary without `stream`, are returned as they are.
pub open spec fn assemble_spec(data: Seq<u8>, lexed: Seq<u8>, p: int, value: Val, length: Option<int>) -> (Val, int) {
    match value {
        Val::Dict(d) => {
            let q = skip_ws(lexed, p);
            if !keyword_at(lexed, q, KW_STREAM@) {
                (Val::Dict(d), q)
            } else {
                let start = consume_eol_spec(lexed, q + 6);
                let body = match length {
                    Some(n) => match take_exact_spec(data, start, n) {
                        Some(b) => b,
                        None => scan_spec(data, start),
                    },
                    None => scan_spec(data, start),
                };
                (Val::Stream(d, body), start)
            }
        },
        _ => (value, p),
    }
}

/// Assemble a stream object when a dictionary is followed by `stream`, using
/// `length` (when known and in range) or an `endstream` scan otherwise.
pub fn assemble_stream(data: &[u8], lx: &mut Lexer, value: Object, length: Option<usize>) -> (r: Result<Object, TurboParsePdfError>)
    ensures
        final(lx).bytes() == old(lx).bytes(),
        ({
            let (v, e) = assemble_spec(data@, old(lx).bytes(), old(lx).cursor(), value@, match length {
                Some(n) => Some(n as int),
                None => None,
            });
            r matches Ok(o) && o@ == v && final(lx).cursor() == e
        }),
{
    let dict = match value {
        Object::Dictionary(d) => d,
        other => return Ok(other),
    };
    lx.skip_whitespace();
    let kw = KW_STREAM;
    if !lx.eat_keyword(kw.as_slice()) {
        return Ok(Object::Dictionary(dict));
    }
    consume_eol(lx);
    let start = lx.pos();
    let exact = match length {
        Some(n) => take_exact(data, start, n),
        None => None,
    };
    let body = match exact {
        Some(b) => b,
        None => scan_to_endstream(data, start),
    };
    Ok(Object::Stream(Stream { dict, data: body }))
}

/// A directly-stated non-negative integer `/Length`.
pub open spec fn direct_length_spec(d: Seq<(Seq<char>, Val)>) -> Option<int> {
    match lookup(d, "Length"@) {
        Some(Val::Integer(n)) => if 0 <= n <= usize::MAX {
            Some(n as int)
        } else {
            None
        },
        _ => None,
    }
}

/// A directly-stated non-negative integer `/Length`, if present.
pub fn direct_length(dict: &Dictionary) -> (r: Option<usize>)
    ensures
        match direct_length_spec(dict@) {
            Some(n) => r == Some(n as usize),
            None => r is None,
        },
{
    let n = match dict.get("Length") {
        Some(o) => match o.as_integer() {
            Some(n) => n,
            None => return None,
        },
        None => return None,
    };
    if n < 0 || n as u64 > usize::MAX as u64 {
        None
    } else {
        Some(n as usize)
    }
}

/// The dictionary of a dictionary or stream value.
pub open spec fn dict_of(v: Val) -> Option<Seq<(Seq<char>, Val)>> {
    match v {
        Val::Dict(d) => Some(d),
        Val::Stream(d, _) => Some(d),
        _ => None,
    }
}

/// The indirect object at `offset` with only a direct `/Length`: its number
/// and value (a stream assembled when `stream` follows a dictionary).
pub open spec fn indirect_direct_spec(data: Seq<u8>, offset: int) -> Result<(u32, Val), ErrorCode> {
    let p = if offset <= data.len() {
        offset
    } else {
        data.len() as int
    };
    match header_spec(data, p) {
        None => Err(ErrorCode::InvalidObject),
        Some((num, g, p1)) => {
            let (r, p2) = object_at(data, p1);
            match r {
                Err(c) => Err(c),
                Ok(v) => {
                    let length = match dict_of(v) {
                        Some(d) => direct_length_spec(d),
                        None => None,
                    };
                    Ok((num, assemble_spec(data, data, p2, v, length).0))
                },
            }
        },
    }
}

/// Parse an indirect object at `offset` using only a directly-stated `/Length`
/// (no reference resolution). Used to bootstrap cross-reference and object
/// streams, whose `/Length` is always a direct integer.
pub fn parse_indirect_direct(data: &[u8], offset: usize) -> (r: Result<(u32, Object), TurboParsePdfError>)
    ensures
        match indirect_direct_spec(data@, offset as int) {
            Ok((num, v)) => r matches Ok((n, o)) && n == num && o@ == v,
            Err(c) => r matches Err(e) && e.code == c,
        },
{
    let mut lx = Lexer::at(data, offset);
    let (num, _generation) = read_header(&mut lx)?;
    let value = parse_object(&mut lx)?;
    let length = match value.as_dict() {
        Some(d) => direct_length(d),
        None => None,
    };
    let obj = assemble_stream(data, &mut lx, value, length)?;
    Ok((num, obj))
}

// ---------------------------------------------------------------- resolver

/// How many nested loads one request may make (an indirect `/Length`, an
/// object stream's own object, and so on): a reference chain that loops back
/// on itself fails instead of recursing forever.
pub const MAX_DEPTH: u32 = 64;

/// The decryption in force: file key, cipher and the exempt `/Encrypt` object.
pub open spec fn dec_view(d: Option<(Decryptor, Option<u32>)>) -> Option<(Seq<u8>, Method, Option<u32>)> {
    match d {
        Some((x, e)) => Some((x.key_view(), x.method_view(), e)),
        None => None,
    }
}

/// A freshly loaded object, decrypted when a decryptor is installed and the
/// object is not the exempt `/Encrypt` dictionary.
pub open spec fn finish_spec(dec: Option<(Seq<u8>, Method, Option<u32>)>, num: u32, g: u16, v: Val) -> Val {
    match dec {
        Some((key, method, exempt)) => if exempt != Some(num) {
            decrypt_val(key, method, num, g, v)
        } else {
            v
        },
        None => v,
    }
}

/// The object numbered `num`, loaded through the cross-reference table with
/// `depth` nested loads allowed.
pub open spec fn load_spec(
    data: Seq<u8>,
    xr: Map<u32, XrefEntry>,
    dec: Option<(Seq<u8>, Method, Option<u32>)>,
    num: u32,
    depth: nat,
) -> Result<Val, ErrorCode>
    decreases depth, 0nat,
{
    if depth == 0 {
        Err(ErrorCode::InvalidObject)
    } else if !xr.contains_key(num) {
        Err(ErrorCode::ObjectNotFound)
    } else {
        match xr[num] {
            XrefEntry::InUse { offset, gen: _ } => indirect_spec(data, xr, dec, offset as int, num, (depth - 1) as nat),
            XrefEntry::Compressed { stream, index } => compressed_spec(data, xr, dec, stream, index, (depth - 1) as nat),
            XrefEntry::Free => Err(ErrorCode::ObjectNotFound),
        }
    }
}

/// A value with a reference followed.
pub open spec fn resolve_spec(
    data: Seq<u8>,
    xr: Map<u32, XrefEntry>,
    dec: Option<(Seq<u8>, Method, Option<u32>)>,
    v: Val,
    depth: nat,
) -> Result<Val, ErrorCode>
    decreases depth, 1nat,
{
    match v {
        Val::Reference(r) => load_spec(data, xr, dec, r.num, depth),
        other => Ok(other),
    }
}

/// A stream dictionary's `/Length`, resolved: a non-negative integer that fits
/// a `usize`, else none.
pub open spec fn length_spec(
    data: Seq<u8>,
    xr: Map<u32, XrefEntry>,
    dec: Option<(Seq<u8>, Method, Option<u32>)>,
    d: Seq<(Seq<char>, Val)>,
    depth: nat,
) -> Option<int>
    decreases depth, 2nat,
{
    match lookup(d, "Length"@) {
        None => None,
        Some(v) => match resolve_spec(data, xr, dec, v, depth) {
            Ok(Val::Integer(n)) => if 0 <= n <= usize::MAX {
                Some(n as int)
            } else {
                None
            },
            _ => None,
        },
    }
}

/// The object `n g obj … endobj` at `offset`, which must carry the number
/// `expected`.
pub open spec fn indirect_spec(
    data: Seq<u8>,
    xr: Map<u32, XrefEntry>,
    dec: Option<(Seq<u8>, Method, Option<u32>)>,
    offset: int,
    expected: u32,
    depth: nat,
) -> Result<Val, ErrorCode>
    decreases depth, 3nat,
{
    let p = if offset <= data.len() {
        offset
    } else {
        data.len() as int
    };
    match header_spec(data, p) {
        None => Err(ErrorCode::InvalidObject),
        Some((num, g, p1)) => if num != expected {
            Err(ErrorCode::InvalidObject)
        } else {
            let (r, p2) = object_at(data, p1);
            match r {
                Err(c) => Err(c),
                Ok(v) => {
                    let length = match dict_of(v) {
                        Some(d) => length_spec(data, xr, dec, d, depth),
                        None => None,
                    };
                    Ok(finish_spec(dec, num, g, assemble_spec(data, data, p2, v, length).0))
                },
            }
        },
    }
}

/// Object `index` of a decoded object stream with dictionary `d`.
pub open spec fn objstm_get_spec(d: Seq<(Seq<char>, Val)>, body: Seq<u8>, index: int) -> Result<Val, ErrorCode> {
    match (uint_entry(d, "N"@), uint_entry(d, "First"@)) {
        (Some(n), Some(first)) => match crate::objstm::header_spec(body, n as nat) {
            Some((ns, os, p)) => if index >= os.len() {
                Err(ErrorCode::InvalidObject)
            } else {
                object_at(body, if first + os[index] <= body.len() { first + os[index] } else { body.len() as int }).0
            },
            None => Err(ErrorCode::InvalidObject),
        },
        _ => Err(ErrorCode::InvalidObject),
    }
}

/// A compressed object: entry `index` of the object stream numbered `stream`.
pub open spec fn compressed_spec(
    data: Seq<u8>,
    xr: Map<u32, XrefEntry>,
    dec: Option<(Seq<u8>, Method, Option<u32>)>,
    stream: u32,
    index: u32,
    depth: nat,
) -> Result<Val, ErrorCode>
    decreases depth, 3nat,
{
    match load_spec(data, xr, dec, stream, depth) {
        Err(c) => Err(c),
        Ok(v) => match v {
            Val::Stream(d, raw) => match decode_stream_spec(d, raw) {
                Err(c) => Err(c),
                Ok(body) => objstm_get_spec(d, body, index as int),
            },
            _ => Err(ErrorCode::InvalidObject),
        },
    }
}

/// What the object cache may hold: each cached object is exactly what loading
/// its number gives over these bytes, entries and decryption.
pub struct CacheInv {
    pub data: Seq<u8>,
    pub entries: Map<u32, XrefEntry>,
    pub dec: Option<(Seq<u8>, Method, Option<u32>)>,
}

impl Predicate<HashMap<u32, Object>> for CacheInv {
    open spec fn predicate(&self, m: HashMap<u32, Object>) -> bool {
        forall|k: u32|
            #[trigger] m@.contains_key(k) ==> load_spec(self.data, self.entries, self.dec, k, MAX_DEPTH as nat)
                == Ok::<Val, ErrorCode>(m@[k]@)
    }
}

/// The decryption in force and the objects loaded under it.
struct DecState {
    decryptor: Option<(Decryptor, Option<u32>)>,
    objects: InvCell<HashMap<u32, Object>, CacheInv>,
}

/// A reusable resolver over a buffer and its cross-reference table.
pub struct Resolver<'a> {
    data: &'a [u8],
    xref: Xref,
    state: DecState,
}

impl<'a> Resolver<'a> {
    /// The cache only holds objects as they load under the current decryption.
    #[verifier::type_invariant]
    spec fn cache_matches(&self) -> bool {
        self.state.objects.predicate() == (CacheInv {
            data: self.data@,
            entries: self.xref@.0,
            dec: dec_view(self.state.decryptor),
        })
    }
}

impl<'a> Resolver<'a> {
    /// The buffer being read.
    pub closed spec fn bytes(&self) -> Seq<u8> {
        self.data@
    }

    /// The cross-reference entries.
    pub open spec fn entries(&self) -> Map<u32, XrefEntry> {
        self.xref_view().0
    }

    /// The cross-reference table.
    pub closed spec fn xref_view(&self) -> (Map<u32, XrefEntry>, Seq<(Seq<char>, Val)>) {
        self.xref@
    }

    /// The decryption in force.
    pub closed spec fn dec(&self) -> Option<(Seq<u8>, Method, Option<u32>)> {
        dec_view(self.state.decryptor)
    }

    /// The object numbered `num`.
    pub open spec fn spec_load(&self, num: u32) -> Result<Val, ErrorCode> {
        load_spec(self.bytes(), self.entries(), self.dec(), num, MAX_DEPTH as nat)
    }

    /// A value with a reference followed.
    pub open spec fn spec_resolve(&self, v: Val) -> Result<Val, ErrorCode> {
        resolve_spec(self.bytes(), self.entries(), self.dec(), v, MAX_DEPTH as nat)
    }

    /// Build a resolver over `data` using the given cross-reference table.
    pub fn new(data: &'a [u8], xref: Xref) -> (r: Resolver<'a>)
        ensures
            r.bytes() == data@,
            r.xref_view() == xref@,
            r.dec() is None,
    {
        let objects = InvCell::new(
            HashMap::new(),
            Ghost(CacheInv { data: data@, entries: xref@.0, dec: None }),
        );
        Resolver { data, xref, state: DecState { decryptor: None, objects } }
    }

    /// The underlying cross-reference table.
    pub fn xref(&self) -> (r: &Xref)
        ensures
            r@ == self.xref_view(),
    {
        &self.xref
    }

    /// Install a decryptor (and the exempt `/Encrypt` object number).
    pub fn set_decryptor(&mut self, decryptor: Decryptor, exempt: Option<u32>)
        ensures
            final(self).bytes() == old(self).bytes(),
            final(self).xref_view() == old(self).xref_view(),
            final(self).dec() == Some((decryptor.key_view(), decryptor.method_view(), exempt)),
    {
        let dv = Some((decryptor, exempt));
        let objects = InvCell::new(
            HashMap::new(),
            Ghost(CacheInv { data: self.data@, entries: self.xref@.0, dec: dec_view(dv) }),
        );
        self.state = DecState { decryptor: dv, objects };
    }

    /// Fetch the object for a reference.
    pub fn get(&self, r: ObjRef) -> (o: Result<Object, TurboParsePdfError>)
        ensures
            agrees(o, self.spec_load(r.num)),
    {
        proof {
            use_type_invariant(self);
        }
        let mut cached = self.state.objects.replace(HashMap::new());
        let hit = match cached.get(&r.num) {
            Some(obj) => Some(obj.clone()),
            None => None,
        };
        match hit {
            Some(obj) => {
                self.state.objects.set(cached);
                Ok(obj)
            },
            None => {
                let loaded = self.load(r.num, MAX_DEPTH);
                if let Ok(obj) = &loaded {
                    cached.insert(r.num, obj.clone());
                }
                self.state.objects.set(cached);
                loaded
            },
        }
    }

    /// Resolve a value: follow a reference, or clone a direct object.
    pub fn resolve(&self, obj: &Object) -> (o: Result<Object, TurboParsePdfError>)
        ensures
            agrees(o, self.spec_resolve(obj@)),
    {
        match obj.as_reference() {
            Some(r) => self.get(r),
            None => Ok(obj.clone()),
        }
    }

    /// Resolve a value and require it to be a dictionary (or stream dict).
    pub fn resolve_dict(&self, obj: &Object) -> (o: Result<Dictionary, TurboParsePdfError>)
        ensures
            match self.spec_resolve(obj@) {
                Ok(Val::Dict(d)) => o matches Ok(x) && x@ == d,
                Ok(Val::Stream(d, _)) => o matches Ok(x) && x@ == d,
                Ok(_) => o matches Err(e) && e.code == ErrorCode::InvalidObject,
                Err(c) => o matches Err(e) && e.code == c,
            },
    {
        match self.resolve(obj)? {
            Object::Dictionary(d) => Ok(d),
            Object::Stream(s) => Ok(s.dict),
            _ => Err(bad_object("expected dictionary")),
        }
    }

    fn resolve_at(&self, obj: &Object, depth: u32) -> (o: Result<Object, TurboParsePdfError>)
        ensures
            agrees(o, resolve_spec(self.bytes(), self.entries(), self.dec(), obj@, depth as nat)),
        decreases depth, 1nat,
    {
        match obj.as_reference() {
            Some(r) => self.load(r.num, depth),
            None => Ok(obj.clone()),
        }
    }

    /// Load an object from the file.
    fn load(&self, num: u32, depth: u32) -> (o: Result<Object, TurboParsePdfError>)
        ensures
            agrees(o, load_spec(self.bytes(), self.entries(), self.dec(), num, depth as nat)),
        decreases depth, 0nat,
    {
        if depth == 0 {
            return Err(bad_object("reference chain too deep"));
        }
        match self.xref.get(num) {
            Some(XrefEntry::InUse { offset, .. }) => self.parse_indirect(offset, num, depth - 1),
            Some(XrefEntry::Compressed { stream, index }) => self.load_compressed(stream, index, depth - 1),
            _ => Err(TurboParsePdfError::new(ErrorCode::ObjectNotFound, "no such object")),
        }
    }

    /// The resolved integer `/Length`, if present and non-negative.
    fn declared_length(&self, dict: &Dictionary, depth: u32) -> (r: Option<usize>)
        ensures
            match length_spec(self.bytes(), self.entries(), self.dec(), dict@, depth as nat) {
                Some(n) => r == Some(n as usize),
                None => r is None,
            },
        decreases depth, 2nat,
    {
        let obj = match dict.get("Length") {
            Some(o) => o,
            None => return None,
        };
        let resolved = match self.resolve_at(obj, depth) {
            Ok(v) => v,
            Err(_) => return None,
        };
        match resolved.as_integer() {
            Some(n) => if 0 <= n && (n as u64) <= (usize::MAX as u64) {
                Some(n as usize)
            } else {
                None
            },
            None => None,
        }
    }

    /// Parse `n g obj <value> [stream …] endobj` at `offset`.
    fn parse_indirect(&self, offset: usize, expected: u32, depth: u32) -> (o: Result<Object, TurboParsePdfError>)
        ensures
            agrees(o, indirect_spec(self.bytes(), self.entries(), self.dec(), offset as int, expected, depth as nat)),
        decreases depth, 3nat,
    {
        let mut lx = Lexer::at(self.data, offset);
        let (num, generation) = read_header(&mut lx)?;
        if num != expected {
            return Err(bad_object("object number mismatch"));
        }
        let value = parse_object(&mut lx)?;
        let length = match value.as_dict() {
            Some(d) => self.declared_length(d, depth),
            None => None,
        };
        let obj = assemble_stream(self.data, &mut lx, value, length)?;
        Ok(self.finish_object(num, generation, obj))
    }

    /// Decrypt a freshly loaded object when the document is encrypted (the
    /// `/Encrypt` object itself is exempt).
    fn finish_object(&self, num: u32, generation: u16, obj: Object) -> (r: Object)
        ensures
            r@ == finish_spec(self.dec(), num, generation, obj@),
    {
        match &self.state.decryptor {
            Some((dec, exempt)) => {
                let is_exempt = match exempt {
                    Some(e) => *e == num,
                    None => false,
                };
                if !is_exempt {
                    dec.decrypt_object(num, generation, obj)
                } else {
                    obj
                }
            },
            None => obj,
        }
    }

    /// Load a type-2 (compressed) object from its object stream.
    fn load_compressed(&self, stream: u32, index: u32, depth: u32) -> (o: Result<Object, TurboParsePdfError>)
        ensures
            agrees(o, compressed_spec(self.bytes(), self.entries(), self.dec(), stream, index, depth as nat)),
        decreases depth, 3nat,
    {
        let obj = self.load(stream, depth)?;
        let s = match obj.as_stream() {
            Some(s) => s,
            None => return Err(bad_object("ObjStm is not a stream")),
        };
        let decoded = decode_stream(&s.dict, s.data.as_slice())?;
        let objstm = ObjStm::parse(&s.dict, decoded)?;
        objstm.get(index as usize)
    }
}

} // verus!
