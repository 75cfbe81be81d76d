//! CMap parsing (ISO 32000-1 §9.10.3): the `/ToUnicode` code→text map.
//!
//! A `/ToUnicode` stream is a PostScript-flavoured CMap whose `bfchar` and
//! `bfrange` sections map character *codes* (1- or 2-byte, per the
//! `codespacerange`) to Unicode (UTF-16BE) strings. [`CMap::parse`] reads those
//! sections with the COS lexer; [`CMap::lookup`] resolves a code to its text, and
//! [`CMap::code_bytes`] reports how many bytes form one code.

use std::collections::HashMap;

use vstd::prelude::*;
use vstd::string::StrSliceExecFns;

use crate::agl::{char_from_u32, char_of};
use crate::cos::{object_at, parse_object};
use crate::lex::{lemma_skip_ws_bounds, lemma_regular_end_bounds, regular_end, skip_ws, Lexer};
use crate::object::{bytes_eq, lemma_array_val, vals, Object, Val};

verus! {

broadcast use {vstd::std_specs::hash::group_hash_axioms, Lexer::lemma_cursor_bounded};

// ---------------------------------------------------------------- text

/// UTF-16 decoding with unpaired surrogates replaced by U+FFFD.
pub open spec fn utf16_decode(u: Seq<u16>) -> Seq<char>
    decreases u.len(),
{
    if u.len() == 0 {
        seq![]
    } else if 0xD800 <= u[0] < 0xDC00 && u.len() >= 2 && 0xDC00 <= u[1] < 0xE000 {
        seq![(0x10000 + (u[0] - 0xD800) * 0x400 + (u[1] - 0xDC00)) as char] + utf16_decode(
            u.subrange(2, u.len() as int),
        )
    } else if 0xD800 <= u[0] < 0xE000 {
        seq!['\u{FFFD}'] + utf16_decode(u.subrange(1, u.len() as int))
    } else {
        seq![u[0] as char] + utf16_decode(u.subrange(1, u.len() as int))
    }
}

/// `String::from_utf16_lossy(units)` (std). Claimed, as documented: the
/// UTF-16 decoding of `units`, each unpaired surrogate replaced by U+FFFD.
#[verifier::external_body]
fn utf16_lossy(units: &[u16]) -> (r: String)
    ensures
        r@ == utf16_decode(units@),
{
    String::from_utf16_lossy(units)
}

/// `c.to_string()` (std). Claimed: the one-character string.
#[verifier::external_body]
pub(crate) fn char_string(c: char) -> (r: String)
    ensures
        r@ == seq![c],
{
    c.to_string()
}

/// Big-endian 16-bit units of `bytes`; an odd trailing byte is a unit by itself.
pub open spec fn utf16_units(bytes: Seq<u8>) -> Seq<u16> {
    Seq::new(
        ((bytes.len() + 1) / 2) as nat,
        |i: int|
            if 2 * i + 1 < bytes.len() {
                (bytes[2 * i] * 256 + bytes[2 * i + 1]) as u16
            } else {
                bytes[2 * i] as u16
            },
    )
}

/// The text of UTF-16BE bytes.
pub open spec fn utf16_be_spec(bytes: Seq<u8>) -> Seq<char> {
    utf16_decode(utf16_units(bytes))
}

/// The value of up to four big-endian bytes.
pub open spec fn be_value(s: Seq<u8>) -> int
    decreases s.len(),
{
    if s.len() == 0 {
        0
    } else {
        be_value(s.drop_last()) * 256 + s.last()
    }
}

/// A code: the first (at most four) bytes, big-endian.
pub open spec fn be_spec(bytes: Seq<u8>) -> u32 {
    be_value(bytes.subrange(0, if bytes.len() < 4 { bytes.len() as int } else { 4 })) as u32
}

/// The first scalar of a UTF-16BE destination (0 when empty).
pub open spec fn first_scalar_spec(bytes: Seq<u8>) -> u32 {
    if utf16_be_spec(bytes).len() > 0 {
        utf16_be_spec(bytes)[0] as u32
    } else {
        0
    }
}

proof fn lemma_be_value_bound(s: Seq<u8>)
    ensures
        0 <= be_value(s) < crate::agl::pow16(2 * s.len() as int),
    decreases s.len(),
{
    if s.len() > 0 {
        lemma_be_value_bound(s.drop_last());
        let n: int = 2 * s.len() as int;
        assert(crate::agl::pow16(n) == 256 * crate::agl::pow16(n - 2)) by {
            assert(crate::agl::pow16(n) == 16 * crate::agl::pow16(n - 1));
            assert(crate::agl::pow16(n - 1) == 16 * crate::agl::pow16(n - 2));
        }
    }
}

/// Interpret up to four big-endian bytes as a code.
pub fn be(bytes: &[u8]) -> (r: u32)
    ensures
        r == be_spec(bytes@),
{
    let n = if bytes.len() < 4 { bytes.len() } else { 4 };
    let mut acc: u32 = 0;
    let mut i: usize = 0;
    while i < n
        invariant
            n <= 4,
            n <= bytes@.len(),
            i <= n,
            acc == be_value(bytes@.subrange(0, i as int)),
        decreases n - i,
    {
        proof {
            lemma_be_value_bound(bytes@.subrange(0, i as int));
            reveal_with_fuel(crate::agl::pow16, 7);
            assert(bytes@.subrange(0, i + 1).drop_last() =~= bytes@.subrange(0, i as int));
        }
        let b = bytes[i];
        assert((acc << 8u32) | (b as u32) == acc * 256 + b) by (bit_vector)
            requires
                acc < 0x100_0000,
        ;
        acc = (acc << 8) | (b as u32);
        i += 1;
    }
    acc
}

/// One big-endian unit from a chunk of one or two bytes.
pub fn chunk_to_u16(chunk: &[u8]) -> (r: u16)
    requires
        1 <= chunk@.len() <= 2,
    ensures
        r == if chunk@.len() == 2 { (chunk@[0] * 256 + chunk@[1]) as u16 } else { chunk@[0] as u16 },
{
    if chunk.len() == 1 {
        chunk[0] as u16
    } else {
        (chunk[0] as u16) * 256 + (chunk[1] as u16)
    }
}

/// Decode UTF-16BE bytes into a string (odd trailing byte treated as a unit).
pub fn utf16_be(bytes: &[u8]) -> (r: String)
    ensures
        r@ == utf16_be_spec(bytes@),
{
    let n = bytes.len();
    let m = n / 2 + n % 2;
    let mut units: Vec<u16> = Vec::new();
    let mut j: usize = 0;
    while j < m
        invariant
            n == bytes@.len(),
            m == (n + 1) / 2,
            j <= m,
            units@.len() == j,
            forall|k: int| 0 <= k < units@.len() ==> #[trigger] units@[k] == utf16_units(bytes@)[k],
        decreases m - j,
    {
        let start = 2 * j;
        let end = if n - start >= 2 { start + 2 } else { n };
        let u = chunk_to_u16(&bytes[start..end]);
        units.push(u);
        j += 1;
    }
    assert(units@ =~= utf16_units(bytes@));
    utf16_lossy(units.as_slice())
}

/// The first Unicode scalar of a UTF-16BE destination (range start).
pub fn first_scalar(bytes: &[u8]) -> (r: u32)
    ensures
        r == first_scalar_spec(bytes@),
{
    let s = utf16_be(bytes);
    if s.as_str().unicode_len() > 0 {
        s.as_str().get_char(0) as u32
    } else {
        0
    }
}

// ---------------------------------------------------------------- the map

/// The abstract content of a CMap.
pub struct CMapState {
    pub singles: Map<u32, Seq<char>>,
    pub ranges: Seq<(u32, u32, u32)>,
    pub code_bytes: nat,
}

/// The empty CMap.
pub open spec fn empty_state() -> CMapState {
    CMapState { singles: Map::empty(), ranges: seq![], code_bytes: 0 }
}

/// A parsed `/ToUnicode` (or CID) CMap.
#[derive(Debug)]
pub struct CMap {
    singles: HashMap<u32, String>,
    ranges: Vec<(u32, u32, u32)>,
    code_bytes: usize,
}

/// A contiguous range's text for `code`: the scalar `dst + (code - lo)`.
pub open spec fn range_lookup_spec(r: (u32, u32, u32), code: u32) -> Option<Seq<char>> {
    let (lo, hi, dst) = r;
    if code < lo || code > hi {
        None
    } else {
        let v = dst + (code - lo);
        if v > u32::MAX {
            None
        } else {
            match char_of(v as u32) {
                Some(c) => Some(seq![c]),
                None => None,
            }
        }
    }
}

/// The first range from `k` on that maps `code`.
pub open spec fn ranges_lookup(rs: Seq<(u32, u32, u32)>, code: u32, k: int) -> Option<Seq<char>>
    decreases rs.len() - k,
{
    if k < 0 || k >= rs.len() {
        None
    } else {
        match range_lookup_spec(rs[k], code) {
            Some(t) => Some(t),
            None => ranges_lookup(rs, code, k + 1),
        }
    }
}

/// A code's text: a single mapping first, else the first range holding it.
pub open spec fn lookup_spec(st: CMapState, code: u32) -> Option<Seq<char>> {
    if st.singles.contains_key(code) {
        Some(st.singles[code])
    } else {
        ranges_lookup(st.ranges, code, 0)
    }
}

impl CMap {
    /// The content of the map.
    pub closed spec fn state(&self) -> CMapState {
        CMapState {
            singles: Map::new(|k: u32| self.singles@.contains_key(k), |k: u32| self.singles@[k]@),
            ranges: self.ranges@,
            code_bytes: self.code_bytes as nat,
        }
    }

    /// How many bytes form one character code (1 if no codespace was declared).
    pub fn code_bytes(&self) -> (r: usize)
        ensures
            r == if self.state().code_bytes < 1 { 1 } else { self.state().code_bytes },
    {
        if self.code_bytes < 1 {
            1
        } else {
            self.code_bytes
        }
    }

    /// Resolve a character code to its Unicode text.
    pub fn lookup(&self, code: u32) -> (r: Option<String>)
        ensures
            match lookup_spec(self.state(), code) {
                Some(t) => r matches Some(s) && s@ == t,
                None => r is None,
            },
    {
        if let Some(s) = self.singles.get(&code) {
            return Some(s.clone());
        }
        let n = self.ranges.len();
        let mut k: usize = 0;
        while k < n
            invariant
                n == self.ranges@.len(),
                k <= n,
                !self.state().singles.contains_key(code),
                lookup_spec(self.state(), code) == ranges_lookup(self.ranges@, code, k as int),
            decreases n - k,
        {
            if let Some(t) = range_lookup(&self.ranges[k], code) {
                return Some(t);
            }
            k += 1;
        }
        None
    }
}

impl Default for CMap {
    fn default() -> (r: CMap)
        ensures
            r.state() == empty_state(),
    {
        let r = CMap { singles: HashMap::new(), ranges: Vec::new(), code_bytes: 0 };
        assert(r.state().singles =~= Map::<u32, Seq<char>>::empty());
        assert(r.state().ranges =~= Seq::<(u32, u32, u32)>::empty());
        r
    }
}

/// Resolve a code within one contiguous `bfrange`.
fn range_lookup(range: &(u32, u32, u32), code: u32) -> (r: Option<String>)
    ensures
        match range_lookup_spec(*range, code) {
            Some(t) => r matches Some(s) && s@ == t,
            None => r is None,
        },
{
    let (lo, hi, dst) = *range;
    if code < lo || code > hi {
        return None;
    }
    match dst.checked_add(code - lo) {
        Some(v) => match char_from_u32(v) {
            Some(c) => Some(char_string(c)),
            None => None,
        },
        None => None,
    }
}

// ---------------------------------------------------------------- parsing

/// `begincodespacerange`.
pub const KW_CODESPACE: [u8; 19] = [
    0x62, 0x65, 0x67, 0x69, 0x6e, 0x63, 0x6f, 0x64, 0x65, 0x73, 0x70, 0x61, 0x63, 0x65, 0x72, 0x61,
    0x6e, 0x67, 0x65,
];

/// `beginbfchar`.
pub const KW_BFCHAR: [u8; 11] = [0x62, 0x65, 0x67, 0x69, 0x6e, 0x62, 0x66, 0x63, 0x68, 0x61, 0x72];

/// `beginbfrange`.
pub const KW_BFRANGE: [u8; 12] = [0x62, 0x65, 0x67, 0x69, 0x6e, 0x62, 0x66, 0x72, 0x61, 0x6e, 0x67, 0x65];

/// Bytes that begin a CMap operand (count, hex string, array, name, string).
pub open spec fn value_start_spec(b: u8) -> bool {
    b == 0x3c || b == 0x5b || b == 0x2f || b == 0x28 || (0x30 <= b <= 0x39) || b == 0x2b || b == 0x2d
        || b == 0x2e
}

/// True for bytes that begin a CMap operand (count, hex string, array, name).
pub fn is_value_start(b: u8) -> (r: bool)
    ensures
        r == value_start_spec(b),
{
    b == 0x3c || b == 0x5b || b == 0x2f || b == 0x28 || (0x30 <= b && b <= 0x39) || b == 0x2b || b
        == 0x2d || b == 0x2e
}

/// A hex-string operand at `p`: its bytes (when the value is a string) and the
/// position after it.
pub open spec fn read_hex_spec(data: Seq<u8>, p: int) -> (Option<Seq<u8>>, int) {
    let (r, e) = object_at(data, skip_ws(data, p));
    (
        match r {
            Ok(Val::Str(b)) => Some(b),
            _ => None,
        },
        e,
    )
}

/// Past a section's `end…` keyword.
pub open spec fn consume_end_spec(data: Seq<u8>, p: int) -> int {
    regular_end(data, skip_ws(data, p))
}

/// The next operand begins a hex string.
pub open spec fn at_hex_spec(data: Seq<u8>, q: int) -> bool {
    0 <= q < data.len() && data[q] == 0x3c
}

/// The map with `text` stored under `code`.
pub open spec fn with_single(st: CMapState, code: u32, text: Seq<char>) -> CMapState {
    CMapState { singles: st.singles.insert(code, text), ranges: st.ranges, code_bytes: st.code_bytes }
}

/// The `codespacerange` entries from `p`: the first low code sets the code width.
pub open spec fn codespace_from(data: Seq<u8>, p: int, st: CMapState) -> (int, CMapState)
    decreases data.len() - p,
{
    if p < 0 || p > data.len() {
        (p, st)
    } else {
        proof {
            lemma_skip_ws_bounds(data, p);
        }
        let q = skip_ws(data, p);
        if !at_hex_spec(data, q) {
            (consume_end_spec(data, q), st)
        } else {
            let (lo, p1) = read_hex_spec(data, q);
            let (hi, p2) = read_hex_spec(data, p1);
            let st2 = match lo {
                Some(b) => if st.code_bytes == 0 {
                    CMapState { singles: st.singles, ranges: st.ranges, code_bytes: b.len() }
                } else {
                    st
                },
                None => st,
            };
            if p2 <= q || p2 > data.len() {
                (consume_end_spec(data, p2), st2)
            } else {
                codespace_from(data, p2, st2)
            }
        }
    }
}

/// The `bfchar` entries from `p`: `<src> <dst>` single mappings.
pub open spec fn bfchar_from(data: Seq<u8>, p: int, st: CMapState) -> (int, CMapState)
    decreases data.len() - p,
{
    if p < 0 || p > data.len() {
        (p, st)
    } else {
        proof {
            lemma_skip_ws_bounds(data, p);
        }
        let q = skip_ws(data, p);
        if !at_hex_spec(data, q) {
            (consume_end_spec(data, q), st)
        } else {
            let (src, p1) = read_hex_spec(data, q);
            let (dst, p2) = read_hex_spec(data, p1);
            let st2 = match (src, dst) {
                (Some(a), Some(b)) => with_single(st, be_spec(a), utf16_be_spec(b)),
                _ => st,
            };
            if p2 <= q || p2 > data.len() {
                (consume_end_spec(data, p2), st2)
            } else {
                bfchar_from(data, p2, st2)
            }
        }
    }
}

/// The singles after the first `k` elements of an array destination, element
/// `i` (a string) mapping code `start + i`.
pub open spec fn insert_items(st: CMapState, start: u32, items: Seq<Val>, k: nat) -> CMapState
    decreases k,
{
    if k == 0 || k > items.len() {
        st
    } else {
        let st2 = insert_items(st, start, items, (k - 1) as nat);
        match items[k - 1] {
            Val::Str(b) => with_single(st2, vstd::wrapping::u32_specs::wrapping_add(start, (k - 1) as u32), utf16_be_spec(b)),
            _ => st2,
        }
    }
}

/// Array destinations map consecutive codes: with the first `k` elements
/// stored, element `i` (a string) is the text of code `start + i`; codes not
/// given a string keep their old mapping, and ranges are untouched.
proof fn lemma_insert_items_k(st: CMapState, start: u32, items: Seq<Val>, k: nat)
    requires
        k <= items.len(),
        start + items.len() <= u32::MAX + 1,
    ensures
        ({
            let st2 = insert_items(st, start, items, k);
            &&& st2.ranges == st.ranges
            &&& forall|i: int| #![trigger items[i]] 0 <= i < k ==> (items[i] matches Val::Str(b) ==> st2.singles.contains_key((start + i) as u32)
                && st2.singles[(start + i) as u32] == utf16_be_spec(b))
            &&& forall|c: u32| #![trigger st2.singles.contains_key(c)] !(exists|i: int| 0 <= i < k && c == start + i && items[i] is Str)
                ==> (st2.singles.contains_key(c) == st.singles.contains_key(c) && (st.singles.contains_key(c) ==> st2.singles[c] == st.singles[c]))
        }),
    decreases k,
{
    if k > 0 {
        lemma_insert_items_k(st, start, items, (k - 1) as nat);
        let code = vstd::wrapping::u32_specs::wrapping_add(start, (k - 1) as u32);
        assert(code == start + (k - 1)) by {
            assert(start + (k - 1) <= u32::MAX);
        }
    }
}

/// In an array-form `bfrange` with first code `start`, element `i` (a
/// string) gives the text of code `start + i`: looking that code up finds it.
/// Codes given no string by the array keep whatever they mapped to before.
pub proof fn lemma_array_destinations(st: CMapState, start: u32, items: Seq<Val>)
    requires
        start + items.len() <= u32::MAX + 1,
    ensures
        forall|i: int| #![trigger items[i]] 0 <= i < items.len() ==> (items[i] matches Val::Str(b) ==> lookup_spec(
            insert_items(st, start, items, items.len()),
            (start + i) as u32,
        ) == Some(utf16_be_spec(b))),
        forall|c: u32|
            !(exists|i: int| 0 <= i < items.len() && c == start + i && items[i] is Str) ==> #[trigger] lookup_spec(
                insert_items(st, start, items, items.len()),
                c,
            ) == lookup_spec(st, c),
{
    lemma_insert_items_k(st, start, items, items.len());
    let st2 = insert_items(st, start, items, items.len());
    assert forall|c: u32|
        !(exists|i: int| 0 <= i < items.len() && c == start + i && items[i] is Str) implies #[trigger] lookup_spec(st2, c) == lookup_spec(st, c) by {
        assert(st2.singles.contains_key(c) == st.singles.contains_key(c));
    }
}

/// One `bfrange` entry at `q`: `<lo> <hi> <dst>` (contiguous) or
/// `<lo> <hi> [ … ]` (one destination per code).
pub open spec fn bfrange_entry_spec(data: Seq<u8>, q: int, st: CMapState) -> (int, CMapState) {
    let (lo, p1) = read_hex_spec(data, q);
    let (hi, p2) = read_hex_spec(data, p1);
    let q3 = skip_ws(data, p2);
    if 0 <= q3 < data.len() && data[q3] == 0x5b {
        match lo {
            None => (q3, st),
            Some(lb) => {
                let (r, e) = object_at(data, q3);
                match r {
                    Ok(Val::Array(items)) => (e, insert_items(st, be_spec(lb), items, items.len())),
                    _ => (e, st),
                }
            },
        }
    } else {
        let (dst, p4) = read_hex_spec(data, q3);
        match (lo, hi, dst) {
            (Some(a), Some(b), Some(c)) => (
                p4,
                CMapState {
                    singles: st.singles,
                    ranges: st.ranges.push((be_spec(a), be_spec(b), first_scalar_spec(c))),
                    code_bytes: st.code_bytes,
                },
            ),
            _ => (p4, st),
        }
    }
}

/// A `bfrange` entry `<lo> <hi> [s0 s1 …]` maps code `lo + i` to the text
/// of `s_i` (UTF-16BE), for every string element.
pub proof fn lemma_bfrange_array_entry(data: Seq<u8>, q: int, st: CMapState, lo: Seq<u8>, items: Seq<Val>)
    requires
        read_hex_spec(data, q).0 == Some(lo),
        ({
            let q3 = skip_ws(data, read_hex_spec(data, read_hex_spec(data, q).1).1);
            &&& 0 <= q3 < data.len()
            &&& data[q3] == 0x5b
            &&& object_at(data, q3).0 matches Ok(Val::Array(a)) && a == items
        }),
        be_spec(lo) + items.len() <= u32::MAX + 1,
    ensures
        forall|i: int| #![trigger items[i]] 0 <= i < items.len() ==> (items[i] matches Val::Str(b) ==> lookup_spec(
            bfrange_entry_spec(data, q, st).1,
            (be_spec(lo) + i) as u32,
        ) == Some(utf16_be_spec(b))),
{
    lemma_array_destinations(st, be_spec(lo), items);
}

/// A `bfchar` entry `<src> <dst>` maps code `src` (big-endian) to the
/// UTF-16BE text of `dst`: the section goes on from the state where exactly
/// that single mapping was added.
pub proof fn lemma_bfchar_entry(data: Seq<u8>, p: int, st: CMapState, a: Seq<u8>, b: Seq<u8>)
    requires
        0 <= p <= data.len(),
        at_hex_spec(data, skip_ws(data, p)),
        read_hex_spec(data, skip_ws(data, p)).0 == Some(a),
        read_hex_spec(data, read_hex_spec(data, skip_ws(data, p)).1).0 == Some(b),
        skip_ws(data, p) < read_hex_spec(data, read_hex_spec(data, skip_ws(data, p)).1).1 <= data.len(),
    ensures
        ({
            let p2 = read_hex_spec(data, read_hex_spec(data, skip_ws(data, p)).1).1;
            let st2 = CMapState {
                singles: st.singles.insert(be_spec(a), utf16_be_spec(b)),
                ranges: st.ranges,
                code_bytes: st.code_bytes,
            };
            &&& bfchar_from(data, p, st) == bfchar_from(data, p2, st2)
            &&& lookup_spec(st2, be_spec(a)) == Some(utf16_be_spec(b))
            &&& forall|c: u32| c != be_spec(a) ==> #[trigger] lookup_spec(st2, c) == lookup_spec(st, c)
        }),
{
}

/// A contiguous `bfrange` `<lo> <hi> <dst>` maps each code `c` in `lo..=hi`
/// (that no single mapping or earlier range claims) to the one character
/// `dst + (c − lo)`.
pub proof fn lemma_contiguous_range(st: CMapState, lo: u32, hi: u32, dst: u32, c: u32)
    requires
        lo <= c <= hi,
        !st.singles.contains_key(c),
        ranges_lookup(st.ranges, c, 0) is None,
        dst + (c - lo) <= u32::MAX,
        char_of((dst + (c - lo)) as u32) is Some,
    ensures
        ({
            let st2 = CMapState { singles: st.singles, ranges: st.ranges.push((lo, hi, dst)), code_bytes: st.code_bytes };
            lookup_spec(st2, c) matches Some(t) && t.len() == 1 && t[0] as u32 == dst + (c - lo)
        }),
{
    lemma_ranges_lookup_push(st.ranges, (lo, hi, dst), c, 0);
}

/// Looking a code up in ranges with one range appended: the old ranges first,
/// then the new one.
proof fn lemma_ranges_lookup_push(rs: Seq<(u32, u32, u32)>, r: (u32, u32, u32), c: u32, k: int)
    requires
        0 <= k <= rs.len(),
    ensures
        ranges_lookup(rs.push(r), c, k) == match ranges_lookup(rs, c, k) {
            Some(t) => Some(t),
            None => range_lookup_spec(r, c),
        },
    decreases rs.len() - k,
{
    let rs2 = rs.push(r);
    if k < rs.len() {
        assert(rs2[k] == rs[k]);
        lemma_ranges_lookup_push(rs, r, c, k + 1);
    } else {
        assert(rs2[k] == r);
        assert(ranges_lookup(rs2, c, k + 1) is None);
    }
}

/// The `bfrange` entries from `p`.
pub open spec fn bfrange_from(data: Seq<u8>, p: int, st: CMapState) -> (int, CMapState)
    decreases data.len() - p,
{
    if p < 0 || p > data.len() {
        (p, st)
    } else {
        proof {
            lemma_skip_ws_bounds(data, p);
        }
        let q = skip_ws(data, p);
        if !at_hex_spec(data, q) {
            (consume_end_spec(data, q), st)
        } else {
            let (p2, st2) = bfrange_entry_spec(data, q, st);
            if p2 <= q || p2 > data.len() {
                (consume_end_spec(data, p2), st2)
            } else {
                bfrange_from(data, p2, st2)
            }
        }
    }
}

/// A keyword at `q`: a `begin…` marker enters its section reader; another
/// keyword is skipped; a byte that starts no keyword is skipped alone.
pub open spec fn dispatch_spec(data: Seq<u8>, q: int, st: CMapState) -> (int, CMapState) {
    let e = regular_end(data, q);
    if e == q {
        (q + 1, st)
    } else {
        let kw = data.subrange(q, e);
        if kw == KW_CODESPACE@ {
            codespace_from(data, e, st)
        } else if kw == KW_BFCHAR@ {
            bfchar_from(data, e, st)
        } else if kw == KW_BFRANGE@ {
            bfrange_from(data, e, st)
        } else {
            (e, st)
        }
    }
}

/// The map read from `p` to the end: operands are skipped, keywords
/// dispatched; a step that does not move the cursor skips one byte.
pub open spec fn cmap_from(data: Seq<u8>, p: int, st: CMapState) -> CMapState
    decreases data.len() - p,
{
    if p < 0 || p > data.len() {
        st
    } else {
        proof {
            lemma_skip_ws_bounds(data, p);
        }
        let q = skip_ws(data, p);
        if q >= data.len() {
            st
        } else {
            let (p2, st2) = if value_start_spec(data[q]) {
                (object_at(data, q).1, st)
            } else {
                dispatch_spec(data, q, st)
            };
            let p3 = if p2 <= q || p2 > data.len() {
                q + 1
            } else {
                p2
            };
            cmap_from(data, p3, st2)
        }
    }
}

/// The CMap read from a stream's decoded bytes.
pub open spec fn parse_spec(data: Seq<u8>) -> CMapState {
    cmap_from(data, 0, empty_state())
}

/// Skip one operand (a count, a stray name, etc.).
fn skip_value(lx: &mut Lexer)
    ensures
        final(lx).bytes() == old(lx).bytes(),
        final(lx).cursor() == object_at(old(lx).bytes(), old(lx).cursor()).1,
{
    let _ = parse_object(lx);
}

/// Read one hex string's bytes.
fn read_hex(lx: &mut Lexer) -> (r: Option<Vec<u8>>)
    ensures
        final(lx).bytes() == old(lx).bytes(),
        final(lx).cursor() == read_hex_spec(old(lx).bytes(), old(lx).cursor()).1,
        match read_hex_spec(old(lx).bytes(), old(lx).cursor()).0 {
            Some(b) => r matches Some(v) && v@ == b,
            None => r is None,
        },
{
    lx.skip_whitespace();
    match parse_object(lx) {
        Ok(Object::String(bytes)) => Some(bytes),
        _ => None,
    }
}

/// True when the next non-whitespace byte begins a hex string entry.
fn at_hex(lx: &mut Lexer) -> (r: bool)
    ensures
        final(lx).bytes() == old(lx).bytes(),
        final(lx).cursor() == skip_ws(old(lx).bytes(), old(lx).cursor()),
        r == at_hex_spec(old(lx).bytes(), final(lx).cursor()),
{
    lx.skip_whitespace();
    lx.peek() == Some(0x3c)
}

/// Consume the section's `end…` keyword.
fn consume_end(lx: &mut Lexer)
    ensures
        final(lx).bytes() == old(lx).bytes(),
        final(lx).cursor() == consume_end_spec(old(lx).bytes(), old(lx).cursor()),
{
    lx.skip_whitespace();
    let _ = lx.read_keyword();
}

/// Read `<lo> <hi>` pairs, taking the code width from the first low code.
fn read_codespace(lx: &mut Lexer, cmap: &mut CMap)
    ensures
        final(lx).bytes() == old(lx).bytes(),
        (final(lx).cursor(), final(cmap).state()) == codespace_from(old(lx).bytes(), old(lx).cursor(), old(cmap).state()),
{
    let ghost data = lx.bytes();
    loop
        invariant
            lx.bytes() == data,
            data == old(lx).bytes(),
            codespace_from(data, old(lx).cursor(), old(cmap).state()) == codespace_from(data, lx.cursor(), cmap.state()),
        decreases data.len() - lx.cursor(),
    {
        proof {
            lemma_skip_ws_bounds(data, lx.cursor());
        }
        if !at_hex(lx) {
            consume_end(lx);
            return;
        }
        let q = lx.pos();
        let lo = read_hex(lx);
        let _hi = read_hex(lx);
        if let Some(bytes) = lo {
            if cmap.code_bytes == 0 {
                cmap.code_bytes = bytes.len();
            }
        }
        if lx.pos() <= q {
            consume_end(lx);
            return;
        }
    }
}

/// Store `text` under `code`.
fn insert_single(cmap: &mut CMap, code: u32, text: String)
    ensures
        final(cmap).state() == with_single(old(cmap).state(), code, text@),
{
    cmap.singles.insert(code, text);
    assert(cmap.state().singles =~= old(cmap).state().singles.insert(code, text@));
}

/// Read `<src> <dst>` pairs into single-code mappings.
fn read_bfchar(lx: &mut Lexer, cmap: &mut CMap)
    ensures
        final(lx).bytes() == old(lx).bytes(),
        (final(lx).cursor(), final(cmap).state()) == bfchar_from(old(lx).bytes(), old(lx).cursor(), old(cmap).state()),
{
    let ghost data = lx.bytes();
    loop
        invariant
            lx.bytes() == data,
            data == old(lx).bytes(),
            bfchar_from(data, old(lx).cursor(), old(cmap).state()) == bfchar_from(data, lx.cursor(), cmap.state()),
        decreases data.len() - lx.cursor(),
    {
        proof {
            lemma_skip_ws_bounds(data, lx.cursor());
        }
        if !at_hex(lx) {
            consume_end(lx);
            return;
        }
        let q = lx.pos();
        let src = read_hex(lx);
        let dst = read_hex(lx);
        if let (Some(s), Some(d)) = (src, dst) {
            insert_single(cmap, be(s.as_slice()), utf16_be(d.as_slice()));
        }
        if lx.pos() <= q {
            consume_end(lx);
            return;
        }
    }
}

/// Read `<lo> <hi> <dst>` / `<lo> <hi> [ … ]` range mappings.
fn read_bfrange(lx: &mut Lexer, cmap: &mut CMap)
    ensures
        final(lx).bytes() == old(lx).bytes(),
        (final(lx).cursor(), final(cmap).state()) == bfrange_from(old(lx).bytes(), old(lx).cursor(), old(cmap).state()),
{
    let ghost data = lx.bytes();
    loop
        invariant
            lx.bytes() == data,
            data == old(lx).bytes(),
            bfrange_from(data, old(lx).cursor(), old(cmap).state()) == bfrange_from(data, lx.cursor(), cmap.state()),
        decreases data.len() - lx.cursor(),
    {
        proof {
            lemma_skip_ws_bounds(data, lx.cursor());
        }
        if !at_hex(lx) {
            consume_end(lx);
            return;
        }
        let q = lx.pos();
        read_bfrange_entry(lx, cmap);
        if lx.pos() <= q {
            consume_end(lx);
            return;
        }
    }
}

/// One `bfrange` entry: contiguous destination, or an explicit array.
fn read_bfrange_entry(lx: &mut Lexer, cmap: &mut CMap)
    ensures
        final(lx).bytes() == old(lx).bytes(),
        (final(lx).cursor(), final(cmap).state()) == bfrange_entry_spec(old(lx).bytes(), old(lx).cursor(), old(cmap).state()),
{
    let lo = match read_hex(lx) {
        Some(b) => Some(be(b.as_slice())),
        None => None,
    };
    let hi = match read_hex(lx) {
        Some(b) => Some(be(b.as_slice())),
        None => None,
    };
    lx.skip_whitespace();
    if lx.peek() == Some(0x5b) {
        read_bfrange_array(lx, cmap, lo);
    } else {
        let dst = read_hex(lx);
        if let (Some(lo), Some(hi), Some(dst)) = (lo, hi, dst) {
            cmap.ranges.push((lo, hi, first_scalar(dst.as_slice())));
        }
    }
}

/// The array form of a `bfrange`: one destination string per code.
fn read_bfrange_array(lx: &mut Lexer, cmap: &mut CMap, lo: Option<u32>)
    ensures
        final(lx).bytes() == old(lx).bytes(),
        match lo {
            None => final(lx).cursor() == old(lx).cursor() && final(cmap).state() == old(cmap).state(),
            Some(start) => {
                let (r, e) = object_at(old(lx).bytes(), old(lx).cursor());
                &&& final(lx).cursor() == e
                &&& final(cmap).state() == match r {
                    Ok(Val::Array(items)) => insert_items(old(cmap).state(), start, items, items.len()),
                    _ => old(cmap).state(),
                }
            },
        },
{
    let start = match lo {
        Some(s) => s,
        None => return,
    };
    let items = match parse_object(lx) {
        Ok(Object::Array(items)) => items,
        _ => return,
    };
    proof {
        lemma_array_val(items);
    }
    let ghost vs = vals(items@);
    let ghost st0 = cmap.state();
    let n = items.len();
    let mut i: usize = 0;
    while i < n
        invariant
            n == items@.len(),
            i <= n,
            vs == vals(items@),
            cmap.state() == insert_items(st0, start, vs, i as nat),
        decreases n - i,
    {
        if let Object::String(bytes) = &items[i] {
            insert_single(cmap, start.wrapping_add(i as u32), utf16_be(bytes.as_slice()));
        }
        i += 1;
    }
}

/// Read a keyword and enter a section reader for the `begin…` markers.
fn dispatch(lx: &mut Lexer, cmap: &mut CMap)
    requires
        old(lx).cursor() < old(lx).bytes().len(),
    ensures
        final(lx).bytes() == old(lx).bytes(),
        (final(lx).cursor(), final(cmap).state()) == dispatch_spec(old(lx).bytes(), old(lx).cursor(), old(cmap).state()),
{
    let kw = match lx.read_keyword() {
        Some(k) => k,
        None => {
            lx.bump();
            return;
        },
    };
    let k1 = KW_CODESPACE;
    let k2 = KW_BFCHAR;
    let k3 = KW_BFRANGE;
    if bytes_eq(kw, k1.as_slice()) {
        read_codespace(lx, cmap);
    } else if bytes_eq(kw, k2.as_slice()) {
        read_bfchar(lx, cmap);
    } else if bytes_eq(kw, k3.as_slice()) {
        read_bfrange(lx, cmap);
    }
}

impl CMap {
    /// Parse a CMap stream's decoded bytes.
    pub fn parse(data: &[u8]) -> (r: CMap)
        ensures
            r.state() == parse_spec(data@),
    {
        let mut lx = Lexer::new(data);
        let mut cmap = CMap::default();
        loop
            invariant
                lx.bytes() == data@,
                parse_spec(data@) == cmap_from(data@, lx.cursor(), cmap.state()),
            decreases data@.len() - lx.cursor(),
        {
            proof {
                lemma_skip_ws_bounds(data@, lx.cursor());
            }
            lx.skip_whitespace();
            let q = lx.pos();
            match lx.peek() {
                None => return cmap,
                Some(b) => {
                    if is_value_start(b) {
                        skip_value(&mut lx);
                    } else {
                        dispatch(&mut lx, &mut cmap);
                    }
                },
            }
            if lx.pos() <= q {
                lx.seek(q + 1);
            }
        }
    }
}

} // verus!
