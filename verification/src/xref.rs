//! Cross-reference resolution: where every indirect object lives in the file.
//!
//! A reader starts at the tail (`startxref` → byte offset → the most recent xref
//! section) and walks `/Prev` back through earlier incremental-update sections,
//! letting newer entries win. Both forms are read: the **classic** xref *table*
//! (`xref` keyword + 20-byte entry lines + `trailer` dictionary) and the
//! **cross-reference stream** (PDF 1.5+, `/Type /XRef` with packed binary
//! entries), including hybrid `/XRefStm` files that carry both.

use std::collections::{BTreeMap, HashSet};

use vstd::prelude::*;

use crate::cos::{object_at, parse_object};
use crate::error::{ErrorCode, TurboParsePdfError};
use crate::filter::{decode_stream, decode_stream_spec};
use crate::lex::{keyword_at, lemma_regular_end_bounds, lemma_skip_ws_bounds, regular_end, skip_ws, Lexer};
use crate::numeric::parse_uint;
use crate::object::{bytes_eq, lookup, vals, Dictionary, Object, Val};
use crate::resolver::{indirect_direct_spec, occurs_at, parse_indirect_direct, read_u32_spec};

verus! {

broadcast use {
    vstd::std_specs::btree::group_btree_axioms,
    vstd::std_specs::hash::group_hash_axioms,
    vstd::laws_cmp::group_laws_cmp,
    Lexer::lemma_cursor_bounded,
};

fn bad_xref(msg: &str) -> (r: TurboParsePdfError)
    ensures
        r.code == ErrorCode::InvalidXref,
{
    TurboParsePdfError::new(ErrorCode::InvalidXref, msg)
}

/// One cross-reference entry: a free slot, an in-use object at a byte offset, or
/// an object packed inside an object stream (xref-stream type 2).
#[derive(Debug, Clone, Copy, PartialEq, Eq, Structural)]
pub enum XrefEntry {
    /// A free (deleted) object slot.
    Free,
    /// An in-use object stored at `offset` with the given generation number.
    InUse { offset: usize, gen: u16 },
    /// An object packed at `index` inside the object stream numbered `stream`.
    Compressed { stream: u32, index: u32 },
}

// ---------------------------------------------------------------- binary records

/// A big-endian field read into a 64-bit accumulator (high bytes of a field
/// longer than eight bytes shift out).
pub open spec fn be64(s: Seq<u8>) -> int
    decreases s.len(),
{
    if s.len() == 0 {
        0
    } else {
        (be64(s.drop_last()) * 256) % 0x1_0000_0000_0000_0000 + s.last()
    }
}

proof fn lemma_be64_bound(s: Seq<u8>)
    ensures
        0 <= be64(s) < 0x1_0000_0000_0000_0000,
    decreases s.len(),
{
    if s.len() > 0 {
        lemma_be64_bound(s.drop_last());
        let x = be64(s.drop_last()) * 256;
        assert((x % 0x1_0000_0000_0000_0000) % 256 == 0) by (nonlinear_arith)
            requires
                x == be64(s.drop_last()) * 256,
                0 <= be64(s.drop_last()),
        {
            assert(x % 256 == 0);
        }
        assert(x % 0x1_0000_0000_0000_0000 <= 0x1_0000_0000_0000_0000 - 256);
    }
}

/// Read a big-endian unsigned integer from a field (64-bit accumulator).
pub fn be(field: &[u8]) -> (r: u64)
    ensures
        r == be64(field@),
{
    let mut acc: u64 = 0;
    let mut i: usize = 0;
    while i < field.len()
        invariant
            i <= field@.len(),
            acc == be64(field@.subrange(0, i as int)),
        decreases field@.len() - i,
    {
        let b = field[i];
        proof {
            assert(field@.subrange(0, i + 1).drop_last() =~= field@.subrange(0, i as int));
        }
        assert((acc << 8u64) | (b as u64) == (acc * 256) % 0x1_0000_0000_0000_0000 + b) by (bit_vector);
        acc = (acc << 8) | (b as u64);
        i += 1;
    }
    assert(field@.subrange(0, i as int) =~= field@);
    acc
}

/// The entry a binary record encodes, for `/W` widths `(w0, w1, _)`: type 0
/// free, 1 in use (offset, generation), 2 compressed (stream, index); a zero
/// type width means type 1. Any other type gives no entry.
pub open spec fn record_spec(w0: int, w1: int, chunk: Seq<u8>) -> Option<XrefEntry> {
    let f1 = chunk.subrange(0, w0);
    let f2 = chunk.subrange(w0, w0 + w1);
    let f3 = chunk.subrange(w0 + w1, chunk.len() as int);
    let kind = if w0 == 0 {
        1
    } else {
        be64(f1)
    };
    if kind == 0 {
        Some(XrefEntry::Free)
    } else if kind == 1 {
        Some(XrefEntry::InUse { offset: be64(f2) as usize, gen: be64(f3) as u16 })
    } else if kind == 2 {
        Some(XrefEntry::Compressed { stream: be64(f2) as u32, index: be64(f3) as u32 })
    } else {
        None
    }
}

/// Decode one binary record into an entry (type 0 free / 1 in-use / 2 compressed).
pub fn decode_record(widths: &[usize; 3], chunk: &[u8]) -> (r: Option<XrefEntry>)
    requires
        widths@[0] + widths@[1] <= chunk@.len(),
    ensures
        r == record_spec(widths@[0] as int, widths@[1] as int, chunk@),
{
    let w0 = widths[0];
    let w1 = widths[1];
    let n = chunk.len();
    assert(w0 + w1 <= n);
    let f1 = vstd::slice::slice_subrange(chunk, 0, w0);
    let f2 = vstd::slice::slice_subrange(chunk, w0, w0 + w1);
    let f3 = vstd::slice::slice_subrange(chunk, w0 + w1, chunk.len());
    let kind: u64 = if w0 == 0 {
        1
    } else {
        be(f1)
    };
    if kind == 0 {
        Some(XrefEntry::Free)
    } else if kind == 1 {
        Some(
            XrefEntry::InUse {
                offset: #[verifier::truncate] (be(f2) as usize),
                gen: #[verifier::truncate] (be(f3) as u16),
            },
        )
    } else if kind == 2 {
        Some(
            XrefEntry::Compressed {
                stream: #[verifier::truncate] (be(f2) as u32),
                index: #[verifier::truncate] (be(f3) as u32),
            },
        )
    } else {
        None
    }
}

// ---------------------------------------------------------------- stream dictionary

/// The non-negative integers of `/W` that fit a `usize`, in order.
pub open spec fn width_values(items: Seq<Val>) -> Seq<usize>
    decreases items.len(),
{
    if items.len() == 0 {
        seq![]
    } else {
        let rest = width_values(items.drop_last());
        match items.last() {
            Val::Integer(n) => if 0 <= n && n <= usize::MAX {
                rest.push(n as usize)
            } else {
                rest
            },
            _ => rest,
        }
    }
}

/// The three `/W` field widths of a cross-reference stream dictionary.
pub open spec fn field_widths_spec(d: Seq<(Seq<char>, Val)>) -> Option<Seq<usize>> {
    match lookup(d, "W"@) {
        Some(Val::Array(items)) => if width_values(items).len() == 3 {
            Some(width_values(items))
        } else {
            None
        },
        _ => None,
    }
}

/// The three `/W` field widths.
pub fn field_widths(dict: &Dictionary) -> (r: Result<[usize; 3], TurboParsePdfError>)
    ensures
        match field_widths_spec(dict@) {
            Some(w) => r matches Ok(a) && a@ == w,
            None => r matches Err(e) && e.code == ErrorCode::InvalidXref,
        },
{
    let arr = match dict.get("W") {
        Some(o) => match o.as_array() {
            Some(a) => a,
            None => return Err(bad_xref("xref /W missing")),
        },
        None => return Err(bad_xref("xref /W missing")),
    };
    let mut w: Vec<usize> = Vec::new();
    let mut k: usize = 0;
    while k < arr.len()
        invariant
            k <= arr@.len(),
            w@ == width_values(vals(arr@).subrange(0, k as int)),
        decreases arr@.len() - k,
    {
        proof {
            assert(vals(arr@).subrange(0, k + 1).drop_last() =~= vals(arr@).subrange(0, k as int));
        }
        if let Some(n) = arr[k].as_integer() {
            if 0 <= n && (n as u64) <= (usize::MAX as u64) {
                w.push(n as usize);
            }
        }
        k += 1;
    }
    assert(vals(arr@).subrange(0, k as int) =~= vals(arr@));
    if w.len() == 3 {
        let a: [usize; 3] = [w[0], w[1], w[2]];
        assert(a@ =~= w@);
        Ok(a)
    } else {
        Err(bad_xref("xref /W must have three widths"))
    }
}

/// A value read as a `u32`.
pub open spec fn to_u32_spec(v: Val) -> Option<u32> {
    match v {
        Val::Integer(n) => if 0 <= n <= u32::MAX {
            Some(n as u32)
        } else {
            None
        },
        _ => None,
    }
}

/// A non-negative integer object that fits a `u32`.
pub fn to_u32(obj: &Object) -> (r: Option<u32>)
    ensures
        r == to_u32_spec(obj@),
{
    match obj.as_integer() {
        Some(n) => if 0 <= n && n <= 0xFFFF_FFFF {
            Some(n as u32)
        } else {
            None
        },
        None => None,
    }
}

/// `/Index` items taken two by two (a trailing odd item is dropped); a pair
/// counts when both are `u32` integers.
pub open spec fn pairs_spec(items: Seq<Val>) -> Seq<(u32, u32)>
    decreases items.len(),
{
    if items.len() < 2 {
        seq![]
    } else {
        let rest = pairs_spec(items.subrange(2, items.len() as int));
        match (to_u32_spec(items[0]), to_u32_spec(items[1])) {
            (Some(a), Some(b)) => seq![(a, b)] + rest,
            _ => rest,
        }
    }
}

/// The `(start, count)` pairs of an `/Index` array.
pub fn pairs_from_array(arr: &[Object]) -> (r: Vec<(u32, u32)>)
    ensures
        r@ == pairs_spec(vals(arr@)),
{
    let mut out: Vec<(u32, u32)> = Vec::new();
    let mut k: usize = 0;
    proof {
        assert(vals(arr@).subrange(0, arr@.len() as int) =~= vals(arr@));
    }
    while arr.len() - k >= 2
        invariant
            k <= arr@.len(),
            out@ + pairs_spec(vals(arr@).subrange(k as int, arr@.len() as int)) == pairs_spec(vals(arr@)),
        decreases arr@.len() - k,
    {
        let ghost rest = vals(arr@).subrange(k as int, arr@.len() as int);
        proof {
            assert(rest.subrange(2, rest.len() as int) =~= vals(arr@).subrange(k + 2, arr@.len() as int));
            assert(rest[0] == arr@[k as int]@);
            assert(rest[1] == arr@[k + 1]@);
        }
        let a = to_u32(&arr[k]);
        let b = to_u32(&arr[k + 1]);
        match (a, b) {
            (Some(a), Some(b)) => {
                proof {
                    assert(out@.push((a, b)) + pairs_spec(rest.subrange(2, rest.len() as int)) =~= out@
                        + (seq![(a, b)] + pairs_spec(rest.subrange(2, rest.len() as int))));
                }
                out.push((a, b));
            },
            _ => {},
        }
        k += 2;
    }
    proof {
        assert(pairs_spec(vals(arr@).subrange(k as int, arr@.len() as int)) == Seq::<(u32, u32)>::empty());
        assert(out@ + Seq::<(u32, u32)>::empty() =~= out@);
    }
    out
}

/// The `/Index` subsection pairs (default `[0 Size]`).
pub open spec fn index_spec(d: Seq<(Seq<char>, Val)>) -> Option<Seq<(u32, u32)>> {
    match lookup(d, "Index"@) {
        Some(Val::Array(items)) => Some(pairs_spec(items)),
        _ => match lookup(d, "Size"@) {
            Some(Val::Integer(n)) => if 0 <= n <= u32::MAX {
                Some(seq![(0u32, n as u32)])
            } else {
                None
            },
            _ => None,
        },
    }
}

/// The default `/Index`: one range `[0 Size]`.
pub fn default_index(dict: &Dictionary) -> (r: Result<Vec<(u32, u32)>, TurboParsePdfError>)
    ensures
        match lookup(dict@, "Size"@) {
            Some(Val::Integer(n)) => if 0 <= n <= u32::MAX {
                r matches Ok(v) && v@ == seq![(0u32, n as u32)]
            } else {
                r matches Err(e) && e.code == ErrorCode::InvalidXref
            },
            _ => r matches Err(e) && e.code == ErrorCode::InvalidXref,
        },
{
    let size = match dict.get("Size") {
        Some(o) => match o.as_integer() {
            Some(n) => n,
            None => return Err(bad_xref("xref /Size missing")),
        },
        None => return Err(bad_xref("xref /Size missing")),
    };
    if 0 <= size && size <= 0xFFFF_FFFF {
        let mut v: Vec<(u32, u32)> = Vec::new();
        v.push((0u32, size as u32));
        Ok(v)
    } else {
        Err(bad_xref("bad /Size"))
    }
}

/// The `/Index` subsection pairs (default `[0 Size]`).
pub fn index_pairs(dict: &Dictionary) -> (r: Result<Vec<(u32, u32)>, TurboParsePdfError>)
    ensures
        match index_spec(dict@) {
            Some(p) => r matches Ok(v) && v@ == p,
            None => r matches Err(e) && e.code == ErrorCode::InvalidXref,
        },
{
    match dict.get("Index") {
        Some(o) => match o {
            Object::Array(arr) => {
                proof {
                    crate::object::lemma_array_val(*arr);
                }
                return Ok(pairs_from_array(arr.as_slice()));
            },
            _ => {},
        },
        None => {},
    }
    default_index(dict)
}

// ---------------------------------------------------------------- stream records

/// The records of one `/Index` range: `count` records of `record` bytes from
/// byte `cursor`, numbered from `num` on (wrapping at 2^32). Records of an
/// unknown type give no entry. `None` when the data ends early; otherwise the
/// entries and the byte after the last record.
pub open spec fn range_records(
    data: Seq<u8>,
    w0: int,
    w1: int,
    record: int,
    cursor: int,
    num: u32,
    count: int,
) -> Option<(Seq<(u32, XrefEntry)>, int)>
    decreases count,
{
    if count <= 0 {
        Some((seq![], cursor))
    } else if cursor + record > data.len() {
        None
    } else {
        match range_records(data, w0, w1, record, cursor + record, num.wrapping_add(1), count - 1) {
            None => None,
            Some((rest, e)) => Some(
                (
                    match record_spec(w0, w1, data.subrange(cursor, cursor + record)) {
                        Some(en) => seq![(num, en)] + rest,
                        None => rest,
                    },
                    e,
                ),
            ),
        }
    }
}

/// Every `/Index` range in turn, each starting where the previous one ended.
pub open spec fn ranges_records(
    data: Seq<u8>,
    w0: int,
    w1: int,
    record: int,
    index: Seq<(u32, u32)>,
    cursor: int,
) -> Option<Seq<(u32, XrefEntry)>>
    decreases index.len(),
{
    if index.len() == 0 {
        Some(seq![])
    } else {
        match range_records(data, w0, w1, record, cursor, index[0].0, index[0].1 as int) {
            None => None,
            Some((s, e)) => match ranges_records(data, w0, w1, record, index.drop_first(), e) {
                None => None,
                Some(t) => Some(s + t),
            },
        }
    }
}

/// The entries of a cross-reference stream with dictionary `d` and decoded
/// body `data`, in record order (for a number recorded twice, the first
/// record is the one that counts).
pub open spec fn stream_entries_spec(d: Seq<(Seq<char>, Val)>, data: Seq<u8>) -> Result<
    Seq<(u32, XrefEntry)>,
    ErrorCode,
> {
    match field_widths_spec(d) {
        None => Err(ErrorCode::InvalidXref),
        Some(w) => match index_spec(d) {
            None => Err(ErrorCode::InvalidXref),
            Some(ix) => {
                let record = w[0] + w[1] + w[2];
                if record == 0 {
                    Err(ErrorCode::InvalidXref)
                } else {
                    match ranges_records(data, w[0] as int, w[1] as int, record, ix, 0) {
                        Some(s) => Ok(s),
                        None => Err(ErrorCode::InvalidXref),
                    }
                }
            },
        },
    }
}

/// A range whose records cannot fit the data reads as truncated.
proof fn lemma_range_too_long(data: Seq<u8>, w0: int, w1: int, record: int, cursor: int, num: u32, count: int)
    requires
        count > 0,
        cursor + record > data.len(),
    ensures
        range_records(data, w0, w1, record, cursor, num, count) is None,
{
}

/// Read `count` records of one `/Index` range; return the new byte cursor.
fn read_index_range(
    data: &[u8],
    widths: &[usize; 3],
    record: usize,
    cursor: usize,
    range: (u32, u32),
    out: &mut Vec<(u32, XrefEntry)>,
) -> (r: Result<usize, TurboParsePdfError>)
    requires
        record == widths@[0] + widths@[1] + widths@[2],
        cursor <= data@.len(),
    ensures
        match range_records(data@, widths@[0] as int, widths@[1] as int, record as int, cursor as int, range.0, range.1 as int) {
            Some((s, e)) => (r matches Ok(c) && c == e) && final(out)@ == old(out)@ + s,
            None => r matches Err(e) && e.code == ErrorCode::InvalidXref,
        },
        r matches Ok(c) ==> c <= data@.len(),
{
    let (start, count) = range;
    let ghost w0 = widths@[0] as int;
    let ghost w1 = widths@[1] as int;
    let ghost whole = range_records(data@, w0, w1, record as int, cursor as int, start, count as int);
    let mut acc: Vec<(u32, XrefEntry)> = Vec::new();
    let mut cur = cursor;
    let mut num = start;
    let mut i: u32 = 0;
    while i < count
        invariant
            record == widths@[0] + widths@[1] + widths@[2],
            w0 == widths@[0],
            w1 == widths@[1],
            i <= count,
            start == range.0,
            count == range.1,
            cur <= data@.len(),
            whole == range_records(data@, w0, w1, record as int, cursor as int, start, count as int),
            whole == match range_records(data@, w0, w1, record as int, cur as int, num, count - i) {
                Some((s, e)) => Some((acc@ + s, e)),
                None => None,
            },
        decreases count - i,
    {
        if record > data.len() - cur {
            proof {
                lemma_range_too_long(data@, w0, w1, record as int, cur as int, num, count - i);

            }
            return Err(bad_xref("xref stream truncated"));
        }
        let chunk = vstd::slice::slice_subrange(data, cur, cur + record);
        let entry = decode_record(widths, chunk);
        proof {
            let next = range_records(data@, w0, w1, record as int, cur + record, num.wrapping_add(1), count - i - 1);
            match next {
                Some((s, e)) => {
                    match entry {
                        Some(en) => {
                            assert(acc@.push((num, en)) + s =~= acc@ + (seq![(num, en)] + s));
                        },
                        None => {},
                    }
                },
                None => {},
            }
        }
        match entry {
            Some(en) => acc.push((num, en)),
            None => {},
        }
        cur = cur + record;
        num = num.wrapping_add(1);
        i += 1;
    }
    proof {
        assert(acc@ + Seq::<(u32, XrefEntry)>::empty() =~= acc@);
    }
    out.append(&mut acc);
    Ok(cur)
}

/// Decode every `/Index` range of binary records.
fn decode_ranges(data: &[u8], widths: &[usize; 3], record: usize, index: &[(u32, u32)]) -> (r: Result<
    Vec<(u32, XrefEntry)>,
    TurboParsePdfError,
>)
    requires
        record == widths@[0] + widths@[1] + widths@[2],
    ensures
        record == 0 ==> (r matches Err(e) && e.code == ErrorCode::InvalidXref),
        record != 0 ==> (match ranges_records(data@, widths@[0] as int, widths@[1] as int, record as int, index@, 0) {
            Some(s) => r matches Ok(v) && v@ == s,
            None => r matches Err(e) && e.code == ErrorCode::InvalidXref,
        }),
{
    if record == 0 {
        return Err(bad_xref("xref stream zero-width records"));
    }
    let ghost w0 = widths@[0] as int;
    let ghost w1 = widths@[1] as int;
    let ghost whole = ranges_records(data@, w0, w1, record as int, index@, 0);
    let mut entries: Vec<(u32, XrefEntry)> = Vec::new();
    let mut cursor: usize = 0;
    let mut k: usize = 0;
    proof {
        assert(index@.subrange(0, index@.len() as int) =~= index@);
        assert(entries@ + Seq::<(u32, XrefEntry)>::empty() =~= entries@);
        match whole {
            Some(t) => {
                assert(entries@ + t =~= t);
            },
            None => {},
        }
    }
    while k < index.len()
        invariant
            record == widths@[0] + widths@[1] + widths@[2],
            w0 == widths@[0],
            w1 == widths@[1],
            k <= index@.len(),
            cursor <= data@.len(),
            whole == ranges_records(data@, w0, w1, record as int, index@, 0),
            whole == match ranges_records(data@, w0, w1, record as int, index@.subrange(k as int, index@.len() as int), cursor as int) {
                Some(t) => Some(entries@ + t),
                None => None,
            },
        decreases index@.len() - k,
    {
        let ghost before = entries@;
        let ghost c0 = cursor as int;
        let ghost rest = index@.subrange(k as int, index@.len() as int);
        proof {
            assert(rest.drop_first() =~= index@.subrange(k + 1, index@.len() as int));
            assert(rest[0] == index@[k as int]);
        }
        cursor = read_index_range(data, widths, record, cursor, index[k], &mut entries)?;
        proof {
            match range_records(data@, w0, w1, record as int, c0, rest[0].0, rest[0].1 as int) {
                Some((s, e)) => {
                    assert(entries@ == before + s);
                    assert(cursor == e);
                    match ranges_records(data@, w0, w1, record as int, rest.drop_first(), e) {
                        Some(t) => {
                            assert((before + s) + t =~= before + (s + t));
                        },
                        None => {},
                    }
                },
                None => {},
            }
        }
        k += 1;
    }
    proof {
        assert(index@.subrange(k as int, index@.len() as int) =~= Seq::<(u32, u32)>::empty());
        assert(entries@ + Seq::<(u32, XrefEntry)>::empty() =~= entries@);
    }
    Ok(entries)
}

/// Decode the packed binary entries of a cross-reference stream.
pub fn parse_xref_entries(dict: &Dictionary, data: &[u8]) -> (r: Result<Vec<(u32, XrefEntry)>, TurboParsePdfError>)
    ensures
        match stream_entries_spec(dict@, data@) {
            Ok(s) => r matches Ok(v) && v@ == s,
            Err(c) => r matches Err(e) && e.code == c,
        },
{
    let widths = field_widths(dict)?;
    let index = index_pairs(dict)?;
    let ghost w = widths@;
    let sum = match widths[0].checked_add(widths[1]) {
        Some(x) => x.checked_add(widths[2]),
        None => None,
    };
    match sum {
        Some(record) => decode_ranges(data, &widths, record, index.as_slice()),
        None => {
            // The record is longer than any buffer: any record read runs off the end.
            let n = data.len();
            assert(n == data@.len());
            let mut k: usize = 0;
            while k < index.len()
                invariant
                    k <= index@.len(),
                    w == widths@,
                    w[0] + w[1] + w[2] > usize::MAX,
                    n == data@.len(),
                    field_widths_spec(dict@) == Some(w),
                    index_spec(dict@) == Some(index@),
                    forall|j: int| 0 <= j < k ==> index@[j].1 == 0,
                decreases index@.len() - k,
            {
                if index[k].1 > 0 {
                    proof {
                        lemma_ranges_overlong(data@, w[0] as int, w[1] as int, w[0] + w[1] + w[2], index@, k as int);
                    }
                    return Err(bad_xref("xref stream truncated"));
                }
                k += 1;
            }
            proof {
                lemma_ranges_empty(data@, w[0] as int, w[1] as int, w[0] + w[1] + w[2], index@, 0);
                assert(index@.subrange(0, index@.len() as int) =~= index@);
            }
            Ok(Vec::new())
        },
    }
}

/// With records longer than the data, a range of records somewhere makes the
/// whole read fail.
proof fn lemma_ranges_overlong(data: Seq<u8>, w0: int, w1: int, record: int, index: Seq<(u32, u32)>, k: int)
    requires
        record > data.len(),
        0 <= k < index.len(),
        index[k].1 > 0,
        forall|j: int| 0 <= j < k ==> index[j].1 == 0,
    ensures
        ranges_records(data, w0, w1, record, index, 0) is None,
    decreases k,
{
    if k > 0 {
        assert(range_records(data, w0, w1, record, 0, index[0].0, index[0].1 as int) == Some((Seq::<(u32, XrefEntry)>::empty(), 0int)));
        lemma_ranges_overlong(data, w0, w1, record, index.drop_first(), k - 1);
    }
}

/// Ranges that hold no records read as no entries.
proof fn lemma_ranges_empty(data: Seq<u8>, w0: int, w1: int, record: int, index: Seq<(u32, u32)>, k: int)
    requires
        0 <= k <= index.len(),
        forall|j: int| k <= j < index.len() ==> index[j].1 == 0,
    ensures
        ranges_records(data, w0, w1, record, index.subrange(k, index.len() as int), 0) == Some(Seq::<(u32, XrefEntry)>::empty()),
    decreases index.len() - k,
{
    let rest = index.subrange(k, index.len() as int);
    if k < index.len() {
        lemma_ranges_empty(data, w0, w1, record, index, k + 1);
        assert(rest.drop_first() =~= index.subrange(k + 1, index.len() as int));
        assert(Seq::<(u32, XrefEntry)>::empty() + Seq::<(u32, XrefEntry)>::empty() =~= Seq::<(u32, XrefEntry)>::empty());
    }
}

// ---------------------------------------------------------------- classic table

/// `xref`
pub const KW_XREF: [u8; 4] = [0x78, 0x72, 0x65, 0x66];

/// `trailer`
pub const KW_TRAILER: [u8; 7] = [0x74, 0x72, 0x61, 0x69, 0x6c, 0x65, 0x72];

/// `startxref`
pub const KW_STARTXREF: [u8; 9] = [0x73, 0x74, 0x61, 0x72, 0x74, 0x78, 0x72, 0x65, 0x66];

/// A whitespace-led unsigned integer token consumes at least one byte.
pub proof fn lemma_read_u32_advances(data: Seq<u8>, p: int)
    requires
        0 <= p <= data.len(),
        read_u32_spec(data, p) is Some,
    ensures
        p < (read_u32_spec(data, p)->0).1 <= data.len(),
{
    lemma_skip_ws_bounds(data, p);
    lemma_regular_end_bounds(data, skip_ws(data, p));
}

/// Read a whitespace-led unsigned integer token.
fn read_uint(lx: &mut Lexer) -> (r: Result<u32, TurboParsePdfError>)
    ensures
        final(lx).bytes() == old(lx).bytes(),
        match read_u32_spec(old(lx).bytes(), old(lx).cursor()) {
            Some((v, e)) => 0 <= v <= u32::MAX && r == Ok::<u32, TurboParsePdfError>(v as u32)
                && final(lx).cursor() == e,
            None => r matches Err(e) && e.code == ErrorCode::InvalidXref,
        },
{
    lx.skip_whitespace();
    let tok = match lx.read_keyword() {
        Some(t) => t,
        None => return Err(bad_xref("expected integer")),
    };
    match parse_uint(tok, 0xffff_ffff) {
        Some(v) => Ok(v as u32),
        None => Err(bad_xref("bad integer")),
    }
}

/// One entry line `offset gen n|f` at `p`: the entry and the position after it.
pub open spec fn entry_spec(data: Seq<u8>, p: int) -> Result<(XrefEntry, int), ErrorCode> {
    match read_u32_spec(data, p) {
        None => Err(ErrorCode::InvalidXref),
        Some((off, p1)) => match read_u32_spec(data, p1) {
            None => Err(ErrorCode::InvalidXref),
            Some((g, p2)) => {
                let q = skip_ws(data, p2);
                let e = regular_end(data, q);
                let tok = data.subrange(q, e);
                if tok == seq![110u8] {
                    Ok((XrefEntry::InUse { offset: off as usize, gen: g as u16 }, e))
                } else if tok == seq![102u8] {
                    Ok((XrefEntry::Free, e))
                } else {
                    Err(ErrorCode::InvalidXref)
                }
            },
        },
    }
}

/// `count` entry lines from `p`, numbered from `num` on (wrapping at 2^32).
pub open spec fn entries_from(data: Seq<u8>, p: int, num: u32, count: int) -> Result<
    (Seq<(u32, XrefEntry)>, int),
    ErrorCode,
>
    decreases count,
{
    if count <= 0 {
        Ok((seq![], p))
    } else {
        match entry_spec(data, p) {
            Err(e) => Err(e),
            Ok((en, p1)) => match entries_from(data, p1, num.wrapping_add(1), count - 1) {
                Err(e) => Err(e),
                Ok((rest, e)) => Ok((seq![(num, en)] + rest, e)),
            },
        }
    }
}

/// One subsection at `p`: the `start count` header and its entry lines.
pub open spec fn subsection_spec(data: Seq<u8>, p: int) -> Result<(Seq<(u32, XrefEntry)>, int), ErrorCode> {
    match read_u32_spec(data, p) {
        None => Err(ErrorCode::InvalidXref),
        Some((start, p1)) => match read_u32_spec(data, p1) {
            None => Err(ErrorCode::InvalidXref),
            Some((count, p2)) => entries_from(data, p2, start as u32, count),
        },
    }
}

/// A classic table entry that reads consumes at least one byte, within the data.
pub proof fn lemma_entry_advances(data: Seq<u8>, p: int)
    requires
        0 <= p <= data.len(),
        entry_spec(data, p) is Ok,
    ensures
        p < (entry_spec(data, p)->Ok_0).1 <= data.len(),
{
    lemma_read_u32_advances(data, p);
    let p1 = (read_u32_spec(data, p)->0).1;
    lemma_read_u32_advances(data, p1);
    let p2 = (read_u32_spec(data, p1)->0).1;
    lemma_skip_ws_bounds(data, p2);
    lemma_regular_end_bounds(data, skip_ws(data, p2));
}

/// Reading a run of table entries never moves backwards or past the data.
pub proof fn lemma_entries_advance(data: Seq<u8>, p: int, num: u32, count: int)
    requires
        0 <= p <= data.len(),
        entries_from(data, p, num, count) is Ok,
    ensures
        p <= (entries_from(data, p, num, count)->Ok_0).1 <= data.len(),
    decreases count,
{
    if count > 0 {
        lemma_entry_advances(data, p);
        let p1 = (entry_spec(data, p)->Ok_0).1;
        lemma_entries_advance(data, p1, num.wrapping_add(1), count - 1);
    }
}

/// A subsection that reads consumes at least one byte, within the data.
pub proof fn lemma_subsection_advances(data: Seq<u8>, p: int)
    requires
        0 <= p <= data.len(),
        subsection_spec(data, p) is Ok,
    ensures
        p < (subsection_spec(data, p)->Ok_0).1 <= data.len(),
{
    lemma_read_u32_advances(data, p);
    let p1 = (read_u32_spec(data, p)->0).1;
    lemma_read_u32_advances(data, p1);
    let (count, p2) = read_u32_spec(data, p1)->0;
    lemma_entries_advance(data, p2, (read_u32_spec(data, p)->0).0 as u32, count);
}

/// Subsections from `p` until the `trailer` keyword: the entries and the
/// position after `trailer`.
pub open spec fn subsections_from(data: Seq<u8>, p: int) -> Result<(Seq<(u32, XrefEntry)>, int), ErrorCode>
    decreases data.len() - p,
{
    if p < 0 || p > data.len() {
        Err(ErrorCode::InvalidXref)
    } else {
        proof {
            lemma_skip_ws_bounds(data, p);
        }
        let q = skip_ws(data, p);
        if keyword_at(data, q, KW_TRAILER@) {
            Ok((seq![], q + 7))
        } else {
            match subsection_spec(data, q) {
                Err(e) => Err(e),
                Ok((s, q2)) => {
                    proof {
                        lemma_subsection_advances(data, q);
                    }
                    match subsections_from(data, q2) {
                        Err(e) => Err(e),
                        Ok((t, e)) => Ok((s + t, e)),
                    }
                },
            }
        }
    }
}

/// Read one 20-byte entry line (`offset gen n|f`), leniently tokenized.
fn read_entry(lx: &mut Lexer) -> (r: Result<XrefEntry, TurboParsePdfError>)
    ensures
        final(lx).bytes() == old(lx).bytes(),
        match entry_spec(old(lx).bytes(), old(lx).cursor()) {
            Ok((en, e)) => r == Ok::<XrefEntry, TurboParsePdfError>(en) && final(lx).cursor() == e,
            Err(c) => r matches Err(e) && e.code == c,
        },
{
    let ghost data = lx.bytes();
    let ghost p0 = lx.cursor();
    let offset = read_uint(lx)?;
    let ghost p1 = lx.cursor();
    let gen = read_uint(lx)?;
    let ghost p2 = lx.cursor();
    lx.skip_whitespace();
    let ghost q = lx.cursor();
    assert(read_u32_spec(data, p0) == Some((offset as int, p1)));
    assert(read_u32_spec(data, p1) == Some((gen as int, p2)));
    assert(q == skip_ws(data, p2));
    proof {
        lemma_regular_end_bounds(lx.bytes(), q);
    }
    match lx.read_keyword() {
        Some(tok) => {
            if tok.len() == 1 && tok[0] == 110 {
                assert(tok@ =~= seq![110u8]);
                let en = XrefEntry::InUse { offset: offset as usize, gen: #[verifier::truncate] (gen as u16) };
                assert(entry_spec(data, p0) == Ok::<(XrefEntry, int), ErrorCode>((en, lx.cursor())));
                Ok(en)
            } else if tok.len() == 1 && tok[0] == 102 {
                assert(tok@ =~= seq![102u8]);
                Ok(XrefEntry::Free)
            } else {
                proof {
                    if tok@ == seq![110u8] || tok@ == seq![102u8] {
                        assert(tok@.len() == 1);
                        assert(tok@[0] == tok[0]);
                    }
                }
                Err(bad_xref("bad xref entry type"))
            }
        },
        None => {
            assert(lx.bytes().subrange(q, q).len() == 0);
            Err(bad_xref("bad xref entry type"))
        },
    }
}

/// Read a single subsection header and its entry lines.
fn read_one_subsection(lx: &mut Lexer, entries: &mut Vec<(u32, XrefEntry)>) -> (r: Result<(), TurboParsePdfError>)
    ensures
        final(lx).bytes() == old(lx).bytes(),
        match subsection_spec(old(lx).bytes(), old(lx).cursor()) {
            Ok((s, e)) => r is Ok && final(lx).cursor() == e && final(entries)@ == old(entries)@ + s,
            Err(c) => r matches Err(e) && e.code == c,
        },
{
    let ghost data = lx.bytes();
    let ghost p0 = lx.cursor();
    let start = read_uint(lx)?;
    let ghost p1 = lx.cursor();
    let count = read_uint(lx)?;
    let ghost p2 = lx.cursor();
    let ghost whole = entries_from(data, p2, start, count as int);
    assert(read_u32_spec(data, p0) == Some((start as int, p1)));
    assert(read_u32_spec(data, p1) == Some((count as int, p2)));
    assert(subsection_spec(data, p0) == whole);
    proof {
        match whole {
            Ok((t, e)) => {
                assert(Seq::<(u32, XrefEntry)>::empty() + t =~= t);
            },
            Err(_) => {},
        }
    }
    let mut acc: Vec<(u32, XrefEntry)> = Vec::new();
    let mut num = start;
    let mut i: u32 = 0;
    while i < count
        invariant
            lx.bytes() == data,
            data == old(lx).bytes(),
            p0 == old(lx).cursor(),
            subsection_spec(data, p0) == whole,
            i <= count,
            whole == entries_from(data, p2, start, count as int),
            whole == match entries_from(data, lx.cursor(), num, count - i) {
                Ok((s, e)) => Ok((acc@ + s, e)),
                Err(c) => Err::<(Seq<(u32, XrefEntry)>, int), ErrorCode>(c),
            },
        decreases count - i,
    {
        let entry = read_entry(lx)?;
        proof {
            match entries_from(data, lx.cursor(), num.wrapping_add(1), count - i - 1) {
                Ok((s, e)) => {
                    assert(acc@.push((num, entry)) + s =~= acc@ + (seq![(num, entry)] + s));
                },
                Err(_) => {},
            }
        }
        acc.push((num, entry));
        num = num.wrapping_add(1);
        i += 1;
    }
    proof {
        assert(acc@ + Seq::<(u32, XrefEntry)>::empty() =~= acc@);
    }
    entries.append(&mut acc);
    Ok(())
}

/// Read every `start count` subsection until the `trailer` keyword.
#[verifier::rlimit(40)]
fn read_subsections(lx: &mut Lexer) -> (r: Result<Vec<(u32, XrefEntry)>, TurboParsePdfError>)
    ensures
        final(lx).bytes() == old(lx).bytes(),
        match subsections_from(old(lx).bytes(), old(lx).cursor()) {
            Ok((s, e)) => r matches Ok(v) && v@ == s && final(lx).cursor() == e,
            Err(c) => r matches Err(e) && e.code == c,
        },
{
    let ghost data = lx.bytes();
    let ghost whole = subsections_from(data, lx.cursor());
    let mut entries: Vec<(u32, XrefEntry)> = Vec::new();
    proof {
        match whole {
            Ok((t, e)) => {
                assert(entries@ + t =~= t);
            },
            Err(_) => {},
        }
    }
    loop
        invariant
            lx.bytes() == data,
            data == old(lx).bytes(),
            whole == subsections_from(old(lx).bytes(), old(lx).cursor()),
            whole == match subsections_from(data, lx.cursor()) {
                Ok((t, e)) => Ok((entries@ + t, e)),
                Err(c) => Err::<(Seq<(u32, XrefEntry)>, int), ErrorCode>(c),
            },
        decreases data.len() - lx.cursor(),
    {
        let ghost p = lx.cursor();
        proof {
            lemma_skip_ws_bounds(data, p);
        }
        lx.skip_whitespace();
        let kw = KW_TRAILER;
        if lx.eat_keyword(kw.as_slice()) {
            proof {
                assert(entries@ + Seq::<(u32, XrefEntry)>::empty() =~= entries@);
            }
            return Ok(entries);
        }
        let ghost before = entries@;
        let ghost q = lx.cursor();
        read_one_subsection(lx, &mut entries)?;
        proof {
            lemma_subsection_advances(data, q);
            let (s, q2) = subsection_spec(data, q)->Ok_0;
            match subsections_from(data, q2) {
                Ok((t, e)) => {
                    assert(entries@ + t =~= before + (s + t));
                },
                Err(_) => {},
            }
        }
    }
}

/// A classic table after the `xref` keyword at `p`: its entries and trailer.
pub open spec fn table_spec(data: Seq<u8>, p: int) -> Result<(Seq<(u32, XrefEntry)>, Seq<(Seq<char>, Val)>), ErrorCode> {
    match subsections_from(data, p) {
        Err(e) => Err(e),
        Ok((s, q)) => match object_at(data, q).0 {
            Ok(Val::Dict(d)) => Ok((s, d)),
            Ok(_) => Err(ErrorCode::InvalidXref),
            Err(e) => Err(e),
        },
    }
}

/// Parse the `trailer` dictionary that follows the table.
fn read_trailer(lx: &mut Lexer) -> (r: Result<Dictionary, TurboParsePdfError>)
    ensures
        match object_at(old(lx).bytes(), old(lx).cursor()).0 {
            Ok(Val::Dict(d)) => r matches Ok(t) && t@ == d,
            Ok(_) => r matches Err(e) && e.code == ErrorCode::InvalidXref,
            Err(c) => r matches Err(e) && e.code == c,
        },
{
    match parse_object(lx)? {
        Object::Dictionary(d) => Ok(d),
        _ => Err(bad_xref("trailer is not a dictionary")),
    }
}

// ---------------------------------------------------------------- sections

/// A cross-reference stream at `offset`: its entries (record order) and its
/// dictionary, which serves as the section's trailer.
pub open spec fn xref_stream_spec(data: Seq<u8>, offset: int) -> Result<
    (Seq<(u32, XrefEntry)>, Seq<(Seq<char>, Val)>),
    ErrorCode,
> {
    match indirect_direct_spec(data, offset) {
        Err(e) => Err(e),
        Ok((_, v)) => match v {
            Val::Stream(d, raw) => match decode_stream_spec(d, raw) {
                Err(_) => Err(ErrorCode::InvalidXref),
                Ok(dec) => match stream_entries_spec(d, dec) {
                    Err(e) => Err(e),
                    Ok(s) => Ok((s, d)),
                },
            },
            _ => Err(ErrorCode::InvalidXref),
        },
    }
}

/// One xref section at `offset`: a classic table when `xref` stands there
/// (after whitespace), else a cross-reference stream.
pub open spec fn section_spec(data: Seq<u8>, offset: int) -> Result<
    (Seq<(u32, XrefEntry)>, Seq<(Seq<char>, Val)>),
    ErrorCode,
> {
    let p = skip_ws(data, if offset <= data.len() { offset } else { data.len() as int });
    if keyword_at(data, p, KW_XREF@) {
        table_spec(data, p + 4)
    } else {
        xref_stream_spec(data, offset)
    }
}

/// Nothing is read from past the end of the data.
pub proof fn lemma_section_in_range(data: Seq<u8>, offset: int)
    requires
        offset >= data.len(),
    ensures
        section_spec(data, offset) is Err,
{
    let n = data.len() as int;
    assert(skip_ws(data, n) == n);
    assert(regular_end(data, n) == n);
    assert(read_u32_spec(data, n) is None);
}

/// One parsed section: entries in file order, and the trailer.
struct Section {
    entries: Vec<(u32, XrefEntry)>,
    trailer: Dictionary,
}

/// Parse a cross-reference stream (`/Type /XRef`) at `offset`.
fn parse_xref_stream(data: &[u8], offset: usize) -> (r: Result<Section, TurboParsePdfError>)
    ensures
        match xref_stream_spec(data@, offset as int) {
            Ok((s, t)) => r matches Ok(sec) && sec.entries@ == s && sec.trailer@ == t,
            Err(c) => r matches Err(e) && e.code == c,
        },
{
    let (_num, obj) = parse_indirect_direct(data, offset)?;
    let stream = match obj.as_stream() {
        Some(s) => s,
        None => return Err(bad_xref("xref stream is not a stream")),
    };
    let decoded = match decode_stream(&stream.dict, stream.data.as_slice()) {
        Ok(d) => d,
        Err(_) => return Err(bad_xref("xref decode")),
    };
    let entries = parse_xref_entries(&stream.dict, decoded.as_slice())?;
    Ok(Section { entries, trailer: stream.dict.clone() })
}

/// Parse one xref section at `offset`: a classic table, or a cross-reference
/// stream when the offset points at an indirect object instead of `xref`.
fn parse_section(data: &[u8], offset: usize) -> (r: Result<Section, TurboParsePdfError>)
    ensures
        match section_spec(data@, offset as int) {
            Ok((s, t)) => r matches Ok(sec) && sec.entries@ == s && sec.trailer@ == t,
            Err(c) => r matches Err(e) && e.code == c,
        },
{
    let mut lx = Lexer::at(data, offset);
    lx.skip_whitespace();
    let kw = KW_XREF;
    if lx.eat_keyword(kw.as_slice()) {
        let entries = read_subsections(&mut lx)?;
        let trailer = read_trailer(&mut lx)?;
        Ok(Section { entries, trailer })
    } else {
        parse_xref_stream(data, offset)
    }
}

// ---------------------------------------------------------------- merging

/// Entries merged into `m` in order, the first one seen for a number winning.
pub open spec fn first_wins(m: Map<u32, XrefEntry>, s: Seq<(u32, XrefEntry)>) -> Map<u32, XrefEntry>
    decreases s.len(),
{
    if s.len() == 0 {
        m
    } else {
        let m2 = first_wins(m, s.drop_last());
        if m2.contains_key(s.last().0) {
            m2
        } else {
            m2.insert(s.last().0, s.last().1)
        }
    }
}

/// Merge entries with first-seen-wins precedence.
fn merge_entries(merged: &mut BTreeMap<u32, XrefEntry>, entries: &[(u32, XrefEntry)])
    ensures
        final(merged)@ == first_wins(old(merged)@, entries@),
{
    let mut k: usize = 0;
    while k < entries.len()
        invariant
            k <= entries@.len(),
            merged@ == first_wins(old(merged)@, entries@.subrange(0, k as int)),
        decreases entries@.len() - k,
    {
        let (num, en) = entries[k];
        proof {
            assert(entries@.subrange(0, k + 1).drop_last() =~= entries@.subrange(0, k as int));
        }
        if !merged.contains_key(&num) {
            merged.insert(num, en);
        }
        k += 1;
    }
    assert(entries@.subrange(0, k as int) =~= entries@);
}

/// Newer entries win: a number already merged keeps its entry whatever later
/// (older) sections record for it.
pub proof fn lemma_first_wins_keeps(m: Map<u32, XrefEntry>, s: Seq<(u32, XrefEntry)>, k: u32)
    requires
        m.contains_key(k),
    ensures
        first_wins(m, s).contains_key(k),
        first_wins(m, s)[k] == m[k],
    decreases s.len(),
{
    if s.len() > 0 {
        lemma_first_wins_keeps(m, s.drop_last(), k);
    }
}

/// Nothing recorded is lost: every number a section records is present after
/// merging it.
pub proof fn lemma_first_wins_covers(m: Map<u32, XrefEntry>, s: Seq<(u32, XrefEntry)>, i: int)
    requires
        0 <= i < s.len(),
    ensures
        first_wins(m, s).contains_key(s[i].0),
    decreases s.len(),
{
    if i == s.len() - 1 {
        let m2 = first_wins(m, s.drop_last());
        if m2.contains_key(s.last().0) {
        }
    } else {
        lemma_first_wins_covers(m, s.drop_last(), i);
        assert(s.drop_last()[i] == s[i]);
        let m2 = first_wins(m, s.drop_last());
        if !m2.contains_key(s.last().0) {
            assert(m2.insert(s.last().0, s.last().1).contains_key(s[i].0));
        }
    }
}

/// Within a section, the first record of a number is the one that counts.
pub proof fn lemma_first_record_wins(m: Map<u32, XrefEntry>, s: Seq<(u32, XrefEntry)>, i: int)
    requires
        0 <= i < s.len(),
        !m.contains_key(s[i].0),
        forall|j: int| 0 <= j < i ==> s[j].0 != s[i].0,
    ensures
        first_wins(m, s)[s[i].0] == s[i].1,
    decreases s.len(),
{
    if i == s.len() - 1 {
        let m2 = first_wins(m, s.drop_last());
        assert(!m2.contains_key(s[i].0)) by {
            lemma_first_wins_absent(m, s.drop_last(), s[i].0);
        }
    } else {
        lemma_first_record_wins(m, s.drop_last(), i);
        assert(s.drop_last()[i] == s[i]);
        lemma_first_wins_covers(m, s.drop_last(), i);
        lemma_first_wins_keeps(first_wins(m, s.drop_last()), seq![s.last()], s[i].0);
        assert(seq![s.last()].drop_last() =~= Seq::<(u32, XrefEntry)>::empty());
    }
}

/// A number neither merged nor recorded stays absent.
proof fn lemma_first_wins_absent(m: Map<u32, XrefEntry>, s: Seq<(u32, XrefEntry)>, k: u32)
    requires
        !m.contains_key(k),
        forall|j: int| 0 <= j < s.len() ==> s[j].0 != k,
    ensures
        !first_wins(m, s).contains_key(k),
    decreases s.len(),
{
    if s.len() > 0 {
        lemma_first_wins_absent(m, s.drop_last(), k);
        assert(s.last().0 != k);
    }
}

/// The walk stops at an offset it has already visited (a `/Prev` cycle),
/// keeping what it has merged so far.
pub proof fn lemma_cycle_stops(
    data: Seq<u8>,
    offset: int,
    seen: Set<int>,
    acc: (Map<u32, XrefEntry>, Seq<(Seq<char>, Val)>),
)
    requires
        seen.contains(offset),
    ensures
        chain_from(data, offset, seen, acc) == Ok::<(Map<u32, XrefEntry>, Seq<(Seq<char>, Val)>), ErrorCode>(acc),
{
}

/// A trailer's `/Prev` offset (a non-negative integer that fits a `usize`).
pub open spec fn prev_spec(t: Seq<(Seq<char>, Val)>) -> Option<int> {
    match lookup(t, "Prev"@) {
        Some(Val::Integer(n)) => if 0 <= n <= usize::MAX {
            Some(n as int)
        } else {
            None
        },
        _ => None,
    }
}

/// A trailer's hybrid `/XRefStm` offset.
pub open spec fn xrefstm_spec(t: Seq<(Seq<char>, Val)>) -> Option<int> {
    match lookup(t, "XRefStm"@) {
        Some(Val::Integer(n)) => if 0 <= n <= usize::MAX {
            Some(n as int)
        } else {
            None
        },
        _ => None,
    }
}

/// The `/Prev` byte offset of an earlier section, if any.
fn prev_offset(trailer: &Dictionary) -> (r: Option<usize>)
    ensures
        match prev_spec(trailer@) {
            Some(n) => r == Some(n as usize),
            None => r is None,
        },
{
    match dict_offset(trailer, "Prev") {
        Some(n) => Some(n),
        None => None,
    }
}

/// The hybrid `/XRefStm` byte offset, if present.
fn xrefstm_offset(trailer: &Dictionary) -> (r: Option<usize>)
    ensures
        match xrefstm_spec(trailer@) {
            Some(n) => r == Some(n as usize),
            None => r is None,
        },
{
    dict_offset(trailer, "XRefStm")
}

/// A dictionary entry read as a byte offset.
fn dict_offset(d: &Dictionary, key: &str) -> (r: Option<usize>)
    ensures
        match lookup(d@, key@) {
            Some(Val::Integer(n)) => if 0 <= n <= usize::MAX {
                r == Some(n as usize)
            } else {
                r is None
            },
            _ => r is None,
        },
{
    match d.get(key) {
        Some(o) => match o.as_integer() {
            Some(n) => if 0 <= n && (n as u64) <= (usize::MAX as u64) {
                Some(n as usize)
            } else {
                None
            },
            None => None,
        },
        None => None,
    }
}

/// A section folded into the running result: older entries never overwrite
/// newer ones, and the first non-empty trailer seen is kept.
pub open spec fn merge_section_spec(
    acc: (Map<u32, XrefEntry>, Seq<(Seq<char>, Val)>),
    sec: (Seq<(u32, XrefEntry)>, Seq<(Seq<char>, Val)>),
) -> (Map<u32, XrefEntry>, Seq<(Seq<char>, Val)>) {
    (first_wins(acc.0, sec.0), if acc.1.len() == 0 { sec.1 } else { acc.1 })
}

/// A hybrid `/XRefStm` stream merged in (once; a stream that fails to parse
/// is ignored), with the offsets seen so far.
pub open spec fn hybrid_step(
    data: Seq<u8>,
    acc: (Map<u32, XrefEntry>, Seq<(Seq<char>, Val)>),
    seen: Set<int>,
    h: Option<int>,
) -> ((Map<u32, XrefEntry>, Seq<(Seq<char>, Val)>), Set<int>) {
    match h {
        None => (acc, seen),
        Some(h) => if seen.contains(h) {
            (acc, seen)
        } else {
            (
                match xref_stream_spec(data, h) {
                    Ok(s) => (first_wins(acc.0, s.0), acc.1),
                    Err(_) => acc,
                },
                seen.insert(h),
            )
        },
    }
}

/// How many in-range offsets have been seen.
pub open spec fn visited(data: Seq<u8>, seen: Set<int>) -> nat {
    vstd::set_lib::set_int_range(0, data.len() as int).intersect(seen).len()
}

/// Visiting a new in-range offset counts, and never more than the data holds.
pub proof fn lemma_visit(data: Seq<u8>, offset: int, seen: Set<int>, seen2: Set<int>)
    requires
        0 <= offset < data.len(),
        !seen.contains(offset),
        seen.insert(offset).subset_of(seen2),
    ensures
        visited(data, seen) < visited(data, seen2) <= data.len(),
{
    let r = vstd::set_lib::set_int_range(0, data.len() as int);
    vstd::set_lib::lemma_int_range(0, data.len() as int);
    let a = r.intersect(seen);
    let b = r.intersect(seen2);
    vstd::set_lib::lemma_len_subset(a, r);
    vstd::set_lib::lemma_len_subset(b, r);
    assert(a.insert(offset).subset_of(b));
    vstd::set_lib::lemma_len_subset(a.insert(offset), b);
}

/// The walk through `/Prev` links from `offset`, with the offsets seen so far
/// and the result so far. An offset seen before ends the walk (a cycle guard);
/// a section that fails to parse fails the walk.
pub open spec fn chain_from(
    data: Seq<u8>,
    offset: int,
    seen: Set<int>,
    acc: (Map<u32, XrefEntry>, Seq<(Seq<char>, Val)>),
) -> Result<(Map<u32, XrefEntry>, Seq<(Seq<char>, Val)>), ErrorCode>
    decreases data.len() - visited(data, seen),
{
    if offset < 0 || seen.contains(offset) {
        Ok(acc)
    } else {
        match section_spec(data, offset) {
            Err(e) => Err(e),
            Ok(sec) => {
                let acc1 = merge_section_spec(acc, sec);
                let (acc2, seen2) = hybrid_step(data, acc1, seen.insert(offset), xrefstm_spec(sec.1));
                match prev_spec(sec.1) {
                    None => Ok(acc2),
                    Some(p) => {
                        proof {
                            if offset >= data.len() {
                                lemma_section_in_range(data, offset);
                            }
                            lemma_visit(data, offset, seen, seen2);
                        }
                        chain_from(data, p, seen2, acc2)
                    },
                }
            },
        }
    }
}

/// The merged cross-reference table plus the document trailer.
#[derive(Debug, Clone)]
pub struct Xref {
    entries: BTreeMap<u32, XrefEntry>,
    trailer: Dictionary,
}

impl View for Xref {
    type V = (Map<u32, XrefEntry>, Seq<(Seq<char>, Val)>);

    closed spec fn view(&self) -> (Map<u32, XrefEntry>, Seq<(Seq<char>, Val)>) {
        (self.entries@, self.trailer@)
    }
}

impl Default for Xref {
    fn default() -> (r: Xref)
        ensures
            r@.0 == Map::<u32, XrefEntry>::empty(),
            r@.1.len() == 0,
    {
        Xref { entries: BTreeMap::new(), trailer: Dictionary::new() }
    }
}

impl Xref {
    /// The entry for an object number, if present.
    pub fn get(&self, num: u32) -> (r: Option<XrefEntry>)
        ensures
            r == if self@.0.contains_key(num) {
                Some(self@.0[num])
            } else {
                None::<XrefEntry>
            },
    {
        match self.entries.get(&num) {
            Some(e) => Some(*e),
            None => None,
        }
    }

    /// The merged trailer dictionary (newest section's `/Root`, `/Size`, …).
    pub fn trailer(&self) -> (r: &Dictionary)
        ensures
            r@ == self@.1,
    {
        &self.trailer
    }

    /// The number of cross-reference entries.
    pub fn len(&self) -> (r: usize)
        ensures
            r == self@.0.len(),
    {
        self.entries.len()
    }

    /// True when no entries were collected.
    pub fn is_empty(&self) -> (r: bool)
        ensures
            r == (self@.0.len() == 0),
    {
        self.entries.is_empty()
    }
}

/// The ghost mirror of the set of seen offsets stays in step with the set.
proof fn lemma_seen_insert(g: Set<int>, s: Set<usize>, k: usize)
    requires
        forall|x: int| #[trigger] g.contains(x) <==> (0 <= x <= usize::MAX && s.contains(x as usize)),
    ensures
        forall|x: int| #[trigger] g.insert(k as int).contains(x) <==> (0 <= x <= usize::MAX && s.insert(k).contains(x as usize)),
        g.contains(k as int) == s.contains(k),
{
    assert(g.contains(k as int) <==> s.contains(k));
    assert forall|x: int| #[trigger] g.insert(k as int).contains(x) <==> (0 <= x <= usize::MAX && s.insert(k).contains(x as usize)) by {
        if x != k as int {
            assert(g.contains(x) <==> (0 <= x <= usize::MAX && s.contains(x as usize)));
            if 0 <= x <= usize::MAX {
                assert((x as usize) != k);
            }
        }
    }
}

/// Walk xref sections from `start` back through `/Prev`, merging any hybrid
/// `/XRefStm` cross-reference stream attached to a classic section. The first
/// (newest) section's trailer wins; classic entries take precedence over the
/// hybrid stream's entries for the same object.
fn follow_chain(data: &[u8], start: usize) -> (r: Result<Xref, TurboParsePdfError>)
    ensures
        match chain_from(data@, start as int, Set::empty(), (Map::empty(), seq![])) {
            Ok(v) => r matches Ok(x) && x@ == v,
            Err(c) => r matches Err(e) && e.code == c,
        },
{
    let mut entries: BTreeMap<u32, XrefEntry> = BTreeMap::new();
    let mut trailer = Dictionary::new();
    let mut seen: HashSet<usize> = HashSet::new();
    let ghost mut gseen: Set<int> = Set::empty();
    let mut offset = start;
    let ghost whole = chain_from(data@, start as int, Set::empty(), (Map::empty(), seq![]));
    proof {
        assert(trailer@ =~= Seq::<(Seq<char>, Val)>::empty());
        vstd::set_lib::lemma_int_range(0, data@.len() as int);
        vstd::set_lib::lemma_len_subset(
            vstd::set_lib::set_int_range(0, data@.len() as int).intersect(gseen),
            vstd::set_lib::set_int_range(0, data@.len() as int),
        );
    }
    loop
        invariant
            whole == chain_from(data@, start as int, Set::empty(), (Map::empty(), seq![])),
            whole == chain_from(data@, offset as int, gseen, (entries@, trailer@)),
            forall|x: int| #[trigger] gseen.contains(x) <==> (0 <= x <= usize::MAX && seen@.contains(x as usize)),
            visited(data@, gseen) <= data@.len(),
        decreases data@.len() - visited(data@, gseen),
    {
        let ghost g0 = gseen;
        let ghost acc0 = (entries@, trailer@);
        proof {
            lemma_seen_insert(gseen, seen@, offset);
        }
        if !seen.insert(offset) {
            return Ok(Xref { entries, trailer });
        }
        proof {
            gseen = gseen.insert(offset as int);
        }
        let section = parse_section(data, offset)?;
        proof {
            if offset as int >= data@.len() {
                lemma_section_in_range(data@, offset as int);
            }
        }
        let ghost sec = (section.entries@, section.trailer@);
        let prev = prev_offset(&section.trailer);
        let hybrid = xrefstm_offset(&section.trailer);
        let take = trailer.is_empty();
        merge_entries(&mut entries, section.entries.as_slice());
        if take {
            trailer = section.trailer;
        }
        assert((entries@, trailer@) == merge_section_spec(acc0, sec));
        let ghost acc1 = (entries@, trailer@);
        let ghost g1 = gseen;
        match hybrid {
            Some(off) => {
                proof {
                    lemma_seen_insert(gseen, seen@, off);
                }
                if seen.insert(off) {
                    proof {
                        gseen = gseen.insert(off as int);
                    }
                    match parse_xref_stream(data, off) {
                        Ok(ss) => merge_entries(&mut entries, ss.entries.as_slice()),
                        Err(_) => {},
                    }
                }
            },
            None => {},
        }
        assert(hybrid_step(data@, acc1, g1, xrefstm_spec(sec.1)) == ((entries@, trailer@), gseen));
        match prev {
            Some(p) => {
                proof {
                    lemma_visit(data@, offset as int, g0, gseen);
                }
                offset = p;
            },
            None => {
                return Ok(Xref { entries, trailer });
            },
        }
    }
}

// ---------------------------------------------------------------- the whole file

/// The last position at or before `i` where `kw` occurs.
pub open spec fn last_occurrence(data: Seq<u8>, i: int, kw: Seq<u8>) -> Option<int>
    decreases i + 1,
{
    if i < 0 {
        None
    } else if occurs_at(data, i, kw) {
        Some(i)
    } else {
        last_occurrence(data, i - 1, kw)
    }
}

/// The byte offset declared by the file's last `startxref`.
pub open spec fn startxref_spec(data: Seq<u8>) -> Result<int, ErrorCode> {
    match last_occurrence(data, data.len() - 9, KW_STARTXREF@) {
        None => Err(ErrorCode::InvalidXref),
        Some(i) => match read_u32_spec(data, i + 9) {
            Some((v, _)) => Ok(v),
            None => Err(ErrorCode::InvalidXref),
        },
    }
}

/// The merged cross-reference table of a file: the walk from its last
/// `startxref` offset.
#[verifier::opaque]
pub open spec fn xref_spec(data: Seq<u8>) -> Result<(Map<u32, XrefEntry>, Seq<(Seq<char>, Val)>), ErrorCode> {
    match startxref_spec(data) {
        Err(c) => Err(c),
        Ok(s) => chain_from(data, s, Set::empty(), (Map::empty(), seq![])),
    }
}

/// Locate the byte offset declared by the file's last `startxref`.
fn find_startxref(data: &[u8]) -> (r: Result<usize, TurboParsePdfError>)
    ensures
        match startxref_spec(data@) {
            Ok(v) => r == Ok::<usize, TurboParsePdfError>(v as usize) && 0 <= v <= u32::MAX,
            Err(c) => r matches Err(e) && e.code == c,
        },
{
    let kw = KW_STARTXREF;
    if data.len() < 9 {
        return Err(bad_xref("no startxref"));
    }
    let n = data.len();
    let mut i: usize = n - 9;
    loop
        invariant_except_break
            last_occurrence(data@, data@.len() - 9, KW_STARTXREF@) == last_occurrence(data@, i as int, KW_STARTXREF@),
        invariant
            n == data@.len(),
            i + 9 <= n,
            kw@ == KW_STARTXREF@,
        ensures
            last_occurrence(data@, data@.len() - 9, KW_STARTXREF@) == Some(i as int),
        decreases i,
    {
        let w = vstd::slice::slice_subrange(data, i, i + 9);
        if bytes_eq(w, kw.as_slice()) {
            assert(occurs_at(data@, i as int, KW_STARTXREF@));
            break;
        }
        if i == 0 {
            assert(last_occurrence(data@, -1, KW_STARTXREF@) is None);
            return Err(bad_xref("no startxref"));
        }
        i -= 1;
    }
    let mut lx = Lexer::at(data, i + 9);
    match read_uint(&mut lx) {
        Ok(n) => Ok(n as usize),
        Err(e) => Err(e),
    }
}

/// Read and merge the full cross-reference chain for `data`.
pub fn read_xref(data: &[u8]) -> (r: Result<Xref, TurboParsePdfError>)
    ensures
        match xref_spec(data@) {
            Ok(v) => r matches Ok(x) && x@ == v,
            Err(c) => r matches Err(e) && e.code == c,
        },
{
    proof {
        reveal(xref_spec);
    }
    let start = find_startxref(data)?;
    assert(startxref_spec(data@) == Ok::<int, ErrorCode>(start as int));
    follow_chain(data, start)
}

} // verus!
