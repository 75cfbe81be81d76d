//! `LZWDecode`: variable-width (9–12 bit), MSB-first LZW.
//!
//! Code 256 clears the table (back to 9-bit width), 257 is end-of-data, 0..=255
//! are single-byte roots, and new strings are assigned from 258. PDF defaults to
//! `EarlyChange = 1` (widen one code early).

use vstd::prelude::*;

use crate::error::{ErrorCode, TurboParsePdfError};
use crate::object::copy_bytes;

verus! {

/// Bit `p` of the data, most significant bit of each byte first.
pub open spec fn bit_at(data: Seq<u8>, p: int) -> int {
    let byte = data[p / 8];
    let off = (7 - p % 8) as u8;
    if (byte >> off) & 1u8 == 1u8 {
        1
    } else {
        0
    }
}

/// The `width`-bit MSB-first value at bit position `p`.
pub open spec fn bits_value(data: Seq<u8>, p: int, width: int) -> int
    decreases width,
{
    if width <= 0 {
        0
    } else {
        bits_value(data, p, width - 1) * 2 + bit_at(data, p + width - 1)
    }
}

/// The table after a clear: the 256 single-byte roots plus two empty slots for
/// the CLEAR and EOD codes.
pub open spec fn initial_table() -> Seq<Seq<u8>> {
    Seq::new(258, |i: int| if i < 256 { seq![i as u8] } else { Seq::<u8>::empty() })
}

/// `2^width` for the code widths used.
pub open spec fn width_limit(width: int) -> int {
    if width <= 9 {
        512
    } else if width == 10 {
        1024
    } else if width == 11 {
        2048
    } else {
        4096
    }
}

/// The string for `code`, handling the case of a code not yet in the table
/// (the previous string plus its own first byte).
pub open spec fn resolve_spec(t: Seq<Seq<u8>>, prev: Option<int>, code: int) -> Option<Seq<u8>> {
    if 0 <= code < t.len() {
        Some(t[code])
    } else {
        match prev {
            None => None,
            Some(p) => if 0 <= p < t.len() {
                Some(t[p].push(t[p][0]))
            } else {
                None
            },
        }
    }
}

/// The table and width after adding `prev_string + entry[0]`.
pub open spec fn extend_spec(t: Seq<Seq<u8>>, width: int, early: bool, prev: Option<int>, entry: Seq<u8>) -> (Seq<Seq<u8>>, int) {
    match prev {
        Some(p) => if 0 <= p < t.len() {
            let t2 = t.push(t[p].push(entry[0]));
            let threshold = width_limit(width) - (if early { 1int } else { 0int });
            (t2, if t2.len() + 1 >= threshold && width < 12 { width + 1 } else { width })
        } else {
            (t, width)
        },
        None => (t, width),
    }
}

/// LZW decoding from bit position `bitpos` with table `t`, code width `width`,
/// previous code `prev` and output `out` so far. `None` when a code has no
/// string.
pub open spec fn lzw_spec(data: Seq<u8>, bitpos: int, t: Seq<Seq<u8>>, width: int, early: bool, prev: Option<int>, out: Seq<u8>) -> Option<Seq<u8>>
    decreases 8 * data.len() - bitpos,
{
    if bitpos < 0 || width < 1 || bitpos + width > 8 * data.len() {
        Some(out)
    } else {
        let code = bits_value(data, bitpos, width);
        let next = bitpos + width;
        if code == 257 {
            Some(out)
        } else if code == 256 {
            lzw_spec(data, next, initial_table(), 9, early, None, out)
        } else {
            match resolve_spec(t, prev, code) {
                None => None,
                Some(entry) => {
                    let (t2, w2) = extend_spec(t, width, early, prev, entry);
                    lzw_spec(data, next, t2, w2, early, Some(code), out + entry)
                },
            }
        }
    }
}

/// The strings of an executable table.
pub open spec fn table_view(t: Seq<Vec<u8>>) -> Seq<Seq<u8>> {
    t.map_values(|v: Vec<u8>| v@)
}

/// Every string but the CLEAR and EOD slots is non-empty.
pub open spec fn table_ok(t: Seq<Seq<u8>>) -> bool {
    &&& t.len() >= 258
    &&& forall|i: int| 0 <= i < t.len() && i != 256 && i != 257 ==> (#[trigger] t[i]).len() > 0
}

fn bad() -> (r: TurboParsePdfError)
    ensures
        r.code == ErrorCode::BadStream,
{
    TurboParsePdfError::new(ErrorCode::BadStream, "bad LZW data")
}

fn new_table() -> (r: Vec<Vec<u8>>)
    ensures
        table_view(r@) == initial_table(),
{
    let mut t: Vec<Vec<u8>> = Vec::with_capacity(512);
    let mut b: usize = 0;
    while b < 256
        invariant
            b <= 256,
            t@.len() == b,
            table_view(t@) == initial_table().take(b as int),
        decreases 256 - b,
    {
        let mut v: Vec<u8> = Vec::new();
        v.push(b as u8);
        assert(v@ =~= seq![b as u8]);
        let ghost old_t = t@;
        t.push(v);
        b = b + 1;
        proof {
            assert forall|i: int| 0 <= i < b implies table_view(t@)[i] == initial_table().take(b as int)[i] by {
                if i < b - 1 {
                    assert(t@[i] == old_t[i]);
                    assert(table_view(old_t)[i] == initial_table().take(b - 1)[i]);
                }
            }
            assert(table_view(t@) =~= initial_table().take(b as int));
        }
    }
    let ghost t256 = t@;
    t.push(Vec::new());
    t.push(Vec::new());
    proof {
        assert forall|i: int| 0 <= i < 258 implies table_view(t@)[i] == initial_table()[i] by {
            if i < 256 {
                assert(t@[i] == t256[i]);
                assert(table_view(t256)[i] == initial_table().take(256)[i]);
            } else {
                assert(t@[i]@ =~= Seq::<u8>::empty());
            }
        }
    }
    assert(table_view(t@) =~= initial_table());
    t
}

/// Read `width` bits MSB-first at `bitpos`, or `None` when the data is
/// exhausted.
fn read_code(data: &[u8], bitpos: u128, width: u32) -> (r: Option<u32>)
    requires
        1 <= width <= 12,
        bitpos <= 8 * data@.len(),
    ensures
        bitpos + width > 8 * data@.len() ==> r is None,
        bitpos + width <= 8 * data@.len() ==> r == Some(bits_value(data@, bitpos as int, width as int) as u32),
        r matches Some(c) ==> c < width_limit(width as int) && c == bits_value(data@, bitpos as int, width as int),
{
    let total: u128 = 8 * data.len() as u128;
    if bitpos + width as u128 > total {
        return None;
    }
    let mut value: u32 = 0;
    let mut j: u32 = 0;
    while j < width
        invariant
            j <= width <= 12,
            bitpos + width <= 8 * data@.len(),
            value == bits_value(data@, bitpos as int, j as int),
            value < pow2_u32(j as int),
            pow2_u32(j as int) <= 4096,
            data@.len() <= usize::MAX,
        decreases width - j,
    {
        proof {
            reveal_with_fuel(pow2_u32, 14);
            lemma_pow2_u32_mono(j as int + 1, 12);
        }
        let p: u128 = bitpos + j as u128;
        let byte = data[(p / 8) as usize];
        let off: u8 = (7 - p % 8) as u8;
        let bit: u8 = (byte >> off) & 1;
        proof {
            assert(bit == 0 || bit == 1) by (bit_vector)
                requires
                    bit == (byte >> off) & 1u8,
            ;
        }
        value = value * 2 + bit as u32;
        j = j + 1;
    }
    proof {
        reveal_with_fuel(pow2_u32, 14);
        assert(pow2_u32(width as int) <= width_limit(width as int));
    }
    Some(value)
}

proof fn lemma_pow2_u32_mono(a: int, b: int)
    requires
        0 <= a <= b,
    ensures
        0 < pow2_u32(a) <= pow2_u32(b),
    decreases b,
{
    if a < b {
        lemma_pow2_u32_mono(a, b - 1);
    } else if a > 0 {
        lemma_pow2_u32_mono(a - 1, a - 1);
    }
}

pub open spec fn pow2_u32(n: int) -> int
    decreases n,
{
    if n <= 0 {
        1
    } else {
        2 * pow2_u32(n - 1)
    }
}

/// Decode an LZW stream. `early_change` matches the `/DecodeParms` flag
/// (default true in PDF).
pub fn lzw_decode(data: &[u8], early_change: bool) -> (r: Result<Vec<u8>, TurboParsePdfError>)
    ensures
        match lzw_spec(data@, 0, initial_table(), 9, early_change, None, Seq::empty()) {
            Some(v) => r matches Ok(out) && out@ == v,
            None => r matches Err(e) && e.code == ErrorCode::BadStream,
        },
{
    let mut entries = new_table();
    let mut width: u32 = 9;
    let mut prev: Option<u16> = None;
    let mut out: Vec<u8> = Vec::new();
    let mut bitpos: u128 = 0;
    let _n = data.len();
    proof {
        assert(table_ok(initial_table()));
    }
    loop
        invariant
            9 <= width <= 12,
            table_ok(table_view(entries@)),
            prev matches Some(p) ==> p != 256 && p != 257,
            bitpos <= 8 * data@.len(),
            data@.len() <= usize::MAX,
            lzw_spec(data@, bitpos as int, table_view(entries@), width as int, early_change, match prev {
                Some(p) => Some(p as int),
                None => None,
            }, out@) == lzw_spec(data@, 0, initial_table(), 9, early_change, None, Seq::empty()),
        decreases 8 * data@.len() - bitpos,
    {
        let ghost tv = table_view(entries@);
        let ghost pv: Option<int> = match prev {
            Some(p) => Some(p as int),
            None => None,
        };
        let code = match read_code(data, bitpos, width) {
            None => return Ok(out),
            Some(c) => c,
        };
        bitpos = bitpos + width as u128;
        if code == 257 {
            return Ok(out);
        }
        if code == 256 {
            entries = new_table();
            width = 9;
            prev = None;
            proof {
                assert(table_ok(initial_table()));
            }
            continue;
        }
        let c = code as usize;
        let entry: Vec<u8> = if c < entries.len() {
            copy_bytes(entries[c].as_slice())
        } else {
            match prev {
                None => return Err(bad()),
                Some(p) => {
                    let pi = p as usize;
                    if pi < entries.len() {
                        assert(tv[pi as int] == entries@[pi as int]@);
                        assert(tv[pi as int].len() > 0);
                        let mut e = copy_bytes(entries[pi].as_slice());
                        let first = entries[pi][0];
                        e.push(first);
                        e
                    } else {
                        return Err(bad());
                    }
                },
            }
        };
        assert(resolve_spec(tv, pv, code as int) == Some(entry@));
        assert(entry@.len() > 0);
        let ghost before = out@;
        let mut j: usize = 0;
        while j < entry.len()
            invariant
                j <= entry@.len(),
                out@ == before + entry@.take(j as int),
            decreases entry@.len() - j,
        {
            out.push(entry[j]);
            j = j + 1;
            proof {
                assert(out@ =~= before + entry@.take(j as int));
            }
        }
        assert(entry@.take(entry@.len() as int) =~= entry@);
        match prev {
            Some(p) => {
                let pi = p as usize;
                if pi < entries.len() {
                    let mut ne = copy_bytes(entries[pi].as_slice());
                    ne.push(entry[0]);
                    let ghost nev = ne@;
                    entries.push(ne);
                    proof {
                        assert(table_view(entries@) =~= tv.push(nev));
                    }
                    let threshold: usize = match width {
                        9 => 512,
                        10 => 1024,
                        11 => 2048,
                        _ => 4096,
                    } - (if early_change { 1usize } else { 0usize });
                    if entries.len() >= threshold - 1 && width < 12 {
                        width = width + 1;
                    }
                }
            },
            None => {},
        }
        prev = Some(code as u16);
    }
}

// ---------------------------------------------------------------- encoding round trip

/// The `w` bits of `c`, most significant first.
pub open spec fn code_bits(c: int, w: int) -> Seq<bool>
    decreases w,
{
    if w <= 0 {
        seq![]
    } else {
        code_bits(c / 2, w - 1).push(c % 2 == 1)
    }
}

/// The bits of a run of `(code, width)` emissions, in order.
pub open spec fn emission_bits(e: Seq<(int, int)>) -> Seq<bool>
    decreases e.len(),
{
    if e.len() == 0 {
        seq![]
    } else {
        code_bits(e[0].0, e[0].1) + emission_bits(e.drop_first())
    }
}

/// Bit `i` of `b` as 0 or 1 (0 past the end).
pub open spec fn bit_of(b: Seq<bool>, i: int) -> u8 {
    if 0 <= i < b.len() && b[i] {
        1
    } else {
        0
    }
}

/// Byte `i` of a bit string packed MSB first, zero-filled past its end.
pub open spec fn packed_byte(b: Seq<bool>, i: int) -> u8 {
    (bit_of(b, 8 * i) * 128 + bit_of(b, 8 * i + 1) * 64 + bit_of(b, 8 * i + 2) * 32 + bit_of(b, 8 * i + 3)
        * 16 + bit_of(b, 8 * i + 4) * 8 + bit_of(b, 8 * i + 5) * 4 + bit_of(b, 8 * i + 6) * 2 + bit_of(
        b,
        8 * i + 7,
    )) as u8
}

/// A bit string packed MSB first into bytes, the last byte zero-filled.
pub open spec fn pack_bits(b: Seq<bool>) -> Seq<u8> {
    Seq::new(((b.len() + 7) / 8) as nat, |i: int| packed_byte(b, i))
}

/// The width after the table reaches `len` entries (one widening step).
pub open spec fn next_width(len: int, width: int, early: bool) -> int {
    if len + 1 >= width_limit(width) - (if early { 1int } else { 0int }) && width < 12 {
        width + 1
    } else {
        width
    }
}

/// The first index at or after `k` whose table string is `s`.
pub open spec fn find_code(t: Seq<Seq<u8>>, s: Seq<u8>, k: int) -> Option<int>
    decreases t.len() - k,
{
    if k < 0 || k >= t.len() {
        None
    } else if t[k] == s {
        Some(k)
    } else {
        find_code(t, s, k + 1)
    }
}

/// Greedy LZW emissions for the rest of the input: the current string is
/// table entry `cur`; a byte that extends it to a known string is absorbed,
/// otherwise `cur` is emitted and the extended string added. The last string
/// is followed by EOD, written in the width the reader will then use.
pub open spec fn lzw_emissions(t: Seq<Seq<u8>>, width: int, early: bool, cur: int, rest: Seq<u8>) -> Seq<(int, int)>
    decreases rest.len(),
{
    if rest.len() == 0 {
        seq![(cur, width), (257int, next_width(t.len() as int, width, early))]
    } else {
        let probe = t[cur].push(rest[0]);
        match find_code(t, probe, 0) {
            Some(i) => lzw_emissions(t, width, early, i, rest.drop_first()),
            None => seq![(cur, width)] + lzw_emissions(
                t.push(probe),
                next_width(t.len() as int, width, early),
                early,
                rest[0] as int,
                rest.drop_first(),
            ),
        }
    }
}

/// How many entries the writer's string table holds once the rest of the
/// input is encoded.
pub open spec fn lzw_final_table(t: Seq<Seq<u8>>, cur: int, rest: Seq<u8>) -> int
    decreases rest.len(),
{
    if rest.len() == 0 {
        t.len() as int
    } else {
        let probe = t[cur].push(rest[0]);
        match find_code(t, probe, 0) {
            Some(i) => lzw_final_table(t, i, rest.drop_first()),
            None => lzw_final_table(t.push(probe), rest[0] as int, rest.drop_first()),
        }
    }
}

/// The size the string table reaches while `x` is encoded.
pub open spec fn lzw_table_size(x: Seq<u8>) -> int {
    if x.len() == 0 {
        258
    } else {
        lzw_final_table(initial_table(), x[0] as int, x.drop_first())
    }
}

/// The table never shrinks, and grows by at most one entry per input byte.
proof fn lemma_final_table_bounds(t: Seq<Seq<u8>>, cur: int, rest: Seq<u8>)
    ensures
        t.len() <= lzw_final_table(t, cur, rest) <= t.len() + rest.len(),
    decreases rest.len(),
{
    if rest.len() > 0 {
        let probe = t[cur].push(rest[0]);
        match find_code(t, probe, 0) {
            Some(i) => lemma_final_table_bounds(t, i, rest.drop_first()),
            None => lemma_final_table_bounds(t.push(probe), rest[0] as int, rest.drop_first()),
        }
    }
}

/// Inputs shorter than 3839 bytes keep the table within 4096 codes.
pub proof fn lemma_short_input_table_size(x: Seq<u8>)
    requires
        x.len() < 3839,
    ensures
        lzw_table_size(x) <= 4096,
{
    if x.len() > 0 {
        lemma_final_table_bounds(initial_table(), x[0] as int, x.drop_first());
    }
}

/// The PDF LZW encoding of `x`: CLEAR, the greedy codes (9 to 12 bits, MSB
/// first, widened one code early when `early`), EOD, packed into bytes.
pub open spec fn lzw_encode_spec(x: Seq<u8>, early: bool) -> Seq<u8> {
    let body = if x.len() == 0 {
        seq![(257int, 9int)]
    } else {
        lzw_emissions(initial_table(), 9, early, x[0] as int, x.drop_first())
    };
    pack_bits(emission_bits(seq![(256int, 9int)] + body))
}

/// `code_bits(c, w)` has `w` bits.
proof fn lemma_code_bits_len(c: int, w: int)
    requires
        w >= 0,
    ensures
        code_bits(c, w).len() == w,
    decreases w,
{
    if w > 0 {
        lemma_code_bits_len(c / 2, w - 1);
    }
}

/// The eight bits of a byte assembled MSB first read back one by one.
proof fn lemma_byte_bits(y: u8, x0: u8, x1: u8, x2: u8, x3: u8, x4: u8, x5: u8, x6: u8, x7: u8)
    by (bit_vector)
    requires
        x0 <= 1 && x1 <= 1 && x2 <= 1 && x3 <= 1 && x4 <= 1 && x5 <= 1 && x6 <= 1 && x7 <= 1,
        y == x0 * 128 + x1 * 64 + x2 * 32 + x3 * 16 + x4 * 8 + x5 * 4 + x6 * 2 + x7,
    ensures
        (y >> 7u8) & 1u8 == x0,
        (y >> 6u8) & 1u8 == x1,
        (y >> 5u8) & 1u8 == x2,
        (y >> 4u8) & 1u8 == x3,
        (y >> 3u8) & 1u8 == x4,
        (y >> 2u8) & 1u8 == x5,
        (y >> 1u8) & 1u8 == x6,
        (y >> 0u8) & 1u8 == x7,
{
}

/// Each bit of a packed bit string reads back at its position.
proof fn lemma_pack_bit(b: Seq<bool>, p: int)
    requires
        0 <= p < b.len(),
    ensures
        bit_at(pack_bits(b), p) == bit_of(b, p) as int,
{
    let i = p / 8;
    let d = pack_bits(b);
    assert(d[i] == packed_byte(b, i));
    let y = packed_byte(b, i);
    lemma_byte_bits(
        y,
        bit_of(b, 8 * i),
        bit_of(b, 8 * i + 1),
        bit_of(b, 8 * i + 2),
        bit_of(b, 8 * i + 3),
        bit_of(b, 8 * i + 4),
        bit_of(b, 8 * i + 5),
        bit_of(b, 8 * i + 6),
        bit_of(b, 8 * i + 7),
    );
    assert(p == 8 * i + p % 8);
}

/// Reading `w` bits where `code_bits(c, w)` lies gives `c`.
proof fn lemma_read_code(data: Seq<u8>, p: int, c: int, w: int)
    requires
        0 <= w,
        0 <= c < pow2_u32(w),
        forall|j: int| 0 <= j < w ==> #[trigger] bit_at(data, p + j) == (if code_bits(c, w)[j] { 1int } else { 0int }),
    ensures
        bits_value(data, p, w) == c,
    decreases w,
{
    if w > 0 {
        let cb = code_bits(c, w);
        lemma_code_bits_len(c / 2, w - 1);
        assert forall|j: int| 0 <= j < w - 1 implies #[trigger] bit_at(data, p + j) == (if code_bits(c / 2, w - 1)[j] { 1int } else { 0int }) by {
            assert(bit_at(data, p + j) == (if cb[j] { 1int } else { 0int }));
        }
        lemma_read_code(data, p, c / 2, w - 1);
        assert(bit_at(data, p + w - 1) == (if cb[w - 1] { 1int } else { 0int }));
    }
}

/// The string table's shape: the 256 roots, two empty slots, then non-empty
/// strings.
pub open spec fn table_shape(t: Seq<Seq<u8>>) -> bool {
    &&& t.len() >= 258
    &&& forall|i: int| 0 <= i < 256 ==> #[trigger] t[i] == seq![i as u8]
    &&& t[256].len() == 0
    &&& t[257].len() == 0
    &&& forall|i: int| 258 <= i < t.len() ==> #[trigger] t[i].len() > 0
}

proof fn lemma_find_code(t: Seq<Seq<u8>>, s: Seq<u8>, k: int)
    requires
        0 <= k,
    ensures
        find_code(t, s, k) matches Some(i) ==> k <= i < t.len() && t[i] == s,
    decreases t.len() - k,
{
    if k < t.len() && t[k] != s {
        lemma_find_code(t, s, k + 1);
    }
}

/// The reader follows the writer: with the emissions of `(te, width, cur,
/// rest)` laid out from `bitpos`, a reader whose table lags the writer's by
/// the entry it adds on the next code decodes the current string and the rest.
#[verifier::rlimit(60)]
#[verifier::spinoff_prover]
proof fn lemma_reader_follows(
    data: Seq<u8>,
    bitpos: int,
    te: Seq<Seq<u8>>,
    td: Seq<Seq<u8>>,
    width: int,
    early: bool,
    prev: Option<int>,
    cur: int,
    rest: Seq<u8>,
    out: Seq<u8>,
)
    requires
        0 <= bitpos,
        9 <= width <= 12,
        width < 12 ==> te.len() < width_limit(width) - (if early { 1int } else { 0int }),
        lzw_final_table(te, cur, rest) <= 4096,
        table_shape(te),
        0 <= cur < te.len(),
        te[cur].len() > 0,
        prev is None ==> td == te && te.len() == 258 && width == 9,
        prev matches Some(pc) ==> 0 <= pc < td.len() && td[pc].len() > 0 && te == td.push(td[pc].push(te[cur][0])),
        bitpos + emission_bits(lzw_emissions(te, width, early, cur, rest)).len() <= 8 * data.len(),
        forall|j: int|
            0 <= j < emission_bits(lzw_emissions(te, width, early, cur, rest)).len() ==> #[trigger] bit_at(data, bitpos + j)
                == (if emission_bits(lzw_emissions(te, width, early, cur, rest))[j] { 1int } else { 0int }),
    ensures
        lzw_spec(data, bitpos, td, width, early, prev, out) == Some(out + te[cur] + rest),
    decreases rest.len(),
{
    let e = lzw_emissions(te, width, early, cur, rest);
    reveal_with_fuel(pow2_u32, 13);
    lemma_final_table_bounds(te, cur, rest);
    assert(width_limit(width) == pow2_u32(width));
    assert(cur < pow2_u32(width));
    if rest.len() > 0 {
        let probe = te[cur].push(rest[0]);
        lemma_find_code(te, probe, 0);
        match find_code(te, probe, 0) {
            Some(i) => {
                assert(te[i][0] == te[cur][0]);
                assert(out + te[i] + rest.drop_first() =~= out + te[cur] + rest);
                lemma_reader_follows(data, bitpos, te, td, width, early, prev, i, rest.drop_first(), out);
                return;
            },
            None => {},
        }
    }
    // `cur` is emitted first, at `width`.
    let tail = e.drop_first();
    assert(e[0] == (cur, width));
    let cb = code_bits(cur, width);
    lemma_code_bits_len(cur, width);
    assert(emission_bits(e) == cb + emission_bits(tail));
    assert forall|j: int| 0 <= j < width implies #[trigger] bit_at(data, bitpos + j) == (if cb[j] { 1int } else { 0int }) by {
        assert(emission_bits(e)[j] == cb[j]);
    }
    lemma_read_code(data, bitpos, cur, width);
    assert(cur != 256 && cur != 257);
    let entry = te[cur];
    assert(resolve_spec(td, prev, cur) == Some(entry)) by {
        if prev is Some {
            let pc = prev->0;
            if cur == td.len() {
                assert(entry == td[pc].push(te[cur][0]));
                assert(entry[0] == td[pc][0]);
            } else {
                assert(te[cur] == td[cur]);
            }
        }
    }
    let (t2, w2) = extend_spec(td, width, early, prev, entry);
    assert(t2 == te);
    assert(w2 == next_width(te.len() as int, width, early));
    let next = bitpos + width;
    let tb = emission_bits(tail);
    assert(emission_bits(e).len() == width + tb.len());
    assert(bits_value(data, bitpos, width) == cur);
    assert(lzw_spec(data, bitpos, td, width, early, prev, out) == lzw_spec(data, next, t2, w2, early, Some(cur), out + entry));
    assert forall|j: int| 0 <= j < tb.len() implies #[trigger] bit_at(data, next + j) == (if tb[j] { 1int } else { 0int }) by {
        assert(emission_bits(e)[width + j] == tb[j]);
        assert(bit_at(data, bitpos + (width + j)) == (if emission_bits(e)[width + j] { 1int } else { 0int }));
    }
    if rest.len() == 0 {
        // EOD follows, in the reader's new width.
        assert(tail[0] == (257int, w2));
        let eb = code_bits(257, w2);
        lemma_code_bits_len(257, w2);
        assert(tail.drop_first().len() == 0);
        assert(tb == eb + emission_bits(tail.drop_first()));
        assert(tb =~= eb);
        assert forall|j: int| 0 <= j < w2 implies #[trigger] bit_at(data, next + j) == (if eb[j] { 1int } else { 0int }) by {
            assert(tb[j] == eb[j]);
        }
        assert(257 < pow2_u32(w2));
        lemma_read_code(data, next, 257, w2);
        assert(lzw_spec(data, next, te, w2, early, Some(cur), out + entry) == Some(out + entry));
        assert(out + entry + rest =~= out + entry);
    } else {
        let b = rest[0];
        let te2 = te.push(te[cur].push(b));
        assert(tail == lzw_emissions(te2, w2, early, b as int, rest.drop_first()));
        assert(te2[b as int] == seq![b]);
        assert(table_shape(te2)) by {
            assert forall|i: int| 258 <= i < te2.len() implies #[trigger] te2[i].len() > 0 by {
                if i < te.len() {
                    assert(te2[i] == te[i]);
                }
            }
            assert forall|i: int| 0 <= i < 256 implies #[trigger] te2[i] == seq![i as u8] by {
                assert(te2[i] == te[i]);
            }
        }
        assert(te2 == te.push(te[cur].push(te2[b as int][0])));
        lemma_reader_follows(data, next, te2, te, w2, early, Some(cur), b as int, rest.drop_first(), out + entry);
        assert(out + entry + seq![b] + rest.drop_first() =~= out + entry + rest);
    }
}

/// Decoding the PDF LZW encoding of `x` gives `x` back, for every input that
/// keeps the string table within its 4096 codes (every input shorter than 3839
/// bytes does: `lemma_short_input_table_size`).
#[verifier::spinoff_prover]
pub proof fn lemma_lzw_round_trip(x: Seq<u8>, early: bool)
    requires
        lzw_table_size(x) <= 4096,
    ensures
        lzw_spec(lzw_encode_spec(x, early), 0, initial_table(), 9, early, None, Seq::empty()) == Some(x),
{
    let body = if x.len() == 0 {
        seq![(257int, 9int)]
    } else {
        lzw_emissions(initial_table(), 9, early, x[0] as int, x.drop_first())
    };
    let all = seq![(256int, 9int)] + body;
    let bits = emission_bits(all);
    let data = pack_bits(bits);
    assert(all.drop_first() =~= body);
    lemma_code_bits_len(256, 9);
    assert(bits == code_bits(256, 9) + emission_bits(body));
    assert forall|p: int| 0 <= p < bits.len() implies #[trigger] bit_at(data, p) == (if bits[p] { 1int } else { 0int }) by {
        lemma_pack_bit(bits, p);
    }
    assert(8 * data.len() >= bits.len());
    reveal_with_fuel(pow2_u32, 10);
    assert forall|j: int| 0 <= j < 9 implies #[trigger] bit_at(data, 0 + j) == (if code_bits(256, 9)[j] { 1int } else { 0int }) by {
        assert(bits[j] == code_bits(256, 9)[j]);
    }
    lemma_read_code(data, 0, 256, 9);
    let eb = emission_bits(body);
    assert forall|j: int| 0 <= j < eb.len() implies #[trigger] bit_at(data, 9 + j) == (if eb[j] { 1int } else { 0int }) by {
        assert(bits[9 + j] == eb[j]);
    }
    let t0 = initial_table();
    if x.len() == 0 {
        let cb = code_bits(257, 9);
        lemma_code_bits_len(257, 9);
        assert(body.drop_first().len() == 0);
        assert(eb == cb + emission_bits(body.drop_first()));
        assert forall|j: int| 0 <= j < 9 implies #[trigger] bit_at(data, 9 + j) == (if cb[j] { 1int } else { 0int }) by {
            assert(eb[j] == cb[j]);
        }
        lemma_read_code(data, 9, 257, 9);
        assert(lzw_spec(data, 9, t0, 9, early, None, Seq::empty()) == Some(Seq::<u8>::empty()));
        assert(x =~= Seq::<u8>::empty());
    } else {
        assert(lzw_final_table(t0, x[0] as int, x.drop_first()) <= 4096);
        assert(table_shape(t0));
        assert(t0[x[0] as int] == seq![x[0]]);
        lemma_reader_follows(data, 9, t0, t0, 9, early, None, x[0] as int, x.drop_first(), Seq::empty());
        assert(Seq::<u8>::empty() + seq![x[0]] + x.drop_first() =~= x);
    }
    assert(lzw_spec(data, 0, t0, 9, early, None, Seq::empty()) == lzw_spec(data, 9, t0, 9, early, None, Seq::empty()));
}

} // verus!
