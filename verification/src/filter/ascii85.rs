//! `ASCII85Decode`: base-85 groups → bytes.
//!
//! Five chars `!`..`u` encode four bytes; `z` is shorthand for four zero bytes;
//! whitespace is ignored; `~` terminates. A final partial group of `n` chars
//! (2..5) decodes to `n-1` bytes after padding with `u`. A group whose value
//! does not fit in 32 bits encodes no four bytes and is an error.

use vstd::prelude::*;

use crate::error::{ErrorCode, TurboParsePdfError};
use crate::lex::{is_whitespace, ws_byte};

verus! {

/// The value of a group of base-85 digits, most significant first.
pub open spec fn group_value(g: Seq<u8>) -> int
    decreases g.len(),
{
    if g.len() == 0 {
        0
    } else {
        group_value(g.drop_last()) * 85 + g.last()
    }
}

/// `85^n`.
pub open spec fn pow85(n: nat) -> int
    decreases n,
{
    if n == 0 {
        1
    } else {
        85 * pow85((n - 1) as nat)
    }
}

/// Whether a group's value fits in four bytes.
pub open spec fn fits_u32(g: Seq<u8>) -> bool {
    group_value(g) < 0x1_0000_0000
}

/// The four big-endian bytes of a 32-bit value.
pub open spec fn be_bytes4(v: int) -> Seq<u8> {
    seq![
        ((v / 0x100_0000) % 256) as u8,
        ((v / 0x1_0000) % 256) as u8,
        ((v / 0x100) % 256) as u8,
        (v % 256) as u8,
    ]
}

/// A trailing partial group padded with `u` (digit 84) to five digits.
pub open spec fn pad_group(g: Seq<u8>) -> Seq<u8> {
    g + Seq::new((5 - g.len()) as nat, |k: int| 84u8)
}

/// Flush a trailing partial group: `n` digits give `n-1` bytes; one digit is
/// an error.
pub open spec fn flush_group(out: Seq<u8>, g: Seq<u8>) -> Option<Seq<u8>> {
    if g.len() == 0 {
        Some(out)
    } else if g.len() == 1 || !fits_u32(pad_group(g)) {
        None
    } else {
        Some(out + be_bytes4(group_value(pad_group(g))).take(g.len() - 1))
    }
}

/// ASCII85 decoding from index `i`, with `out` the bytes so far and `g` the
/// pending group of digits (fewer than five).
pub open spec fn ascii85_spec(data: Seq<u8>, i: int, out: Seq<u8>, g: Seq<u8>) -> Option<Seq<u8>>
    decreases data.len() - i,
{
    if i < 0 || i >= data.len() || data[i] == 0x7e {
        flush_group(out, g)
    } else if data[i] == 0x7a {
        if g.len() == 0 {
            ascii85_spec(data, i + 1, out + seq![0u8, 0, 0, 0], g)
        } else {
            None
        }
    } else if ws_byte(data[i]) {
        ascii85_spec(data, i + 1, out, g)
    } else if data[i] < 0x21 || data[i] - 0x21 > 84 {
        None
    } else {
        let g2 = g.push((data[i] - 0x21) as u8);
        if g2.len() == 5 {
            if fits_u32(g2) {
                ascii85_spec(data, i + 1, out + be_bytes4(group_value(g2)), Seq::empty())
            } else {
                None
            }
        } else {
            ascii85_spec(data, i + 1, out, g2)
        }
    }
}

fn bad() -> (r: TurboParsePdfError)
    ensures
        r.code == ErrorCode::BadStream,
{
    TurboParsePdfError::new(ErrorCode::BadStream, "bad ASCII85 data")
}

/// The value of a digit group (at most five digits, each below 85).
fn fold_group(g: &Vec<u8>) -> (r: u64)
    requires
        g@.len() <= 5,
        forall|j: int| 0 <= j < g@.len() ==> g@[j] < 85,
    ensures
        r == group_value(g@),
{
    let mut acc: u64 = 0;
    let mut k: usize = 0;
    while k < g.len()
        invariant
            k <= g@.len() <= 5,
            forall|j: int| 0 <= j < g@.len() ==> g@[j] < 85,
            acc == group_value(g@.take(k as int)),
            acc < pow85(k as nat),
        decreases g@.len() - k,
    {
        proof {
            assert(g@.take(k + 1).drop_last() =~= g@.take(k as int));
            reveal_with_fuel(pow85, 6);
            assert(pow85(k as nat) <= pow85(4));
            assert(acc * 85 + g@[k as int] < 85 * pow85(k as nat)) by (nonlinear_arith)
                requires
                    acc < pow85(k as nat),
                    g@[k as int] < 85,
            ;
        }
        acc = acc * 85 + g[k] as u64;
        k = k + 1;
    }
    assert(g@.take(g@.len() as int) =~= g@);
    acc
}

/// Append the first `count` of the four big-endian bytes of `v`.
fn push_be(out: &mut Vec<u8>, v: u64, count: usize)
    requires
        count <= 4,
    ensures
        final(out)@ == old(out)@ + be_bytes4(v as int).take(count as int),
{
    let bytes: [u8; 4] = [
        ((v / 0x100_0000) % 256) as u8,
        ((v / 0x1_0000) % 256) as u8,
        ((v / 0x100) % 256) as u8,
        (v % 256) as u8,
    ];
    assert(bytes@ =~= be_bytes4(v as int));
    let ghost before = out@;
    let mut k: usize = 0;
    while k < count
        invariant
            k <= count <= 4,
            bytes@ == be_bytes4(v as int),
            out@ == before + be_bytes4(v as int).take(k as int),
        decreases count - k,
    {
        out.push(bytes[k]);
        k = k + 1;
        proof {
            assert(out@ =~= before + be_bytes4(v as int).take(k as int));
        }
    }
}

/// Flush a trailing partial group (`n` digits → `n-1` bytes).
fn flush_partial(out: &mut Vec<u8>, group: &Vec<u8>) -> (r: Result<(), TurboParsePdfError>)
    requires
        group@.len() < 5,
        forall|j: int| 0 <= j < group@.len() ==> group@[j] < 85,
    ensures
        match flush_group(old(out)@, group@) {
            Some(v) => r is Ok && final(out)@ == v,
            None => r matches Err(e) && e.code == ErrorCode::BadStream,
        },
{
    if group.len() == 0 {
        return Ok(());
    }
    if group.len() == 1 {
        return Err(bad());
    }
    let mut padded: Vec<u8> = Vec::new();
    let mut k: usize = 0;
    while k < 5
        invariant
            k <= 5,
            group@.len() < 5,
            forall|j: int| 0 <= j < group@.len() ==> group@[j] < 85,
            padded@ == pad_group(group@).take(k as int),
        decreases 5 - k,
    {
        if k < group.len() {
            padded.push(group[k]);
        } else {
            padded.push(84);
        }
        k = k + 1;
        proof {
            assert(padded@ =~= pad_group(group@).take(k as int));
        }
    }
    assert(pad_group(group@).take(5) =~= pad_group(group@));
    let value = fold_group(&padded);
    if value >= 0x1_0000_0000 {
        return Err(bad());
    }
    push_be(out, value, group.len() - 1);
    Ok(())
}

/// Decode ASCII85 data.
pub fn ascii85_decode(data: &[u8]) -> (r: Result<Vec<u8>, TurboParsePdfError>)
    ensures
        match ascii85_spec(data@, 0, Seq::empty(), Seq::empty()) {
            Some(v) => r matches Ok(out) && out@ == v,
            None => r matches Err(e) && e.code == ErrorCode::BadStream,
        },
{
    let mut out: Vec<u8> = Vec::new();
    let mut group: Vec<u8> = Vec::new();
    let n = data.len();
    let mut i: usize = 0;
    while i < n
        invariant
            n == data@.len(),
            i <= n,
            group@.len() < 5,
            forall|j: int| 0 <= j < group@.len() ==> group@[j] < 85,
            ascii85_spec(data@, i as int, out@, group@) == ascii85_spec(
                data@,
                0,
                Seq::empty(),
                Seq::empty(),
            ),
        decreases n - i,
    {
        let b = data[i];
        if b == 0x7e {
            match flush_partial(&mut out, &group) {
                Ok(()) => return Ok(out),
                Err(e) => return Err(e),
            }
        } else if b == 0x7a {
            if group.len() != 0 {
                return Err(bad());
            }
            let ghost before = out@;
            out.push(0);
            out.push(0);
            out.push(0);
            out.push(0);
            assert(out@ =~= before + seq![0u8, 0, 0, 0]);
        } else if !is_whitespace(b) {
            if b < 0x21 || b - 0x21 > 84 {
                return Err(bad());
            }
            group.push(b - 0x21);
            if group.len() == 5 {
                let value = fold_group(&group);
                if value >= 0x1_0000_0000 {
                    return Err(bad());
                }
                push_be(&mut out, value, 4);
                group = Vec::new();
                proof {
                    assert(be_bytes4(value as int).take(4) =~= be_bytes4(value as int));
                    assert(group@ =~= Seq::<u8>::empty());
                }
            }
        }
        i = i + 1;
    }
    match flush_partial(&mut out, &group) {
        Ok(()) => Ok(out),
        Err(e) => Err(e),
    }
}

// ---------------------------------------------------------------- encoding round trip

/// The big-endian value of four bytes.
pub open spec fn be4(b: Seq<u8>) -> int {
    b[0] * 16777216 + b[1] * 65536 + b[2] * 256 + b[3]
}

/// The five base-85 digits of a 32-bit value, most significant first.
pub open spec fn a85_digits(v: int) -> Seq<u8> {
    seq![
        ((v / 52200625) % 85) as u8,
        ((v / 614125) % 85) as u8,
        ((v / 7225) % 85) as u8,
        ((v / 85) % 85) as u8,
        (v % 85) as u8,
    ]
}

/// The five characters (`!` + digit) encoding a 32-bit value.
pub open spec fn a85_chars(v: int) -> Seq<u8> {
    a85_digits(v).map_values(|d: u8| (d + 0x21) as u8)
}

/// ASCII85 encoding (ISO 32000-1 §7.4.3, without the `z` shorthand): each
/// 4-byte group becomes five characters; a final group of `n` (1..3) bytes is
/// zero-padded, encoded, and cut to its first `n + 1` characters.
pub open spec fn ascii85_encode_spec(x: Seq<u8>) -> Seq<u8>
    decreases x.len(),
{
    if x.len() >= 4 {
        a85_chars(be4(x.take(4))) + ascii85_encode_spec(x.skip(4))
    } else if x.len() == 0 {
        seq![]
    } else {
        a85_chars(be4(x + Seq::new((4 - x.len()) as nat, |i: int| 0u8))).take(x.len() + 1int)
    }
}

/// The value of five digits, unfolded.
proof fn lemma_group_value5(g: Seq<u8>)
    requires
        g.len() == 5,
    ensures
        group_value(g) == (((g[0] * 85 + g[1]) * 85 + g[2]) * 85 + g[3]) * 85 + g[4],
{
    let g4 = g.drop_last();
    let g3 = g4.drop_last();
    let g2 = g3.drop_last();
    let g1 = g2.drop_last();
    let g0 = g1.drop_last();
    assert(g4 =~= g.subrange(0, 4));
    assert(g3 =~= g.subrange(0, 3));
    assert(g2 =~= g.subrange(0, 2));
    assert(g1 =~= g.subrange(0, 1));
    assert(g0.len() == 0);
    assert(group_value(g0) == 0);
    assert(group_value(g1) == g[0] as int);
    assert(group_value(g2) == g[0] * 85 + g[1]);
    assert(group_value(g3) == (g[0] * 85 + g[1]) * 85 + g[2]);
    assert(group_value(g4) == ((g[0] * 85 + g[1]) * 85 + g[2]) * 85 + g[3]);
}

/// Digit prefixes are the value divided by the remaining powers of 85.
proof fn lemma_digit_prefixes(v: int)
    requires
        0 <= v < 0x1_0000_0000,
    ensures
        (v / 52200625) % 85 == v / 52200625,
        (v / 52200625) * 85 + (v / 614125) % 85 == v / 614125,
        (v / 614125) * 85 + (v / 7225) % 85 == v / 7225,
        (v / 7225) * 85 + (v / 85) % 85 == v / 85,
        (v / 85) * 85 + v % 85 == v,
{
    assert((v / 52200625) % 85 == v / 52200625) by (nonlinear_arith)
        requires 0 <= v < 0x1_0000_0000;
    assert((v / 52200625) * 85 + (v / 614125) % 85 == v / 614125) by (nonlinear_arith)
        requires 0 <= v;
    assert((v / 614125) * 85 + (v / 7225) % 85 == v / 7225) by (nonlinear_arith)
        requires 0 <= v;
    assert((v / 7225) * 85 + (v / 85) % 85 == v / 85) by (nonlinear_arith)
        requires 0 <= v;
    assert((v / 85) * 85 + v % 85 == v) by (nonlinear_arith)
        requires 0 <= v;
}

/// A full group: its five digits read back as its value, which fits in 32
/// bits and whose four big-endian bytes are the group.
proof fn lemma_full_group(b: Seq<u8>)
    requires
        b.len() == 4,
    ensures
        group_value(a85_digits(be4(b))) == be4(b),
        fits_u32(a85_digits(be4(b))),
        be_bytes4(be4(b)) == b,
{
    let v = be4(b);
    assert(0 <= v < 0x1_0000_0000);
    lemma_group_value5(a85_digits(v));
    lemma_digit_prefixes(v);
    let (b0, b1, b2, b3) = (b[0] as int, b[1] as int, b[2] as int, b[3] as int);
    assert((v / 0x100_0000) % 256 == b0 && (v / 0x1_0000) % 256 == b1 && (v / 0x100) % 256 == b2 && v % 256 == b3) by (nonlinear_arith)
        requires
            v == b0 * 16777216 + b1 * 65536 + b2 * 256 + b3,
            0 <= b0 < 256,
            0 <= b1 < 256,
            0 <= b2 < 256,
            0 <= b3 < 256,
    ;
    assert(be_bytes4(v) =~= b);
}

/// A final group of `n` (1..3) bytes, encoded to `n + 1` digits and padded
/// back with `u`, fits in 32 bits and its first `n` bytes are the group.
proof fn lemma_partial_group(x: Seq<u8>)
    requires
        1 <= x.len() <= 3,
    ensures
        ({
            let p = x + Seq::new((4 - x.len()) as nat, |i: int| 0u8);
            let g = pad_group(a85_digits(be4(p)).take(x.len() + 1int));
            &&& fits_u32(g)
            &&& be_bytes4(group_value(g)).take(x.len() as int) == x
        }),
{
    let n = x.len() as int;
    let p = x + Seq::new((4 - x.len()) as nat, |i: int| 0u8);
    let v = be4(p);
    let d = a85_digits(v);
    let g = pad_group(d.take(n + 1));
    assert(g.len() == 5);
    lemma_group_value5(g);
    lemma_digit_prefixes(v);
    let gv = group_value(g);
    let x0 = x[0] as int;
    if n == 1 {
        assert(g =~= seq![d[0], d[1], 84u8, 84u8, 84u8]);
        assert(gv == (v / 614125) * 614125 + 614124);
        assert(v == x0 * 16777216);
        assert(gv < 0x1_0000_0000 && (gv / 0x100_0000) % 256 == x0) by (nonlinear_arith)
            requires
                gv == (v / 614125) * 614125 + 614124,
                v == x0 * 16777216,
                0 <= x0 < 256,
        ;
        assert(be_bytes4(gv).take(1) =~= x);
    } else if n == 2 {
        let x1 = x[1] as int;
        assert(g =~= seq![d[0], d[1], d[2], 84u8, 84u8]);
        assert(gv == (v / 7225) * 7225 + 7224);
        assert(v == x0 * 16777216 + x1 * 65536);
        assert(gv < 0x1_0000_0000 && (gv / 0x100_0000) % 256 == x0 && (gv / 0x1_0000) % 256 == x1) by (nonlinear_arith)
            requires
                gv == (v / 7225) * 7225 + 7224,
                v == x0 * 16777216 + x1 * 65536,
                0 <= x0 < 256,
                0 <= x1 < 256,
        ;
        assert(be_bytes4(gv).take(2) =~= x);
    } else {
        let x1 = x[1] as int;
        let x2 = x[2] as int;
        assert(g =~= seq![d[0], d[1], d[2], d[3], 84u8]);
        assert(gv == (v / 85) * 85 + 84);
        assert(v == x0 * 16777216 + x1 * 65536 + x2 * 256);
        assert(gv < 0x1_0000_0000 && (gv / 0x100_0000) % 256 == x0 && (gv / 0x1_0000) % 256 == x1 && (gv / 0x100) % 256 == x2) by (nonlinear_arith)
            requires
                gv == (v / 85) * 85 + 84,
                v == x0 * 16777216 + x1 * 65536 + x2 * 256,
                0 <= x0 < 256,
                0 <= x1 < 256,
                0 <= x2 < 256,
        ;
        assert(be_bytes4(gv).take(3) =~= x);
    }
}

/// Reading digit characters (each `!` + a digit) while the group has room
/// just collects the digits.
proof fn lemma_read_digits(data: Seq<u8>, i: int, out: Seq<u8>, g: Seq<u8>, ds: Seq<u8>)
    requires
        0 <= i,
        i + ds.len() <= data.len(),
        g.len() + ds.len() <= 4,
        forall|j: int| 0 <= j < ds.len() ==> #[trigger] ds[j] < 85 && data[i + j] == (ds[j] + 0x21) as u8,
    ensures
        ascii85_spec(data, i, out, g) == ascii85_spec(data, i + ds.len(), out, g + ds),
    decreases ds.len(),
{
    if ds.len() == 0 {
        assert(g + ds =~= g);
    } else {
        assert(ds[0] < 85 && data[i + 0] == (ds[0] + 0x21) as u8);
        assert(data[i] - 0x21 == ds[0]);
        let rest = ds.drop_first();
        assert forall|j: int| 0 <= j < rest.len() implies #[trigger] rest[j] < 85 && data[(i + 1) + j] == (rest[j] + 0x21) as u8 by {
            assert(ds[j + 1] < 85 && data[i + (j + 1)] == (ds[j + 1] + 0x21) as u8);
        }
        lemma_read_digits(data, i + 1, out, g.push(ds[0]), rest);
        assert(g.push(ds[0]) + rest =~= g + ds);
    }
}

/// The characters of a 32-bit value are digit characters of its digits.
proof fn lemma_chars_digits(v: int)
    ensures
        forall|j: int| 0 <= j < 5 ==> #[trigger] a85_digits(v)[j] < 85 && a85_chars(v)[j] == (a85_digits(v)[j] + 0x21) as u8,
        a85_chars(v).len() == 5,
{
}

/// A full group's five characters decode to its four bytes.
proof fn lemma_decode_full(data: Seq<u8>, i: int, out: Seq<u8>, b: Seq<u8>)
    requires
        b.len() == 4,
        0 <= i,
        i + 5 <= data.len(),
        data.subrange(i, i + 5) == a85_chars(be4(b)),
    ensures
        ascii85_spec(data, i, out, seq![]) == ascii85_spec(data, i + 5, out + b, seq![]),
{
    let v = be4(b);
    let d = a85_digits(v);
    lemma_chars_digits(v);
    lemma_full_group(b);
    let d4 = d.take(4);
    assert forall|j: int| 0 <= j < d4.len() implies #[trigger] d4[j] < 85 && data[i + j] == (d4[j] + 0x21) as u8 by {
        assert(data.subrange(i, i + 5)[j] == data[i + j]);
    }
    lemma_read_digits(data, i, out, seq![], d4);
    assert(Seq::<u8>::empty() + d4 =~= d4);
    let c = data[i + 4];
    assert(data.subrange(i, i + 5)[4] == c);
    assert(c - 0x21 == d[4]);
    assert(d4.push(d[4]) =~= d);
}

/// A final group of `n` bytes, as its `n + 1` characters followed by `~`,
/// decodes to those bytes.
proof fn lemma_decode_partial(data: Seq<u8>, i: int, out: Seq<u8>, x: Seq<u8>)
    requires
        1 <= x.len() <= 3,
        0 <= i,
        i + x.len() + 1 < data.len(),
        data.subrange(i, i + x.len() + 1) == a85_chars(be4(x + Seq::new((4 - x.len()) as nat, |k: int| 0u8))).take(
            x.len() + 1int,
        ),
        data[i + x.len() + 1] == 0x7e,
    ensures
        ascii85_spec(data, i, out, seq![]) == Some(out + x),
{
    let n = x.len() as int;
    let v = be4(x + Seq::new((4 - x.len()) as nat, |k: int| 0u8));
    let d = a85_digits(v);
    lemma_chars_digits(v);
    lemma_partial_group(x);
    let dn = d.take(n + 1);
    assert forall|j: int| 0 <= j < dn.len() implies #[trigger] dn[j] < 85 && data[i + j] == (dn[j] + 0x21) as u8 by {
        assert(data.subrange(i, i + n + 1)[j] == data[i + j]);
    }
    lemma_read_digits(data, i, out, seq![], dn);
    assert(Seq::<u8>::empty() + dn =~= dn);
}

/// Decoding an encoding placed after `pre` and followed by `~>`.
proof fn lemma_decode_encoding(pre: Seq<u8>, x: Seq<u8>, out: Seq<u8>)
    ensures
        ascii85_spec(pre + ascii85_encode_spec(x) + seq![0x7eu8, 0x3eu8], pre.len() as int, out, seq![]) == Some(out + x),
    decreases x.len(),
{
    let enc = ascii85_encode_spec(x);
    let data = pre + enc + seq![0x7eu8, 0x3eu8];
    let i = pre.len() as int;
    if x.len() >= 4 {
        let b = x.take(4);
        let rest = x.skip(4);
        let head = a85_chars(be4(b));
        lemma_chars_digits(be4(b));
        assert(enc == head + ascii85_encode_spec(rest));
        assert(data.subrange(i, i + 5) =~= head);
        lemma_decode_full(data, i, out, b);
        let pre2 = pre + head;
        assert(data =~= pre2 + ascii85_encode_spec(rest) + seq![0x7eu8, 0x3eu8]);
        lemma_decode_encoding(pre2, rest, out + b);
        assert(out + b + rest =~= out + x);
    } else if x.len() == 0 {
        assert(enc.len() == 0);
        assert(data[i] == 0x7e);
        assert(out + x =~= out);
    } else {
        let n = x.len() as int;
        lemma_chars_digits(be4(x + Seq::new((4 - x.len()) as nat, |k: int| 0u8)));
        assert(enc.len() == n + 1);
        assert(data.subrange(i, i + n + 1) =~= enc);
        assert(data[i + n + 1] == 0x7e);
        lemma_decode_partial(data, i, out, x);
    }
}

/// ASCII85 decoding inverts ASCII85 encoding: for every byte string `x`, the
/// encoding of `x` followed by `~>` decodes to `x` (full groups give four
/// bytes each; a final group of `n + 1` characters gives `n` bytes).
pub proof fn lemma_ascii85_round_trip(x: Seq<u8>)
    ensures
        ascii85_spec(ascii85_encode_spec(x) + seq![0x7eu8, 0x3eu8], 0, seq![], seq![]) == Some(x),
{
    lemma_decode_encoding(seq![], x, seq![]);
    assert(Seq::<u8>::empty() + ascii85_encode_spec(x) + seq![0x7eu8, 0x3eu8] =~= ascii85_encode_spec(x) + seq![0x7eu8, 0x3eu8]);
    assert(Seq::<u8>::empty() + x =~= x);
}

/// `z` between groups stands for four zero bytes; whitespace is skipped.
pub proof fn lemma_ascii85_z_and_whitespace(data: Seq<u8>, i: int, out: Seq<u8>)
    requires
        0 <= i < data.len(),
    ensures
        data[i] == 0x7a ==> ascii85_spec(data, i, out, seq![]) == ascii85_spec(data, i + 1, out + seq![0u8, 0, 0, 0], seq![]),
        ws_byte(data[i]) ==> ascii85_spec(data, i, out, seq![]) == ascii85_spec(data, i + 1, out, seq![]),
{
}

} // verus!
