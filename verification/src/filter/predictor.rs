//! Predictor post-processing for `FlateDecode` / `LZWDecode` (the PNG/TIFF
//! predictors from `/DecodeParms`).
//!
//! `Predictor` 1 (or absent) is a no-op; 2 is TIFF horizontal differencing;
//! 10..=15 are the PNG row filters (each row carries a leading filter-type
//! byte). Geometry comes from `Colors` (1), `BitsPerComponent` (8) and
//! `Columns` (1).

use vstd::prelude::*;

use crate::error::{ErrorCode, TurboParsePdfError};
use crate::object::{copy_bytes, lookup, Dictionary, Val};

verus! {

/// The Paeth predictor (PNG spec): pick a, b, or c nearest to a+b-c.
pub open spec fn paeth_spec(a: u8, b: u8, c: u8) -> u8 {
    let p = a + b - c;
    let pa = if p - a >= 0 { p - a } else { a - p };
    let pb = if p - b >= 0 { p - b } else { b - p };
    let pc = if p - c >= 0 { p - c } else { c - p };
    if pa <= pb && pa <= pc {
        a
    } else if pb <= pc {
        b
    } else {
        c
    }
}

/// One reconstructed byte for a PNG filter type (`None` for an unknown type).
pub open spec fn recon_spec(ftype: u8, x: u8, a: u8, b: u8, c: u8) -> Option<u8> {
    if ftype == 0 {
        Some(x)
    } else if ftype == 1 {
        Some(((x + a) % 256) as u8)
    } else if ftype == 2 {
        Some(((x + b) % 256) as u8)
    } else if ftype == 3 {
        Some(((x + (a + b) / 2) % 256) as u8)
    } else if ftype == 4 {
        Some(((x + paeth_spec(a, b, c)) % 256) as u8)
    } else {
        None
    }
}

/// The Paeth predictor (PNG spec): pick a, b, or c nearest to a+b-c.
pub fn paeth(a: u8, b: u8, c: u8) -> (r: u8)
    ensures
        r == paeth_spec(a, b, c),
{
    let ai = a as i32;
    let bi = b as i32;
    let ci = c as i32;
    let p = ai + bi - ci;
    let pa = if p - ai >= 0 { p - ai } else { ai - p };
    let pb = if p - bi >= 0 { p - bi } else { bi - p };
    let pc = if p - ci >= 0 { p - ci } else { ci - p };
    if pa <= pb && pa <= pc {
        a
    } else if pb <= pc {
        b
    } else {
        c
    }
}

/// Reconstruct one byte for the given PNG filter type.
pub fn recon(ftype: u8, x: u8, a: u8, b: u8, c: u8) -> (r: Result<u8, TurboParsePdfError>)
    ensures
        match recon_spec(ftype, x, a, b, c) {
            Some(v) => r == Ok::<u8, TurboParsePdfError>(v),
            None => r matches Err(e) && e.code == ErrorCode::BadStream,
        },
{
    if ftype == 0 {
        Ok(x)
    } else if ftype == 1 {
        Ok(((x as u16 + a as u16) % 256) as u8)
    } else if ftype == 2 {
        Ok(((x as u16 + b as u16) % 256) as u8)
    } else if ftype == 3 {
        Ok(((x as u16 + (a as u16 + b as u16) / 2) % 256) as u8)
    } else if ftype == 4 {
        Ok(((x as u16 + paeth(a, b, c) as u16) % 256) as u8)
    } else {
        Err(TurboParsePdfError::new(ErrorCode::BadStream, "bad predictor row filter"))
    }
}

/// The TIFF-reconstructed byte at `k`: each component adds the one `bpp` to its
/// left within the same row of `rowlen` bytes.
pub open spec fn tiff_at(data: Seq<u8>, bpp: int, rowlen: int, k: int) -> u8
    decreases k,
{
    if k < 0 || rowlen <= 0 || bpp <= 0 || k < bpp || k % rowlen < bpp {
        data[k]
    } else {
        ((data[k] + tiff_at(data, bpp, rowlen, k - bpp)) % 256) as u8
    }
}

/// TIFF predictor 2: horizontal differencing (byte-aligned components).
pub fn tiff(data: &[u8], bpp: usize, rowlen: usize) -> (r: Vec<u8>)
    requires
        bpp >= 1,
        rowlen >= 1,
    ensures
        r@.len() == data@.len(),
        forall|k: int| 0 <= k < data@.len() ==> r@[k] == tiff_at(data@, bpp as int, rowlen as int, k),
{
    let n = data.len();
    let mut out: Vec<u8> = Vec::with_capacity(n);
    let mut k: usize = 0;
    while k < n
        invariant
            n == data@.len(),
            bpp >= 1,
            rowlen >= 1,
            k <= n,
            out@.len() == k,
            forall|j: int| 0 <= j < k ==> out@[j] == tiff_at(data@, bpp as int, rowlen as int, j),
        decreases n - k,
    {
        let v = if k < bpp || k % rowlen < bpp {
            data[k]
        } else {
            ((data[k] as u16 + out[k - bpp] as u16) % 256) as u8
        };
        out.push(v);
        k = k + 1;
    }
    out
}

/// The PNG-reconstructed byte `i` of a row with filter `ftype`, filtered bytes
/// `body` and previous row `prev` (bytes outside a row count as zero).
pub open spec fn png_byte(ftype: u8, body: Seq<u8>, prev: Seq<u8>, bpp: int, i: int) -> u8
    decreases i,
{
    let a = if i >= bpp && bpp > 0 && i - bpp >= 0 {
        png_byte(ftype, body, prev, bpp, i - bpp)
    } else {
        0u8
    };
    let b = if 0 <= i < prev.len() {
        prev[i]
    } else {
        0u8
    };
    let c = if i >= bpp && 0 <= i - bpp < prev.len() {
        prev[i - bpp]
    } else {
        0u8
    };
    match recon_spec(ftype, body[i], a, b, c) {
        Some(v) => v,
        None => 0u8,
    }
}

/// One reconstructed PNG row (`None` for an unknown filter type on a non-empty
/// row).
pub open spec fn png_row_spec(ftype: u8, body: Seq<u8>, prev: Seq<u8>, bpp: int) -> Option<Seq<u8>> {
    if body.len() > 0 && ftype > 4 {
        None
    } else {
        Some(Seq::new(body.len(), |i: int| png_byte(ftype, body, prev, bpp, i)))
    }
}

/// PNG reconstruction of rows of `rowlen + 1` bytes (filter byte first) from
/// `pos`, `prev` the previous reconstructed row and `out` the output so far.
pub open spec fn png_spec(data: Seq<u8>, bpp: int, rowlen: int, pos: int, prev: Seq<u8>, out: Seq<u8>) -> Option<Seq<u8>>
    decreases data.len() - pos,
{
    if pos < 0 || pos >= data.len() || rowlen < 1 {
        Some(out)
    } else {
        let end = if pos + rowlen + 1 <= data.len() { pos + rowlen + 1 } else { data.len() as int };
        let chunk = data.subrange(pos, end);
        match png_row_spec(chunk[0], chunk.drop_first(), prev, bpp) {
            None => None,
            Some(row) => png_spec(data, bpp, rowlen, end, row, out + row),
        }
    }
}

/// Reconstruct one PNG row from its filter-type byte and the previous row.
fn png_row(chunk: &[u8], prev: &Vec<u8>, bpp: usize) -> (r: Result<Vec<u8>, TurboParsePdfError>)
    requires
        chunk@.len() >= 1,
        bpp >= 1,
    ensures
        match png_row_spec(chunk@[0], chunk@.drop_first(), prev@, bpp as int) {
            Some(v) => r matches Ok(row) && row@ == v,
            None => r matches Err(e) && e.code == ErrorCode::BadStream,
        },
{
    let ftype = chunk[0];
    let ghost body = chunk@.drop_first();
    let n = chunk.len() - 1;
    let mut row: Vec<u8> = Vec::with_capacity(n);
    let mut i: usize = 0;
    while i < n
        invariant
            n == body.len(),
            n + 1 == chunk@.len(),
            body == chunk@.drop_first(),
            ftype == chunk@[0],
            bpp >= 1,
            i <= n,
            row@.len() == i,
            i > 0 ==> ftype <= 4,
            forall|j: int| 0 <= j < i ==> row@[j] == png_byte(ftype, body, prev@, bpp as int, j),
        decreases n - i,
    {
        let a = if i >= bpp {
            row[i - bpp]
        } else {
            0
        };
        let b = if i < prev.len() {
            prev[i]
        } else {
            0
        };
        let c = if i >= bpp && i - bpp < prev.len() {
            prev[i - bpp]
        } else {
            0
        };
        let x = chunk[i + 1];
        assert(body[i as int] == x);
        let v = match recon(ftype, x, a, b, c) {
            Ok(v) => v,
            Err(e) => return Err(e),
        };
        row.push(v);
        i = i + 1;
    }
    proof {
        assert(row@ =~= Seq::new(body.len(), |j: int| png_byte(ftype, body, prev@, bpp as int, j)));
    }
    Ok(row)
}

/// PNG predictors 10..=15: per-row filter-type byte + reconstruction.
pub fn png(data: &[u8], bpp: usize, rowlen: usize) -> (r: Result<Vec<u8>, TurboParsePdfError>)
    requires
        bpp >= 1,
        1 <= rowlen < usize::MAX,
    ensures
        match png_spec(data@, bpp as int, rowlen as int, 0, Seq::new(rowlen as nat, |i: int| 0u8), Seq::empty()) {
            Some(v) => r matches Ok(out) && out@ == v,
            None => r matches Err(e) && e.code == ErrorCode::BadStream,
        },
{
    let stride = rowlen + 1;
    let n = data.len();
    let mut out: Vec<u8> = Vec::new();
    let mut prev: Vec<u8> = Vec::new();
    let mut k: usize = 0;
    while k < rowlen
        invariant
            k <= rowlen,
            prev@ == Seq::new(k as nat, |i: int| 0u8),
        decreases rowlen - k,
    {
        prev.push(0);
        k = k + 1;
        proof {
            assert(prev@ =~= Seq::new(k as nat, |i: int| 0u8));
        }
    }
    let mut pos: usize = 0;
    while pos < n
        invariant
            n == data@.len(),
            stride == rowlen + 1,
            bpp >= 1,
            rowlen >= 1,
            pos <= n,
            png_spec(data@, bpp as int, rowlen as int, pos as int, prev@, out@) == png_spec(
                data@,
                bpp as int,
                rowlen as int,
                0,
                Seq::new(rowlen as nat, |i: int| 0u8),
                Seq::empty(),
            ),
        decreases n - pos,
    {
        let end = if stride <= n - pos {
            pos + stride
        } else {
            n
        };
        let chunk = vstd::slice::slice_subrange(data, pos, end);
        let row = match png_row(chunk, &prev, bpp) {
            Ok(r) => r,
            Err(e) => return Err(e),
        };
        let mut j: usize = 0;
        let ghost before = out@;
        while j < row.len()
            invariant
                j <= row@.len(),
                out@ == before + row@.take(j as int),
            decreases row@.len() - j,
        {
            out.push(row[j]);
            j = j + 1;
            proof {
                assert(out@ =~= before + row@.take(j as int));
            }
        }
        assert(row@.take(row@.len() as int) =~= row@);
        prev = row;
        pos = end;
    }
    Ok(out)
}

/// An integer parameter of a `/DecodeParms` dictionary, or `default`.
pub open spec fn param_int(parms: Seq<(Seq<char>, Val)>, key: Seq<char>, default: int) -> int {
    match lookup(parms, key) {
        Some(Val::Integer(n)) => n as int,
        _ => default,
    }
}

fn int_param(parms: &Dictionary, key: &str, default: i64) -> (r: i64)
    ensures
        r == param_int(parms@, key@, default as int),
{
    match parms.get(key) {
        Some(o) => match o.as_integer() {
            Some(n) => n,
            None => default,
        },
        None => default,
    }
}

/// `ceil(x / 8)`, at least 1.
pub open spec fn bytes_for_bits(x: int) -> int {
    let b = (x + 7) / 8;
    if b < 1 {
        1
    } else {
        b
    }
}

/// The predictor geometry `(bpp, rowlen)` for the parameters, `None` when the
/// arithmetic leaves `usize`.
pub open spec fn predictor_geometry(parms: Seq<(Seq<char>, Val)>) -> Option<(int, int)> {
    let colors = if param_int(parms, "Colors"@, 1) < 1 { 1 } else { param_int(parms, "Colors"@, 1) };
    let bpc = if param_int(parms, "BitsPerComponent"@, 8) < 1 { 1 } else { param_int(parms, "BitsPerComponent"@, 8) };
    let columns = if param_int(parms, "Columns"@, 1) < 1 { 1 } else { param_int(parms, "Columns"@, 1) };
    if colors * bpc * columns + 8 > usize::MAX {
        None
    } else {
        Some((bytes_for_bits(colors * bpc), bytes_for_bits(colors * bpc * columns)))
    }
}

/// The bytes after applying the predictor described by `parms`: unchanged for
/// `Predictor` 1 or less, TIFF differencing for 2, PNG rows otherwise.
pub open spec fn predictor_spec(data: Seq<u8>, parms: Seq<(Seq<char>, Val)>) -> Option<Seq<u8>> {
    let predictor = param_int(parms, "Predictor"@, 1);
    if predictor <= 1 {
        Some(data)
    } else {
        match predictor_geometry(parms) {
            None => None,
            Some((bpp, rowlen)) => if predictor == 2 {
                Some(Seq::new(data.len(), |k: int| tiff_at(data, bpp, rowlen, k)))
            } else {
                png_spec(data, bpp, rowlen, 0, Seq::new(rowlen as nat, |i: int| 0u8), Seq::empty())
            },
        }
    }
}

fn clamp_one(v: i64) -> (r: i64)
    ensures
        r == if v < 1 { 1 } else { v },
{
    if v < 1 {
        1
    } else {
        v
    }
}

/// Apply the predictor described by `parms` to already-decompressed `data`.
/// Geometry whose arithmetic leaves `usize` is reported as bad stream data.
pub fn apply(data: &[u8], parms: &Dictionary) -> (r: Result<Vec<u8>, TurboParsePdfError>)
    ensures
        match predictor_spec(data@, parms@) {
            Some(v) => r matches Ok(out) && out@ == v,
            None => r matches Err(e) && e.code == ErrorCode::BadStream,
        },
{
    let predictor = int_param(parms, "Predictor", 1);
    if predictor <= 1 {
        return Ok(copy_bytes(data));
    }
    let colors = clamp_one(int_param(parms, "Colors", 1));
    let bpc = clamp_one(int_param(parms, "BitsPerComponent", 8));
    let columns = clamp_one(int_param(parms, "Columns", 1));
    let limit: u128 = usize::MAX as u128;
    proof {
        assert(colors * bpc <= 0x7fff_ffff_ffff_ffff * 0x7fff_ffff_ffff_ffff) by (nonlinear_arith)
            requires
                1 <= colors <= 0x7fff_ffff_ffff_ffff,
                1 <= bpc <= 0x7fff_ffff_ffff_ffff,
        ;
    }
    let cb: u128 = colors as u128 * bpc as u128;
    if cb + 8 > limit {
        proof {
            assert(colors * bpc * columns + 8 > usize::MAX) by (nonlinear_arith)
                requires
                    columns >= 1,
                    colors * bpc >= 0,
                    colors * bpc + 8 > usize::MAX,
            ;
        }
        return Err(TurboParsePdfError::new(ErrorCode::BadStream, "predictor geometry too large"));
    }
    proof {
        assert(cb * columns <= 0xffff_ffff_ffff_ffff * 0x7fff_ffff_ffff_ffff) by (nonlinear_arith)
            requires
                cb <= 0xffff_ffff_ffff_ffff,
                1 <= columns <= 0x7fff_ffff_ffff_ffff,
        ;
    }
    if (cb * columns as u128) + 8 > limit {
        return Err(TurboParsePdfError::new(ErrorCode::BadStream, "predictor geometry too large"));
    }
    let cbu = cb as usize;
    let bits = (cb * columns as u128) as usize;
    let bpp0 = (cbu + 7) / 8;
    let bpp = if bpp0 < 1 { 1 } else { bpp0 };
    let rl0 = (bits + 7) / 8;
    let rowlen = if rl0 < 1 { 1 } else { rl0 };
    if predictor == 2 {
        let out = tiff(data, bpp, rowlen);
        assert(out@ =~= Seq::new(data@.len(), |k: int| tiff_at(data@, bpp as int, rowlen as int, k)));
        Ok(out)
    } else {
        png(data, bpp, rowlen)
    }
}

} // verus!
