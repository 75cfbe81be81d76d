use turbo_parsepdf_core::filter::predictor::{apply, paeth, recon};
use turbo_parsepdf_core::object::Dictionary;

use turbo_parsepdf_core::object::Object;

fn parms(pairs: &[(&str, i64)]) -> Dictionary {
    let mut d = Dictionary::new();
    for &(k, v) in pairs {
        d.insert(k, Object::Integer(v));
    }
    d
}

#[test]
fn predictor_none_passes_through() {
    assert_eq!(apply(b"abc", &parms(&[])).unwrap(), b"abc");
    assert_eq!(apply(b"abc", &parms(&[("Predictor", 1)])).unwrap(), b"abc");
}

#[test]
fn tiff_horizontal_differencing() {
    // Columns 4, 1 color, 8 bpc → bpp 1, rowlen 4. Encoded diffs of [10,11,13,16].
    let encoded = [10u8, 1, 2, 3];
    let out = apply(&encoded, &parms(&[("Predictor", 2), ("Columns", 4)])).unwrap();
    assert_eq!(out, [10, 11, 13, 16]);
}

#[test]
fn png_sub_up_average_paeth() {
    // Two rows, rowlen 3, bpp 1. Row 0 Sub(1), Row 1 Up(2).
    // Row0 Sub: bytes [5,1,1] → [5,6,7]. Row1 Up of [1,0,0] over [5,6,7] → [6,6,7].
    let data = [1u8, 5, 1, 1, 2, 1, 0, 0];
    let out = apply(&data, &parms(&[("Predictor", 12), ("Columns", 3)])).unwrap();
    assert_eq!(out, [5, 6, 7, 6, 6, 7]);
}

#[test]
fn png_none_and_average_and_paeth_rows() {
    // rowlen 2 bpp 1. Row None(0): [9,9]. Row Avg(3): [1,1] over prev [9,9].
    // i0: a=0,b=9 → 1 + (0+9)/2=4 →5. i1: a=5,b=9 → 1+(5+9)/2=7 →8.
    let data = [0u8, 9, 9, 3, 1, 1];
    let out = apply(&data, &parms(&[("Predictor", 14), ("Columns", 2)])).unwrap();
    assert_eq!(out, [9, 9, 5, 8]);
    // Paeth row directly through recon.
    assert_eq!(recon(4, 0, 1, 1, 1).unwrap(), 1);
}

#[test]
fn paeth_branches() {
    assert_eq!(paeth(1, 2, 3), 1); // pa smallest → a
    assert_eq!(paeth(2, 1, 3), 1); // pb smallest → b
    assert_eq!(paeth(2, 4, 3), 3); // pc smallest → c
}

#[test]
fn unknown_filter_type_errors() {
    let data = [9u8, 0, 0]; // filter type 9 invalid
    assert!(apply(&data, &parms(&[("Predictor", 10), ("Columns", 2)])).is_err());
}

#[test]
fn empty_row_chunk_errors() {
    // png with a stride producing an empty trailing chunk is handled; a fully
    // empty input yields empty output.
    assert_eq!(
        apply(b"", &parms(&[("Predictor", 12), ("Columns", 2)])).unwrap(),
        b""
    );
}
