use turbo_parsepdf_core::error::{ErrorCode, TurboParsePdfError};
use turbo_parsepdf_core::filter::{decode_stream, early_change, one_then_none, parm_of};
use turbo_parsepdf_core::object::{Dictionary, Object};

type Result<T> = std::result::Result<T, TurboParsePdfError>;

fn stream(filter: Object, parms: Option<Object>, raw: &[u8]) -> Result<Vec<u8>> {
    let mut d = Dictionary::new();
    d.insert("Filter", filter);
    if let Some(p) = parms {
        d.insert("DecodeParms", p);
    }
    decode_stream(&d, raw)
}

const HI_ZLIB: [u8; 13] = [
    0x78, 0x9c, 0x01, 0x02, 0x00, 0xfd, 0xff, b'H', b'i', 0x00, 0x62, 0x00, 0x62,
];

#[test]
fn no_filter_returns_raw() {
    assert_eq!(
        decode_stream(&Dictionary::new(), b"plain").unwrap(),
        b"plain"
    );
}

#[test]
fn flate_and_abbreviation() {
    assert_eq!(
        stream(Object::Name("FlateDecode".into()), None, &HI_ZLIB).unwrap(),
        b"Hi"
    );
    assert_eq!(
        stream(Object::Name("Fl".into()), None, &HI_ZLIB).unwrap(),
        b"Hi"
    );
}

#[test]
fn ascii_filters() {
    assert_eq!(
        stream(Object::Name("ASCIIHexDecode".into()), None, b"4869>").unwrap(),
        b"Hi"
    );
    assert_eq!(
        stream(Object::Name("ASCII85Decode".into()), None, b"9jqo^~>").unwrap(),
        b"Man "
    );
    assert_eq!(
        stream(
            Object::Name("RunLengthDecode".into()),
            None,
            &[2, b'a', b'b', b'c', 128]
        )
        .unwrap(),
        b"abc"
    );
}

#[test]
fn image_filters_pass_through() {
    let jpeg = [0xff, 0xd8, 0xff, 0xe0];
    assert_eq!(
        stream(Object::Name("DCTDecode".into()), None, &jpeg).unwrap(),
        jpeg
    );
}

#[test]
fn filter_array_with_parms_array() {
    // A85 then Flate, with parallel DecodeParms (null for A85, predictor for Flate).
    let chain = Object::Array(vec![
        Object::Name("ASCIIHexDecode".into()),
        Object::Name("FlateDecode".into()),
    ]);
    // ASCIIHex of the zlib "Hi" stream, then Flate.
    let hex: String = HI_ZLIB.iter().map(|b| format!("{b:02X}")).collect();
    let parms = Object::Array(vec![Object::Null, Object::Null]);
    let mut hexbytes = hex.into_bytes();
    hexbytes.push(b'>');
    assert_eq!(stream(chain, Some(parms), &hexbytes).unwrap(), b"Hi");
}

#[test]
fn flate_with_png_predictor() {
    // Build a predictor-12 payload, deflate it, then decode_stream must invert.
    // Row data (Up filter, rowlen 2): [0,9,9, 2,1,1] → decoded [9,9,10,10].
    let payload = [0u8, 9, 9, 2, 1, 1];
    let deflated = deflate(&payload);
    let mut parms = Dictionary::new();
    parms.insert("Predictor", Object::Integer(12));
    parms.insert("Columns", Object::Integer(2));
    let got = stream(
        Object::Name("FlateDecode".into()),
        Some(Object::Dictionary(parms)),
        &deflated,
    )
    .unwrap();
    assert_eq!(got, [9, 9, 10, 10]);
}

#[test]
fn lzw_round_trip_via_dispatch() {
    // Encode with the lzw test encoder is internal; instead feed a known stream.
    // Use flate path already covered; here assert early_change default + LZW name.
    // A single EOD-only LZW stream (clear, eod) → empty.
    // clear=256 (9 bits) 100000000, eod=257 100000001 → packed.
    let lzw_empty = encode_lzw_empty();
    assert_eq!(
        stream(Object::Name("LZWDecode".into()), None, &lzw_empty).unwrap(),
        b""
    );
}

#[test]
fn unknown_filter_errors() {
    let e = stream(Object::Name("Bogus".into()), None, b"x").err().unwrap();
    assert_eq!(e.code, ErrorCode::Unsupported);
}

#[test]
fn early_change_flag_read() {
    let mut p = Dictionary::new();
    p.insert("EarlyChange", Object::Integer(0));
    assert!(!early_change(Some(&p)));
    assert!(early_change(None));
}

#[test]
fn non_name_filter_entry_ignored() {
    let chain = Object::Array(vec![Object::Integer(1)]);
    assert_eq!(stream(chain, None, b"raw").unwrap(), b"raw");
}

#[test]
fn parm_helpers() {
    assert!(parm_of(&Object::Null).is_none());
    assert!(parm_of(&Object::Dictionary(Dictionary::new())).is_some());
    assert_eq!(one_then_none(Dictionary::new(), 0).len(), 0);
}

// --- tiny test helpers ---

fn deflate(data: &[u8]) -> Vec<u8> {
    // Minimal stored-block zlib wrapper (BFINAL stored), good enough for tests.
    let mut out = vec![0x78, 0x01];
    out.push(0x01); // BFINAL=1, stored
    let len = data.len() as u16;
    out.extend_from_slice(&len.to_le_bytes());
    out.extend_from_slice(&(!len).to_le_bytes());
    out.extend_from_slice(data);
    out.extend_from_slice(&[0, 0, 0, 0]); // dummy adler
    out
}

fn encode_lzw_empty() -> Vec<u8> {
    // clear (256) then eod (257), each 9 bits, MSB-first.
    // 256 = 1_0000_0000, 257 = 1_0000_0001 → 18 bits → 3 bytes.
    let mut bits = Vec::new();
    for code in [256u16, 257] {
        for i in (0..9).rev() {
            bits.push(((code >> i) & 1) as u8);
        }
    }
    let mut out = vec![0u8; bits.len().div_ceil(8)];
    for (i, &b) in bits.iter().enumerate() {
        out[i / 8] |= b << (7 - (i % 8));
    }
    out
}

#[test]
fn short_parms_array_still_applies_every_filter() {
    // Two hex stages with a one-entry /DecodeParms: both filters run.
    let filter = Object::Array(vec![
        Object::Name("ASCIIHexDecode".to_string()),
        Object::Name("ASCIIHexDecode".to_string()),
    ]);
    let parms = Object::Array(vec![Object::Null]);
    assert_eq!(stream(filter, Some(parms), b"3438>").unwrap(), b"H");
}
