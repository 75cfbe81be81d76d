use turbo_parsepdf_core::encode::zlib_stored;
use turbo_parsepdf_core::filter::inflate::{copy_back, flate_decode, inflate, is_zlib_header, read_distance, read_length, BitReader, Huff};

#[test]
fn stored_block_round_trips() {
    // BFINAL=1,BTYPE=00 (0x01), then aligned LEN=2, NLEN, "Hi".
    let data = [0x01u8, 0x02, 0x00, 0xfd, 0xff, b'H', b'i'];
    assert_eq!(inflate(&data).unwrap(), b"Hi");
}

#[test]
fn huffman_block_round_trips() {
    // raw DEFLATE (wbits=-15) of a sentence with repeated runs (back-refs).
    let deflate = [
        11u8, 201, 72, 85, 40, 44, 205, 76, 206, 86, 72, 42, 202, 47, 207, 83, 72, 203, 175,
        80, 200, 42, 205, 45, 40, 86, 200, 47, 75, 45, 82, 40, 1, 74, 231, 36, 86, 85, 42, 164,
        228, 167, 235, 41, 132, 224, 84, 156, 152, 158, 152, 153, 167, 144, 152, 151, 130, 206,
        210, 3, 0,
    ];
    let out = inflate(&deflate).unwrap();
    let expect = b"The quick brown fox jumps over the lazy dog. The quick brown fox jumps again and again and again.";
    assert_eq!(out, expect);
}

#[test]
fn dynamic_block_round_trips() {
    // zlib-wrapped dynamic-Huffman stream (exercises the code-length reader
    // and the 16/17/18 repeat codes).
    let dyn_stream = [
        0x78, 0xda, 0x2b, 0x29, 0x2d, 0x4a, 0xca, 0xd7, 0x2d, 0x48, 0x2c, 0x2a, 0x4e, 0x2d,
        0x48, 0x49, 0x53, 0x48, 0xad, 0x28, 0x29, 0x4a, 0x4c, 0x2e, 0x29, 0x56, 0x28, 0x01,
        0xb2, 0x74, 0x14, 0x4a, 0x12, 0x93, 0x72, 0x52, 0x8b, 0x15, 0x12, 0xf3, 0x52, 0x14,
        0x32, 0x73, 0x13, 0xd3, 0x81, 0xcc, 0xb4, 0xa2, 0xfc, 0x5c, 0x85, 0x00, 0x17, 0xb7,
        0x62, 0x85, 0xb2, 0xd4, 0xa2, 0x4a, 0x85, 0xb4, 0xc4, 0xe2, 0x12, 0x3d, 0x85, 0x10,
        0x88, 0xb2, 0x12, 0x64, 0x4a, 0x4f, 0xc1, 0x13, 0xa2, 0x03, 0xa2, 0x51, 0x4f, 0xa1,
        0x64, 0xd4, 0xa6, 0x51, 0x9b, 0x50, 0x6c, 0x02, 0x00, 0x4c, 0x82, 0xe5, 0x0f,
    ];
    let out = flate_decode(&dyn_stream).unwrap();
    assert_eq!(out.len(), 636);
    assert!(out.starts_with(b"turbo-parsepdf extracts text"));
}

#[test]
fn fixed_block_with_backrefs() {
    // raw DEFLATE forced to fixed Huffman (Z_FIXED) of "abc"×6 → length/distance
    // matches through the fixed tables.
    let fixed = [0x4b, 0x4c, 0x4a, 0x4e, 0x44, 0x45, 0x00];
    assert_eq!(inflate(&fixed).unwrap(), b"abcabcabcabcabcabc");
}

#[test]
fn reserved_block_type_errors() {
    // byte 0x07 → BFINAL=1, BTYPE=11 (reserved) → error.
    assert!(inflate(&[0x07]).is_err());
}

#[test]
fn back_reference_past_start_errors() {
    // Stored byte 'A', then a fixed block whose first match copies further back
    // than the output holds → copy_back rejects dist > out.len().
    // length code 257 (len 3) then distance code with a large distance.
    // Built by hand: easier to assert the helper directly.
    let mut out = vec![b'A'];
    assert!(copy_back(&mut out, 3, 5).is_err()); // dist 5 > len 1
    assert!(copy_back(&mut out, 3, 0).is_err()); // dist 0
    copy_back(&mut out, 2, 1).unwrap();
    assert_eq!(out, b"AAA");
}

#[test]
fn distance_and_length_symbol_bounds() {
    let mut r = BitReader::new(&[0u8; 4]);
    assert!(read_distance(&mut r, 30).is_err()); // distance symbol out of range
    assert!(read_distance(&mut r, 99).is_err());
    let mut r2 = BitReader::new(&[0u8; 4]);
    assert!(read_length(&mut r2, 286).is_err()); // length symbol out of range
    assert!(read_length(&mut r2, 256).is_err());
}

#[test]
fn huffman_decode_exhaustion_errors() {
    // A table with a single 1-bit code leaves the all-ones path undefined;
    // feeding ones walks past length 15 → decode error.
    let huff = Huff::build(&[1, 1]); // two symbols, codes 0 and 1
    let mut r = BitReader::new(&[]); // immediately exhausted
    assert!(huff.decode(&mut r).is_err());
}

#[test]
fn flate_decode_strips_zlib_header() {
    // zlib stream: header 0x78 0x9c, the stored block above, Adler-32 trailer.
    let mut zlib = vec![0x78u8, 0x9c, 0x01, 0x02, 0x00, 0xfd, 0xff, b'H', b'i'];
    zlib.extend_from_slice(&[0x00, 0x62, 0x00, 0x62]); // dummy adler (ignored)
    assert_eq!(flate_decode(&zlib).unwrap(), b"Hi");
}

#[test]
fn flate_decode_accepts_headerless_raw() {
    // No valid zlib header → treated as raw DEFLATE.
    let raw = [0x01u8, 0x02, 0x00, 0xfd, 0xff, b'H', b'i'];
    assert_eq!(flate_decode(&raw).unwrap(), b"Hi");
}

#[test]
fn zlib_header_detection() {
    assert!(is_zlib_header(0x78, 0x9c));
    assert!(!is_zlib_header(0x78, 0x9d)); // fails the %31 check
    assert!(!is_zlib_header(0x77, 0x00)); // method != 8
}

#[test]
fn truncated_is_error() {
    assert!(inflate(&[]).is_err());
    assert!(flate_decode(&[]).is_err());
}

#[test]
fn zlib_stored_output_inflates_back() {
    let data: Vec<u8> = (0..70000u32).map(|i| (i % 253) as u8).collect();
    assert_eq!(flate_decode(&zlib_stored(&data)).unwrap(), data);
}
