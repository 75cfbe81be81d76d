use turbo_parsepdf_core::encode::{adler32, crc32_continue, base64_encode, crc32, deflate_stored, png_encode, zlib_stored, PNG_SIG};

#[test]
fn base64_known_vectors() {
    assert_eq!(base64_encode(b""), "");
    assert_eq!(base64_encode(b"f"), "Zg==");
    assert_eq!(base64_encode(b"fo"), "Zm8=");
    assert_eq!(base64_encode(b"foo"), "Zm9v");
    assert_eq!(base64_encode(b"foob"), "Zm9vYg==");
    assert_eq!(base64_encode(b"fooba"), "Zm9vYmE=");
    assert_eq!(base64_encode(b"foobar"), "Zm9vYmFy");
}

#[test]
fn crc32_known_vectors() {
    assert_eq!(crc32(b""), 0);
    assert_eq!(crc32(b"a"), 0xe8b7be43);
    assert_eq!(crc32(b"abc"), 0x352441c2);
    assert_eq!(
        crc32(b"The quick brown fox jumps over the lazy dog"),
        0x414fa339
    );
}

#[test]
fn adler32_known_vectors() {
    assert_eq!(adler32(b""), 1);
    assert_eq!(adler32(b"Wikipedia"), 0x11e60398);
    assert_eq!(adler32(b"a"), 0x00620062);
}

#[test]
fn deflate_stored_round_trips_and_framing() {
    let empty = deflate_stored(&[]);
    assert_eq!(empty, vec![1, 0, 0, 0xff, 0xff]);
    let small = deflate_stored(b"abcd");
    assert_eq!(small[0], 1);
    assert_eq!(small[1..3], [4, 0]);
    assert_eq!(small[3..5], [251, 255]);
    assert_eq!(&small[5..], b"abcd");
}

#[test]
fn deflate_stored_splits_at_64k() {
    let data = vec![0xaau8; 70000];
    let def = deflate_stored(&data);
    assert_eq!(def[0], 0);
    let len0 = def[1] as usize | ((def[2] as usize) << 8);
    assert_eq!(len0, 65535);
    assert_eq!(&def[5..5 + 65535], &data[..65535]);
    let tail = &def[5 + 65535..];
    assert_eq!(tail[0], 1);
    let len1 = tail[1] as usize | ((tail[2] as usize) << 8);
    assert_eq!(len1, 70000 - 65535);
}

#[test]
fn zlib_stored_header_and_trailer() {
    let z = zlib_stored(b"abc");
    assert_eq!(&z[0..2], &[0x78, 0x01]);
    // Adler-32 of "abc" is 0x024D0127.
    assert_eq!(&z[z.len() - 4..], &[0x02, 0x4D, 0x01, 0x27]);
}

#[test]
fn png_encode_grayscale_8bit() {
    let png = png_encode(&[0, 128, 200, 255], 2, 2, 8, 0).unwrap();
    assert_eq!(&png[..8], PNG_SIG);
    assert_eq!(&png[8..12], &[0, 0, 0, 13]);
    assert_eq!(&png[12..16], b"IHDR");
    assert_eq!(&png[16..20], 2u32.to_be_bytes().as_slice());
    assert_eq!(&png[20..24], 2u32.to_be_bytes().as_slice());
    assert_eq!(png[24], 8);
    assert_eq!(png[25], 0);
    assert!(png.windows(4).any(|w| w == b"IEND"));
}

#[test]
fn png_encode_rgb_8bit() {
    let png = png_encode(&[255, 0, 0], 1, 1, 8, 2).unwrap();
    assert_eq!(png[25], 2);
    assert!(png.windows(4).any(|w| w == b"IDAT"));
}

#[test]
fn png_encode_grayscale_1bit() {
    let png = png_encode(&[0b10101010], 8, 1, 1, 0).unwrap();
    assert_eq!(png[24], 1);
    assert_eq!(png[25], 0);
    assert!(png.windows(4).any(|w| w == b"IEND"));
}

#[test]
fn png_encode_rejects_bad_input() {
    assert_eq!(png_encode(&[0], 1, 1, 8, 3), None);
    assert_eq!(png_encode(&[0], 0, 1, 8, 0), None);
    assert_eq!(png_encode(&[0], 1, 0, 8, 0), None);
    assert_eq!(png_encode(&[0, 1, 2], 2, 2, 8, 0), None);
}

#[test]
fn png_crc_is_correct() {
    let png = png_encode(&[10, 20, 30, 40], 2, 2, 8, 0).unwrap();
    let mut ihdr = Vec::new();
    ihdr.extend_from_slice(b"IHDR");
    ihdr.extend_from_slice(&png[16..29]);
    let want = crc32(&ihdr);
    let got = u32::from_be_bytes([png[29], png[30], png[31], png[32]]);
    assert_eq!(got, want);
}

#[test]
fn crc32_continues_across_chunks() {
    let whole = crc32(b"hello world");
    let state = crc32_continue(0xFFFF_FFFF, b"hello ");
    let part = crc32_continue(state, b"world") ^ 0xFFFF_FFFF;
    assert_eq!(part, whole);
}

#[test]
fn base64_length_is_four_per_three() {
    for n in 0..20usize {
        let data = vec![7u8; n];
        assert_eq!(base64_encode(&data).len(), (n + 2) / 3 * 4);
    }
}
