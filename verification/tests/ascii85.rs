use turbo_parsepdf_core::filter::ascii85::ascii85_decode;

fn enc_roundtrip(plain: &[u8], encoded: &[u8]) {
    assert_eq!(ascii85_decode(encoded).unwrap(), plain);
}

#[test]
fn decodes_full_groups() {
    // "Man " encodes to "9jqo^" in ASCII85.
    enc_roundtrip(b"Man ", b"9jqo^~>");
}

#[test]
fn z_shorthand_is_four_zeros() {
    assert_eq!(ascii85_decode(b"z~>").unwrap(), vec![0, 0, 0, 0]);
}

#[test]
fn whitespace_ignored_and_partial_group() {
    // Single char 'M' → partial group "9j" style; use a known partial.
    // "M" (1 byte) encodes to "9`" (2 chars → 1 byte).
    let out = ascii85_decode(b"9 `~>").unwrap();
    assert_eq!(out, b"M");
}

#[test]
fn terminator_without_tilde_gt_ok() {
    // No explicit ~> still flushes.
    assert_eq!(ascii85_decode(b"9jqo^").unwrap(), b"Man ");
}

#[test]
fn ascii85_errors() {
    assert!(ascii85_decode(b"z9~>").is_err()); // z mid-group? no — z at start ok
    assert!(ascii85_decode(b"9z~>").is_err()); // z inside a group
    assert!(ascii85_decode(b"9~>").is_err()); // 1-char partial group invalid
    assert!(ascii85_decode(b"\xff~>").is_err()); // digit out of range
}

#[test]
fn overflowing_groups_are_rejected() {
    // 85^5 - 1 exceeds u32::MAX: no four bytes encode this group.
    assert!(ascii85_decode(b"uuuuu~>").is_err());
    // "s8W-!" is the largest valid group, 0xFFFFFFFF.
    assert_eq!(ascii85_decode(b"s8W-!~>").unwrap(), vec![0xFF, 0xFF, 0xFF, 0xFF]);
    // A padded partial group that overflows is rejected too.
    assert!(ascii85_decode(b"uu~>").is_err());
    // The largest two-byte tail, FF FF, still decodes.
    assert_eq!(ascii85_decode(b"s8N~>").unwrap(), vec![0xFF, 0xFF]);
}
