use turbo_parsepdf_core::cmap::{be, chunk_to_u16, first_scalar, utf16_be, CMap};

const TOUNICODE: &[u8] = b"/CIDInit /ProcSet findresource begin 12 dict begin\n\
begincmap\n\
1 begincodespacerange <00> <FF> endcodespacerange\n\
2 beginbfchar\n\
<41> <0041>\n\
<42> <0042>\n\
endbfchar\n\
1 beginbfrange\n\
<43> <45> <0043>\n\
endbfrange\n\
1 beginbfrange\n\
<61> <61> [<0078>]\n\
endbfrange\n\
endcmap end end";

#[test]
fn parses_bfchar_and_bfrange() {
    let cm = CMap::parse(TOUNICODE);
    assert_eq!(cm.code_bytes(), 1);
    assert_eq!(cm.lookup(0x41).as_deref(), Some("A"));
    assert_eq!(cm.lookup(0x42).as_deref(), Some("B"));
    // contiguous range 0x43..0x45 → C, D, E
    assert_eq!(cm.lookup(0x43).as_deref(), Some("C"));
    assert_eq!(cm.lookup(0x45).as_deref(), Some("E"));
    // array form: 0x61 → x
    assert_eq!(cm.lookup(0x61).as_deref(), Some("x"));
    assert_eq!(cm.lookup(0x99), None);
}

#[test]
fn two_byte_codespace() {
    let data = b"begincodespacerange <0000> <FFFF> endcodespacerange\n\
1 beginbfchar <0041> <0041> endbfchar";
    let cm = CMap::parse(data);
    assert_eq!(cm.code_bytes(), 2);
    assert_eq!(cm.lookup(0x41).as_deref(), Some("A"));
}

#[test]
fn multi_unit_destination() {
    // A surrogate pair destination decodes to a non-BMP scalar.
    let data = b"1 beginbfchar <01> <D83DDE00> endbfchar";
    let cm = CMap::parse(data);
    assert_eq!(cm.lookup(1), char::from_u32(0x1F600).map(|c| c.to_string()));
}

#[test]
fn default_code_bytes_is_one() {
    assert_eq!(CMap::default().code_bytes(), 1);
    assert!(CMap::default().lookup(0).is_none());
}

#[test]
fn malformed_sections_are_tolerated() {
    // Truncated entries / stray tokens do not panic.
    assert!(CMap::parse(b"beginbfchar <41>").lookup(0x41).is_none());
    assert!(CMap::parse(b"beginbfrange <41> <42>").lookup(0x41).is_none());
    assert!(CMap::parse(b"beginbfrange <41> <42> [ ] endbfrange").lookup(0x41).is_none());
    // An unterminated array destination bails out of the entry.
    assert!(CMap::parse(b"beginbfrange <41> <42> [<0041>").lookup(0x41).is_none());
    // A stray delimiter keyword position is skipped.
    CMap::parse(b"]]] endcmap");
}

#[test]
fn helpers() {
    assert_eq!(be(&[0x12, 0x34]), 0x1234);
    assert_eq!(be(&[1, 2, 3, 4, 5]), 0x01020304); // capped at 4 bytes
    assert_eq!(utf16_be(&[0x00, 0x41]), "A");
    assert_eq!(chunk_to_u16(&[0x00, 0x41]), 0x41);
    assert_eq!(chunk_to_u16(&[0x41]), 0x41);
    assert_eq!(first_scalar(&[0x00, 0x42]), 0x42);
    assert_eq!(first_scalar(&[]), 0);
}

#[test]
fn range_lookup_wraps_nothing_past_the_range() {
    let cm = CMap::parse(b"1 beginbfrange <10> <12> <0061> endbfrange");
    assert_eq!(cm.lookup(0x10).as_deref(), Some("a"));
    assert_eq!(cm.lookup(0x12).as_deref(), Some("c"));
    assert_eq!(cm.lookup(0x13), None);
    // An unpaired surrogate decodes to the replacement character.
    assert_eq!(utf16_be(&[0xD8, 0x00]), "\u{FFFD}");
}
