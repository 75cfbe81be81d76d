use turbo_parsepdf_core::agl::{base_encoding, glyph_to_unicode, table_char, MAC_ROMAN, STANDARD, WIN_ANSI};

#[test]
fn winansi_high_range() {
    assert_eq!(table_char(&WIN_ANSI, b'A'), Some('A'));
    assert_eq!(table_char(&WIN_ANSI, 0x80), Some('€'));
    assert_eq!(table_char(&WIN_ANSI, 0x81), None); // undefined slot
}

#[test]
fn macroman_and_standard() {
    assert_eq!(table_char(&MAC_ROMAN, 0xA5), Some('•'));
    assert_eq!(table_char(&STANDARD, b'A'), Some('A'));
    assert_eq!(table_char(&STANDARD, 0x27), Some('\u{2019}')); // quoteright
    assert_eq!(table_char(&STANDARD, 0x00), None);
}

#[test]
fn base_encoding_selection() {
    assert_eq!(base_encoding(Some("MacRomanEncoding"))[0xA5], 8226);
    assert_eq!(base_encoding(Some("StandardEncoding"))[0x60], 8216);
    assert_eq!(base_encoding(Some("WinAnsiEncoding"))[0x80], 8364);
    assert_eq!(base_encoding(None)[b'A' as usize], 65);
}

#[test]
fn glyph_names_from_agl() {
    assert_eq!(glyph_to_unicode("A"), Some('A'));
    assert_eq!(glyph_to_unicode("fi"), Some('\u{FB01}'));
    assert_eq!(glyph_to_unicode("bullet"), Some('•'));
    assert_eq!(glyph_to_unicode("space"), Some(' '));
    // A ".variant" suffix is stripped before lookup.
    assert_eq!(glyph_to_unicode("a.sc"), Some('a'));
    assert_eq!(glyph_to_unicode("notaglyphname"), None);
}

#[test]
fn glyph_names_algorithmic() {
    assert_eq!(glyph_to_unicode("uni0041"), Some('A'));
    assert_eq!(glyph_to_unicode("u1F600"), char::from_u32(0x1F600));
    assert_eq!(glyph_to_unicode("uni00"), None); // too short
    assert_eq!(glyph_to_unicode("uABC"), None); // too short for u-form
    assert_eq!(glyph_to_unicode("uXYZW"), None); // not hex
}

#[test]
fn math_symbols_from_agl() {
    assert_eq!(glyph_to_unicode("lessequal"), Some('≤'));
    assert_eq!(glyph_to_unicode("greaterequal"), Some('≥'));
    assert_eq!(glyph_to_unicode("notequal"), Some('≠'));
    assert_eq!(glyph_to_unicode("element"), Some('∈'));
    assert_eq!(glyph_to_unicode("union"), Some('∪'));
    assert_eq!(glyph_to_unicode("intersection"), Some('∩'));
    assert_eq!(glyph_to_unicode("radical"), Some('√'));
    assert_eq!(glyph_to_unicode("infinity"), Some('∞'));
    assert_eq!(glyph_to_unicode("summation"), Some('∑'));
    assert_eq!(glyph_to_unicode("product"), Some('∏'));
    assert_eq!(glyph_to_unicode("integral"), Some('∫'));
}

#[test]
fn fraction_and_complex_symbols() {
    assert_eq!(glyph_to_unicode("fraction"), Some('⁄'));
    assert_eq!(glyph_to_unicode("imaginaryunit"), Some('ⅈ'));
    assert_eq!(glyph_to_unicode("parenleftinferior"), Some('₍'));
    assert_eq!(glyph_to_unicode("parenrightinferior"), Some('₎'));
}

#[test]
fn glyph_uni_form_with_variant_suffix() {
    // The suffix is stripped before the algorithmic forms are tried.
    assert_eq!(glyph_to_unicode("uni0042.alt"), Some('B'));
    // `from_str_radix` accepts a leading plus sign.
    assert_eq!(glyph_to_unicode("u+0043"), Some('C'));
}
