use turbo_parsepdf_core::cos::{hex_val, parse_object};
use turbo_parsepdf_core::lex::Lexer;
use turbo_parsepdf_core::object::{ObjRef, Object, Real};

fn parse(bytes: &[u8]) -> Object {
    parse_object(&mut Lexer::new(bytes)).unwrap()
}

/// The numeric value of a real object.
fn real_value(o: &Object) -> Option<f64> {
    match o {
        Object::Real(Real::Decimal { mantissa, scale }) => Some(*mantissa as f64 / 10f64.powi(*scale as i32)),
        Object::Real(Real::Literal(t)) => std::str::from_utf8(t).ok()?.parse().ok(),
        _ => None,
    }
}

#[test]
fn numbers_integer_and_real() {
    assert_eq!(parse(b"42"), Object::Integer(42));
    assert_eq!(parse(b"-17"), Object::Integer(-17));
    assert_eq!(parse(b"+8"), Object::Integer(8));
    assert_eq!(real_value(&parse(b"3.5")), Some(3.5));
    assert_eq!(real_value(&parse(b"-.5")), Some(-0.5));
    assert_eq!(real_value(&parse(b"5.")), Some(5.0));
}

#[test]
fn booleans_and_null() {
    assert_eq!(parse(b"true"), Object::Boolean(true));
    assert_eq!(parse(b"false"), Object::Boolean(false));
    assert_eq!(parse(b"null"), Object::Null);
}

#[test]
fn names_with_escapes() {
    assert_eq!(parse(b"/Type"), Object::Name("Type".into()));
    assert_eq!(parse(b"/A#20B"), Object::Name("A B".into()));
}

#[test]
fn literal_strings() {
    assert_eq!(parse(b"(hello)"), Object::String(b"hello".to_vec()));
    assert_eq!(parse(b"(a(b)c)"), Object::String(b"a(b)c".to_vec()));
    assert_eq!(parse(b"(a\\nb)"), Object::String(b"a\nb".to_vec()));
    assert_eq!(parse(b"(\\101)"), Object::String(b"A".to_vec()));
    // single octal digit terminated by the closing paren (octal loop breaks).
    assert_eq!(parse(b"(\\7)"), Object::String(vec![0x07]));
    assert_eq!(parse(b"(tab\\t)"), Object::String(b"tab\t".to_vec()));
    assert_eq!(parse(b"(esc\\(\\)\\\\)"), Object::String(b"esc()\\".to_vec()));
}

#[test]
fn literal_string_escape_extras() {
    // \r \b \f, unknown escape (\z → z), CR line continuation.
    assert_eq!(parse(b"(\\r\\b\\f)"), Object::String(vec![b'\r', 0x08, 0x0c]));
    assert_eq!(parse(b"(\\z)"), Object::String(b"z".to_vec()));
    assert_eq!(parse(b"(a\\\r\nb)"), Object::String(b"ab".to_vec()));
    assert_eq!(parse(b"(a\\\nb)"), Object::String(b"ab".to_vec()));
}

#[test]
fn hex_strings() {
    assert_eq!(parse(b"<48656C6C6F>"), Object::String(b"Hello".to_vec()));
    assert_eq!(parse(b"<4 8>"), Object::String(vec![0x48]));
    // odd nibble count pads the trailing low nibble with zero.
    assert_eq!(parse(b"<41A>"), Object::String(vec![0x41, 0xa0]));
}

#[test]
fn number_parser_fast_and_slow_paths() {
    // A bare '.' has no digits → error.
    assert!(parse_object(&mut Lexer::new(b".")).is_err());
    // A real with more fractional digits than the fast table covers falls back
    // to the standard parser and still yields a Real.
    let long = b"0.000000000000000000000001"; // 24 fractional digits
    assert!(matches!(parse(long), Object::Real(_)));
    // A non-UTF-8 byte in a numeric token errors via the fallback.
    assert!(parse_object(&mut Lexer::new(b"1\xff")).is_err());
    // Big integers within i64 are exact via the fast path.
    assert_eq!(parse(b"123456789012345"), Object::Integer(123_456_789_012_345));
}

#[test]
fn arrays_nested() {
    let got = parse(b"[1 2 [3 true] /X]");
    let inner = Object::Array(vec![Object::Integer(3), Object::Boolean(true)]);
    assert_eq!(
        got,
        Object::Array(vec![Object::Integer(1), Object::Integer(2), inner, Object::Name("X".into()),])
    );
}

#[test]
fn dictionaries_and_references() {
    let got = parse(b"<< /Type /Page /Parent 4 0 R /Count 3 >>");
    let d = got.as_dict().unwrap();
    assert_eq!(d.get("Type").unwrap().as_name(), Some("Page"));
    assert_eq!(d.get("Parent").unwrap().as_reference(), Some(ObjRef::new(4, 0)));
    assert_eq!(d.get("Count").unwrap().as_integer(), Some(3));
}

#[test]
fn reference_lookahead_restores_on_non_match() {
    // "5 0 X" is not a reference: parse the 5, leave "0 X" untouched.
    let mut lx = Lexer::new(b"5 0 X");
    assert_eq!(parse_object(&mut lx).unwrap(), Object::Integer(5));
    assert_eq!(parse_object(&mut lx).unwrap(), Object::Integer(0));
}

#[test]
fn negative_is_never_a_reference() {
    let mut lx = Lexer::new(b"-1 0 R");
    assert_eq!(parse_object(&mut lx).unwrap(), Object::Integer(-1));
}

#[test]
fn cos_errors() {
    assert!(parse_object(&mut Lexer::new(b"")).is_err());
    assert!(parse_object(&mut Lexer::new(b"]")).is_err());
    assert!(parse_object(&mut Lexer::new(b"[1 2")).is_err()); // unterminated array
    assert!(parse_object(&mut Lexer::new(b"bogus")).is_err());
    assert!(parse_object(&mut Lexer::new(b"(unterminated")).is_err());
    assert!(parse_object(&mut Lexer::new(b"<deadbeef")).is_err());
    assert!(parse_object(&mut Lexer::new(b"<<")).is_err());
    assert!(parse_object(&mut Lexer::new(b"<zz>")).is_err());
    assert!(parse_object(&mut Lexer::new(b"<< 1 2 >>")).is_err()); // key not a name
    assert!(parse_object(&mut Lexer::new(b"/A#zz")).is_err());
    assert!(parse_object(&mut Lexer::new(b"1.2.3")).is_err());
}

#[test]
fn hex_val_table() {
    assert_eq!(hex_val(b'0'), Some(0));
    assert_eq!(hex_val(b'9'), Some(9));
    assert_eq!(hex_val(b'a'), Some(10));
    assert_eq!(hex_val(b'F'), Some(15));
    assert_eq!(hex_val(b'g'), None);
}

#[test]
fn reference_parses_and_advances_past_r() {
    let mut lx = Lexer::new(b"12 3 R /Next");
    assert_eq!(parse_object(&mut lx).unwrap(), Object::Reference(ObjRef::new(12, 3)));
    assert_eq!(parse_object(&mut lx).unwrap(), Object::Name("Next".into()));
}
