use turbo_parsepdf_core::error::ErrorCode;
use turbo_parsepdf_core::lex::Lexer;
use turbo_parsepdf_core::object::{Dictionary, ObjRef, Object};
use turbo_parsepdf_core::resolver::{
    assemble_stream, consume_eol, direct_length, parse_indirect_direct, read_header, read_uint, take_exact,
    trim_trailing_eol, Resolver,
};
use turbo_parsepdf_core::xref::read_xref;

fn doc_resolver(data: &[u8]) -> Resolver<'_> {
    let xref = read_xref(data).unwrap();
    Resolver::new(data, xref)
}

// Build a tiny but valid PDF: catalog (1), a stream (2) with literal Length.
fn sample() -> Vec<u8> {
    let mut pdf = String::new();
    pdf.push_str("%PDF-1.4\n");
    let off1 = pdf.len();
    pdf.push_str("1 0 obj\n<< /Type /Catalog /S 2 0 R >>\nendobj\n");
    let off2 = pdf.len();
    pdf.push_str("2 0 obj\n<< /Length 5 >>\nstream\nHELLO\nendstream\nendobj\n");
    let xref_off = pdf.len();
    pdf.push_str("xref\n0 3\n");
    pdf.push_str("0000000000 65535 f \n");
    pdf.push_str(&format!("{off1:010} 00000 n \n"));
    pdf.push_str(&format!("{off2:010} 00000 n \n"));
    pdf.push_str("trailer\n<< /Size 3 /Root 1 0 R >>\n");
    pdf.push_str(&format!("startxref\n{xref_off}\n%%EOF"));
    pdf.into_bytes()
}

#[test]
fn resolves_catalog_and_reference() {
    let data = sample();
    let r = doc_resolver(&data);
    let cat = r.get(ObjRef::new(1, 0)).unwrap();
    assert_eq!(cat.as_dict().unwrap().get("Type").unwrap().as_name(), Some("Catalog"));
    // The /S entry is an indirect reference resolved to the stream object.
    let s = cat.as_dict().unwrap().get("S").unwrap().clone();
    let resolved = r.resolve(&s).unwrap();
    assert_eq!(resolved.as_stream().unwrap().data, b"HELLO");
}

#[test]
fn caches_repeated_get() {
    let data = sample();
    let r = doc_resolver(&data);
    let a = r.get(ObjRef::new(1, 0)).unwrap();
    let b = r.get(ObjRef::new(1, 0)).unwrap();
    assert_eq!(a, b);
}

#[test]
fn resolve_direct_object_is_clone() {
    let data = sample();
    let r = doc_resolver(&data);
    assert_eq!(r.resolve(&Object::Integer(7)).unwrap(), Object::Integer(7));
}

#[test]
fn resolve_dict_variants() {
    let data = sample();
    let r = doc_resolver(&data);
    let cat_ref = Object::Reference(ObjRef::new(1, 0));
    assert!(r.resolve_dict(&cat_ref).unwrap().get("Type").is_some());
    let stream_ref = Object::Reference(ObjRef::new(2, 0));
    assert!(r.resolve_dict(&stream_ref).unwrap().get("Length").is_some());
    assert!(r.resolve_dict(&Object::Integer(1)).is_err());
}

#[test]
fn missing_object_errors() {
    let data = sample();
    let r = doc_resolver(&data);
    assert_eq!(r.get(ObjRef::new(99, 0)).unwrap_err().code, ErrorCode::ObjectNotFound);
}

#[test]
fn stream_recovered_by_scan_when_length_wrong() {
    // /Length is absent → body recovered by scanning to endstream.
    let mut pdf = String::from("%PDF-1.4\n");
    let off1 = pdf.len();
    pdf.push_str("1 0 obj\n<< /Type /Catalog >>\nendobj\n");
    let off2 = pdf.len();
    pdf.push_str("2 0 obj\n<< >>\nstream\nDATA\nendstream\nendobj\n");
    let xoff = pdf.len();
    pdf.push_str("xref\n0 3\n0000000000 65535 f \n");
    pdf.push_str(&format!("{off1:010} 00000 n \n{off2:010} 00000 n \n"));
    pdf.push_str("trailer\n<< /Size 3 /Root 1 0 R >>\n");
    pdf.push_str(&format!("startxref\n{xoff}\n%%EOF"));
    let data = pdf.into_bytes();
    let r = doc_resolver(&data);
    assert_eq!(r.get(ObjRef::new(2, 0)).unwrap().as_stream().unwrap().data, b"DATA");
}

#[test]
fn header_helpers() {
    // read_uint rejects junk.
    assert!(read_uint(&mut Lexer::new(b"   ")).is_err());
    assert!(read_uint(&mut Lexer::new(b"/x")).is_err());
    // missing obj keyword.
    assert!(read_header(&mut Lexer::new(b"1 0 notobj")).is_err());
    // object-number mismatch is rejected: the table records object 5 at
    // offset 9, which holds object 1.
    let mut pdf = String::from("%PDF-1.4\n");
    pdf.push_str("1 0 obj\n<< /Type /Catalog >>\nendobj\n");
    let xoff = pdf.len();
    pdf.push_str("xref\n5 1\n0000000009 00000 n \n");
    pdf.push_str("trailer\n<< /Size 6 /Root 5 0 R >>\n");
    pdf.push_str(&format!("startxref\n{xoff}\n%%EOF"));
    let data = pdf.into_bytes();
    let r = doc_resolver(&data);
    assert_eq!(r.get(ObjRef::new(5, 0)).unwrap_err().code, ErrorCode::InvalidObject);
}

#[test]
fn eol_and_trim_helpers() {
    // CRLF after stream keyword consumed.
    let mut lx = Lexer::new(b"\r\nbody");
    consume_eol(&mut lx);
    assert_eq!(lx.peek(), Some(b'b'));
    // trailing EOL trimming for CRLF, LF, CR, none.
    assert_eq!(trim_trailing_eol(b"ab\r\n"), 2);
    assert_eq!(trim_trailing_eol(b"ab\n"), 2);
    assert_eq!(trim_trailing_eol(b"ab\r"), 2);
    assert_eq!(trim_trailing_eol(b"ab"), 2);
}

#[test]
fn take_exact_bounds() {
    assert!(take_exact(b"HELLOendstream", 0, 99).is_none()); // out of range
    assert!(take_exact(b"HELLO....nope.", 0, 5).is_none()); // no endstream after
    assert_eq!(take_exact(b"HELLOendstream", 0, 5).unwrap(), b"HELLO");
}

#[test]
fn non_dictionary_value_passes_through() {
    let mut lx = Lexer::new(b"");
    assert_eq!(assemble_stream(b"", &mut lx, Object::Integer(3), None).unwrap(), Object::Integer(3));
}

#[test]
fn dictionary_without_stream_keyword() {
    let mut d = Dictionary::new();
    d.insert("A", Object::Integer(1));
    let mut lx = Lexer::new(b"   endobj");
    let got = assemble_stream(b"   endobj", &mut lx, Object::Dictionary(d), None).unwrap();
    assert!(got.as_dict().is_some());
    assert!(got.as_stream().is_none());
}

#[test]
fn parse_indirect_direct_reads_stream() {
    let data = b"3 0 obj\n<< /Length 5 >>\nstream\nHELLO\nendstream\nendobj";
    let (num, obj) = parse_indirect_direct(data, 0).unwrap();
    assert_eq!(num, 3);
    assert_eq!(obj.as_stream().unwrap().data, b"HELLO");
    assert_eq!(direct_length(obj.as_dict().unwrap()), Some(5));
}

#[test]
fn indirect_length_is_resolved() {
    // The stream's /Length is a reference to object 3.
    let mut pdf = String::from("%PDF-1.4\n");
    let off1 = pdf.len();
    pdf.push_str("1 0 obj\n<< /Type /Catalog >>\nendobj\n");
    let off2 = pdf.len();
    pdf.push_str("2 0 obj\n<< /Length 3 0 R >>\nstream\nABCendstream\nendobj\n");
    let off3 = pdf.len();
    pdf.push_str("3 0 obj\n3\nendobj\n");
    let xoff = pdf.len();
    pdf.push_str("xref\n0 4\n0000000000 65535 f \n");
    pdf.push_str(&format!("{off1:010} 00000 n \n{off2:010} 00000 n \n{off3:010} 00000 n \n"));
    pdf.push_str("trailer\n<< /Size 4 /Root 1 0 R >>\n");
    pdf.push_str(&format!("startxref\n{xoff}\n%%EOF"));
    let data = pdf.into_bytes();
    let r = doc_resolver(&data);
    assert_eq!(r.get(ObjRef::new(2, 0)).unwrap().as_stream().unwrap().data, b"ABC");
}

#[test]
fn self_referencing_length_fails_instead_of_looping() {
    // Object 2's /Length points at object 2 itself.
    let mut pdf = String::from("%PDF-1.4\n");
    let off1 = pdf.len();
    pdf.push_str("1 0 obj\n<< /Type /Catalog >>\nendobj\n");
    let off2 = pdf.len();
    pdf.push_str("2 0 obj\n<< /Length 2 0 R >>\nstream\nXYZ\nendstream\nendobj\n");
    let xoff = pdf.len();
    pdf.push_str("xref\n0 3\n0000000000 65535 f \n");
    pdf.push_str(&format!("{off1:010} 00000 n \n{off2:010} 00000 n \n"));
    pdf.push_str("trailer\n<< /Size 3 /Root 1 0 R >>\n");
    pdf.push_str(&format!("startxref\n{xoff}\n%%EOF"));
    let data = pdf.into_bytes();
    let r = doc_resolver(&data);
    // The inner loads run out of depth, so the length is unknown and the body
    // is recovered by scanning for `endstream`.
    assert_eq!(r.get(ObjRef::new(2, 0)).unwrap().as_stream().unwrap().data, b"XYZ");
}
