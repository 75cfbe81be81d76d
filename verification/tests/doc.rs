use turbo_parsepdf_core::doc::{parse_header, read_version, require_root, Document};
use turbo_parsepdf_core::error::ErrorCode;
use turbo_parsepdf_core::object::{Dictionary, ObjRef, Object};

fn sample() -> Vec<u8> {
    let mut pdf = String::from("%PDF-1.7\n");
    let off1 = pdf.len();
    pdf.push_str("1 0 obj\n<< /Type /Catalog /Pages 2 0 R >>\nendobj\n");
    let off2 = pdf.len();
    pdf.push_str("2 0 obj\n<< /Type /Pages /Count 0 >>\nendobj\n");
    let xoff = pdf.len();
    pdf.push_str("xref\n0 3\n0000000000 65535 f \n");
    pdf.push_str(&format!("{off1:010} 00000 n \n{off2:010} 00000 n \n"));
    pdf.push_str("trailer\n<< /Size 3 /Root 1 0 R >>\n");
    pdf.push_str(&format!("startxref\n{xoff}\n%%EOF"));
    pdf.into_bytes()
}

#[test]
fn parses_and_exposes_surface() {
    let data = sample();
    let doc = Document::parse(&data).unwrap();
    assert_eq!(doc.version(), "1.7");
    assert_eq!(doc.object_count(), 3);
    assert_eq!(doc.trailer().get("Size").unwrap().as_integer(), Some(3));
    let cat = doc.catalog().unwrap();
    assert_eq!(cat.get("Type").unwrap().as_name(), Some("Catalog"));
    // get + resolve reach the Pages object.
    let pages = doc.get(ObjRef::new(2, 0)).unwrap();
    assert_eq!(pages.as_dict().unwrap().get("Type").unwrap().as_name(), Some("Pages"));
    let pages_ref = cat.get("Pages").unwrap().clone();
    assert_eq!(doc.resolve(&pages_ref).unwrap(), pages);
    assert!(doc.resolver().xref().get(1).is_some());
}

#[test]
fn header_scan_tolerates_leading_junk() {
    // The header may appear after a few bytes of preamble (BOM, comment).
    assert_eq!(parse_header(b"\xef\xbb\xbfjunk\n%PDF-1.5\nbody").unwrap(), "1.5");
}

#[test]
fn missing_header_errors() {
    let err = Document::parse(b"not a pdf at all").err().unwrap();
    assert_eq!(err.code, ErrorCode::InvalidHeader);
}

#[test]
fn missing_root_errors() {
    let mut pdf = String::from("%PDF-1.4\n");
    let off1 = pdf.len();
    pdf.push_str("1 0 obj\n<< >>\nendobj\n");
    let xoff = pdf.len();
    pdf.push_str("xref\n0 2\n0000000000 65535 f \n");
    pdf.push_str(&format!("{off1:010} 00000 n \n"));
    pdf.push_str("trailer\n<< /Size 2 >>\n");
    pdf.push_str(&format!("startxref\n{xoff}\n%%EOF"));
    let data = pdf.into_bytes();
    assert_eq!(Document::parse(&data).err().unwrap().code, ErrorCode::MissingTrailer);
}

#[test]
fn version_run_stops_at_whitespace_and_clamps() {
    assert_eq!(read_version(b"1.4\nrest"), "1.4");
    assert_eq!(read_version(b"2.0"), "2.0");
    assert_eq!(read_version(b"1.234567890123"), "1.234567"); // clamped to 8
}

#[test]
fn catalog_requires_root_present() {
    // require_root passes/fails as expected.
    let mut d = Dictionary::new();
    assert!(require_root(&d).is_err());
    d.insert("Root", Object::Reference(ObjRef::new(1, 0)));
    assert!(require_root(&d).is_ok());
}

#[test]
fn header_beyond_first_kilobyte_is_not_found() {
    let mut data = vec![b' '; 1100];
    data.extend_from_slice(b"%PDF-1.4\n");
    assert_eq!(parse_header(&data).err().unwrap().code, ErrorCode::InvalidHeader);
}
