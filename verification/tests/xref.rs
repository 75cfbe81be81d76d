use turbo_parsepdf_core::error::TurboParsePdfError;
use turbo_parsepdf_core::doc::Document;
use turbo_parsepdf_core::object::{Dictionary, ObjRef, Object};
use turbo_parsepdf_core::xref::{decode_record, field_widths, index_pairs, parse_xref_entries, read_xref, Xref, XrefEntry};

type Result<T> = std::result::Result<T, TurboParsePdfError>;


// A minimal single-section file body: 3 objects + xref + trailer + startxref.
const SIMPLE: &[u8] = b"%PDF-1.4\n\
1 0 obj<</Type/Catalog>>endobj\n\
xref\n\
0 2\n\
0000000000 65535 f \n\
0000000009 00000 n \n\
trailer\n\
<< /Size 2 /Root 1 0 R >>\n\
startxref\n\
9\n\
%%EOF";

#[test]
fn reads_simple_xref_and_trailer() {
    // Point startxref at the real xref keyword offset.
    let kw = b"xref\n";
    let off = SIMPLE.windows(kw.len()).position(|w| w == kw).unwrap();
    // Rewrite the startxref offset to the located xref position.
    let s = format!("startxref\n{off}\n%%EOF");
    let head = &SIMPLE[..SIMPLE.windows(9).position(|w| w == b"startxref").unwrap()];
    let doc = [head, s.as_bytes()].concat();

    let xref = read_xref(&doc).unwrap();
    assert_eq!(xref.len(), 2);
    assert_eq!(xref.get(0), Some(XrefEntry::Free));
    assert_eq!(xref.get(1), Some(XrefEntry::InUse { offset: 9, gen: 0 }));
    assert!(!xref.is_empty());
    assert_eq!(xref.trailer().get("Size").unwrap().as_integer(), Some(2));
}

fn xref_at(data: &[u8]) -> Result<Xref> {
    // Helper: build startxref pointing at the xref keyword, then read.
    let off = data.windows(4).position(|w| w == b"xref").unwrap();
    let doc = [data, format!("\nstartxref\n{off}\n%%EOF").as_bytes()].concat();
    read_xref(&doc)
}

#[test]
fn two_subsections_merge() {
    let body = b"xref\n0 1\n0000000000 65535 f \n5 1\n0000000042 00000 n \ntrailer\n<< /Size 6 /Root 1 0 R >>";
    let xref = xref_at(body).unwrap();
    assert_eq!(xref.get(0), Some(XrefEntry::Free));
    assert_eq!(xref.get(5), Some(XrefEntry::InUse { offset: 42, gen: 0 }));
}

#[test]
fn missing_startxref_errors() {
    assert!(read_xref(b"%PDF-1.4 no pointer here").is_err());
}

#[test]
fn wrong_keyword_errors() {
    let doc = b"notxref\nstartxref\n0\n%%EOF";
    assert!(read_xref(doc).is_err());
}

#[test]
fn bad_entry_type_errors() {
    let body = b"xref\n0 1\n0000000000 00000 x \ntrailer\n<< /Size 1 >>";
    assert!(xref_at(body).is_err());
}

#[test]
fn non_dict_trailer_errors() {
    let body = b"xref\n0 1\n0000000000 65535 f \ntrailer\n42";
    assert!(xref_at(body).is_err());
}

#[test]
fn bad_integer_in_table_errors() {
    let body = b"xref\nZZ 1\n0000000000 65535 f \ntrailer\n<< >>";
    assert!(xref_at(body).is_err());
}

#[test]
fn truncated_subsection_errors() {
    let body = b"xref\n0 1\n";
    assert!(xref_at(body).is_err());
}

#[test]
fn prev_chain_is_followed_and_cycle_guarded() {
    // Section A at higher offset has /Prev → section B; B has /Prev → A (cycle).
    // Build a doc with two xref sections; the walk must terminate.
    let sec_b = "xref\n0 1\n0000000000 65535 f \n2 1\n0000000099 00000 n \ntrailer\n<< /Size 3 /Root 1 0 R >>\n";
    let prefix = "%PDF-1.4\n";
    let off_b = prefix.len();
    let sec_a = format!(
        "xref\n1 1\n0000000010 00000 n \ntrailer\n<< /Size 3 /Root 1 0 R /Prev {off_b} >>\n"
    );
    let mut doc = String::new();
    doc.push_str(prefix);
    doc.push_str(sec_b);
    let off_a = doc.len();
    doc.push_str(&sec_a);
    doc.push_str(&format!("startxref\n{off_a}\n%%EOF"));

    let xref = read_xref(doc.as_bytes()).unwrap();
    // Object 1 from newest section A, object 2 from older section B.
    assert_eq!(xref.get(1), Some(XrefEntry::InUse { offset: 10, gen: 0 }));
    assert_eq!(xref.get(2), Some(XrefEntry::InUse { offset: 99, gen: 0 }));
}

// ---- cross-reference stream tests ----

fn dict(pairs: &[(&str, Object)]) -> Dictionary {
    let mut d = Dictionary::new();
    for (k, v) in pairs {
        d.insert(*k, v.clone());
    }
    d
}

fn arr(ints: &[i64]) -> Object {
    Object::Array(ints.iter().map(|&n| Object::Integer(n)).collect())
}

#[test]
fn decode_record_all_types() {
    let w = [1, 2, 1];
    assert_eq!(decode_record(&w, &[0, 0, 0, 0xff]), Some(XrefEntry::Free));
    assert_eq!(
        decode_record(&w, &[1, 0x01, 0x10, 0x00]),
        Some(XrefEntry::InUse {
            offset: 0x0110,
            gen: 0
        })
    );
    assert_eq!(
        decode_record(&w, &[2, 0x00, 0x05, 0x03]),
        Some(XrefEntry::Compressed {
            stream: 5,
            index: 3
        })
    );
    assert_eq!(decode_record(&w, &[9, 0, 0, 0]), None); // unknown type
}

#[test]
fn first_width_zero_defaults_to_inuse() {
    // /W [0 2 1]: a zero type field defaults the entry type to 1 (in-use).
    let w = [0, 2, 1];
    assert_eq!(
        decode_record(&w, &[0x00, 0x2a, 0x00]),
        Some(XrefEntry::InUse {
            offset: 0x2a,
            gen: 0
        })
    );
}

#[test]
fn field_widths_validation() {
    assert!(field_widths(&dict(&[("W", arr(&[1, 2, 1]))])).is_ok());
    assert!(field_widths(&dict(&[])).is_err());
    assert!(field_widths(&dict(&[("W", arr(&[1, 2]))])).is_err());
}

#[test]
fn index_pairs_default_and_explicit() {
    let from_size = index_pairs(&dict(&[("Size", Object::Integer(4))])).unwrap();
    assert_eq!(from_size, vec![(0, 4)]);
    let explicit = index_pairs(&dict(&[("Index", arr(&[2, 3, 10, 1]))])).unwrap();
    assert_eq!(explicit, vec![(2, 3), (10, 1)]);
    assert!(index_pairs(&dict(&[])).is_err()); // no Size, no Index
}

#[test]
fn zero_width_record_errors() {
    let d = dict(&[("W", arr(&[0, 0, 0])), ("Size", Object::Integer(1))]);
    assert!(parse_xref_entries(&d, &[]).is_err());
}

#[test]
fn truncated_xref_stream_errors() {
    let d = dict(&[("W", arr(&[1, 2, 1])), ("Size", Object::Integer(3))]);
    assert!(parse_xref_entries(&d, &[1, 0, 0, 0]).is_err()); // only one record for Size 3
}

// Build a full xref-stream PDF: catalog (1), an ObjStm (2) packing object 4,
// a Pages object (5), and a cross-reference stream (3) recording them all.
fn xref_stream_pdf() -> Vec<u8> {
    let rec = |t: u8, f2: u16, f3: u8| [t, (f2 >> 8) as u8, f2 as u8, f3];
    let mut pdf: Vec<u8> = Vec::new();
    let put = |p: &mut Vec<u8>, s: &str| p.extend_from_slice(s.as_bytes());
    put(&mut pdf, "%PDF-1.5\n");
    let off1 = pdf.len();
    put(
        &mut pdf,
        "1 0 obj\n<< /Type /Catalog /Pages 5 0 R >>\nendobj\n",
    );
    let off2 = pdf.len();
    // ObjStm packs obj4 (at rel 0) and obj6 (at rel 23). Header "4 0 6 23 ",
    // First = 9 → object data begins after the header.
    let body = "4 0 6 23 << /Type /Test /V 99 >>(packed)";
    put(&mut pdf, &format!(
        "2 0 obj\n<< /Type /ObjStm /N 2 /First 9 /Length {} >>\nstream\n{}\nendstream\nendobj\n",
        body.len(),
        body
    ));
    let off5 = pdf.len();
    put(&mut pdf, "5 0 obj\n<< /Type /Pages /Count 0 >>\nendobj\n");
    let off3 = pdf.len();
    let mut bin = Vec::new();
    for r in [
        rec(0, 0, 0xff),
        rec(1, off1 as u16, 0),
        rec(1, off2 as u16, 0),
        rec(1, off3 as u16, 0),
        rec(2, 2, 0),
        rec(1, off5 as u16, 0),
        rec(2, 2, 1),
    ] {
        bin.extend_from_slice(&r);
    }
    put(&mut pdf, &format!(
        "3 0 obj\n<< /Type /XRef /Size 7 /Root 1 0 R /W [1 2 1] /Index [0 7] /Length {} >>\nstream\n",
        bin.len()
    ));
    pdf.extend_from_slice(&bin);
    put(&mut pdf, "\nendstream\nendobj\n");
    put(&mut pdf, &format!("startxref\n{off3}\n%%EOF"));
    pdf
}

#[test]
fn reads_cross_reference_stream() {
    let data = xref_stream_pdf();
    let xref = read_xref(&data).unwrap();
    assert_eq!(
        xref.trailer()
            .get("Root")
            .unwrap()
            .as_reference()
            .unwrap()
            .num,
        1
    );
    assert_eq!(xref.get(0), Some(XrefEntry::Free));
    assert!(matches!(xref.get(1), Some(XrefEntry::InUse { .. })));
    assert_eq!(
        xref.get(4),
        Some(XrefEntry::Compressed {
            stream: 2,
            index: 0
        })
    );
}

#[test]
fn compressed_object_resolves_end_to_end() {
    let data = xref_stream_pdf();
    let doc = Document::parse(&data).unwrap();
    let obj4 = doc.get(ObjRef::new(4, 0)).unwrap();
    assert_eq!(
        obj4.as_dict().unwrap().get("V").unwrap().as_integer(),
        Some(99)
    );
    // A second compressed object from the same ObjStm hits the cached stream.
    let obj6 = doc.get(ObjRef::new(6, 0)).unwrap();
    assert_eq!(obj6.as_string(), Some(&b"packed"[..]));
}

// Build a hybrid file: a classic xref table whose trailer carries `/XRefStm`
// pointing at a cross-reference stream that records a compressed object.
fn hybrid_pdf() -> Vec<u8> {
    let rec = |t: u8, f2: u16, f3: u8| [t, (f2 >> 8) as u8, f2 as u8, f3];
    let mut pdf: Vec<u8> = Vec::new();
    let put = |p: &mut Vec<u8>, s: &str| p.extend_from_slice(s.as_bytes());
    put(&mut pdf, "%PDF-1.5\n");
    let off1 = pdf.len();
    put(
        &mut pdf,
        "1 0 obj\n<< /Type /Catalog /Pages 5 0 R >>\nendobj\n",
    );
    let off2 = pdf.len();
    let body = "4 0 << /Type /Test /V 7 >>";
    put(&mut pdf, &format!(
        "2 0 obj\n<< /Type /ObjStm /N 1 /First 4 /Length {} >>\nstream\n{}\nendstream\nendobj\n",
        body.len(),
        body
    ));
    let off5 = pdf.len();
    put(&mut pdf, "5 0 obj\n<< /Type /Pages /Count 0 >>\nendobj\n");
    // Cross-reference stream (obj 3) records the compressed object 4.
    let off3 = pdf.len();
    let bin = rec(2, 2, 0).to_vec();
    put(&mut pdf, &format!(
        "3 0 obj\n<< /Type /XRef /Size 7 /Root 1 0 R /W [1 2 1] /Index [4 1] /Length {} >>\nstream\n",
        bin.len()
    ));
    pdf.extend_from_slice(&bin);
    put(&mut pdf, "\nendstream\nendobj\n");
    // Classic table for the uncompressed objects, trailer with /XRefStm.
    let xref_off = pdf.len();
    put(&mut pdf, "xref\n0 1\n0000000000 65535 f \n");
    put(&mut pdf, &format!("1 1\n{off1:010} 00000 n \n"));
    put(&mut pdf, &format!("2 1\n{off2:010} 00000 n \n"));
    put(&mut pdf, &format!("3 1\n{off3:010} 00000 n \n"));
    put(&mut pdf, &format!("5 1\n{off5:010} 00000 n \n"));
    put(
        &mut pdf,
        &format!("trailer\n<< /Size 7 /Root 1 0 R /XRefStm {off3} >>\n"),
    );
    put(&mut pdf, &format!("startxref\n{xref_off}\n%%EOF"));
    pdf
}

#[test]
fn hybrid_xrefstm_merges_compressed_entries() {
    let data = hybrid_pdf();
    let xref = read_xref(&data).unwrap();
    // The compressed object 4 comes only from the hybrid /XRefStm.
    assert_eq!(
        xref.get(4),
        Some(XrefEntry::Compressed {
            stream: 2,
            index: 0
        })
    );
    assert!(matches!(xref.get(1), Some(XrefEntry::InUse { .. })));
    let doc = Document::parse(&data).unwrap();
    let obj4 = doc.get(ObjRef::new(4, 0)).unwrap();
    assert_eq!(
        obj4.as_dict().unwrap().get("V").unwrap().as_integer(),
        Some(7)
    );
}

#[test]
fn non_stream_at_offset_errors() {
    // startxref points at a plain (non-stream) object → xref-stream parse fails.
    let mut pdf = String::from("%PDF-1.5\n");
    let off = pdf.len();
    pdf.push_str("1 0 obj\n<< /Type /Catalog >>\nendobj\n");
    pdf.push_str(&format!("startxref\n{off}\n%%EOF"));
    assert!(read_xref(pdf.as_bytes()).is_err());
}


#[test]
fn first_record_of_a_number_wins_within_a_section() {
    let body = b"xref\n0 2\n0000000000 65535 f \n0000000011 00000 n \n1 1\n0000000022 00000 n \ntrailer\n<< /Size 2 /Root 1 0 R >>";
    let xref = xref_at(body).unwrap();
    assert_eq!(xref.get(1), Some(XrefEntry::InUse { offset: 11, gen: 0 }));
    assert_eq!(xref.len(), 2);
}
