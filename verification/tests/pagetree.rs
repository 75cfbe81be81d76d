use turbo_parsepdf_core::doc::Document;
use turbo_parsepdf_core::error::TurboParsePdfError;
use turbo_parsepdf_core::object::{Dictionary, ObjRef, Object, Real};
use turbo_parsepdf_core::pagetree::{collect_pages, page_content, Page};

type Result<T> = std::result::Result<T, TurboParsePdfError>;

fn num(o: &Object) -> f64 {
    match o {
        Object::Integer(n) => *n as f64,
        Object::Real(Real::Decimal { mantissa, scale }) => *mantissa as f64 / 10f64.powi(*scale as i32),
        Object::Real(Real::Literal(t)) => std::str::from_utf8(t).unwrap().parse().unwrap(),
        _ => panic!("not a number"),
    }
}

/// A page's media box as four numbers.
fn media(p: &Page) -> [f64; 4] {
    [num(&p.media_box[0]), num(&p.media_box[1]), num(&p.media_box[2]), num(&p.media_box[3])]
}
// Build a 2-page PDF: catalog → Pages(2 kids) with inherited MediaBox, each
// page carrying a small content stream.
fn two_page_pdf() -> Vec<u8> {
    let mut pdf = String::from("%PDF-1.5\n");
    let mut offs = Vec::new();
    let put = |pdf: &mut String, offs: &mut Vec<usize>, s: &str| {
        offs.push(pdf.len());
        pdf.push_str(s);
    };
    put(
        &mut pdf,
        &mut offs,
        "1 0 obj\n<< /Type /Catalog /Pages 2 0 R >>\nendobj\n",
    );
    put(
        &mut pdf,
        &mut offs,
        "2 0 obj\n<< /Type /Pages /Kids [3 0 R 4 0 R] /Count 2 /MediaBox [0 0 200 300] /Rotate 90 >>\nendobj\n",
    );
    put(
        &mut pdf,
        &mut offs,
        "3 0 obj\n<< /Type /Page /Parent 2 0 R /Contents 5 0 R >>\nendobj\n",
    );
    put(
        &mut pdf,
        &mut offs,
        "4 0 obj\n<< /Type /Page /Parent 2 0 R /MediaBox [0 0 99 99] /Contents 6 0 R >>\nendobj\n",
    );
    let c1 = "BT /F1 12 Tf 10 280 Td (Page one) Tj ET";
    put(
        &mut pdf,
        &mut offs,
        &format!(
            "5 0 obj\n<< /Length {} >>\nstream\n{}\nendstream\nendobj\n",
            c1.len(),
            c1
        ),
    );
    let c2 = "BT /F1 12 Tf 10 80 Td (Page two) Tj ET";
    put(
        &mut pdf,
        &mut offs,
        &format!(
            "6 0 obj\n<< /Length {} >>\nstream\n{}\nendstream\nendobj\n",
            c2.len(),
            c2
        ),
    );
    let xref_off = pdf.len();
    pdf.push_str("xref\n0 7\n0000000000 65535 f \n");
    for o in &offs {
        pdf.push_str(&format!("{o:010} 00000 n \n"));
    }
    pdf.push_str("trailer\n<< /Size 7 /Root 1 0 R >>\n");
    pdf.push_str(&format!("startxref\n{xref_off}\n%%EOF"));
    pdf.into_bytes()
}

#[test]
fn collects_pages_with_inheritance() {
    let data = two_page_pdf();
    let doc = Document::parse(&data).unwrap();
    let pages = collect_pages(doc.resolver(), &doc.catalog().unwrap()).unwrap();
    assert_eq!(pages.len(), 2);
    // Page 1 inherits MediaBox + Rotate from the Pages node.
    assert_eq!(media(&pages[0]), [0.0, 0.0, 200.0, 300.0]);
    assert_eq!(pages[0].rotate, 90);
    // Page 2 overrides MediaBox but still inherits Rotate.
    assert_eq!(media(&pages[1]), [0.0, 0.0, 99.0, 99.0]);
    assert_eq!(pages[1].rotate, 90);
}

#[test]
fn assembles_page_content() {
    let data = two_page_pdf();
    let doc = Document::parse(&data).unwrap();
    let pages = collect_pages(doc.resolver(), &doc.catalog().unwrap()).unwrap();
    let bytes = page_content(doc.resolver(), &pages[0]).unwrap();
    assert!(bytes.windows(8).any(|w| w == b"Page one"));
}

#[test]
fn content_array_is_concatenated() {
    // A page whose /Contents is an array of two streams.
    let mut pdf = String::from("%PDF-1.5\n");
    let mut o = Vec::new();
    let put = |p: &mut String, o: &mut Vec<usize>, s: &str| {
        o.push(p.len());
        p.push_str(s);
    };
    put(
        &mut pdf,
        &mut o,
        "1 0 obj\n<< /Type /Catalog /Pages 2 0 R >>\nendobj\n",
    );
    put(
        &mut pdf,
        &mut o,
        "2 0 obj\n<< /Type /Pages /Kids [3 0 R] /Count 1 >>\nendobj\n",
    );
    put(
        &mut pdf,
        &mut o,
        "3 0 obj\n<< /Type /Page /Parent 2 0 R /Contents [4 0 R 5 0 R] >>\nendobj\n",
    );
    put(
        &mut pdf,
        &mut o,
        "4 0 obj\n<< /Length 1 >>\nstream\nq\nendstream\nendobj\n",
    );
    put(
        &mut pdf,
        &mut o,
        "5 0 obj\n<< /Length 1 >>\nstream\nQ\nendstream\nendobj\n",
    );
    let xo = pdf.len();
    pdf.push_str("xref\n0 6\n0000000000 65535 f \n");
    for off in &o {
        pdf.push_str(&format!("{off:010} 00000 n \n"));
    }
    pdf.push_str("trailer\n<< /Size 6 /Root 1 0 R >>\n");
    pdf.push_str(&format!("startxref\n{xo}\n%%EOF"));
    let data = pdf.into_bytes();
    let doc = Document::parse(&data).unwrap();
    let pages = collect_pages(doc.resolver(), &doc.catalog().unwrap()).unwrap();
    let bytes = page_content(doc.resolver(), &pages[0]).unwrap();
    assert_eq!(bytes, b"q\nQ\n");
}

#[test]
fn no_contents_is_empty() {
    let data = two_page_pdf();
    let doc = Document::parse(&data).unwrap();
    let mut page = collect_pages(doc.resolver(), &doc.catalog().unwrap()).unwrap()[0].clone();
    page.dict = Dictionary::new();
    assert!(page_content(doc.resolver(), &page).unwrap().is_empty());
}

// Assemble a PDF from in-order object bodies (object 1 is the catalog).
fn assemble(objs: &[String]) -> Vec<u8> {
    let mut pdf = String::from("%PDF-1.5\n");
    let mut offs = Vec::new();
    for (i, body) in objs.iter().enumerate() {
        offs.push(pdf.len());
        pdf.push_str(&format!("{} 0 obj\n{}\nendobj\n", i + 1, body));
    }
    let xoff = pdf.len();
    pdf.push_str(&format!(
        "xref\n0 {}\n0000000000 65535 f \n",
        objs.len() + 1
    ));
    for o in &offs {
        pdf.push_str(&format!("{o:010} 00000 n \n"));
    }
    pdf.push_str(&format!(
        "trailer\n<< /Size {} /Root 1 0 R >>\n",
        objs.len() + 1
    ));
    pdf.push_str(&format!("startxref\n{xoff}\n%%EOF"));
    pdf.into_bytes()
}

fn doc_pages(objs: &[String]) -> Result<Vec<Page>> {
    let data = assemble(objs);
    let doc = Document::parse(&data).unwrap();
    collect_pages(doc.resolver(), &doc.catalog().unwrap())
}

#[test]
fn over_deep_tree_errors() {
    let mut objs = vec!["<< /Type /Catalog /Pages 2 0 R >>".to_string()];
    for i in 2..=67 {
        objs.push(format!("<< /Type /Pages /Kids [{} 0 R] /Count 1 >>", i + 1));
    }
    let data = assemble(&objs);
    let doc = Document::parse(&data).unwrap();
    assert!(collect_pages(doc.resolver(), &doc.catalog().unwrap()).is_err());
}

#[test]
fn kids_cycle_is_guarded() {
    let objs = vec![
        "<< /Type /Catalog /Pages 2 0 R >>".to_string(),
        "<< /Type /Pages /Kids [3 0 R] /Count 1 >>".to_string(),
        "<< /Type /Pages /Kids [2 0 R] /Count 1 >>".to_string(),
    ];
    // The cycle terminates and yields no leaves rather than looping.
    assert!(doc_pages(&objs).unwrap().is_empty());
}

#[test]
fn malformed_media_box_falls_back() {
    let objs = vec![
        "<< /Type /Catalog /Pages 2 0 R >>".to_string(),
        "<< /Type /Pages /Kids [3 0 R] /Count 1 /MediaBox [0 0 9 9] >>".to_string(),
        "<< /Type /Page /Parent 2 0 R /MediaBox [0 0 5] >>".to_string(),
    ];
    let pages = doc_pages(&objs).unwrap();
    // The 3-element MediaBox is rejected; the inherited box is used.
    assert_eq!(media(&pages[0]), [0.0, 0.0, 9.0, 9.0]);
}

#[test]
fn non_stream_contents_is_empty() {
    let objs = vec![
        "<< /Type /Catalog /Pages 2 0 R >>".to_string(),
        "<< /Type /Pages /Kids [3 0 R] /Count 1 >>".to_string(),
        "<< /Type /Page /Parent 2 0 R /Contents 4 0 R >>".to_string(),
        "42".to_string(), // /Contents resolves to a non-stream object
    ];
    let data = assemble(&objs);
    let doc = Document::parse(&data).unwrap();
    let pages = collect_pages(doc.resolver(), &doc.catalog().unwrap()).unwrap();
    assert!(page_content(doc.resolver(), &pages[0]).unwrap().is_empty());
}

#[test]
fn missing_pages_errors() {
    let mut d = Dictionary::new();
    d.insert("X", Object::Integer(1));
    let data = two_page_pdf();
    let doc = Document::parse(&data).unwrap();
    assert!(collect_pages(doc.resolver(), &d).is_err());
    // A non-array /Kids is rejected.
    let mut bad_root = Dictionary::new();
    bad_root.insert("Pages", Object::Reference(ObjRef::new(999, 0)));
    assert!(collect_pages(doc.resolver(), &bad_root).is_err());
}
