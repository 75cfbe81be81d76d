use turbo_parsepdf_core::image::{array_color_space, classify, extract_images, image_data_url, png_color_type, ImageFormat, ParsedImage};
use turbo_parsepdf_core::object::{Dictionary, Object};
use turbo_parsepdf_core::doc::Document;

fn assemble(objs: &[String]) -> Vec<u8> {
    let mut pdf = String::from("%PDF-1.5\n");
    let mut offs = Vec::new();
    for (i, body) in objs.iter().enumerate() {
        offs.push(pdf.len());
        pdf.push_str(&format!("{} 0 obj\n{}\nendobj\n", i + 1, body));
    }
    let xoff = pdf.len();
    pdf.push_str(&format!(
        "xref\n0 {}\n0000000000 65535 f \n",
        objs.len() + 1
    ));
    for o in &offs {
        pdf.push_str(&format!("{o:010} 00000 n \n"));
    }
    pdf.push_str(&format!(
        "trailer\n<< /Size {} /Root 1 0 R >>\n",
        objs.len() + 1
    ));
    pdf.push_str(&format!("startxref\n{xoff}\n%%EOF"));
    pdf.into_bytes()
}

fn images_for(extra: &[String]) -> Vec<ParsedImage> {
    let mut objs = vec![
        "<< /Type /Catalog /Pages 2 0 R >>".to_string(),
        "<< /Type /Pages /Kids [3 0 R] /Count 1 >>".to_string(),
        "<< /Type /Page /Parent 2 0 R /Resources << /XObject << /Im0 4 0 R /Im1 5 0 R /Fm 6 0 R >> >> >>".to_string(),
    ];
    objs.extend_from_slice(extra);
    let data = assemble(&objs);
    let doc = Document::parse(&data).unwrap();
    let pages = doc.pages().unwrap();
    extract_images(doc.resolver(), &pages[0].resources)
}

#[test]
fn extracts_jpeg_and_raw_images_skips_forms() {
    // The format is classified from /Filter, so a placeholder body suffices
    // to assert DCTDecode passthrough (the real JPEG bytes would just be the
    // stream content, unchanged).
    let jpeg_body = "JPEGSTREAMBYTES";
    let im0 = format!(
        "<< /Type /XObject /Subtype /Image /Width 2 /Height 2 /BitsPerComponent 8 /ColorSpace /DeviceRGB /Filter /DCTDecode /Length {} >>\nstream\n{}\nendstream",
        jpeg_body.len(),
        jpeg_body
    );
    let raw = "ABCD";
    let im1 = format!(
        "<< /Type /XObject /Subtype /Image /Width 2 /Height 2 /ColorSpace /DeviceGray /Length {} >>\nstream\n{}\nendstream",
        raw.len(),
        raw
    );
    // A Form XObject must be ignored.
    let fm = "<< /Type /XObject /Subtype /Form /Length 0 >>\nstream\n\nendstream";
    let imgs = images_for(&[im0, im1, fm.to_string()]);
    assert_eq!(imgs.len(), 2);
    let jpeg = imgs.iter().find(|i| i.name == "Im0").unwrap();
    assert_eq!(jpeg.format, ImageFormat::Jpeg);
    assert_eq!((jpeg.width, jpeg.height), (2, 2));
    assert_eq!(jpeg.color_space, "DeviceRGB");
    assert_eq!(jpeg.data, b"JPEGSTREAMBYTES"); // DCTDecode passthrough
    let raw_img = imgs.iter().find(|i| i.name == "Im1").unwrap();
    assert_eq!(raw_img.format, ImageFormat::Raw);
    assert_eq!(raw_img.bits_per_component, 8);
    assert_eq!(raw_img.data, b"ABCD");
    let expect_jpeg = format!(
        "data:image/jpeg;base64,{}",
        turbo_parsepdf_core::encode::base64_encode(b"JPEGSTREAMBYTES")
    );
    assert_eq!(jpeg.data_url, expect_jpeg);
    let png = turbo_parsepdf_core::encode::png_encode(b"ABCD", 2, 2, 8, 0).unwrap();
    let expect_raw = format!(
        "data:image/png;base64,{}",
        turbo_parsepdf_core::encode::base64_encode(&png)
    );
    assert_eq!(raw_img.data_url, expect_raw);
}

#[test]
fn image_data_url_branches() {
    assert!(
        image_data_url(ImageFormat::Jpeg, "DeviceRGB", 8, 1, 1, b"\xff\xd8\xff")
            .starts_with("data:image/jpeg;base64,")
    );
    assert!(
        image_data_url(ImageFormat::Jpeg2000, "DeviceRGB", 8, 1, 1, b"\x00\x00")
            .starts_with("data:image/jp2;base64,")
    );
    assert!(
        image_data_url(ImageFormat::Raw, "DeviceGray", 8, 2, 2, &[0, 1, 2, 3])
            .starts_with("data:image/png;base64,")
    );
    assert!(
        image_data_url(ImageFormat::Raw, "DeviceRGB", 8, 1, 1, &[10, 20, 30])
            .starts_with("data:image/png;base64,")
    );
    assert_eq!(
        image_data_url(ImageFormat::Raw, "ICCBased", 8, 1, 1, &[0]),
        ""
    );
    assert_eq!(
        image_data_url(ImageFormat::Raw, "DeviceRGB", 8, 1, 1, &[10, 20]),
        ""
    );
    assert_eq!(
        image_data_url(ImageFormat::Ccitt, "DeviceGray", 1, 1, 1, &[0]),
        ""
    );
    assert_eq!(
        image_data_url(ImageFormat::Jbig2, "DeviceGray", 1, 1, 1, &[0]),
        ""
    );
}

#[test]
fn png_color_type_mapping() {
    assert_eq!(png_color_type("DeviceGray", 8), Some((8, 0)));
    assert_eq!(png_color_type("CalGray", 1), Some((1, 0)));
    assert_eq!(png_color_type("DeviceRGB", 8), Some((8, 2)));
    assert_eq!(png_color_type("CalRGB", 16), Some((16, 2)));
    assert_eq!(png_color_type("DeviceGray", 7), None);
    assert_eq!(png_color_type("DeviceRGB", 4), None);
    assert_eq!(png_color_type("ICCBased", 8), None);
    assert_eq!(png_color_type("DeviceCMYK", 8), None);
}

#[test]
fn classify_and_colorspace_helpers() {
    let mut d = Dictionary::new();
    d.insert(
        "Filter",
        Object::Array(vec![Object::Name("JPXDecode".into())]),
    );
    assert_eq!(classify(&d), ImageFormat::Jpeg2000);
    let mut d2 = Dictionary::new();
    d2.insert("Filter", Object::Name("CCITTFaxDecode".into()));
    assert_eq!(classify(&d2), ImageFormat::Ccitt);
    let mut d3 = Dictionary::new();
    d3.insert("Filter", Object::Name("JBIG2Decode".into()));
    assert_eq!(classify(&d3), ImageFormat::Jbig2);
    // No filter → Raw.
    assert_eq!(classify(&Dictionary::new()), ImageFormat::Raw);
    // A non-name filter entry yields no last filter.
    let mut d4 = Dictionary::new();
    d4.insert("Filter", Object::Integer(1));
    assert_eq!(classify(&d4), ImageFormat::Raw);
}

#[test]
fn array_colorspace_name() {
    let icc = Object::Array(vec![Object::Name("ICCBased".into()), Object::Integer(0)]);
    assert_eq!(array_color_space(icc.as_array().unwrap()), "ICCBased");
    assert_eq!(array_color_space(&[]), "Unknown");
}

#[test]
fn image_with_array_colorspace() {
    // /ColorSpace as an array (ICCBased) → its leading name is reported.
    let im0 = "<< /Type /XObject /Subtype /Image /Width 1 /Height 1 /ColorSpace [/ICCBased 7 0 R] /Length 1 >>\nstream\nZ\nendstream";
    let imgs = images_for(&[im0.to_string()]);
    assert_eq!(imgs[0].color_space, "ICCBased");
    // An image with no /ColorSpace falls back to DeviceRGB.
    let im1 = "<< /Type /XObject /Subtype /Image /Width 1 /Height 1 /Length 1 >>\nstream\nZ\nendstream";
    let imgs = images_for(&[im0.to_string(), im1.to_string()]);
    assert_eq!(imgs[1].color_space, "DeviceRGB");
    assert_eq!(imgs[0].data_url, "");
    assert_eq!(imgs[1].data_url, "");
}

#[test]
fn no_xobject_resource_is_empty() {
    let data = assemble(&[
        "<< /Type /Catalog /Pages 2 0 R >>".to_string(),
        "<< /Type /Pages /Kids [3 0 R] /Count 1 >>".to_string(),
        "<< /Type /Page /Parent 2 0 R >>".to_string(),
    ]);
    let doc = Document::parse(&data).unwrap();
    let pages = doc.pages().unwrap();
    assert!(extract_images(doc.resolver(), &pages[0].resources).is_empty());
}
