use turbo_parsepdf_core::image::{ImageFormat, ParsedImage};
use turbo_parsepdf_core::serialize::{escape_html, image_markdown, join, markdown_table, md_divider, md_row, page_markdown, push_image_html, push_table_html};
use turbo_parsepdf_core::tables::Table;

#[test]
fn escape_covers_all_specials() {
    assert_eq!(escape_html("a&b<c>d\"e'f"), "a&amp;b&lt;c&gt;d&quot;e&#39;f");
    assert_eq!(escape_html("plain"), "plain");
}

#[test]
fn tables_render_in_html_and_markdown() {
    let table = Table {
        rows: 2,
        cols: 2,
        cells: vec![vec!["a".into(), "b|c".into()], vec!["d".into(), "e".into()]],
    };
    let mut html = String::new();
    push_table_html(&mut html, &table);
    assert!(html.contains("<table>"));
    assert!(html.contains("<td>a</td><td>b|c</td>"));
    let md = page_markdown(false, "", &[table], &[]);
    assert!(md.contains("| a | b\\|c |")); // pipe escaped
    assert!(md.contains("| --- | --- |")); // header divider
    assert!(md.contains("| d | e |"));
}

fn image(name: &str, format: ImageFormat, url: &str) -> ParsedImage {
    ParsedImage {
        name: name.into(),
        format,
        width: 2,
        height: 2,
        bits_per_component: 8,
        color_space: "DeviceRGB".into(),
        data_url: url.into(),
        data: vec![],
    }
}

#[test]
fn images_render_in_html_and_markdown() {
    let viewable = image("Im0", ImageFormat::Jpeg, "data:image/jpeg;base64,AAAA");
    let skipped = image("Im1", ImageFormat::Ccitt, "");
    let mut html = String::new();
    push_image_html(&mut html, &viewable);
    push_image_html(&mut html, &skipped);
    assert!(html.contains("<img src=\"data:image/jpeg;base64,AAAA\" alt=\"Im0\" />"));
    assert!(!html.contains("Im1"));
    let md = page_markdown(false, "capt", &[], &[viewable, skipped]);
    assert!(md.contains("![Im0](data:image/jpeg;base64,AAAA)"));
    assert!(!md.contains("Im1"));
}

#[test]
fn markdown_parts_and_placeholder() {
    assert_eq!(page_markdown(true, "ignored", &[], &[]), "_[scanned page — text extraction requires OCR]_");
    assert_eq!(page_markdown(false, "", &[], &[]), "");
    let t = Table { rows: 1, cols: 1, cells: vec![vec!["x".into()]] };
    assert_eq!(page_markdown(false, "text", &[t], &[]), "text\n\n| x |\n| --- |");
}

#[test]
fn table_and_row_shapes() {
    assert_eq!(md_row(&["a".to_string(), "b".to_string()]), "| a | b |");
    assert_eq!(md_divider(3), "| --- | --- | --- |");
    assert_eq!(md_divider(0), "|  |");
    let empty = Table { rows: 0, cols: 0, cells: vec![] };
    assert_eq!(markdown_table(&empty), "");
    let one = Table { rows: 1, cols: 2, cells: vec![vec!["p".into(), "q".into()]] };
    assert_eq!(markdown_table(&one), "| p | q |\n| --- | --- |");
    assert_eq!(join(&["a".to_string(), "b".to_string(), "c".to_string()], ", "), "a, b, c");
    assert_eq!(join(&[], ", "), "");
}

#[test]
fn image_markdown_needs_a_url() {
    assert_eq!(image_markdown(&image("I", ImageFormat::Raw, "")), None);
    assert_eq!(image_markdown(&image("I", ImageFormat::Raw, "u")).as_deref(), Some("![I](u)"));
}
