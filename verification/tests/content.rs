use turbo_parsepdf_core::content::{parse_content, Op};

fn ops(data: &[u8]) -> Vec<Op> {
    parse_content(data)
}

#[test]
fn simple_text_block() {
    let got = ops(b"BT /F1 12 Tf 100 700 Td (Hello) Tj ET");
    let names: Vec<&str> = got.iter().map(|o| o.operator.as_str()).collect();
    assert_eq!(names, ["BT", "Tf", "Td", "Tj", "ET"]);
    // Tf carries the font name + size.
    let tf = &got[1];
    assert_eq!(tf.operands[0].as_name(), Some("F1"));
    assert_eq!(tf.operands[1].as_integer(), Some(12));
    // Tj carries the literal string.
    assert_eq!(got[3].operands[0].as_string(), Some(&b"Hello"[..]));
}

#[test]
fn tj_array_and_negatives() {
    let got = ops(b"[(A) -250 (B)] TJ");
    assert_eq!(got.len(), 1);
    assert_eq!(got[0].operator.as_str(), "TJ");
    assert_eq!(got[0].operands[0].as_array().unwrap().len(), 3);
}

#[test]
fn quote_operators_are_regular() {
    let got = ops(b"(x) ' 1 2 (y) \"");
    let names: Vec<&str> = got.iter().map(|o| o.operator.as_str()).collect();
    assert_eq!(names, ["'", "\""]);
}

#[test]
fn star_and_multichar_operators() {
    let got = ops(b"0 0 1 1 re T* b*");
    let names: Vec<&str> = got.iter().map(|o| o.operator.as_str()).collect();
    assert_eq!(names, ["re", "T*", "b*"]);
}

#[test]
fn inline_image_is_skipped() {
    let got = ops(b"q BI /W 2 /H 2 ID \x00\x01\x02\x03 EI Q (after) Tj");
    let names: Vec<&str> = got.iter().map(|o| o.operator.as_str()).collect();
    // BI..EI dropped; q, Q, and the trailing Tj survive.
    assert_eq!(names, ["q", "Q", "Tj"]);
    assert_eq!(
        got.last().unwrap().operands[0].as_string(),
        Some(&b"after"[..])
    );
}

#[test]
fn inline_image_without_ei_consumes_rest() {
    let got = ops(b"BI /W 1 ID \x00\x00\x00");
    assert!(got.is_empty());
}

#[test]
fn malformed_operand_stops() {
    // An unterminated string ends the stream cleanly.
    let got = ops(b"(good) Tj (unterminated");
    assert_eq!(got.len(), 1);
    assert_eq!(got[0].operator.as_str(), "Tj");
}

#[test]
fn stray_delimiter_makes_progress() {
    // A lone ')' starts no operand and is no operator; tokenizer skips it.
    let got = ops(b") (ok) Tj");
    assert_eq!(got.len(), 1);
    assert_eq!(got[0].operator.as_str(), "Tj");
}

#[test]
fn empty_stream() {
    assert!(ops(b"   ").is_empty());
}
