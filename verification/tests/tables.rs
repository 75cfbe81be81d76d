use turbo_parsepdf_core::tables::append_cell;

#[test]
fn cell_text_accumulates_with_spaces() {
    let mut cell = String::new();
    append_cell(&mut cell, "foo");
    append_cell(&mut cell, "bar");
    assert_eq!(cell, "foo bar");
}

#[test]
fn trailing_space_is_not_doubled() {
    let mut cell = String::from("foo ");
    append_cell(&mut cell, "bar");
    assert_eq!(cell, "foo bar");
}
