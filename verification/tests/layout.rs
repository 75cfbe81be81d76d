use turbo_parsepdf_core::layout::{ends_with_tight_char, starts_with_tight_char};

#[test]
fn tight_characters_at_the_edges() {
    assert!(ends_with_tight_char("x="));
    assert!(ends_with_tight_char("1≤"));
    assert!(ends_with_tight_char("{"));
    assert!(!ends_with_tight_char("word"));
    assert!(!ends_with_tight_char(""));
    assert!(starts_with_tight_char(")"));
    assert!(starts_with_tight_char(", and"));
    assert!(starts_with_tight_char("≥3"));
    assert!(!starts_with_tight_char("abc"));
    assert!(!starts_with_tight_char(""));
}
