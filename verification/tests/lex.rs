use turbo_parsepdf_core::lex::{is_delimiter, is_regular, is_whitespace, Lexer};

#[test]
fn char_classes() {
    assert!(is_whitespace(b' '));
    assert!(is_whitespace(0));
    assert!(!is_whitespace(b'a'));
    assert!(is_delimiter(b'<'));
    assert!(is_delimiter(b'%'));
    assert!(!is_delimiter(b'a'));
    assert!(is_regular(b'a'));
    assert!(!is_regular(b' '));
    assert!(!is_regular(b'/'));
}

#[test]
fn cursor_basics() {
    let mut lx = Lexer::new(b"abc");
    assert_eq!(lx.pos(), 0);
    assert_eq!(lx.peek(), Some(b'a'));
    assert_eq!(lx.peek_at(2), Some(b'c'));
    assert_eq!(lx.bump(), Some(b'a'));
    assert_eq!(lx.bump(), Some(b'b'));
    assert!(!lx.at_end());
    assert_eq!(lx.bump(), Some(b'c'));
    assert!(lx.at_end());
    assert_eq!(lx.bump(), None);
    assert_eq!(lx.peek(), None);
    assert_eq!(lx.data(), b"abc");
}

#[test]
fn seek_and_advance_clamp() {
    let mut lx = Lexer::at(b"abcdef", 2);
    assert_eq!(lx.pos(), 2);
    lx.advance(2);
    assert_eq!(lx.pos(), 4);
    lx.seek(99);
    assert_eq!(lx.pos(), 6);
    assert!(lx.at_end());
    // `at` past the end clamps too.
    assert_eq!(Lexer::at(b"ab", 10).pos(), 2);
}

#[test]
fn skips_whitespace_and_comments() {
    let mut lx = Lexer::new(b"  % a comment\r\n\t 42");
    lx.skip_whitespace();
    assert_eq!(lx.peek(), Some(b'4'));
}

#[test]
fn comment_at_eof_terminates() {
    let mut lx = Lexer::new(b"  %trailing");
    lx.skip_whitespace();
    assert!(lx.at_end());
}

#[test]
fn reads_keyword_runs() {
    let mut lx = Lexer::new(b"obj 1");
    assert_eq!(lx.read_keyword(), Some(&b"obj"[..]));
    lx.skip_whitespace();
    assert_eq!(lx.read_keyword(), Some(&b"1"[..]));
    // At a delimiter there is no keyword.
    let mut lx2 = Lexer::new(b"/Name");
    assert_eq!(lx2.read_keyword(), None);
}

#[test]
fn eat_keyword_requires_boundary() {
    let mut lx = Lexer::new(b"stream\ndata");
    assert!(lx.eat_keyword(b"stream"));
    assert_eq!(lx.peek(), Some(b'\n'));
    // No prefix match into a longer regular run.
    let mut lx2 = Lexer::new(b"streamfoo");
    assert!(!lx2.eat_keyword(b"stream"));
    assert_eq!(lx2.pos(), 0);
    // No match at all.
    let mut lx3 = Lexer::new(b"xyz");
    assert!(!lx3.eat_keyword(b"obj"));
}
