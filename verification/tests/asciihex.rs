use turbo_parsepdf_core::error::ErrorCode;
use turbo_parsepdf_core::filter::asciihex::ascii_hex_decode;

#[test]
fn decodes_with_whitespace_and_terminator() {
    assert_eq!(ascii_hex_decode(b"48 65 6C 6C 6F>extra").unwrap(), b"Hello");
}

#[test]
fn odd_nibble_is_padded() {
    assert_eq!(ascii_hex_decode(b"41A>").unwrap(), vec![0x41, 0xa0]);
}

#[test]
fn no_terminator_is_fine() {
    assert_eq!(ascii_hex_decode(b"4869").unwrap(), b"Hi");
}

#[test]
fn bad_digit_errors() {
    assert_eq!(
        ascii_hex_decode(b"4G").unwrap_err().code,
        ErrorCode::BadStream
    );
}
