use turbo_parsepdf_core::filter::runlength::run_length_decode;

#[test]
fn literal_run() {
    // length 2 → copy 3 literal bytes "abc".
    assert_eq!(run_length_decode(&[2, b'a', b'b', b'c']).unwrap(), b"abc");
}

#[test]
fn repeat_run() {
    // length 254 → repeat next byte 257-254 = 3 times.
    assert_eq!(run_length_decode(&[254, b'x']).unwrap(), b"xxx");
}

#[test]
fn eod_stops() {
    assert_eq!(run_length_decode(&[0, b'A', 128, 0, b'Z']).unwrap(), b"A");
}

#[test]
fn mixed() {
    let data = [1, b'h', b'i', 255, b'!'];
    // literal 2 "hi", then repeat 257-255=2 of '!'.
    assert_eq!(run_length_decode(&data).unwrap(), b"hi!!");
}

#[test]
fn truncated_errors() {
    assert!(run_length_decode(&[5, b'a']).is_err()); // wants 6 literal bytes
    assert!(run_length_decode(&[200]).is_err()); // wants a byte to repeat
}
