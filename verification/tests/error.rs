use turbo_parsepdf_core::error::{Diagnostics, ErrorCode, LintCode, TurboParsePdfError};

#[test]
fn error_codes_round_trip_to_strings() {
    let codes = [
        ErrorCode::InvalidHeader,
        ErrorCode::InvalidXref,
        ErrorCode::InvalidObject,
        ErrorCode::UnexpectedToken,
        ErrorCode::UnexpectedEof,
        ErrorCode::BadStream,
        ErrorCode::MissingTrailer,
        ErrorCode::ObjectNotFound,
        ErrorCode::Unsupported,
    ];
    let names: Vec<&str> = codes.iter().map(|c| c.as_str()).collect();
    assert_eq!(
        names,
        [
            "InvalidHeader",
            "InvalidXref",
            "InvalidObject",
            "UnexpectedToken",
            "UnexpectedEof",
            "BadStream",
            "MissingTrailer",
            "ObjectNotFound",
            "Unsupported",
        ]
    );
}

#[test]
fn lint_codes_round_trip_to_strings() {
    let codes = [LintCode::RecoveredXref, LintCode::LengthMismatch, LintCode::DroppedObject];
    let names: Vec<&str> = codes.iter().map(|c| c.as_str()).collect();
    assert_eq!(names, ["RecoveredXref", "LengthMismatch", "DroppedObject"]);
}

#[test]
fn error_display_uses_code_and_message() {
    let e = TurboParsePdfError::new(ErrorCode::InvalidHeader, "nope");
    assert_eq!(e.to_string(), "InvalidHeader: nope");
}

#[test]
fn diagnostics_push_and_empty() {
    let mut d = Diagnostics::default();
    assert!(d.is_empty());
    d.push(LintCode::RecoveredXref, "x");
    assert!(!d.is_empty());
    assert_eq!(d.lints.len(), 1);
}
