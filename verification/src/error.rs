//! Error and diagnostic types shared across the parser.
//!
//! A fatal fault is a [`TurboParsePdfError`] carrying a stable machine-readable
//! [`ErrorCode`]; non-fatal problems (a recovered xref, a dropped malformed
//! object) are collected as [`Lint`]s in [`Diagnostics`] and returned alongside
//! the parsed document, never thrown.

use vstd::prelude::*;
use vstd::string::StringExecFns;

verus! {

/// Stable machine-readable code for a fatal parse fault. The string form is the
/// variant name.
#[derive(Debug, Clone, Copy, PartialEq, Eq, Structural)]
pub enum ErrorCode {
    /// The input did not begin with a `%PDF-` header signature.
    InvalidHeader,
    /// The cross-reference table / stream could not be located or parsed.
    InvalidXref,
    /// An indirect object header (`n g obj … endobj`) was malformed.
    InvalidObject,
    /// The COS tokenizer hit a byte sequence that is not a valid object.
    UnexpectedToken,
    /// Input ended while an object/stream/structure was still open.
    UnexpectedEof,
    /// A stream's filter chain failed to decode (e.g. corrupt DEFLATE data).
    BadStream,
    /// The trailer dictionary was missing or had no usable `/Root`.
    MissingTrailer,
    /// A referenced indirect object could not be resolved.
    ObjectNotFound,
    /// A required capability is not implemented for this input.
    Unsupported,
}

/// The variant name of an error code, as text.
pub open spec fn error_code_name(code: ErrorCode) -> Seq<char> {
    match code {
        ErrorCode::InvalidHeader => "InvalidHeader"@,
        ErrorCode::InvalidXref => "InvalidXref"@,
        ErrorCode::InvalidObject => "InvalidObject"@,
        ErrorCode::UnexpectedToken => "UnexpectedToken"@,
        ErrorCode::UnexpectedEof => "UnexpectedEof"@,
        ErrorCode::BadStream => "BadStream"@,
        ErrorCode::MissingTrailer => "MissingTrailer"@,
        ErrorCode::ObjectNotFound => "ObjectNotFound"@,
        ErrorCode::Unsupported => "Unsupported"@,
    }
}

impl ErrorCode {
    /// The stable string form of the code (the variant name).
    pub fn as_str(self) -> (r: &'static str)
        ensures
            r@ == error_code_name(self),
    {
        match self {
            ErrorCode::InvalidHeader => "InvalidHeader",
            ErrorCode::InvalidXref => "InvalidXref",
            ErrorCode::InvalidObject => "InvalidObject",
            ErrorCode::UnexpectedToken => "UnexpectedToken",
            ErrorCode::UnexpectedEof => "UnexpectedEof",
            ErrorCode::BadStream => "BadStream",
            ErrorCode::MissingTrailer => "MissingTrailer",
            ErrorCode::ObjectNotFound => "ObjectNotFound",
            ErrorCode::Unsupported => "Unsupported",
        }
    }
}

/// A fatal fault produced while parsing a PDF.
#[derive(Debug, Clone)]
pub struct TurboParsePdfError {
    pub code: ErrorCode,
    pub message: String,
}

impl TurboParsePdfError {
    /// Construct an error from a code and a message.
    pub fn new(code: ErrorCode, message: &str) -> (r: TurboParsePdfError)
        ensures
            r.code == code,
            r.message@ == message@,
    {
        TurboParsePdfError { code, message: message.to_owned() }
    }

    /// The displayed form: `<code>: <message>`.
    pub fn to_string(&self) -> (r: String)
        ensures
            r@ == error_code_name(self.code) + ": "@ + self.message@,
    {
        let mut s = String::from_str(self.code.as_str());
        s.append(": ");
        s.append(self.message.as_str());
        s
    }
}

/// Stable machine-readable code for a non-fatal lint.
#[derive(Debug, Clone, Copy, PartialEq, Eq, Structural)]
pub enum LintCode {
    /// The cross-reference table was unusable, so objects were located by a
    /// brute-force scan for `n g obj` markers.
    RecoveredXref,
    /// A stream's declared `/Length` disagreed with the `endstream` marker.
    LengthMismatch,
    /// A malformed indirect object was skipped during recovery.
    DroppedObject,
}

/// The variant name of a lint code, as text.
pub open spec fn lint_code_name(code: LintCode) -> Seq<char> {
    match code {
        LintCode::RecoveredXref => "RecoveredXref"@,
        LintCode::LengthMismatch => "LengthMismatch"@,
        LintCode::DroppedObject => "DroppedObject"@,
    }
}

impl LintCode {
    /// The stable string form of the lint code (the variant name).
    pub fn as_str(self) -> (r: &'static str)
        ensures
            r@ == lint_code_name(self),
    {
        match self {
            LintCode::RecoveredXref => "RecoveredXref",
            LintCode::LengthMismatch => "LengthMismatch",
            LintCode::DroppedObject => "DroppedObject",
        }
    }
}

/// A non-fatal diagnostic collected during a parse.
#[derive(Debug, Clone)]
pub struct Lint {
    pub code: LintCode,
    pub message: String,
}

/// Collected non-fatal diagnostics returned alongside the document.
#[derive(Debug, Clone)]
pub struct Diagnostics {
    pub lints: Vec<Lint>,
}

impl Diagnostics {
    /// An empty collection.
    pub fn new() -> (r: Diagnostics)
        ensures
            r.lints@.len() == 0,
    {
        Diagnostics { lints: Vec::new() }
    }

    /// Append a lint to the collection.
    pub fn push(&mut self, code: LintCode, message: &str)
        ensures
            final(self).lints@.len() == old(self).lints@.len() + 1,
            final(self).lints@.take(old(self).lints@.len() as int) == old(self).lints@,
            final(self).lints@.last().code == code,
            final(self).lints@.last().message@ == message@,
    {
        self.lints.push(Lint { code, message: message.to_owned() });
    }

    /// True when no lints have been collected.
    pub fn is_empty(&self) -> (r: bool)
        ensures
            r == (self.lints@.len() == 0),
    {
        self.lints.len() == 0
    }
}

impl Default for Diagnostics {
    fn default() -> (r: Diagnostics)
        ensures
            r.lints@.len() == 0,
    {
        Diagnostics::new()
    }
}

} // verus!
