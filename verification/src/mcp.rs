//! The tool server's protocol decisions: which JSON-RPC method a request
//! names, which tool a `tools/call` asks for, and the error codes a failed
//! request is answered with.

use vstd::prelude::*;

use crate::object::str_eq;

verus! {

/// Per-connection session state (none is needed yet).
#[derive(Debug, Default)]
pub struct Session {}

impl Session {
    /// A fresh session.
    pub fn new() -> (r: Session) {
        Session {  }
    }
}

/// A JSON-RPC method the server answers.
#[derive(Debug, Clone, Copy, PartialEq, Eq, Structural)]
pub enum Route {
    Initialize,
    ToolsList,
    ToolsCall,
    NotFound,
}

/// The route for a method name.
pub open spec fn route_spec(method: Seq<char>) -> Route {
    if method == "initialize"@ {
        Route::Initialize
    } else if method == "tools/list"@ {
        Route::ToolsList
    } else if method == "tools/call"@ {
        Route::ToolsCall
    } else {
        Route::NotFound
    }
}

/// Route a method name to its handler.
pub fn route(method: &str) -> (r: Route)
    ensures
        r == route_spec(method@),
{
    if str_eq(method, "initialize") {
        Route::Initialize
    } else if str_eq(method, "tools/list") {
        Route::ToolsList
    } else if str_eq(method, "tools/call") {
        Route::ToolsCall
    } else {
        Route::NotFound
    }
}

/// A tool the server runs.
#[derive(Debug, Clone, Copy, PartialEq, Eq, Structural)]
pub enum Tool {
    ParsePdf,
    InspectPdf,
    ExtractTables,
    ExtractImages,
    Unknown,
}

/// The tool a `tools/call` names.
pub open spec fn tool_spec(name: Option<Seq<char>>) -> Tool {
    match name {
        Some(n) => if n == "parse_pdf"@ {
            Tool::ParsePdf
        } else if n == "inspect_pdf"@ {
            Tool::InspectPdf
        } else if n == "extract_tables"@ {
            Tool::ExtractTables
        } else if n == "extract_images"@ {
            Tool::ExtractImages
        } else {
            Tool::Unknown
        },
        None => Tool::Unknown,
    }
}

/// The tool a `tools/call` names.
pub fn tool_of(name: Option<&str>) -> (r: Tool)
    ensures
        r == tool_spec(match name {
            Some(n) => Some(n@),
            None => None::<Seq<char>>,
        }),
{
    match name {
        Some(n) => {
            if str_eq(n, "parse_pdf") {
                Tool::ParsePdf
            } else if str_eq(n, "inspect_pdf") {
                Tool::InspectPdf
            } else if str_eq(n, "extract_tables") {
                Tool::ExtractTables
            } else if str_eq(n, "extract_images") {
                Tool::ExtractImages
            } else {
                Tool::Unknown
            }
        },
        None => Tool::Unknown,
    }
}

/// JSON-RPC error code: method not found.
pub const METHOD_NOT_FOUND: i64 = -32601;

/// JSON-RPC error code: invalid params (missing params, arguments or path, or
/// an unknown tool).
pub const INVALID_PARAMS: i64 = -32602;

/// Server error code: the file could not be read or parsed.
pub const SERVER_ERROR: i64 = -32000;

/// The output format a `parse_pdf` call asks for.
#[derive(Debug, Clone, Copy, PartialEq, Eq, Structural)]
pub enum Format {
    Text,
    Markdown,
    Html,
    Json,
}

/// The format a name selects (plain text by default).
pub open spec fn format_spec(name: Seq<char>) -> Format {
    if name == "markdown"@ {
        Format::Markdown
    } else if name == "html"@ {
        Format::Html
    } else if name == "json"@ {
        Format::Json
    } else {
        Format::Text
    }
}

/// The format a name selects (plain text by default).
pub fn format_of(name: &str) -> (r: Format)
    ensures
        r == format_spec(name@),
{
    if str_eq(name, "markdown") {
        Format::Markdown
    } else if str_eq(name, "html") {
        Format::Html
    } else if str_eq(name, "json") {
        Format::Json
    } else {
        Format::Text
    }
}

} // verus!
