use turbo_parsepdf_core::mcp::{format_of, route, tool_of, Format, Route, Session, Tool};

#[test]
fn routes_methods_and_tools() {
    let _s = Session::new();
    assert_eq!(route("initialize"), Route::Initialize);
    assert_eq!(route("tools/list"), Route::ToolsList);
    assert_eq!(route("tools/call"), Route::ToolsCall);
    assert_eq!(route("bogus"), Route::NotFound);
    assert_eq!(tool_of(Some("parse_pdf")), Tool::ParsePdf);
    assert_eq!(tool_of(Some("inspect_pdf")), Tool::InspectPdf);
    assert_eq!(tool_of(Some("extract_tables")), Tool::ExtractTables);
    assert_eq!(tool_of(Some("extract_images")), Tool::ExtractImages);
    assert_eq!(tool_of(Some("nope")), Tool::Unknown);
    assert_eq!(tool_of(None), Tool::Unknown);
    assert_eq!(format_of("markdown"), Format::Markdown);
    assert_eq!(format_of("html"), Format::Html);
    assert_eq!(format_of("json"), Format::Json);
    assert_eq!(format_of("text"), Format::Text);
    assert_eq!(format_of("other"), Format::Text);
}
