use std::borrow::Cow;
use mdwright::inline::html::InlineHtmlSpan;

#[test]
fn non_comment_is_passed_through() {
    let span = InlineHtmlSpan::from_parser(Cow::Borrowed("<span>"), 0, "<span>");
    assert_eq!(span.as_str(), "<span>");
}

#[test]
fn comment_at_line_start_without_indent_is_passed_through() {
    let source = "before\n<!-- c -->";
    let start = source.find("<!--").unwrap();
    let span = InlineHtmlSpan::from_parser(Cow::Borrowed("<!-- c -->"), start, source);
    assert_eq!(span.as_str(), "<!-- c -->");
}

#[test]
fn comment_on_own_line_with_indent_gains_prefix() {
    let source = "before\n    <!-- c -->\nafter";
    let start = source.find("<!--").unwrap();
    let span = InlineHtmlSpan::from_parser(Cow::Borrowed("<!-- c -->"), start, source);
    assert_eq!(span.as_str(), "    <!-- c -->");
}

#[test]
fn comment_mid_line_is_passed_through() {
    let source = "text <!-- c --> tail";
    let start = source.find("<!--").unwrap();
    let span = InlineHtmlSpan::from_parser(Cow::Borrowed("<!-- c -->"), start, source);
    assert_eq!(span.as_str(), "<!-- c -->");
}
