//! Rendering to HTML after the source's canonicalisation.

use mdwright::document::{canonical_text, render_html};

#[test]
fn renders_heading_and_paragraph() {
    assert_eq!(render_html("# Title\n\nSome *text*.\n"), "<h1>Title</h1>\n<p>Some <em>text</em>.</p>\n");
}

#[test]
fn renders_with_the_formatter_extensions() {
    assert_eq!(render_html("~~gone~~\n"), "<p><del>gone</del></p>\n");
    let table = render_html("| a |\n|---|\n| b |\n");
    assert!(table.starts_with("<table>"), "{table}");
}

#[test]
fn crlf_and_cr_render_as_lf() {
    assert_eq!(render_html("a\r\nb\rc\r\n"), render_html("a\nb\nc\n"));
}

#[test]
fn nul_renders_as_replacement_character() {
    assert_eq!(render_html("a\0b\n"), "<p>a\u{FFFD}b</p>\n");
}

#[test]
fn canonical_text_maps_line_endings_and_nul() {
    assert_eq!(canonical_text("x\r\ny\rz\0\n"), "x\ny\nz\u{FFFD}\n");
    assert_eq!(canonical_text(""), "");
}
