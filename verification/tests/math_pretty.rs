use mdwright::math::pretty::{align_env_body, trim_display_body, body_braces_balanced, collapse_inline_ws, split_cells, split_rows};

#[test]
fn collapse_inline_ws_collapses_runs() {
    assert_eq!(collapse_inline_ws("x  +   y"), "x + y");
}

#[test]
fn collapse_inline_ws_preserves_thin_space() {
    assert_eq!(collapse_inline_ws(r"a\,b"), r"a\,b");
    assert_eq!(collapse_inline_ws(r"a\ b"), r"a\ b");
}

#[test]
fn pretty_body_braces_balanced_accepts_matched() {
    assert!(body_braces_balanced("a{b{c}d}e").is_ok());
}

#[test]
fn pretty_body_braces_balanced_rejects_unmatched() {
    assert!(body_braces_balanced("a}").is_err());
    assert!(body_braces_balanced("a{b").is_err());
}

#[test]
fn body_braces_balanced_ignores_escapes() {
    assert!(body_braces_balanced(r"\{a\}").is_ok());
}

#[test]
fn split_rows_basic() {
    // split_rows preserves intra-row spacing; per-cell trim happens
    // inside align_env_body once cells are extracted.
    assert_eq!(split_rows(r"a \\ b \\ c"), vec!["a ", " b ", " c"]);
}

#[test]
fn split_cells_basic() {
    assert_eq!(split_cells("a & b & c"), vec!["a ", " b ", " c"]);
}

#[test]
fn align_env_body_pads_ascii_columns() {
    let body = "a & 1 \\\\ longer & 22";
    let out = align_env_body(body);
    // Column 0 widths: "a" (1) and "longer" (6) → pad first cell.
    let lines: Vec<&str> = out.lines().collect();
    assert_eq!(lines.len(), 2);
    assert!(lines[0].starts_with("a     "));
    assert!(lines[1].starts_with("longer"));
    assert!(lines[0].ends_with("& 1 \\\\") || lines[0].contains("& 1"));
}

#[test]
fn align_env_body_uses_unicode_width() {
    // Cyrillic and Greek letters are single-width; the wider cell
    // dictates padding.
    let body = "α & β \\\\ γγγ & δ";
    let out = align_env_body(body);
    let lines: Vec<&str> = out.lines().collect();
    assert_eq!(lines.len(), 2);
    assert!(lines[1].starts_with("γγγ"));
}

#[test]
fn trim_display_body_drops_blank_edges() {
    assert_eq!(trim_display_body("\n  \n a + b  \n c\t\n\n"), " a + b\n c");
    assert_eq!(trim_display_body(" \n\t\n"), "");
    assert_eq!(trim_display_body("x\r\ny"), "x\ny");
}

#[test]
fn align_env_body_pads_all_but_last_cell() {
    assert_eq!(align_env_body("a & bb & c \\\\ ccc & d & e"), "a   & bb & c \\\\\nccc & d  & e");
    assert_eq!(align_env_body("\n\n"), "");
    assert_eq!(align_env_body("x"), "x");
}
