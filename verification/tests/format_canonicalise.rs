use mdwright::format::canonicalise::{needs_math_rewrite, scan_ordered_marker_number};
use mdwright::format::canonicalise::{next_blank_line_or_end, previous_blank_line_or_start};

#[test]
fn previous_blank_line_at_document_start() {
    assert_eq!(previous_blank_line_or_start("foo\nbar", 4), 0);
}

#[test]
fn previous_blank_line_after_blank() {
    let s = "alpha\n\nbeta gamma\n";
    assert_eq!(previous_blank_line_or_start(s, 7), 7);
}

#[test]
fn next_blank_line_at_eof() {
    assert_eq!(next_blank_line_or_end("foo bar", 0), 7);
}

#[test]
fn next_blank_line_at_blank() {
    let s = "alpha\n\nbeta\n";
    assert_eq!(next_blank_line_or_end(s, 0), 5);
}

use mdwright::config::{FmtOptions, MathOptions, MathRender};
use mdwright::format::canonicalise::{
    compute_math_replacement, find_inline_dest_range, find_ordered_marker_digits, find_unordered_bullet,
    is_emphasis_delim_run, parse_ref_def_line, scan_reference_definitions,
};
use mdwright::math::span::{DisplayDelim, EnvKind, KnownEnv, MathBody, MathRegion, MathSpan};

#[test]
fn blank_line_window_skips_non_blank_lines() {
    let s = "a\n\nb\nc\nd\n\ne";
    assert_eq!(previous_blank_line_or_start(s, 7), 3);
    assert_eq!(next_blank_line_or_end(s, 3), 8);
    assert_eq!(previous_blank_line_or_start(s, 100), 10);
    assert_eq!(next_blank_line_or_end(s, 100), s.len());
}

#[test]
fn blank_line_with_spaces_counts_as_blank() {
    let s = "a\n \t\nb";
    assert_eq!(previous_blank_line_or_start(s, 6), 5);
    assert_eq!(next_blank_line_or_end(s, 0), 1);
}

#[test]
fn inline_dest_bare_and_angle() {
    assert_eq!(find_inline_dest_range(b"[a](http://x) tail", 0, 18), Some((4, 12)));
    assert_eq!(find_inline_dest_range(b"[a](<u v>)", 0, 10), Some((4, 9)));
    assert_eq!(find_inline_dest_range(b"[a](f(x)g)", 0, 10), Some((4, 9)));
}

#[test]
fn inline_dest_nested_and_escaped_labels() {
    assert_eq!(find_inline_dest_range(b"[a [b] c](x)", 0, 12), Some((10, 11)));
    assert_eq!(find_inline_dest_range(b"[a\\]](y)", 0, 8), Some((6, 7)));
}

#[test]
fn inline_dest_rejects_other_shapes() {
    assert_eq!(find_inline_dest_range(b"a](x)", 0, 5), None);
    assert_eq!(find_inline_dest_range(b"[a] (x)", 0, 7), None);
    assert_eq!(find_inline_dest_range(b"[a]()", 0, 5), None);
    assert_eq!(find_inline_dest_range(b"[a](<u\nv>)", 0, 10), None);
    assert_eq!(find_inline_dest_range(b"[a", 5, 2), None);
}

#[test]
fn ref_def_lines() {
    let bare = b"[ref]: https://example.com";
    assert_eq!(parse_ref_def_line(bare, 0, bare.len()), Some((7, 26)));
    let angle = b"[ref]: <https://example.com>";
    assert_eq!(parse_ref_def_line(angle, 0, angle.len()), Some((7, 28)));
    assert_eq!(parse_ref_def_line(b"   [a]: b", 0, 9), Some((8, 9)));
    assert_eq!(parse_ref_def_line(b"    [a]: b", 0, 10), None);
    assert_eq!(parse_ref_def_line(b"[a] b", 0, 5), None);
    assert_eq!(parse_ref_def_line(b"[a]:  ", 0, 6), None);
}

#[test]
fn reference_definitions_over_a_document() {
    let doc = "text\n[a]: x\n  [b]: <y>\n";
    assert_eq!(scan_reference_definitions(doc), vec![(10, 11), (19, 22)]);
    assert_eq!(scan_reference_definitions(""), Vec::<(usize, usize)>::new());
}

#[test]
fn list_marker_sites() {
    assert_eq!(find_unordered_bullet(b"  - item", 0, 8), Some(2));
    assert_eq!(find_unordered_bullet(b"x- a", 0, 4), None);
    assert_eq!(find_unordered_bullet(b"   ", 0, 99), None);
    assert_eq!(find_ordered_marker_digits(b"  12. a", 0, 7), Some((2, 4)));
    assert_eq!(find_ordered_marker_digits(b"a1.", 0, 3), None);
}

#[test]
fn emphasis_delim_runs() {
    assert!(is_emphasis_delim_run(b"*_*"));
    assert!(!is_emphasis_delim_run(b""));
    assert!(!is_emphasis_delim_run(b"*a"));
}

#[test]
fn math_replacement_aligns_environment() {
    let source = "\\begin{align}x &= 1 \\\\ yy &= 2\\end{align}";
    let body_start = "\\begin{align}".len();
    let body_end = source.len() - "\\end{align}".len();
    let region = MathRegion {
        range: 0..source.len(),
        span: MathSpan::Environment {
            env: EnvKind::Known(KnownEnv::Align),
            body: MathBody::new(body_start..body_end, Vec::new()),
        },
    };
    let opts = FmtOptions::default().with_math(MathOptions { normalise: true, render: MathRender::Passthrough });
    assert_eq!(
        compute_math_replacement(source, &region, &opts).as_deref(),
        Some("\\begin{align}\nx  & = 1 \\\\\nyy & = 2\n\\end{align}")
    );
    let off = FmtOptions::default();
    assert_eq!(compute_math_replacement(source, &region, &off), None);
}

#[test]
fn math_replacement_dollar_display() {
    let source = "\\[ a \\]";
    let region = MathRegion {
        range: 0..source.len(),
        span: MathSpan::Display { delim: DisplayDelim::Bracket, body: MathBody::new(2..5, Vec::new()) },
    };
    let opts = FmtOptions::default().with_math(MathOptions { normalise: false, render: MathRender::Dollar });
    assert_eq!(compute_math_replacement(source, &region, &opts).as_deref(), Some("$$ a $$"));
}

#[test]
fn ordered_marker_numbers_read_as_u64() {
    let b = b"12. item";
    assert_eq!(scan_ordered_marker_number(b, 0, 2), Some(12));
    assert_eq!(scan_ordered_marker_number(b, 0, 3), None);
    assert_eq!(scan_ordered_marker_number(b, 2, 2), None);
    assert_eq!(scan_ordered_marker_number(b, 3, 2), None);
    assert_eq!(scan_ordered_marker_number(b, 0, 99), None);
    assert_eq!(scan_ordered_marker_number(b"+7", 0, 2), Some(7));
    assert_eq!(scan_ordered_marker_number(b"+", 0, 1), None);
    assert_eq!(scan_ordered_marker_number(b"007", 0, 3), Some(7));
    assert_eq!(scan_ordered_marker_number(b"18446744073709551615", 0, 20), Some(u64::MAX));
    assert_eq!(scan_ordered_marker_number(b"18446744073709551616", 0, 20), None);
}

#[test]
fn math_rewrite_needed_for_dollar_or_normalise() {
    let base = FmtOptions::default();
    assert!(!needs_math_rewrite(&base));
    let dollar = FmtOptions::default().with_math_render(MathRender::Dollar);
    assert!(needs_math_rewrite(&dollar));
    let katex = FmtOptions::default().with_math_render(MathRender::CommonmarkKatex);
    assert!(!needs_math_rewrite(&katex));
    let norm = FmtOptions::default().with_math(MathOptions { normalise: true, render: MathRender::Passthrough });
    assert!(needs_math_rewrite(&norm));
}

#[test]
fn emphasis_delimiter_swap_keeps_the_parse() {
    let out = "a *b* c\n\nnext\n";
    assert!(mdwright::format::canonicalise::rewrite_preserves_parse(out, b"_b_", 2, 5));
}

#[test]
fn unbalanced_rewrite_changes_the_parse() {
    let out = "a *b* c\n\nnext\n";
    assert!(!mdwright::format::canonicalise::rewrite_preserves_parse(out, b"*b", 2, 5));
}

#[test]
fn rewrite_splitting_a_character_is_refused() {
    let out = "\u{e9}x\n";
    assert!(!mdwright::format::canonicalise::rewrite_preserves_parse(out, b"y", 1, 2));
    assert!(!mdwright::format::canonicalise::rewrite_preserves_parse(out, &[0xff], 2, 3));
}

#[test]
fn splice_window_replaces_the_span() {
    let out = "one\n\ntwo *x* three\n\nfour\n";
    let (before, after) =
        mdwright::format::canonicalise::splice_window(out, b"_x_", 5, 9, 12, 19).unwrap();
    assert_eq!(before, "two *x* three\n");
    assert_eq!(after, "two _x_ three\n");
    assert!(mdwright::format::canonicalise::splice_window(out, b"", 9, 5, 12, 19).is_none());
}

use mdwright::config::LinkDefStyle;
use mdwright::format::canonicalise::{
    rewrite_emphasis_delim, rewrite_link_def_style, rewrite_ordered_list_renumber, rewrite_thematic,
    rewrite_unordered_list_marker, EmphasisKind,
};

#[test]
fn italic_underscore_to_asterisk() {
    let mut out = String::from("_foo_\n");
    rewrite_emphasis_delim(&mut out, EmphasisKind::Italic, b'*');
    assert_eq!(out, "*foo*\n");
}

#[test]
fn italic_asterisk_already_target_is_noop() {
    let mut out = String::from("*foo*\n");
    rewrite_emphasis_delim(&mut out, EmphasisKind::Italic, b'*');
    assert_eq!(out, "*foo*\n");
}

#[test]
fn italic_intraword_underscore_skips() {
    let mut out = String::from("foo_bar_baz\n");
    rewrite_emphasis_delim(&mut out, EmphasisKind::Italic, b'*');
    assert_eq!(out, "foo_bar_baz\n");
}

#[test]
fn strong_double_underscore_to_asterisk() {
    let mut out = String::from("__foo__\n");
    rewrite_emphasis_delim(&mut out, EmphasisKind::Strong, b'*');
    assert_eq!(out, "**foo**\n");
}

#[test]
fn list_marker_dash_to_asterisk_atomic() {
    let mut out = String::from("- a\n- b\n- c\n");
    rewrite_unordered_list_marker(&mut out, b'*');
    assert_eq!(out, "* a\n* b\n* c\n");
}

#[test]
fn thematic_dash_to_asterisk() {
    let mut out = String::from("before\n\n---\n\nafter\n");
    rewrite_thematic(&mut out, b'*');
    assert_eq!(out, "before\n\n***\n\nafter\n");
}

#[test]
fn ordered_list_renumber_consistent() {
    let mut out = String::from("3. a\n5. b\n9. c\n");
    rewrite_ordered_list_renumber(&mut out);
    assert_eq!(out, "3. a\n4. b\n5. c\n");
}

#[test]
fn link_def_to_angle() {
    let mut out = String::from("[ref]: https://example.com\n");
    rewrite_link_def_style(&mut out, LinkDefStyle::Angle);
    assert_eq!(out, "[ref]: <https://example.com>\n");
}

#[test]
fn link_def_to_bare() {
    let mut out = String::from("[ref]: <https://example.com>\n");
    rewrite_link_def_style(&mut out, LinkDefStyle::Bare);
    assert_eq!(out, "[ref]: https://example.com\n");
}

#[test]
fn renumber_widens_markers() {
    let mut out = String::from("9. a\n9. b\n");
    rewrite_ordered_list_renumber(&mut out);
    assert_eq!(out, "9. a\n10. b\n");
}

#[test]
fn canonicalise_reaches_a_fixed_point() {
    let mut opts = mdwright::config::FmtOptions::default();
    opts.thematic_break_style = mdwright::config::ThematicStyle::Underscore;
    let mut out = String::from("a\n\n***\n\nb\n");
    mdwright::format::canonicalise::canonicalise(&mut out, &opts);
    assert_eq!(out, "a\n\n___\n\nb\n");
}

#[test]
fn inline_link_destination_to_angle() {
    let mut out = String::from("see [x](https://e.example) now\n");
    rewrite_link_def_style(&mut out, LinkDefStyle::Angle);
    assert_eq!(out, "see [x](<https://e.example>) now\n");
}
