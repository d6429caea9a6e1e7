use mdwright::format::doc::{
    concat_docs, hard_line, prefix_lines, render, soft_line, text, unbreakable, Doc, LinePrefix, RenderOptions,
};

fn r(doc: &Doc<'_>) -> String {
    render(doc, &RenderOptions)
}

fn quote_prefix() -> LinePrefix {
    LinePrefix {
        content: "> ".into(),
        blank: ">".into(),
    }
}

fn indent4_prefix() -> LinePrefix {
    LinePrefix {
        content: "    ".into(),
        blank: "".into(),
    }
}

#[test]
fn empty_concat_renders_to_empty() {
    let d: Doc<'_> = concat_docs([]);
    assert_eq!(r(&d), "");
}

#[test]
fn line_is_space() {
    let d = concat_docs([text("hi"), soft_line(), text("there")]);
    assert_eq!(r(&d), "hi there");
}

#[test]
fn hard_line_emits_newline() {
    let d = concat_docs([text("aaa"), hard_line(), text("bbb")]);
    assert_eq!(r(&d), "aaa\nbbb");
}

#[test]
fn atomic_passes_through() {
    let d = unbreakable(text("very_long_token_here"));
    assert_eq!(r(&d), "very_long_token_here");
}

#[test]
fn renderer_emits_only_lf() {
    let d = concat_docs([text("a"), hard_line(), text("b")]);
    assert!(!r(&d).contains('\r'));
}

#[test]
fn prefix_indents_continuation_lines() {
    // First line of inner is NOT prefixed — the caller prepends
    // "> " separately. Continuation lines do receive "> ".
    let inner = concat_docs([text("a"), hard_line(), text("b")]);
    let d = prefix_lines(quote_prefix(), inner);
    assert_eq!(r(&d), "a\n> b");
}

#[test]
fn prefix_blank_form_between_hardlines() {
    // a\n\nb inside Prefix => a\n>\n> b (blank line is bare ">",
    // next content line is "> b").
    let inner = concat_docs([text("a"), hard_line(), hard_line(), text("b")]);
    let d = prefix_lines(quote_prefix(), inner);
    assert_eq!(r(&d), "a\n>\n> b");
}

#[test]
fn prefix_trailing_hardline_does_not_drain() {
    // Trailing HardLine leaves pending=AfterHardLine but no next
    // leaf drains it — the "> " never lands. Avoids the legacy
    // trim_trailing_marker hack.
    let inner = concat_docs([text("a"), hard_line()]);
    let d = prefix_lines(quote_prefix(), inner);
    assert_eq!(r(&d), "a\n");
}

#[test]
fn prefix_composes_with_outer_prefix() {
    // Nested Prefix gives concatenated drains, innermost last.
    let inner = concat_docs([text("a"), hard_line(), text("b")]);
    let with_indent = prefix_lines(indent4_prefix(), inner);
    let with_quote = prefix_lines(quote_prefix(), with_indent);
    // a\n[> + "    "]b => "a\n>     b"
    assert_eq!(r(&with_quote), "a\n>     b");
}

#[test]
fn prefix_blank_indent_collapses_to_empty() {
    // Indent prefix with blank="" leaves blank lines bare —
    // continuation lines do get the 4-space indent.
    let inner = concat_docs([text("a"), hard_line(), hard_line(), text("b")]);
    let d = prefix_lines(indent4_prefix(), inner);
    assert_eq!(r(&d), "a\n\n    b");
}

#[test]
fn prefix_applies_to_text_internal_newlines() {
    // Constructs like FencedCodeBlock pack multi-line bodies into
    // a single Text; the prefix must still appear after each
    // embedded `\n`.
    let inner = unbreakable(text("```\nbody\n```".to_string()));
    let d = prefix_lines(quote_prefix(), inner);
    assert_eq!(r(&d), "```\n> body\n> ```");
}

#[test]
fn prefix_first_line_has_no_drain() {
    // The first leaf inside Prefix renders without any prefix
    // (pending starts None). Caller is responsible for the
    // first-line form if it differs from content.
    let d = prefix_lines(quote_prefix(), text("first"));
    assert_eq!(r(&d), "first");
}
