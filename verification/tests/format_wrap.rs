use mdwright::config::Wrap;
use mdwright::format::doc::{
    concat_docs, hard_line, prefix_lines, render, soft_line, text, unbreakable, Doc, LinePrefix, RenderOptions,
};
use mdwright::format::doc::prose;
use mdwright::format::wrap::{solve_breaks, wrap_doc, Bx};

fn render_wrapped(doc: Doc<'_>, wrap: Wrap) -> String {
    let wrapped = wrap_doc(doc, wrap);
    render(&wrapped, &RenderOptions)
}

#[test]
fn keep_rewrites_line_to_hardline() {
    let d = concat_docs([text("a"), soft_line(), text("b")]);
    assert_eq!(render_wrapped(d, Wrap::Keep), "a\nb");
}

#[test]
fn no_rewrites_line_to_space() {
    let d = concat_docs([text("a"), soft_line(), text("b")]);
    assert_eq!(render_wrapped(d, Wrap::No), "a b");
}

#[test]
fn at_target_does_not_break_when_short() {
    let d = concat_docs([text("hi"), soft_line(), text("there")]);
    assert_eq!(render_wrapped(d, Wrap::At(80)), "hi there");
}

#[test]
fn at_target_breaks_to_fit() {
    // Two words of total width 10 ("foo" + " " + "barbaz" = 10).
    // Target 5 forces a break between them.
    let d = concat_docs([text("foo"), soft_line(), text("barbaz")]);
    assert_eq!(render_wrapped(d, Wrap::At(5)), "foo\nbarbaz");
}

#[test]
fn at_target_does_not_split_a_single_text() {
    // `Doc::Text` is atomic by the Wadler/Lindig discipline: the
    // wrap pass never inspects its contents. A long text with
    // internal spaces stays on one line (forced overflow) when
    // no `Doc::Line` / `Doc::SoftSpace` declares break
    // opportunities. Producers expressing word-level wrappability
    // use `crate::format::doc::prose`; see the next test.
    let d = text("aaa bbb ccc ddd eee");
    assert_eq!(render_wrapped(d, Wrap::At(8)), "aaa bbb ccc ddd eee");
}

#[test]
fn at_target_breaks_prose_at_explicit_soft_spaces() {
    let d = prose("aaa bbb ccc ddd eee");
    assert_eq!(render_wrapped(d, Wrap::At(8)), "aaa bbb\nccc ddd\neee");
}

#[test]
fn keep_renders_soft_space_as_literal_space() {
    // `Wrap::Keep` must NOT promote `SoftSpace` to `HardLine`
    // (only `Line`, the source soft break, does that). A prose
    // tokenisation that all fits on one line in source must stay
    // on one line in output.
    let d = prose("aaa bbb ccc");
    assert_eq!(render_wrapped(d, Wrap::Keep), "aaa bbb ccc");
}

#[test]
fn unbreakable_group_stays_whole_even_when_oversize() {
    let d = concat_docs([text("hi"), soft_line(), unbreakable(text("xxxxxxxxxx"))]);
    assert_eq!(render_wrapped(d, Wrap::At(5)), "hi\nxxxxxxxxxx");
}

#[test]
fn hard_line_terminates_run() {
    let d = concat_docs([text("foo"), soft_line(), text("bar"), hard_line(), text("baz qux")]);
    let out = render_wrapped(d, Wrap::At(80));
    assert_eq!(out, "foo bar\nbaz qux");
}

#[test]
fn unicode_width_counts_wide_glyphs() {
    // CJK characters are width-2 each. "你好" is 4 columns wide
    // (2 chars × 2), so at target 4 it fits alone on a line.
    let d = concat_docs([text("你好"), soft_line(), text("你好")]);
    assert_eq!(render_wrapped(d, Wrap::At(4)), "你好\n你好");
}

#[test]
fn empty_input_returns_empty() {
    let d: Doc<'_> = concat_docs([]);
    assert_eq!(render_wrapped(d, Wrap::At(80)), "");
}

#[test]
fn wrap_recurses_into_prefix_with_shrunken_target() {
    // Inner content fits at outer target 10 but not at the
    // reduced target (10 - 2 = 8) the "> " prefix imposes.
    // Words "aaaa bbbb": flat width 9 (fits at 10, not at 8).
    let inner = concat_docs([text("aaaa"), soft_line(), text("bbbb")]);
    let prefixed = prefix_lines(
        LinePrefix {
            content: "> ".into(),
            blank: ">".into(),
        },
        inner,
    );
    let out = render_wrapped(prefixed, Wrap::At(10));
    // Reduced target forces the break; continuation line carries
    // the "> " drain.
    assert_eq!(out, "aaaa\n> bbbb");
}

#[test]
fn prefix_keep_mode_preserves_inner_breaks() {
    let inner = concat_docs([text("a"), soft_line(), text("b")]);
    let prefixed = prefix_lines(
        LinePrefix {
            content: "> ".into(),
            blank: ">".into(),
        },
        inner,
    );
    // Keep promotes Line to HardLine inside Prefix too.
    assert_eq!(render_wrapped(prefixed, Wrap::Keep), "a\n> b");
}

#[test]
fn solver_minimises_squared_slack() {
    // Boxes of widths [3, 3, 3, 3] with target 7: best layout
    // is "3 3 / 3 3" (slack 1+0); the alternative "3 3 3 / 3"
    // would overflow (width 11 > 7). The DP must pick the
    // two-per-line layout.
    let boxes = vec![
        Bx {
            parts: vec![text("aaa")],
            width: 3,
        },
        Bx {
            parts: vec![text("bbb")],
            width: 3,
        },
        Bx {
            parts: vec![text("ccc")],
            width: 3,
        },
        Bx {
            parts: vec![text("ddd")],
            width: 3,
        },
    ];
    let breaks = solve_breaks(&boxes, 7).unwrap_or_default();
    assert_eq!(breaks, vec![2, 4]);
}
