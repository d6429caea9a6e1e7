use std::borrow::Cow;

use mdwright::config::MathRender;
use mdwright::math::render::convert_for_renderer;
use mdwright::math::span::{DisplayDelim, EnvKind, InlineDelim, KnownEnv, MathBody, MathSpan};

#[test]
fn none_borrows_source() {
    let source = r"\[ A = B \]";
    let body = MathBody::new(2..9, Vec::new());
    let span = MathSpan::Display {
        delim: DisplayDelim::Bracket,
        body,
    };
    let out = convert_for_renderer(source, &(0..source.len()), &span, MathRender::Passthrough);
    assert!(matches!(out, Cow::Borrowed(_)));
    assert_eq!(&*out, source);
}

#[test]
fn commonmark_katex_borrows_source() {
    let source = r"\( x + y \)";
    let body = MathBody::new(2..9, Vec::new());
    let span = MathSpan::Inline {
        delim: InlineDelim::Paren,
        body,
    };
    let out = convert_for_renderer(source, &(0..source.len()), &span, MathRender::CommonmarkKatex);
    assert!(matches!(out, Cow::Borrowed(_)));
    assert_eq!(&*out, source);
}

#[test]
fn dollar_rewrites_display_bracket() {
    let source = r"\[ A = B \]";
    let body = MathBody::new(2..9, Vec::new());
    let span = MathSpan::Display {
        delim: DisplayDelim::Bracket,
        body,
    };
    let out = convert_for_renderer(source, &(0..source.len()), &span, MathRender::Dollar);
    assert_eq!(&*out, "$$ A = B $$");
}

#[test]
fn dollar_rewrites_inline_paren() {
    let source = r"\(B\)";
    let body = MathBody::new(2..3, Vec::new());
    let span = MathSpan::Inline {
        delim: InlineDelim::Paren,
        body,
    };
    let out = convert_for_renderer(source, &(0..source.len()), &span, MathRender::Dollar);
    assert_eq!(&*out, "$B$");
}

#[test]
fn dollar_rewrites_inline_dollar_unchanged_shape() {
    // Source already uses dollar — output is still dollar, body trimmed.
    let source = "$x + y$";
    let body = MathBody::new(1..6, Vec::new());
    let span = MathSpan::Inline {
        delim: InlineDelim::Dollar,
        body,
    };
    let out = convert_for_renderer(source, &(0..source.len()), &span, MathRender::Dollar);
    assert_eq!(&*out, "$x + y$");
}

#[test]
fn dollar_passes_environment_through() {
    let source = "\\begin{align*}\na &= b\n\\end{align*}";
    // env-kind lookup wants the source slice; the actual kind
    // doesn't matter for the pass-through assertion.
    let env = EnvKind::Known(KnownEnv::AlignStar);
    let body = MathBody::new(14..22, Vec::new());
    let span = MathSpan::Environment { env, body };
    let out = convert_for_renderer(source, &(0..source.len()), &span, MathRender::Dollar);
    assert!(matches!(out, Cow::Borrowed(_)));
    assert_eq!(&*out, source);
}

#[test]
fn dollar_blockquote_nested_strips_transparent_runs() {
    // `> \[ x \]` — the body range covers ` x `; the transparent
    // run covers the `> ` prefix that would be doubled if we did
    // not consult MathBody::as_str.
    let source = "> \\[ x \\]";
    // Body between delimiters: ` x ` at bytes 4..7.
    let body = MathBody::new(4..7, Vec::new());
    let span = MathSpan::Display {
        delim: DisplayDelim::Bracket,
        body,
    };
    let out = convert_for_renderer(source, &(2..9), &span, MathRender::Dollar);
    assert_eq!(&*out, "$$ x $$");
}
