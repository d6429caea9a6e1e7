use std::borrow::Cow;
use std::ops::Range;

use mdwright::math::scan::{scan_math_regions, MathConfig};
use mdwright::math::span::{DisplayDelim, EnvKind, InlineDelim, KnownEnv, MathError, MathRegion, MathSpan};

#[allow(dead_code)]
struct InlineCode {
    text: &'static str,
    byte_offset: usize,
    raw_range: Range<usize>,
}

#[allow(dead_code)]
struct CodeBlock {
    text: &'static str,
    byte_offset: usize,
    raw_range: Range<usize>,
    info: Cow<'static, str>,
    fenced: bool,
}

#[allow(dead_code)]
struct InlineHtml {
    text: &'static str,
    byte_offset: usize,
    raw_range: Range<usize>,
}

fn raw_ic(v: &[InlineCode]) -> Vec<Range<usize>> {
    v.iter().map(|c| c.raw_range.clone()).collect()
}

fn raw_cb(v: &[CodeBlock]) -> Vec<Range<usize>> {
    v.iter().map(|c| c.raw_range.clone()).collect()
}

fn raw_ih(v: &[InlineHtml]) -> Vec<Range<usize>> {
    v.iter().map(|c| c.raw_range.clone()).collect()
}

fn scan(source: &str) -> (Vec<MathRegion>, Vec<MathError>) {
    scan_math_regions(source, &[], &[], &[], &[], MathConfig::default())
}

fn regions(source: &str) -> Vec<MathRegion> {
    scan(source).0
}

#[test]
fn scan_display_math_single_line() {
    let s = r"prefix \[ A \] suffix";
    let regs = regions(s);
    assert_eq!(regs.len(), 1);
    assert_eq!(&s[regs[0].range.clone()], r"\[ A \]");
    assert!(matches!(
        regs[0].span,
        MathSpan::Display {
            delim: DisplayDelim::Bracket,
            ..
        }
    ));
}

#[test]
fn scan_display_math_multi_line() {
    let s = "before \\[\n  A \\to B\n\\] after";
    let regs = regions(s);
    assert_eq!(regs.len(), 1);
    let span = &s[regs[0].range.clone()];
    assert!(span.starts_with(r"\["));
    assert!(span.ends_with(r"\]"));
}

#[test]
fn scan_inline_math_paren() {
    let s = r"x is \( a + b \) units";
    let regs = regions(s);
    assert_eq!(regs.len(), 1);
    assert_eq!(&s[regs[0].range.clone()], r"\( a + b \)");
    assert!(matches!(
        regs[0].span,
        MathSpan::Inline {
            delim: InlineDelim::Paren,
            ..
        }
    ));
}

#[test]
fn scan_two_separate_regions() {
    let s = r"see \[ A \] and \[ B \] both";
    let regs = regions(s);
    assert_eq!(regs.len(), 2);
    assert!(regs[0].range.end <= regs[1].range.start);
}

#[test]
fn unbalanced_open_drops_region_and_emits_error() {
    let s = r"start \[ no close here";
    let (regs, errs) = scan(s);
    assert!(regs.is_empty());
    assert_eq!(errs.len(), 1);
    match &errs[0] {
        MathError::UnbalancedDelim { delim, .. } => {
            assert!(delim.is_display());
            assert_eq!(delim.open(), r"\[");
            assert_eq!(delim.close(), r"\]");
        }
        MathError::UnbalancedEnv { .. } | MathError::UnbalancedBraces { .. } => {
            panic!("expected delim error")
        }
    }
}

#[test]
fn scan_greedy_first_close() {
    let s = r"\[ a \[ b \] c \]";
    let regs = regions(s);
    assert_eq!(regs.len(), 1);
    assert_eq!(&s[regs[0].range.clone()], r"\[ a \[ b \]");
}

#[test]
fn scan_double_backslash_open_is_not_math() {
    let s = r"foo \\[ not math \] bar";
    assert!(regions(s).is_empty());
}

#[test]
fn scan_triple_backslash_open_is_math() {
    let s = r"foo \\\[ A \] bar";
    assert_eq!(regions(s).len(), 1);
}

#[test]
fn scan_region_inside_code_span_excluded() {
    let s = r"text `\[ x \]` more";
    let ic = vec![InlineCode {
        text: r"\[ x \]",
        byte_offset: 5,
        raw_range: 5..14,
    }];
    let (regs, _) = scan_math_regions(s, &raw_ic(&ic), &[], &[], &[], MathConfig::default());
    assert!(regs.is_empty());
}

#[test]
fn scan_region_inside_code_block_excluded() {
    let s = "```\n\\[ x \\]\n```";
    let cb = vec![CodeBlock {
        text: r"\[ x \]",
        byte_offset: 4,
        raw_range: 0..s.len(),
        info: Cow::Borrowed(""),
        fenced: true,
    }];
    let (regs, _) = scan_math_regions(s, &[], &raw_cb(&cb), &[], &[], MathConfig::default());
    assert!(regs.is_empty());
}

#[test]
fn region_inside_inline_html_excluded() {
    let s = r#"see <a href="/x?val=$foo">x</a> after"#;
    let ih = vec![InlineHtml {
        text: r#"<a href="/x?val=$foo">"#,
        byte_offset: 4,
        raw_range: 4..26,
    }];
    let cfg = MathConfig {
        single_dollar: true,
        ..MathConfig::default()
    };
    let (regs, _) = scan_math_regions(s, &[], &[], &[], &raw_ih(&ih), cfg);
    assert!(regs.is_empty());
}

#[test]
fn scan_dollar_variants_off_by_default() {
    let s = "value is $5 today, plus $$2 tomorrow";
    assert!(regions(s).is_empty());
}

#[test]
fn scan_double_dollar_when_enabled() {
    let s = "see $$ x = 5 $$ above";
    let cfg = MathConfig {
        double_dollar: true,
        ..MathConfig::default()
    };
    let (regs, _) = scan_math_regions(s, &[], &[], &[], &[], cfg);
    assert_eq!(regs.len(), 1);
    assert_eq!(&s[regs[0].range.clone()], "$$ x = 5 $$");
    assert!(matches!(
        regs[0].span,
        MathSpan::Display {
            delim: DisplayDelim::Dollar2,
            ..
        }
    ));
}

#[test]
fn scan_single_dollar_when_enabled() {
    let s = "x is $a + b$";
    let cfg = MathConfig {
        single_dollar: true,
        ..MathConfig::default()
    };
    let (regs, _) = scan_math_regions(s, &[], &[], &[], &[], cfg);
    assert_eq!(regs.len(), 1);
    assert_eq!(&s[regs[0].range.clone()], "$a + b$");
    assert!(matches!(
        regs[0].span,
        MathSpan::Inline {
            delim: InlineDelim::Dollar,
            ..
        }
    ));
}

#[test]
fn scan_region_with_subscripts_and_emphasis_chars() {
    let s = r"see \[ \pi_A:\Gamma.A\to \Gamma \] above";
    let regs = regions(s);
    assert_eq!(regs.len(), 1);
    let span = &s[regs[0].range.clone()];
    assert!(span.contains("_A"));
    assert!(span.contains(r"\Gamma"));
}

#[test]
fn scan_regions_dont_overlap_or_misorder() {
    let s = r"\[ a \] mid \( b \) end \[ c \]";
    let regs = regions(s);
    assert_eq!(regs.len(), 3);
    for w in regs.windows(2) {
        assert!(w[0].range.end <= w[1].range.start);
    }
}

#[test]
fn environment_basic() {
    let s = "before \\begin{align} x &= y \\end{align} after";
    let regs = regions(s);
    assert_eq!(regs.len(), 1);
    let span = &s[regs[0].range.clone()];
    assert!(span.starts_with("\\begin{align}"));
    assert!(span.ends_with("\\end{align}"));
    match &regs[0].span {
        MathSpan::Environment { env, body } => {
            assert!(matches!(env, EnvKind::Known(KnownEnv::Align)));
            // body starts after `\begin{align}` (13 bytes) plus the
            // 7-byte prefix `before `.
            assert_eq!(body.range.start, 7 + 13);
            assert!(&s[body.range.clone()].contains("x &= y"));
        }
        MathSpan::Inline { .. } | MathSpan::Display { .. } => {
            panic!("expected environment span")
        }
    }
}

#[test]
fn environment_nested_same_name() {
    let s = "\\begin{matrix} a \\begin{matrix} b \\end{matrix} c \\end{matrix}";
    let regs = regions(s);
    assert_eq!(regs.len(), 1);
    assert_eq!(&s[regs[0].range.clone()], s);
}

#[test]
fn environment_starred_name() {
    let s = "\\begin{align*} x \\end{align*}";
    let regs = regions(s);
    assert_eq!(regs.len(), 1);
    assert!(matches!(
        &regs[0].span,
        MathSpan::Environment {
            env: EnvKind::Known(KnownEnv::AlignStar),
            ..
        }
    ));
}

#[test]
fn environment_custom_name_round_trips() {
    let s = "\\begin{widget} q \\end{widget}";
    let regs = regions(s);
    assert_eq!(regs.len(), 1);
    match &regs[0].span {
        MathSpan::Environment {
            env: EnvKind::Custom(name_range),
            ..
        } => {
            assert_eq!(&s[name_range.clone()], "widget");
        }
        MathSpan::Inline { .. }
        | MathSpan::Display { .. }
        | MathSpan::Environment {
            env: EnvKind::Known(_),
            ..
        } => {
            panic!("expected custom env")
        }
    }
}

#[test]
fn environment_unbalanced_emits_error() {
    let s = "\\begin{align} x = 1 \n";
    let (regs, errs) = scan(s);
    assert!(regs.is_empty());
    assert_eq!(errs.len(), 1);
    assert!(matches!(&errs[0], MathError::UnbalancedEnv { name, .. } if name == "align"));
}

#[test]
fn environment_inside_display_is_one_region() {
    let s = "\\[ \\begin{aligned} a &= b \\end{aligned} \\]";
    let regs = regions(s);
    assert_eq!(regs.len(), 1);
    // The outer region is Display (brackets); the inner aligned
    // is part of the body, not its own top-level region.
    assert!(matches!(
        &regs[0].span,
        MathSpan::Display {
            delim: DisplayDelim::Bracket,
            ..
        }
    ));
}

#[test]
fn brace_imbalance_emits_error_but_region_still_scans() {
    let s = r"\[ \frac{a}{b \]";
    let (regs, errs) = scan(s);
    assert_eq!(regs.len(), 1);
    assert!(
        errs.iter()
            .any(|e| matches!(e, MathError::UnbalancedBraces { .. }))
    );
}

#[test]
fn brace_balance_with_escaped_braces() {
    let s = r"\[ \{ a \} \]";
    let (_, errs) = scan(s);
    assert!(
        errs.iter()
            .all(|e| !matches!(e, MathError::UnbalancedBraces { .. })),
        "escaped braces should not count: {errs:?}"
    );
}
