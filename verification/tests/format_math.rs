use std::borrow::Cow;
use std::ops::Range;

use mdwright::format::math::{scan_math, MathConfig, MathDelim, MathRegion, UnclosedOpen};

#[allow(dead_code)]
struct InlineCode {
    text: &'static str,
    byte_offset: usize,
    raw_range: Range<usize>,
}

#[allow(dead_code)]
struct CodeBlock {
    text: &'static str,
    byte_offset: usize,
    raw_range: Range<usize>,
    info: Cow<'static, str>,
    fenced: bool,
}

fn raw_ic(v: &[InlineCode]) -> Vec<Range<usize>> {
    v.iter().map(|c| c.raw_range.clone()).collect()
}

fn raw_cb(v: &[CodeBlock]) -> Vec<Range<usize>> {
    v.iter().map(|c| c.raw_range.clone()).collect()
}

fn scan(source: &str) -> (Vec<MathRegion>, Vec<UnclosedOpen>) {
    scan_math(source, &[], &[], &[], MathConfig::default())
}

fn regions(source: &str) -> Vec<MathRegion> {
    scan(source).0
}

#[test]
fn math_display_math_single_line() {
    let s = r"prefix \[ A \] suffix";
    let regs = regions(s);
    assert_eq!(regs.len(), 1);
    assert_eq!(&s[regs[0].range.clone()], r"\[ A \]");
}

#[test]
fn math_display_math_multi_line() {
    let s = "before \\[\n  A \\to B\n\\] after";
    let regs = regions(s);
    assert_eq!(regs.len(), 1);
    let span = &s[regs[0].range.clone()];
    assert!(span.starts_with(r"\["));
    assert!(span.ends_with(r"\]"));
}

#[test]
fn math_inline_math_paren() {
    let s = r"x is \( a + b \) units";
    let regs = regions(s);
    assert_eq!(regs.len(), 1);
    assert_eq!(&s[regs[0].range.clone()], r"\( a + b \)");
}

#[test]
fn math_two_separate_regions() {
    let s = r"see \[ A \] and \[ B \] both";
    let regs = regions(s);
    assert_eq!(regs.len(), 2);
    assert!(regs[0].range.end <= regs[1].range.start);
}

#[test]
fn unbalanced_open_drops_region_and_emits_diagnostic() {
    let s = r"start \[ no close here";
    let (regs, unclosed) = scan(s);
    assert!(regs.is_empty());
    assert_eq!(unclosed.len(), 1);
    assert_eq!(unclosed[0].delim, MathDelim::BackslashBracket);
    assert!(unclosed[0].delim.is_display());
    assert_eq!(unclosed[0].delim.open(), r"\[");
    assert_eq!(unclosed[0].delim.close(), r"\]");
}

#[test]
fn math_greedy_first_close() {
    // `\[ a \[ b \] c \]` — the first `\]` closes the region.
    let s = r"\[ a \[ b \] c \]";
    let regs = regions(s);
    assert_eq!(regs.len(), 1);
    assert_eq!(&s[regs[0].range.clone()], r"\[ a \[ b \]");
}

#[test]
fn math_double_backslash_open_is_not_math() {
    // `\\[` = literal backslash, then bare `[` — not a math open.
    let s = r"foo \\[ not math \] bar";
    assert!(regions(s).is_empty());
}

#[test]
fn math_triple_backslash_open_is_math() {
    // `\\\[` = literal backslash + `\[` math open.
    let s = r"foo \\\[ A \] bar";
    assert_eq!(regions(s).len(), 1);
}

#[test]
fn math_region_inside_code_span_excluded() {
    let s = r"text `\[ x \]` more";
    let ic = vec![InlineCode {
        text: r"\[ x \]",
        byte_offset: 5,
        raw_range: 5..14,
    }];
    let (regs, _) = scan_math(s, &raw_ic(&ic), &[], &[], MathConfig::default());
    assert!(regs.is_empty());
}

#[test]
fn math_region_inside_code_block_excluded() {
    let s = "```\n\\[ x \\]\n```";
    let cb = vec![CodeBlock {
        text: r"\[ x \]",
        byte_offset: 4,
        raw_range: 0..s.len(),
        info: Cow::Borrowed(""),
        fenced: true,
    }];
    let (regs, _) = scan_math(s, &[], &raw_cb(&cb), &[], MathConfig::default());
    assert!(regs.is_empty());
}

#[test]
fn math_dollar_variants_off_by_default() {
    let s = "value is $5 today, plus $$2 tomorrow";
    assert!(regions(s).is_empty());
}

#[test]
fn math_double_dollar_when_enabled() {
    let s = "see $$ x = 5 $$ above";
    let cfg = MathConfig {
        double_dollar: true,
        ..MathConfig::default()
    };
    let (regs, _) = scan_math(s, &[], &[], &[], cfg);
    assert_eq!(regs.len(), 1);
    assert_eq!(&s[regs[0].range.clone()], "$$ x = 5 $$");
}

#[test]
fn math_single_dollar_when_enabled() {
    let s = "x is $a + b$";
    let cfg = MathConfig {
        single_dollar: true,
        ..MathConfig::default()
    };
    let (regs, _) = scan_math(s, &[], &[], &[], cfg);
    assert_eq!(regs.len(), 1);
    assert_eq!(&s[regs[0].range.clone()], "$a + b$");
}

#[test]
fn math_region_with_subscripts_and_emphasis_chars() {
    // The bug class the module exists for: math interior full of
    // `_` and `*`. The region's range must cover the whole span
    // so the formatter emits it verbatim.
    let s = r"see \[ \pi_A:\Gamma.A\to \Gamma \] above";
    let regs = regions(s);
    assert_eq!(regs.len(), 1);
    let span = &s[regs[0].range.clone()];
    assert!(span.contains("_A"));
    assert!(span.contains(r"\Gamma"));
}

#[test]
fn math_regions_dont_overlap_or_misorder() {
    let s = r"\[ a \] mid \( b \) end \[ c \]";
    let regs = regions(s);
    assert_eq!(regs.len(), 3);
    for w in regs.windows(2) {
        assert!(w[0].range.end <= w[1].range.start);
    }
}
