use mdwright::format::doc::{render, text, RenderOptions};
use mdwright::format::emit_safety::{parses_as_single_run, parses_as_single_run_isolated,
    escape_body_for_emphasis, parses_with_outer_run_at, wrap_in_delim, InlineEvent, InlineTag, RunKind,
};
use mdwright::inline::emphasis::EmphasisDelim;

#[test]
fn escape_body_inserts_backslash_before_asterisk() {
    let out = escape_body_for_emphasis("a*b", EmphasisDelim::Asterisk);
    assert_eq!(out.as_deref(), Some(r"a\*b"));
}

#[test]
fn escape_body_no_op_when_target_absent() {
    assert_eq!(escape_body_for_emphasis("plain", EmphasisDelim::Asterisk), None);
}

#[test]
fn escape_body_handles_non_ascii() {
    let out = escape_body_for_emphasis("αβ*γ", EmphasisDelim::Asterisk);
    assert_eq!(out.as_deref(), Some(r"αβ\*γ"));
}

#[test]
fn escape_body_underscore_targets_only_underscores() {
    assert_eq!(escape_body_for_emphasis("a_b*c_", EmphasisDelim::Underscore).as_deref(), Some(r"a\_b*c\_"));
    assert_eq!(escape_body_for_emphasis("", EmphasisDelim::Underscore), None);
}

#[test]
fn wrap_in_delim_surrounds_the_body() {
    let strong = wrap_in_delim(text("x y"), RunKind::Strong, EmphasisDelim::Underscore);
    assert_eq!(render(&strong, &RenderOptions), "__x y__");
    let em = wrap_in_delim(text("z"), RunKind::Emphasis, EmphasisDelim::Asterisk);
    assert_eq!(render(&em, &RenderOptions), "*z*");
}

fn para(inner: Vec<(InlineEvent, usize, usize)>, len: usize) -> Vec<(InlineEvent, usize, usize)> {
    let mut v = vec![(InlineEvent::Start(InlineTag::Other), 0, len)];
    v.extend(inner);
    v.push((InlineEvent::End(InlineTag::Other), 0, len));
    v
}

#[test]
fn outer_run_found_when_it_spans_the_wrap() {
    // `*a*`
    let events = para(
        vec![
            (InlineEvent::Start(InlineTag::Emphasis), 0, 3),
            (InlineEvent::Leaf, 1, 2),
            (InlineEvent::End(InlineTag::Emphasis), 0, 3),
        ],
        3,
    );
    assert!(parses_with_outer_run_at(&events, RunKind::Emphasis, 0, 3));
    assert!(!parses_with_outer_run_at(&events, RunKind::Strong, 0, 3));
    assert!(!parses_with_outer_run_at(&events, RunKind::Emphasis, 0, 2));
    assert!(!parses_with_outer_run_at(&events, RunKind::Emphasis, 1, 3));
}

#[test]
fn outer_run_nested_in_a_wider_wrap_is_refused() {
    // `*x **a** y*` with the strong run as the target at 3..8.
    let events = para(
        vec![
            (InlineEvent::Start(InlineTag::Emphasis), 0, 11),
            (InlineEvent::Leaf, 1, 3),
            (InlineEvent::Start(InlineTag::Strong), 3, 8),
            (InlineEvent::Leaf, 5, 6),
            (InlineEvent::End(InlineTag::Strong), 3, 8),
            (InlineEvent::Leaf, 8, 10),
            (InlineEvent::End(InlineTag::Emphasis), 0, 11),
        ],
        11,
    );
    assert!(!parses_with_outer_run_at(&events, RunKind::Strong, 3, 5));
    assert!(parses_with_outer_run_at(&events, RunKind::Emphasis, 0, 11));
}

#[test]
fn outer_run_must_close_with_nothing_nested_open() {
    // `*a _b_*`: the inner emphasis closes before the outer one.
    let events = para(
        vec![
            (InlineEvent::Start(InlineTag::Emphasis), 0, 8),
            (InlineEvent::Leaf, 1, 3),
            (InlineEvent::Start(InlineTag::Emphasis), 3, 7),
            (InlineEvent::Leaf, 4, 5),
            (InlineEvent::End(InlineTag::Emphasis), 3, 7),
            (InlineEvent::End(InlineTag::Emphasis), 0, 8),
        ],
        8,
    );
    assert!(parses_with_outer_run_at(&events, RunKind::Emphasis, 0, 8));
    assert!(!parses_with_outer_run_at(&events, RunKind::Emphasis, 0, 7));
}

#[test]
fn star_wrap_around_literal_star_rejected() {
    assert!(!parses_as_single_run_isolated("***", RunKind::Emphasis));
}

#[test]
fn star_wrap_around_plain_text_accepted() {
    assert!(parses_as_single_run_isolated("*hello*", RunKind::Emphasis));
}

#[test]
fn underscore_wrap_around_literal_star_accepted() {
    assert!(parses_as_single_run_isolated("_*_", RunKind::Emphasis));
}

#[test]
fn star_wrap_around_escaped_star_accepted() {
    assert!(parses_as_single_run_isolated(r"*\**", RunKind::Emphasis));
}

#[test]
fn strong_double_wrap_around_literal_star_rejected() {
    assert!(!parses_as_single_run_isolated("*****", RunKind::Strong));
}

#[test]
fn strong_double_wrap_around_plain_text_accepted() {
    assert!(parses_as_single_run_isolated("**hi**", RunKind::Strong));
}

#[test]
fn nested_emphasis_in_emphasis_accepted() {
    assert!(parses_as_single_run_isolated("*(*foo*)*", RunKind::Emphasis));
}

#[test]
fn escape_then_wrap_reparses_correctly() {
    let escaped = escape_body_for_emphasis("a*b", EmphasisDelim::Asterisk).unwrap_or_default();
    assert_eq!(escaped, r"a\*b");
    let wrapped = format!("*{escaped}*");
    assert!(parses_as_single_run_isolated(&wrapped, RunKind::Emphasis));
}

#[test]
fn flanked_run_is_checked_in_context() {
    assert!(parses_as_single_run("*a*", RunKind::Emphasis, Some(" "), Some(" ")));
    assert!(parses_as_single_run("*a*", RunKind::Emphasis, None, None));
    // Inside a wider emphasis the run is nested, not top-level.
    assert!(!parses_as_single_run("*a*", RunKind::Emphasis, Some("*x "), Some(" y*")));
}
