use mdwright::blocks::table::TableAlign;
use mdwright::format::semantic::{
    canonical_eq, canonical_events, canonicalize, collapse_whitespace, divergence_index,
    divergence_summary, events_equivalent, first_divergence, options, parse_events,
    semantically_equivalent, CanonicalEvent, EndTag, ParsedEvent, StartTag,
};

#[test]
fn prose_rewrap_inside_paragraph_is_equivalent() {
    let a = "alpha beta gamma\ndelta epsilon zeta\n";
    let b = "alpha beta gamma delta\nepsilon zeta\n";
    assert!(semantically_equivalent(a, b));
}

#[test]
fn prose_rewrap_inside_blockquote_is_equivalent() {
    let a = "> alpha beta gamma\n> delta epsilon zeta\n";
    let b = "> alpha beta gamma delta epsilon\n> zeta\n";
    assert!(semantically_equivalent(a, b));
}

#[test]
fn whitespace_change_inside_fenced_code_is_rejected() {
    let a = "```\nfoo\nbar\n```\n";
    let b = "```\nfoo bar\n```\n";
    assert!(!semantically_equivalent(a, b));
}

#[test]
fn whitespace_change_inside_inline_code_is_rejected() {
    let a = "see `x  y` here\n";
    let b = "see `x y` here\n";
    assert!(!semantically_equivalent(a, b));
}

#[test]
fn dropped_emphasis_is_rejected() {
    let a = "foo *bar* baz\n";
    let b = "foo bar baz\n";
    assert!(!semantically_equivalent(a, b));
}

#[test]
fn link_target_change_is_rejected() {
    let a = "[label](https://a.example)\n";
    let b = "[label](https://b.example)\n";
    assert!(!semantically_equivalent(a, b));
}

#[test]
fn link_text_rewrap_is_equivalent() {
    let a = "[label one\ntwo](https://x.example)\n";
    let b = "[label one two](https://x.example)\n";
    assert!(semantically_equivalent(a, b));
}

#[test]
fn table_cell_whitespace_rewrap_is_equivalent() {
    let a = "| a | b |\n|---|---|\n| x | y |\n";
    let b = "| a   | b   |\n| --- | --- |\n| x   | y   |\n";
    assert!(semantically_equivalent(a, b));
}

#[test]
fn dropped_heading_level_is_rejected() {
    let a = "## foo\n";
    let b = "### foo\n";
    assert!(!semantically_equivalent(a, b));
}

#[test]
fn hard_break_distinct_from_soft_break() {
    let a = "foo  \nbar\n";
    let b = "foo\nbar\n";
    assert!(!semantically_equivalent(a, b));
}

#[test]
fn fenced_info_string_change_is_rejected() {
    let a = "```rust\nfoo\n```\n";
    let b = "```python\nfoo\n```\n";
    assert!(!semantically_equivalent(a, b));
}

#[test]
fn identical_inputs_equivalent() {
    let a = "## heading\n\nparagraph one.\n\n- item a\n- item b\n";
    assert!(semantically_equivalent(a, a));
}

#[test]
fn collapse_folds_runs_and_trims_edges() {
    assert_eq!(collapse_whitespace("  a \t b\n\nc  "), "a b c");
    assert_eq!(collapse_whitespace(" \n\t "), "");
    assert_eq!(collapse_whitespace("x\u{a0}y"), "x y");
}

#[test]
fn options_turn_on_the_four_extensions() {
    let o = options();
    assert!(o.strikethrough && o.footnotes && o.tables && o.tasklists);
}

fn text(s: &str) -> ParsedEvent {
    ParsedEvent::Text(s.to_owned())
}

#[test]
fn soft_break_folds_into_one_text_event() {
    let evs = vec![
        ParsedEvent::Start(StartTag::Paragraph),
        text("alpha"),
        ParsedEvent::SoftBreak,
        text("beta"),
        ParsedEvent::End(EndTag::Paragraph),
    ];
    let c = canonicalize(evs);
    assert_eq!(c.len(), 3);
    assert!(matches!(&c[1], CanonicalEvent::Text(t) if t == "alpha beta"));
}

#[test]
fn text_inside_code_block_stays_verbatim() {
    let evs = vec![
        ParsedEvent::Start(StartTag::CodeBlock { fenced: true, info: String::new() }),
        text("a  b\r\n"),
        ParsedEvent::End(EndTag::CodeBlock),
        text("  after  "),
    ];
    let c = canonicalize(evs);
    assert_eq!(c.len(), 4);
    assert!(matches!(&c[1], CanonicalEvent::VerbatimText(t) if t == "a  b\n"));
    assert!(matches!(&c[3], CanonicalEvent::Text(t) if t == "after"));
}

#[test]
fn whitespace_only_run_is_dropped() {
    let evs = vec![text("   "), ParsedEvent::SoftBreak, ParsedEvent::Rule];
    let c = canonicalize(evs);
    assert_eq!(c.len(), 1);
    assert!(matches!(c[0], CanonicalEvent::Rule));
}

#[test]
fn events_equivalent_ignores_line_placement() {
    let a = vec![text("one two"), ParsedEvent::SoftBreak, text("three")];
    let b = vec![text("one"), ParsedEvent::SoftBreak, text("two three")];
    assert!(events_equivalent(a, b));
    let c = vec![text("one"), ParsedEvent::HardBreak, text("two three")];
    let d = vec![text("one two three")];
    assert!(!events_equivalent(c, d));
}

#[test]
fn table_alignment_is_compared() {
    let a = vec![ParsedEvent::Start(StartTag::Table(vec![TableAlign::Left]))];
    let b = vec![ParsedEvent::Start(StartTag::Table(vec![TableAlign::Right]))];
    assert!(!events_equivalent(a, b));
    let src = "| a |\n|:--|\n| x |\n";
    let evs = parse_events(src);
    assert!(evs
        .iter()
        .any(|e| matches!(e, ParsedEvent::Start(StartTag::Table(v)) if v == &vec![TableAlign::Left])));
}

#[test]
fn parse_events_reads_headings_and_lists() {
    let evs = parse_events("## h\n\n3. x\n");
    assert!(matches!(evs[0], ParsedEvent::Start(StartTag::Heading(2))));
    assert!(evs.iter().any(|e| matches!(e, ParsedEvent::Start(StartTag::List(Some(3))))));
    assert!(evs.iter().any(|e| matches!(e, ParsedEvent::End(EndTag::List(true)))));
}

#[test]
fn canonical_events_fold_paragraph_text() {
    let c = canonical_events("a\nb\n");
    assert_eq!(c.len(), 3);
    assert!(matches!(&c[1], CanonicalEvent::Text(t) if t == "a b"));
    let d = canonical_events("a b\n");
    assert!(canonical_eq(&c, &d));
}

#[test]
fn divergence_points_at_first_difference() {
    let a = canonical_events("foo *bar* baz\n");
    let b = canonical_events("foo bar baz\n");
    assert_eq!(divergence_index(&a, &b), Some(1));
    assert_eq!(divergence_index(&a, &a), None);
    let s = divergence_summary(&a, &b).unwrap();
    assert!(s.starts_with("event 1: "));
    assert!(divergence_summary(&a, &a).is_none());
}

#[test]
fn divergence_reports_length_difference() {
    let a = canonical_events("x\n");
    let b = canonical_events("x\n\n---\n");
    assert_eq!(divergence_index(&a, &b), Some(a.len()));
    let s = first_divergence("x\n", "x\n\n---\n").unwrap();
    assert!(s.starts_with("stream length differs (3 vs 4); first extra event on formatted"));
    assert!(first_divergence("a\nb\n", "a b\n").is_none());
}

#[test]
fn long_text_is_clipped_in_reports() {
    let long = "w".repeat(70);
    let a = canonical_events(&format!("{long}\n"));
    let b = canonical_events("short\n");
    let s = divergence_summary(&a, &b).unwrap();
    assert!(s.contains(&format!("{}\u{2026}", "w".repeat(60))));
    assert!(!s.contains(&"w".repeat(61)));
}
