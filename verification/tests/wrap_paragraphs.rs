use mdwright::config::Wrap;
use mdwright::format::semantic::{EndTag, ParsedEvent, StartTag};
use mdwright::format::wrap_pass::{collect_paragraphs, paragraphs_from_events, wrap_paragraphs};

fn wrap(input: &str, mode: Wrap) -> String {
    let mut out = input.to_owned();
    wrap_paragraphs(&mut out, mode);
    out
}

#[test]
fn keep_is_noop() {
    let s = "alpha beta\ngamma delta\n";
    assert_eq!(wrap(s, Wrap::Keep), s);
}

#[test]
fn no_collapses_soft_breaks() {
    let s = "alpha beta\ngamma delta\n";
    assert_eq!(wrap(s, Wrap::No), "alpha beta gamma delta\n");
}

#[test]
fn at_breaks_long_paragraph() {
    let s = "alpha beta gamma delta epsilon zeta\n";
    let out = wrap(s, Wrap::At(15));
    let lines: Vec<&str> = out.lines().collect();
    assert!(lines.iter().all(|l| l.chars().count() <= 15), "{out:?}");
}

#[test]
fn at_respects_atomic_code_span() {
    let s = "alpha `longish_code_token` zeta\n";
    let out = wrap(s, Wrap::At(10));
    assert!(out.contains("`longish_code_token`"));
}

#[test]
fn blockquote_continuation_keeps_prefix() {
    let s = "> alpha beta gamma delta epsilon zeta eta theta iota\n";
    let out = wrap(s, Wrap::At(20));
    for line in out.lines() {
        if !line.is_empty() {
            assert!(line.starts_with("> "), "got {line:?}");
        }
    }
}

#[test]
fn list_item_continuation_uses_indent() {
    let s = "- alpha beta gamma delta epsilon zeta eta theta\n";
    let out = wrap(s, Wrap::At(15));
    let mut iter = out.lines();
    let first = iter.next().unwrap_or("");
    assert!(first.starts_with("- "), "got {first:?}");
    for line in iter {
        if !line.is_empty() {
            assert!(line.starts_with("  "), "got {line:?}");
        }
    }
}

#[test]
fn hard_break_preserves_marker() {
    let s = "first sentence.\\\nsecond sentence.\n";
    let out = wrap(s, Wrap::At(40));
    assert!(out.contains("\\\n"));
}

#[test]
fn paragraphs_are_found_with_their_lines() {
    let s = "one two\nthree\n\n> four `five` six\n";
    let ps = collect_paragraphs(s);
    assert_eq!(ps.len(), 2);
    assert_eq!((ps[0].line_lo, ps[0].line_hi), (0, 14));
    assert_eq!(ps[1].first_prefix, "> ");
    assert_eq!(ps[1].atomics.len(), 1);
}

#[test]
fn paragraphs_from_given_events() {
    let s = "alpha `b` gamma\n";
    let evs = vec![
        (ParsedEvent::Start(StartTag::Paragraph), 0, 16),
        (ParsedEvent::Text("alpha ".to_string()), 0, 6),
        (ParsedEvent::Code("b".to_string()), 6, 9),
        (ParsedEvent::Text(" gamma".to_string()), 9, 15),
        (ParsedEvent::End(EndTag::Paragraph), 0, 16),
    ];
    let ps = paragraphs_from_events(s, &evs);
    assert_eq!(ps.len(), 1);
    assert_eq!((ps[0].content_lo, ps[0].content_hi), (0, 16));
    assert_eq!(ps[0].atomics, vec![6..9]);
    assert!(paragraphs_from_events(s, &[]).is_empty());
}

#[test]
fn no_mode_always_joins_soft_breaks() {
    let s = "one two\nthree four\n\nfive\nsix\n";
    let mut out = s.to_string();
    wrap_paragraphs(&mut out, Wrap::No);
    assert_eq!(out, "one two three four\n\nfive six\n");
}
