use mdwright::escape::EscapeScope;
use mdwright::inline::run::{InlineRun, RunInput, RunPart};

fn paragraph_scope() -> EscapeScope {
    EscapeScope::default()
}

fn heading_scope() -> EscapeScope {
    EscapeScope {
        in_heading: true,
        ..EscapeScope::default()
    }
}

#[test]
fn empty_inputs_yield_empty_run() {
    let run = InlineRun::new(vec![], paragraph_scope());
    assert!(run.is_empty());
}

#[test]
fn singleton_plain_text_borrows() {
    let run = InlineRun::new(
        vec![RunInput::Text {
            payload: std::borrow::Cow::Borrowed("hello"),
            source: None,
        }],
        paragraph_scope(),
    );
    assert_eq!(run.parts().len(), 1);
    match run.parts().first() {
        Some(RunPart::Text(s)) if s == "hello" => {}
        other => panic!("expected borrowed text, got {other:?}"),
    }
}

#[test]
fn singleton_escapes_emphasis() {
    let run = InlineRun::new(
        vec![RunInput::Text {
            payload: std::borrow::Cow::Borrowed("*foo*"),
            source: None,
        }],
        paragraph_scope(),
    );
    match run.parts().first() {
        Some(RunPart::Text(s)) => assert_eq!(s.as_str(), r"\*foo\*"),
        other => panic!("expected escaped text, got {other:?}"),
    }
}

#[test]
fn split_run_cross_event_flanking() {
    // Source `a \*b\* c`: pulldown splits at each `\X` into
    // ["a ", "*b", "* c"] with raw_ranges that include the
    // backslash. The escape policy must see the run as a whole
    // and force-escape the `*`s that came from source escapes.
    let run = InlineRun::new(
        vec![
            RunInput::Text {
                payload: std::borrow::Cow::Borrowed("a "),
                source: Some("a "),
            },
            RunInput::Text {
                payload: std::borrow::Cow::Borrowed("*b"),
                source: Some(r"\*b"),
            },
            RunInput::Text {
                payload: std::borrow::Cow::Borrowed("* c"),
                source: Some(r"\* c"),
            },
        ],
        paragraph_scope(),
    );
    let joined: String = run
        .parts()
        .iter()
        .filter_map(|p| match p {
            RunPart::Text(s) => Some(s.clone()),
            _ => None,
        })
        .collect::<Vec<_>>()
        .join("|");
    assert_eq!(joined, r"a \*b\* c");
}

#[test]
fn soft_break_emits_soft_break_part() {
    let run = InlineRun::new(
        vec![
            RunInput::Text {
                payload: std::borrow::Cow::Borrowed("a"),
                source: None,
            },
            RunInput::SoftBreak,
            RunInput::Text {
                payload: std::borrow::Cow::Borrowed("b"),
                source: None,
            },
        ],
        paragraph_scope(),
    );
    let kinds: Vec<&str> = run
        .parts()
        .iter()
        .map(|p| match p {
            RunPart::Text(_) => "text",
            RunPart::SoftBreak => "soft",
            RunPart::HardLineBreak => "hard",
            RunPart::HardBreakTag => "tag",
        })
        .collect();
    assert_eq!(kinds, vec!["text", "soft", "text"]);
}

#[test]
fn hard_break_in_paragraph_is_hard_line_break() {
    let run = InlineRun::new(
        vec![
            RunInput::Text {
                payload: std::borrow::Cow::Borrowed("a"),
                source: None,
            },
            RunInput::HardBreak,
            RunInput::Text {
                payload: std::borrow::Cow::Borrowed("b"),
                source: None,
            },
        ],
        paragraph_scope(),
    );
    assert!(matches!(run.parts().get(1), Some(RunPart::HardLineBreak)));
}

#[test]
fn hard_break_in_heading_is_br_tag() {
    let run = InlineRun::new(
        vec![
            RunInput::Text {
                payload: std::borrow::Cow::Borrowed("a"),
                source: None,
            },
            RunInput::HardBreak,
            RunInput::Text {
                payload: std::borrow::Cow::Borrowed("b"),
                source: None,
            },
        ],
        heading_scope(),
    );
    assert!(matches!(run.parts().get(1), Some(RunPart::HardBreakTag)));
}

#[test]
fn cross_break_emphasis_pair_is_escaped() {
    // CM treats line endings within a paragraph as whitespace
    // for flanking, so `*foo` + soft break + `bar*` is a pair.
    let run = InlineRun::new(
        vec![
            RunInput::Text {
                payload: std::borrow::Cow::Borrowed("*foo"),
                source: None,
            },
            RunInput::SoftBreak,
            RunInput::Text {
                payload: std::borrow::Cow::Borrowed("bar*"),
                source: None,
            },
        ],
        paragraph_scope(),
    );
    let texts: Vec<String> = run
        .parts()
        .iter()
        .filter_map(|p| match p {
            RunPart::Text(s) => Some(s.clone()),
            _ => None,
        })
        .collect();
    assert_eq!(texts, vec![r"\*foo".to_owned(), r"bar\*".to_owned()]);
}
