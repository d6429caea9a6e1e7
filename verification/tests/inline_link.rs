use mdwright::inline::link::{cm_normalise_label, EmitLinkStyle, ImageRun, LinkRun, LinkSourceKind};

fn cow(s: &str) -> String {
    s.to_owned()
}

#[test]
fn inline_link_keeps_inline() {
    let run = LinkRun::from_pulldown_inline(cow("https://example.com"), cow(""));
    assert!(matches!(run.emit_style("text"), EmitLinkStyle::Inline));
    assert_eq!(run.dest(), "https://example.com");
    assert!(run.title().is_empty());
    assert!(run.label().is_none());
}

#[test]
fn reference_full_emits_full() {
    let run = LinkRun::from_pulldown_reference(LinkSourceKind::ReferenceFull, cow("https://example.com"), cow(""), cow("bar"));
    let style = run.emit_style("body");
    assert!(
        matches!(style, EmitLinkStyle::ReferenceFull { label } if label == "bar"),
        "got {style:?}"
    );
    assert_eq!(run.label(), Some("bar"));
}

#[test]
fn reference_collapsed_emits_collapsed_when_body_matches_label() {
    let run = LinkRun::from_pulldown_reference(LinkSourceKind::ReferenceCollapsed, cow(""), cow(""), cow("foo"));
    assert!(matches!(run.emit_style("foo"), EmitLinkStyle::ReferenceCollapsed));
}

#[test]
fn reference_collapsed_demotes_to_full_on_body_drift() {
    let run = LinkRun::from_pulldown_reference(LinkSourceKind::ReferenceCollapsed, cow(""), cow(""), cow("_foo_"));
    let style = run.emit_style("*foo*");
    assert!(matches!(style, EmitLinkStyle::ReferenceFull { label } if label == "_foo_"));
}

#[test]
fn reference_shortcut_emits_shortcut_when_body_matches_label() {
    let run = LinkRun::from_pulldown_reference(LinkSourceKind::ReferenceShortcut, cow(""), cow(""), cow("foo"));
    assert!(matches!(run.emit_style("foo"), EmitLinkStyle::ReferenceShortcut));
}

#[test]
fn image_run_uses_same_decision() {
    let run = ImageRun::from_pulldown_reference(LinkSourceKind::ReferenceShortcut, cow(""), cow(""), cow("alt"));
    assert!(matches!(run.emit_style("alt"), EmitLinkStyle::ReferenceShortcut));
}

#[test]
fn label_normalisation_folds_case_and_space() {
    assert_eq!(cm_normalise_label("  Foo \t\n  BAR  "), "foo bar");
    assert_eq!(cm_normalise_label("ẞ"), "ß");
    let run = LinkRun::from_pulldown_reference(LinkSourceKind::ReferenceShortcut, cow(""), cow(""), cow("Foo  Bar"));
    assert!(matches!(run.emit_style(" foo bar"), EmitLinkStyle::ReferenceShortcut));
}
