use mdwright::blocks::line_start::LineContext;
use mdwright::format::doc::{hard_line, soft_line, text, Doc};
use mdwright::format::emit_safety::RunKind;
use mdwright::format::inline::{
    concat_ambient, extend_ambient, next_line_context, prepend_close, rendered_so_far, trim_edge_breaks,
    ParagraphSafetyState,
};
use mdwright::inline::emphasis::EmphasisDelim;
use mdwright::inline::run::RunPart;

#[test]
fn safety_state_tracks_lines() {
    let mut s = ParagraphSafetyState::initial();
    assert!(s.at_line_start && s.after_break && !s.prev_line_had_text && !s.this_line_has_text);
    s.note_content();
    assert!(!s.at_line_start && !s.after_break && s.this_line_has_text);
    s.note_soft_break();
    assert!(!s.at_line_start && s.after_break && s.prev_line_had_text && !s.this_line_has_text);
    s.note_hard_line();
    assert!(s.at_line_start && s.after_break && !s.prev_line_had_text);
}

#[test]
fn ambient_strings_wrap_the_run() {
    assert_eq!(extend_ambient("a ", "b", RunKind::Strong, EmphasisDelim::Underscore), "a b__");
    assert_eq!(prepend_close(" c", RunKind::Emphasis, EmphasisDelim::Asterisk), "* c");
    assert_eq!(concat_ambient("x", "y"), "xy");
    assert_eq!(RunKind::Strong.wrap_str(EmphasisDelim::Asterisk), "**");
}

#[test]
fn line_context_of_fragments() {
    let parts = vec![RunPart::Text("a".to_owned()), RunPart::SoftBreak, RunPart::Text("b".to_owned())];
    assert_eq!(next_line_context(&parts, 0, false), LineContext::EndOfLine);
    assert_eq!(next_line_context(&parts, 1, false), LineContext::MoreContent);
    assert_eq!(next_line_context(&parts, 2, true), LineContext::MoreContent);
    assert_eq!(next_line_context(&parts, 2, false), LineContext::EndOfLine);
}

#[test]
fn edge_breaks_are_trimmed() {
    let mut parts: Vec<Doc<'static>> = vec![hard_line(), soft_line(), text("a"), soft_line(), text("b"), hard_line()];
    trim_edge_breaks(&mut parts);
    assert_eq!(parts.len(), 3);
    assert_eq!(rendered_so_far(&parts), "a b");
    let mut only: Vec<Doc<'static>> = vec![hard_line(), soft_line()];
    trim_edge_breaks(&mut only);
    assert!(only.is_empty());
}
