use mdwright::escape::EscapeScope;
use mdwright::inline::code::InlineCodeRun;

fn paragraph_scope() -> EscapeScope {
    EscapeScope::default()
}

fn table_scope() -> EscapeScope {
    EscapeScope {
        in_table_cell: true,
        ..EscapeScope::default()
    }
}

#[test]
fn plain_body_one_backtick_each_side() {
    let run = InlineCodeRun::new("foo", paragraph_scope());
    assert_eq!(run.as_str(), "`foo`");
}

#[test]
fn body_with_backtick_uses_longer_fence() {
    let run = InlineCodeRun::new("a`b", paragraph_scope());
    assert_eq!(run.as_str(), "``a`b``");
}

#[test]
fn body_starting_with_backtick_pads() {
    let run = InlineCodeRun::new("`x", paragraph_scope());
    assert_eq!(run.as_str(), "`` `x ``");
}

#[test]
fn body_with_long_backtick_run_picks_one_longer() {
    let run = InlineCodeRun::new("a```b", paragraph_scope());
    assert_eq!(run.as_str(), "````a```b````");
}

#[test]
fn table_cell_escapes_pipe() {
    let run = InlineCodeRun::new("a|b", table_scope());
    assert_eq!(run.as_str(), r"`a\|b`");
}

#[test]
fn paragraph_pipe_is_not_escaped() {
    let run = InlineCodeRun::new("a|b", paragraph_scope());
    assert_eq!(run.as_str(), "`a|b`");
}

#[test]
fn body_all_spaces_does_not_pad() {
    let run = InlineCodeRun::new(" ", paragraph_scope());
    assert_eq!(run.as_str(), "` `");
}

#[test]
fn body_three_spaces_does_not_pad() {
    let run = InlineCodeRun::new("   ", paragraph_scope());
    assert_eq!(run.as_str(), "`   `");
}

#[test]
fn body_leading_space_only_does_not_pad() {
    let run = InlineCodeRun::new(" foo", paragraph_scope());
    assert_eq!(run.as_str(), "` foo`");
}

#[test]
fn body_trailing_space_only_does_not_pad() {
    let run = InlineCodeRun::new("foo ", paragraph_scope());
    assert_eq!(run.as_str(), "`foo `");
}

#[test]
fn body_both_sided_space_with_content_pads() {
    let run = InlineCodeRun::new(" foo ", paragraph_scope());
    assert_eq!(run.as_str(), "`  foo  `");
}
