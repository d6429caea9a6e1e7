use mdwright::config::{EndOfLine, TrailingNewline};
use mdwright::format::endings::{apply_end_of_line, normalize_line_endings_lf, normalize_trailing_newline, trailing_lf_count};

fn run(out: &str, policy: TrailingNewline, source: &str) -> String {
    let mut s = out.to_owned();
    normalize_trailing_newline(&mut s, policy, source);
    s
}

#[test]
fn trailing_lf_count_ignores_final_blank_line() {
    assert_eq!(trailing_lf_count("a\n\n"), 2);
    assert_eq!(trailing_lf_count("a\n\t "), 1);
    assert_eq!(trailing_lf_count("a"), 0);
    assert_eq!(trailing_lf_count(""), 0);
}

#[test]
fn preserve_matches_source_count() {
    assert_eq!(run("a\n\n\n", TrailingNewline::Preserve, "x\n"), "a\n");
    assert_eq!(run("a", TrailingNewline::Preserve, "x\n\n"), "a\n\n");
    assert_eq!(run("a\n", TrailingNewline::Preserve, "x"), "a");
    assert_eq!(run("a\n", TrailingNewline::Preserve, "\t|\n\t"), "a\n");
}

#[test]
fn strip_and_ensure() {
    assert_eq!(run("a\n\n", TrailingNewline::Strip, ""), "a");
    assert_eq!(run("a", TrailingNewline::Ensure, ""), "a\n");
    assert_eq!(run("a\n\n\n", TrailingNewline::Ensure, ""), "a\n");
    let once = run("b\n\n", TrailingNewline::Ensure, "");
    assert_eq!(run(&once, TrailingNewline::Ensure, ""), once);
}

#[test]
fn line_endings_normalise_and_convert() {
    let mut s = "a\r\nb\rc\n".to_owned();
    normalize_line_endings_lf(&mut s);
    assert_eq!(s, "a\nb\nc\n");
    let mut t = "a\nb\n".to_owned();
    apply_end_of_line(&mut t, EndOfLine::Crlf, "");
    assert_eq!(t, "a\r\nb\r\n");
    let mut k = "a\nb".to_owned();
    apply_end_of_line(&mut k, EndOfLine::Keep, "x\r\ny");
    assert_eq!(k, "a\r\nb");
    let mut l = "a\nb".to_owned();
    apply_end_of_line(&mut l, EndOfLine::Keep, "x\ny");
    assert_eq!(l, "a\nb");
    apply_end_of_line(&mut l, EndOfLine::Lf, "x\r\ny");
    assert_eq!(l, "a\nb");
}

#[test]
fn preserve_second_pass_changes_nothing() {
    for (out, source) in [("a\n\n\n", "x\n"), ("a", "x\n\n"), ("a \n", "x"), ("a\t", "x\n")] {
        let once = run(out, TrailingNewline::Preserve, source);
        let twice = run(&once, TrailingNewline::Preserve, source);
        assert_eq!(once, twice, "{out:?} / {source:?}");
        assert_eq!(trailing_lf_count(&once), trailing_lf_count(source));
    }
}

#[test]
fn preserve_moves_again_after_a_blank_tail() {
    // A blank line after the last newline: the first pass drops the blank
    // characters, not the newline, so a second pass has work left.
    let once = run("a\n  ", TrailingNewline::Preserve, "x");
    assert_eq!(once, "a\n ");
    assert_ne!(run(&once, TrailingNewline::Preserve, "x"), once);
}
