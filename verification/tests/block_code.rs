use std::borrow::Cow;

use mdwright::blocks::code::{CodeFenceChar, FencedCodeBlock, IndentedCodeBlock};

fn fb(body: &str) -> FencedCodeBlock<'_> {
    FencedCodeBlock::new(
        CodeFenceChar::Backtick,
        Cow::Borrowed(""),
        Cow::Borrowed(body),
    )
}

#[test]
fn empty_body_uses_three_backticks() {
    assert_eq!(fb("").fence().length(), 3);
}

#[test]
fn body_with_two_backticks_still_uses_three() {
    assert_eq!(fb("a``b").fence().length(), 3);
}

#[test]
fn body_with_three_backticks_grows_to_four() {
    assert_eq!(fb("a```b").fence().length(), 4);
}

#[test]
fn body_with_five_backticks_grows_to_six() {
    assert_eq!(fb("a`````b").fence().length(), 6);
}

#[test]
fn tilde_fence_independent_of_backticks() {
    let block = FencedCodeBlock::new(
        CodeFenceChar::Tilde,
        Cow::Borrowed(""),
        Cow::Borrowed("a```b"),
    );
    assert_eq!(block.fence().length(), 3);
}

#[test]
fn fence_length_is_strict_majority_for_long_run() {
    for n in 3u32..=20 {
        let body: String = std::iter::repeat_n('`', n as usize).collect();
        let expected = u8::try_from(n.saturating_add(1)).expect("small");
        assert_eq!(fb(&body).fence().length(), expected, "n = {n}");
    }
}

#[test]
fn indented_body_preserved() {
    let block = IndentedCodeBlock::new(Cow::Borrowed("    foo\n    bar\n"));
    assert_eq!(block.body(), "    foo\n    bar\n");
}
