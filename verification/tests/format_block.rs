use mdwright::format::block::{verbatim_lines, whole_block_math};
use mdwright::format::doc::{render, Doc, RenderOptions};
use mdwright::math::span::{DisplayDelim, MathBody, MathRegion, MathSpan};

fn region(range: std::ops::Range<usize>) -> MathRegion {
    MathRegion {
        range: range.clone(),
        span: MathSpan::Display { delim: DisplayDelim::Dollar2, body: MathBody::new(range.start + 2..range.end - 2, Vec::new()) },
    }
}

#[test]
fn whole_block_math_needs_blank_surroundings() {
    let source = "  $$x$$ \n";
    let r = region(2..7);
    assert!(whole_block_math(&[&r], &(0..9), source).is_some());
    let prose = "a $$x$$";
    let r2 = region(2..7);
    assert!(whole_block_math(&[&r2], &(0..7), prose).is_none());
    assert!(whole_block_math(&[&r, &r], &(0..9), source).is_none());
    assert!(whole_block_math(&[], &(0..9), source).is_none());
}

#[test]
fn verbatim_lines_end_with_one_newline() {
    assert_eq!(render(&verbatim_lines("a\nb\n\n"), &RenderOptions), "a\nb\n");
    assert!(matches!(verbatim_lines("\n\n"), Doc::HardLine));
}
