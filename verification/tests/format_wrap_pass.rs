use mdwright::config::Wrap;
use mdwright::format::wrap_pass::{
    classify_hard_break, derive_continuation_prefix, extract_first_prefix, extract_line_hi, layout_lines,
    rewrap_paragraph, split_at_hard_breaks, tokenize_segment, HardBreak, Paragraph, Token,
};

fn para(lo: usize, hi: usize, line_hi: usize) -> Paragraph {
    Paragraph {
        line_lo: 0,
        line_hi,
        content_lo: lo,
        content_hi: hi,
        first_prefix: String::new(),
        cont_prefix: String::new(),
        atomics: Vec::new(),
        hard_breaks: Vec::new(),
    }
}

#[test]
fn hard_breaks_are_classified() {
    let b = b"a\\\nb  \nc \nd\\\\\n";
    let h = classify_hard_break(b, 1, 3).expect("backslash break");
    assert_eq!((h.marker_lo, h.nl, h.marker), (1, 2, "\\"));
    let h = classify_hard_break(b, 4, 7).expect("space break");
    assert_eq!((h.marker_lo, h.nl, h.marker), (4, 6, "  "));
    assert!(classify_hard_break(b, 8, 10).is_none());
    assert!(classify_hard_break(b, 11, 14).is_none());
    assert!(classify_hard_break(b, 3, 2).is_none());
}

#[test]
fn first_prefix_and_line_end() {
    let b = "x\n> - item\nmore".as_bytes();
    assert_eq!(extract_first_prefix(b, 6), Some((2, "> - ".to_owned())));
    assert_eq!(extract_first_prefix(b, 99), None);
    assert_eq!(extract_line_hi(b, 8), 11);
    assert_eq!(extract_line_hi(b, 13), b.len());
    assert_eq!(extract_line_hi(b, 11), 11);
}

#[test]
fn continuation_prefixes() {
    assert_eq!(derive_continuation_prefix("> - ").as_deref(), Some(">   "));
    assert_eq!(derive_continuation_prefix("  12. ").as_deref(), Some("      "));
    assert_eq!(derive_continuation_prefix("\t* ").as_deref(), Some("\t  "));
    assert_eq!(derive_continuation_prefix("[^1]: "), None);
    assert_eq!(derive_continuation_prefix("").as_deref(), Some(""));
}

#[test]
fn segments_split_at_hard_breaks() {
    let mut p = para(0, 4, 4);
    p.hard_breaks = vec![HardBreak { marker_lo: 1, nl: 2, marker: "\\" }];
    let segs = split_at_hard_breaks(&p, b"a\\\nb");
    assert_eq!(segs, vec![0..1, 3..4]);
    p.hard_breaks.clear();
    assert_eq!(split_at_hard_breaks(&p, b"a\\\nb"), vec![0..4]);
}

#[test]
fn tokens_keep_atomics_whole() {
    let src = b"alpha `a b` zeta\n> more";
    let toks = tokenize_segment(src, &(0..23), &[6..11], "> ").expect("tokenises");
    let texts: Vec<&str> = toks.iter().map(|t| t.text).collect();
    assert_eq!(texts, vec!["alpha", "`a b`", "zeta", "more"]);
    assert!(tokenize_segment(src, &(0..23), &[], "* ").is_none());
}

#[test]
fn tokens_stop_at_an_empty_atomic_range() {
    let src = b"alpha beta";
    assert!(tokenize_segment(src, &(0..10), &[6..6], "").is_none());
    // An empty range the scan never reaches (inside a longer one) is harmless.
    let toks = tokenize_segment(src, &(0..10), &[0..5, 2..2], "").expect("tokenises");
    let texts: Vec<&str> = toks.iter().map(|t| t.text).collect();
    assert_eq!(texts, vec!["alpha", "beta"]);
}

#[test]
fn layout_respects_target() {
    let words = ["alpha", "beta", "gamma", "delta", "epsilon", "zeta"];
    let toks: Vec<Token<'_>> = words.iter().map(|w| Token { text: *w, width: w.len() as u32 }).collect();
    let lines = layout_lines(&toks, 15, 15, 0, std::time::Instant::now()).expect("lays out");
    for line in &lines {
        let w: usize = line.iter().map(|t| t.text.len()).sum::<usize>() + line.len() - 1;
        assert!(w <= 15);
    }
    let flat: Vec<&str> = lines.iter().flat_map(|l| l.iter().map(|t| t.text)).collect();
    assert_eq!(flat, words.to_vec());
    assert!(layout_lines(&[], 10, 10, 0, std::time::Instant::now()).expect("empty").is_empty());
}

#[test]
fn small_layout_ignores_an_expired_budget() {
    let words = ["alpha", "beta", "gamma", "delta", "epsilon", "zeta", "eta", "theta"];
    let toks: Vec<Token<'_>> = words.iter().map(|w| Token { text: *w, width: w.len() as u32 }).collect();
    let long_ago = std::time::Instant::now()
        .checked_sub(std::time::Duration::from_secs(5))
        .unwrap_or_else(std::time::Instant::now);
    let lines = layout_lines(&toks, 12, 12, 0, long_ago).expect("small inputs are always laid out");
    let flat: Vec<&str> = lines.iter().flat_map(|l| l.iter().map(|t| t.text)).collect();
    assert_eq!(flat, words.to_vec());
}

#[test]
fn rewrap_no_joins_soft_breaks() {
    let s = "alpha beta\ngamma delta\n";
    let p = para(0, 22, 23);
    assert_eq!(rewrap_paragraph(s, &p, Wrap::No).as_deref(), Some("alpha beta gamma delta\n"));
    assert_eq!(rewrap_paragraph(s, &p, Wrap::Keep), None);
}

#[test]
fn rewrap_at_breaks_lines() {
    let s = "alpha beta gamma delta epsilon zeta\n";
    let p = para(0, 35, 36);
    let out = rewrap_paragraph(s, &p, Wrap::At(15)).expect("rewraps");
    assert!(out.lines().all(|l| l.chars().count() <= 15), "{out:?}");
    assert_eq!(out.split_whitespace().collect::<Vec<_>>().join(" "), "alpha beta gamma delta epsilon zeta");
}

#[test]
fn rewrap_keeps_hard_break() {
    let s = "a\\\nb\n";
    let mut p = para(0, 4, 5);
    p.hard_breaks = vec![HardBreak { marker_lo: 1, nl: 2, marker: "\\" }];
    assert_eq!(rewrap_paragraph(s, &p, Wrap::No).as_deref(), Some("a\\\nb\n"));
}
