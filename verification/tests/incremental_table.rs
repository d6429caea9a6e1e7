use mdwright::incremental::{
    frontmatter_end, line_has_key, parser_state_hash, BlockTag, CheckpointTable, ScanEvent,
};

fn para(at: usize) -> Vec<(ScanEvent, usize)> {
    vec![
        (ScanEvent::Start(BlockTag::Paragraph), at),
        (ScanEvent::Other, at),
        (ScanEvent::End(BlockTag::Paragraph), at),
    ]
}

#[test]
fn empty_table_has_one_checkpoint() {
    let t = CheckpointTable::build_from_events("", &[]);
    assert_eq!(t.len(), 1);
    assert!(t.is_empty());
    assert_eq!(t.snap_to_block_boundaries(0..0), 0..0);
}

#[test]
fn paragraphs_give_one_checkpoint_each() {
    let src = "a\n\nb\n\nc\n";
    let mut events = para(0);
    events.extend(para(3));
    events.extend(para(6));
    let t = CheckpointTable::build_from_events(src, &events);
    // 0 (shared with the first paragraph), 3, 6 and the sentinel 8.
    assert_eq!(t.len(), 4);
    assert!(!t.is_empty());
    let snapped = t.snap_to_block_boundaries(3..4);
    assert_eq!(snapped, 3..6);
    assert_eq!(&src[snapped.start as usize..snapped.end as usize], "b\n\n");
    // Snapping a snapped range gives it back.
    assert_eq!(t.snap_to_block_boundaries(snapped.clone()), snapped);
}

#[test]
fn list_items_are_not_checkpoints() {
    let src = "para\n\n1. one\n2. two\n3. three\n\ntail\n";
    let list_at = src.find("1. one").unwrap();
    let two_at = src.find("2. two").unwrap();
    let three_at = src.find("3. three").unwrap();
    let tail_at = src.find("tail").unwrap();
    let mut events = para(0);
    events.push((ScanEvent::Start(BlockTag::List), list_at));
    for at in [list_at, two_at, three_at] {
        events.push((ScanEvent::Start(BlockTag::Item), at));
        events.push((ScanEvent::Start(BlockTag::Paragraph), at + 3));
        events.push((ScanEvent::End(BlockTag::Paragraph), at + 3));
        events.push((ScanEvent::End(BlockTag::Item), at));
    }
    events.push((ScanEvent::End(BlockTag::List), tail_at - 1));
    events.extend(para(tail_at));
    let t = CheckpointTable::build_from_events(src, &events);
    assert_eq!(t.len(), 4);
    let two = src.find("two").unwrap() as u32;
    let snapped = t.snap_to_block_boundaries(two..two + 1);
    let slice = &src[snapped.start as usize..snapped.end as usize];
    assert!(slice.contains("1. one"), "{slice:?}");
    assert!(slice.contains("3. three"), "{slice:?}");
    assert!(!slice.contains("tail"), "{slice:?}");
}

#[test]
fn rules_count_only_at_top_level() {
    let src = "> a\n> ***\n\n***\n";
    let rule_at = src.rfind("***").unwrap();
    let events = vec![
        (ScanEvent::Start(BlockTag::BlockQuote), 0),
        (ScanEvent::Start(BlockTag::Paragraph), 2),
        (ScanEvent::End(BlockTag::Paragraph), 2),
        (ScanEvent::Rule, 6),
        (ScanEvent::End(BlockTag::BlockQuote), 0),
        (ScanEvent::Rule, rule_at),
    ];
    let t = CheckpointTable::build_from_events(src, &events);
    // 0, the top-level rule, and the sentinel.
    assert_eq!(t.len(), 3);
    assert_eq!(t.snap_to_block_boundaries(7..8), 0..rule_at as u32);
}

#[test]
fn range_past_end_snaps_to_the_end() {
    let src = "a\n";
    let t = CheckpointTable::build_from_events(src, &para(0));
    assert_eq!(t.snap_to_block_boundaries(99..100), 2..2);
}

#[test]
fn body_events_are_offset_past_frontmatter() {
    let src = "---\ntitle: x\n---\n# heading\n\npara\n";
    let heading_at = src.find("# heading").unwrap();
    assert_eq!(frontmatter_end(src), heading_at);
    let events = vec![
        (ScanEvent::Start(BlockTag::Heading), 0),
        (ScanEvent::End(BlockTag::Heading), 0),
        (ScanEvent::Start(BlockTag::Paragraph), 11),
        (ScanEvent::End(BlockTag::Paragraph), 11),
    ];
    let t = CheckpointTable::build_from_events(src, &events);
    let snapped = t.snap_to_block_boundaries(2..3);
    assert_eq!(snapped, 0..heading_at as u32);
    assert_eq!(t.len(), 4);
}

#[test]
fn frontmatter_needs_a_key_and_a_closing_line() {
    assert_eq!(frontmatter_end("+++\ntitle = 1\n+++\nbody"), 18);
    assert_eq!(frontmatter_end("---  \na: b\n...\nrest"), 15);
    assert_eq!(frontmatter_end("---\u{a0}\na: b\n---\n"), 15);
    assert_eq!(frontmatter_end("---\na: b\n---"), 12);
    assert_eq!(frontmatter_end("---\n  my-key : v\n---\nx"), 21);
    assert_eq!(frontmatter_end("---\n---\n"), 0);
    assert_eq!(frontmatter_end("---\na: 1\n"), 0);
    assert_eq!(frontmatter_end("x\n---\na: b\n---\n"), 0);
    assert_eq!(frontmatter_end("---\nmy key: v\n---\n"), 0);
    assert_eq!(frontmatter_end("+++\na: b\n+++\n"), 0);
    assert_eq!(frontmatter_end("---"), 0);
}

#[test]
fn keys_by_separator() {
    let b = b"  name: value";
    assert!(line_has_key(b, 0, b.len(), false));
    assert!(!line_has_key(b, 0, b.len(), true));
    let t = b"name = 1";
    assert!(line_has_key(t, 0, t.len(), true));
    let empty = b" : v";
    assert!(!line_has_key(empty, 0, empty.len(), false));
    let dotted = b"a.b: v";
    assert!(!line_has_key(dotted, 0, dotted.len(), false));
}

#[test]
fn state_hash_packs_depth_over_count() {
    assert_eq!(parser_state_hash(0, 0), 0);
    assert_eq!(parser_state_hash(2, 5), (2u64 << 32) | 5);
    assert_eq!(parser_state_hash(u32::MAX, u32::MAX), u64::MAX);
}

#[test]
fn empty_source() {
    let t = CheckpointTable::build("");
    // Both bookends collapse to byte 0 (source_len == 0).
    assert_eq!(t.len(), 1);
    assert!(t.is_empty());
    assert_eq!(t.snap_to_block_boundaries(0..0), 0..0);
}

#[test]
fn three_paragraphs() {
    let src = "a\n\nb\n\nc\n";
    let t = CheckpointTable::build(src);
    assert!(t.len() >= 4);
    let snapped = t.snap_to_block_boundaries(3..4);
    assert_eq!(&src[snapped.start as usize..snapped.end as usize], "b\n\n");
}

#[test]
fn range_inside_list_snaps_to_list_boundaries() {
    let src = "para\n\n1. one\n2. two\n3. three\n\ntail\n";
    let t = CheckpointTable::build(src);
    let two_at = src.find("two").unwrap_or(0);
    let snapped = t.snap_to_block_boundaries(two_at as u32..two_at as u32 + 1);
    let slice = &src[snapped.start as usize..snapped.end as usize];
    assert!(slice.contains("1. one"), "slice should include list start: {slice:?}");
    assert!(slice.contains("3. three"), "slice should include list end: {slice:?}");
}

#[test]
fn range_past_end_snaps_to_empty() {
    let src = "a\n";
    let t = CheckpointTable::build(src);
    let snapped = t.snap_to_block_boundaries(99..100);
    assert_eq!(snapped, src.len() as u32..src.len() as u32);
}

#[test]
fn frontmatter_is_one_prelude_region() {
    let src = "---\ntitle: x\n---\n# heading\n\npara\n";
    let t = CheckpointTable::build(src);
    let heading_at = src.find("# heading").unwrap_or(0);
    let snapped = t.snap_to_block_boundaries(2..3);
    assert!(snapped.start as usize <= heading_at);
    assert!(snapped.end as usize >= heading_at);
}

#[test]
fn crlf_source_preserves_original_offsets() {
    let src = "a\r\n\r\nb\r\n";
    let t = CheckpointTable::build(src);
    let b_at = src.find('b').unwrap_or(0) as u32;
    let snapped = t.snap_to_block_boundaries(b_at..b_at + 1);
    let slice = &src[snapped.start as usize..snapped.end as usize];
    assert!(slice.contains('b'));
}
