use mdwright::config::{FmtOptions, OrderedListStyle};
use mdwright::blocks::list::{
    item_indent, ListBlock, ListBlockError, ListItem, ListItemKind, ListMarker, NodeId, OrderedDelim, TaskItem, Tightness,
};

fn nid(i: u32) -> NodeId {
    NodeId::new(i)
}

#[test]
fn tightness_all_tight_when_no_paragraph_children() {
    let items = vec![
        ListItemKind::Plain(ListItem::new(nid(0), 0, false)),
        ListItemKind::Plain(ListItem::new(nid(1), 0, false)),
    ];
    assert_eq!(Tightness::from_items(&items), Tightness::Tight);
}

#[test]
fn tightness_loose_when_any_item_has_paragraph() {
    let items = vec![
        ListItemKind::Plain(ListItem::new(nid(0), 0, false)),
        ListItemKind::Plain(ListItem::new(nid(1), 0, true)),
    ];
    assert_eq!(Tightness::from_items(&items), Tightness::Loose);
}

#[test]
fn tightness_loose_when_task_item_has_paragraph() {
    let items = vec![ListItemKind::Task(TaskItem::new(
        nid(0),
        0,
        true,
        false,
        false,
    ))];
    assert_eq!(Tightness::from_items(&items), Tightness::Loose);
}

#[test]
fn try_new_rejects_empty() {
    assert_eq!(
        ListBlock::try_new(ListMarker::Dash, vec![]).err(),
        Some(ListBlockError::Empty),
    );
}

#[test]
fn try_new_derives_tightness() {
    let lb = ListBlock::try_new(
        ListMarker::Dash,
        vec![ListItemKind::Plain(ListItem::new(nid(0), 0, false))],
    )
    .expect("non-empty");
    assert_eq!(lb.tightness(), Tightness::Tight);

    let lb = ListBlock::try_new(
        ListMarker::Dash,
        vec![ListItemKind::Plain(ListItem::new(nid(0), 0, true))],
    )
    .expect("non-empty");
    assert_eq!(lb.tightness(), Tightness::Loose);
}

#[test]
fn marker_from_legacy_bullet() {
    assert_eq!(
        ListMarker::from_legacy(false, 0, b'-', "- a\n", 0..4),
        Some(ListMarker::Dash),
    );
    assert_eq!(
        ListMarker::from_legacy(false, 0, b'*', "* a\n", 0..4),
        Some(ListMarker::Asterisk),
    );
    assert_eq!(
        ListMarker::from_legacy(false, 0, b'+', "+ a\n", 0..4),
        Some(ListMarker::Plus),
    );
    assert_eq!(ListMarker::from_legacy(false, 0, b'!', "! a\n", 0..4), None,);
}

#[test]
fn marker_from_legacy_ordered_period_and_paren() {
    assert_eq!(
        ListMarker::from_legacy(true, 1, b'1', "1. a\n", 0..5),
        Some(ListMarker::Ordered {
            start: 1,
            delim: OrderedDelim::Period,
        }),
    );
    assert_eq!(
        ListMarker::from_legacy(true, 3, b'3', "3) a\n", 0..5),
        Some(ListMarker::Ordered {
            start: 3,
            delim: OrderedDelim::Paren,
        }),
    );
}

#[test]
fn marker_from_legacy_ordered_start_overflow_rejected() {
    // 2^32 does not fit in u32; the constructor returns None.
    let huge: u64 = u64::from(u32::MAX) + 1;
    assert_eq!(
        ListMarker::from_legacy(true, huge, b'1', "1. a\n", 0..5),
        None,
    );
}

#[test]
fn item_indent_counts_leading_spaces() {
    assert_eq!(item_indent("    - a\n", 0..8), 4);
    assert_eq!(item_indent("- a\n", 0..4), 0);
    assert_eq!(item_indent("\t- a\n", 0..5), 1);
    // Blank leading line is skipped.
    assert_eq!(item_indent("\n  - a\n", 0..7), 2);
}

#[test]
fn item_for_finds_by_id() {
    let id_a = nid(0);
    let id_b = nid(1);
    let lb = ListBlock::try_new(
        ListMarker::Dash,
        vec![
            ListItemKind::Plain(ListItem::new(id_a, 0, false)),
            ListItemKind::Plain(ListItem::new(id_b, 0, false)),
        ],
    )
    .expect("non-empty");
    assert!(lb.item_for(id_a).is_some());
    assert!(lb.item_for(id_b).is_some());
}

#[test]
fn marker_for_index_numbers_and_bullets() {
    let items = vec![
        ListItemKind::Plain(ListItem::new(nid(0), 0, false)),
        ListItemKind::Plain(ListItem::new(nid(1), 0, false)),
    ];
    let ordered = ListBlock::try_new(ListMarker::Ordered { start: 3, delim: OrderedDelim::Period }, items.clone())
        .expect("non-empty");
    let consistent = FmtOptions::default().with_ordered_list(OrderedListStyle::Consistent);
    assert_eq!(ordered.marker_for_index(&consistent, 1, "5) b", None), "4) ");
    let preserve = FmtOptions::default().with_ordered_list(OrderedListStyle::Preserve);
    assert_eq!(ordered.marker_for_index(&preserve, 1, "  5) b", None), "5) ");
    assert_eq!(ordered.marker_for_index(&preserve, 0, "x", None), "3. ");
    let bullets = ListBlock::try_new(ListMarker::Plus, items).expect("non-empty");
    assert_eq!(bullets.marker_for_index(&preserve, 0, "+ a", None), "+ ");
    assert_eq!(bullets.marker_for_index(&preserve, 0, "+ a", Some(b'*')), "* ");
    assert_eq!(bullets.resolve_unordered_bullet(&preserve, Some(b'+')), b'-');
}

#[test]
fn item_indent_edge_cases() {
    assert_eq!(item_indent("a", 0..9), 0);
    assert_eq!(item_indent("  \n \t\n", 0..6), 0);
    assert_eq!(item_indent(" \r\n   x", 0..7), 3);
}
