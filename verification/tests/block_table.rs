use mdwright::blocks::node::NodeId;
use mdwright::blocks::table::{
    compute_column_widths, format_alignment_row, format_table_row, TableAlign, TableBlock, TableCell, TableError,
    TableRow,
};
use mdwright::config::Wrap;

fn nid(i: u32) -> NodeId {
    NodeId::new(i)
}

#[test]
fn try_new_rejects_empty_align() {
    let head = TableRow::from_raw(nid(1), vec![], 0);
    let err = TableBlock::try_new(vec![], head, vec![]).unwrap_err();
    assert_eq!(err, TableError::NoColumns);
}

#[test]
fn try_new_rejects_head_mismatch() {
    // Hand-built row to defeat from_raw's reconciliation.
    let head = TableRow::from_raw(nid(1), vec![TableCell::new(nid(2))], 1);
    let err = TableBlock::try_new(vec![TableAlign::NoAlign, TableAlign::NoAlign], head, vec![]).unwrap_err();
    assert!(matches!(
        err,
        TableError::HeadColumnCountMismatch { expected: 2, got: 1 }
    ));
}

#[test]
fn try_new_rejects_body_mismatch() {
    let head = TableRow::from_raw(nid(1), vec![TableCell::new(nid(2)), TableCell::new(nid(3))], 2);
    let body_row = TableRow::from_raw(nid(4), vec![TableCell::new(nid(5))], 1);
    let err = TableBlock::try_new(vec![TableAlign::NoAlign, TableAlign::NoAlign], head, vec![body_row]).unwrap_err();
    assert!(matches!(
        err,
        TableError::BodyColumnCountMismatch {
            row: 0,
            expected: 2,
            got: 1
        }
    ));
}

#[test]
fn from_raw_truncates() {
    let row = TableRow::from_raw(
        nid(1),
        vec![TableCell::new(nid(2)), TableCell::new(nid(3)), TableCell::new(nid(4))],
        2,
    );
    assert_eq!(row.cells().len(), 2);
    assert_eq!(row.cells()[0].cell_id(), nid(2));
    assert_eq!(row.cells()[1].cell_id(), nid(3));
    assert!(!row.is_pad(row.cells()[0]));
    assert!(!row.is_pad(row.cells()[1]));
}

#[test]
fn from_raw_pads_with_synthetic_cells() {
    let row = TableRow::from_raw(nid(1), vec![TableCell::new(nid(2))], 3);
    assert_eq!(row.cells().len(), 3);
    assert!(!row.is_pad(row.cells()[0]));
    assert!(row.is_pad(row.cells()[1]));
    assert!(row.is_pad(row.cells()[2]));
}

#[test]
fn from_raw_exact_passes_through() {
    let row = TableRow::from_raw(nid(1), vec![TableCell::new(nid(2)), TableCell::new(nid(3))], 2);
    assert_eq!(row.cells().len(), 2);
    assert!(!row.is_pad(row.cells()[0]));
    assert!(!row.is_pad(row.cells()[1]));
}

#[test]
fn try_new_accepts_well_formed_table() {
    let head = TableRow::from_raw(nid(1), vec![TableCell::new(nid(2)), TableCell::new(nid(3))], 2);
    let body = vec![TableRow::from_raw(
        nid(4),
        vec![TableCell::new(nid(5)), TableCell::new(nid(6))],
        2,
    )];
    let t = TableBlock::try_new(vec![TableAlign::Left, TableAlign::Right], head, body).unwrap();
    assert_eq!(t.align().len(), 2);
    assert_eq!(t.head().cells().len(), 2);
    assert_eq!(t.body().len(), 1);
}

#[test]
fn column_widths_raise_to_alignment_minimum() {
    let rows = vec![
        vec!["a".to_owned(), "long cell".to_owned()],
        vec!["bb".to_owned()],
    ];
    let aligns = vec![TableAlign::Center, TableAlign::Left];
    assert_eq!(compute_column_widths(&rows, &aligns, 2, Wrap::Keep), vec![5, 9]);
    // Too wide for the target: the widest cells alone.
    assert_eq!(compute_column_widths(&rows, &aligns, 2, Wrap::At(10)), vec![2, 9]);
    assert_eq!(compute_column_widths(&rows, &[], 3, Wrap::Keep), vec![3, 9, 3]);
}

#[test]
fn table_rows_are_padded() {
    let cells = vec!["a".to_owned(), "bcd".to_owned()];
    assert_eq!(format_table_row(&cells, &[3, 2]), "| a   | bcd |");
    assert_eq!(format_table_row(&[], &[3]), "|");
    assert_eq!(
        format_alignment_row(&[TableAlign::NoAlign, TableAlign::Left, TableAlign::Right, TableAlign::Center], &[3, 4, 4, 5]),
        "| --- | :--- | ---: | :---: |"
    );
    assert_eq!(format_alignment_row(&[TableAlign::Center], &[1]), "| :: |");
}
