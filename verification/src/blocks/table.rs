//! GFM tables.
//!
//! Two invariants of a well-formed table are enforced when it is built:
//! every row has exactly one cell per column (`TableRow::from_raw`
//! drops the excess cells of a row and pads a short one, as GFM
//! prescribes), and a table has at least one column
//! (`TableBlock::try_new`). Cells are handles on the tree nodes that
//! hold their inline content.

use vstd::prelude::*;
use crate::blocks::node::NodeId;
use crate::config::Wrap;
use crate::format::canonicalise::usat;
use crate::format::wrap::{display_width, str_width};
use crate::math::pretty::{column_width, spaces};

verus! {

/// A column's alignment, from its delimiter-row cell.
#[derive(Copy, Clone, Debug, PartialEq, Eq, Structural)]
pub enum TableAlign {
    NoAlign,
    Left,
    Center,
    Right,
}

/// One cell: the tree node that holds its content.
#[derive(Copy, Clone, Debug, PartialEq, Eq, Structural)]
pub struct TableCell {
    pub cell_id: NodeId,
}

impl TableCell {
    pub fn new(cell_id: NodeId) -> (r: Self)
        ensures
            r.cell_id == cell_id,
    {
        TableCell { cell_id }
    }

    pub fn cell_id(self) -> (r: NodeId)
        ensures
            r == self.cell_id,
    {
        self.cell_id
    }
}

/// `raw` cut or padded to `n` cells; padding cells point at the row.
pub open spec fn fit_cells(raw: Seq<TableCell>, n: nat, row_id: NodeId) -> Seq<TableCell> {
    Seq::new(n, |i: int| if i < raw.len() { raw[i] } else { TableCell { cell_id: row_id } })
}

/// One row of a table.
#[derive(Clone, Debug)]
pub struct TableRow {
    row_id: NodeId,
    cells: Vec<TableCell>,
}

impl TableRow {
    pub closed spec fn spec_row_id(self) -> NodeId {
        self.row_id
    }

    pub closed spec fn spec_cells(self) -> Seq<TableCell> {
        self.cells@
    }

    /// Fits a parsed row to the table's column count: excess cells are
    /// dropped, missing ones are padding cells that point back at the
    /// row node.
    pub fn from_raw(row_id: NodeId, raw_cells: Vec<TableCell>, expected_columns: usize) -> (r: Self)
        ensures
            r.spec_row_id() == row_id,
            r.spec_cells() == fit_cells(raw_cells@, expected_columns as nat, row_id),
    {
        let mut cells = raw_cells;
        cells.truncate(expected_columns);
        let ghost kept = cells@;
        while cells.len() < expected_columns
            invariant
                kept.len() <= cells@.len() <= expected_columns,
                kept == raw_cells@.take(if raw_cells@.len() < expected_columns { raw_cells@.len() as int } else { expected_columns as int }),
                forall|i: int| 0 <= i < kept.len() ==> cells@[i] == kept[i],
                forall|i: int| kept.len() <= i < cells@.len() ==> cells@[i] == (TableCell { cell_id: row_id }),
            decreases expected_columns - cells@.len(),
        {
            cells.push(TableCell { cell_id: row_id });
        }
        assert(cells@.len() == expected_columns);
        assert forall|i: int| 0 <= i < expected_columns implies #[trigger] cells@[i] == fit_cells(raw_cells@, expected_columns as nat, row_id)[i] by {
            if i < kept.len() {
                assert(kept[i] == raw_cells@[i]);
            }
        }
        assert(cells@ =~= fit_cells(raw_cells@, expected_columns as nat, row_id));
        TableRow { row_id, cells }
    }

    pub fn cells(&self) -> (r: &[TableCell])
        ensures
            r@ == self.spec_cells(),
    {
        self.cells.as_slice()
    }

    /// Whether `cell` is a padding cell of this row.
    pub fn is_pad(&self, cell: TableCell) -> (r: bool)
        ensures
            r == (cell.cell_id == self.spec_row_id()),
    {
        cell.cell_id == self.row_id
    }
}

/// Why a table could not be built.
#[derive(Copy, Clone, Debug, PartialEq, Eq, Structural)]
pub enum TableError {
    /// No columns.
    NoColumns,
    /// The head row does not have one cell per column.
    HeadColumnCountMismatch { expected: usize, got: usize },
    /// A body row does not have one cell per column.
    BodyColumnCountMismatch { row: usize, expected: usize, got: usize },
}

/// The first body row, from `i` on, whose cell count is not `n`.
pub open spec fn first_bad_row(body: Seq<TableRow>, n: nat, i: int) -> Option<int>
    decreases body.len() - i,
{
    if i < 0 || i >= body.len() {
        None
    } else if body[i].spec_cells().len() != n {
        Some(i)
    } else {
        first_bad_row(body, n, i + 1)
    }
}

/// What building a table from these parts gives: the first problem
/// found, or `Ok`.
pub open spec fn table_check(align_len: nat, head: TableRow, body: Seq<TableRow>) -> Result<(), TableError> {
    if align_len == 0 {
        Err(TableError::NoColumns)
    } else if head.spec_cells().len() != align_len {
        Err(TableError::HeadColumnCountMismatch { expected: align_len as usize, got: head.spec_cells().len() as usize })
    } else {
        match first_bad_row(body, align_len, 0) {
            Some(i) => Err(
                TableError::BodyColumnCountMismatch {
                    row: i as usize,
                    expected: align_len as usize,
                    got: body[i].spec_cells().len() as usize,
                },
            ),
            None => Ok(()),
        }
    }
}

/// A table with at least one column and one cell per column in every
/// row.
#[derive(Clone, Debug)]
pub struct TableBlock {
    align: Vec<TableAlign>,
    head: TableRow,
    body: Vec<TableRow>,
}

impl TableBlock {
    pub closed spec fn well_formed(self) -> bool {
        &&& self.align@.len() > 0
        &&& self.head.spec_cells().len() == self.align@.len()
        &&& forall|i: int| 0 <= i < self.body@.len() ==> (#[trigger] self.body@[i]).spec_cells().len() == self.align@.len()
    }

    pub closed spec fn spec_align(self) -> Seq<TableAlign> {
        self.align@
    }

    pub closed spec fn spec_head(self) -> TableRow {
        self.head
    }

    pub closed spec fn spec_body(self) -> Seq<TableRow> {
        self.body@
    }

    /// Builds a table; refuses one without columns or with a row whose
    /// cell count differs from the column count.
    pub fn try_new(align: Vec<TableAlign>, head: TableRow, body: Vec<TableRow>) -> (r: Result<Self, TableError>)
        ensures
            match table_check(align@.len(), head, body@) {
                Ok(()) => r matches Ok(t) && t.well_formed() && t.spec_align() == align@ && t.spec_head() == head
                    && t.spec_body() == body@,
                Err(e) => r == Err::<Self, TableError>(e),
            },
    {
        if align.len() == 0 {
            return Err(TableError::NoColumns);
        }
        let expected = align.len();
        if head.cells.len() != expected {
            return Err(TableError::HeadColumnCountMismatch { expected, got: head.cells.len() });
        }
        let mut i: usize = 0;
        while i < body.len()
            invariant
                i <= body@.len(),
                expected == align@.len(),
                expected > 0,
                head.spec_cells().len() == expected,
                first_bad_row(body@, expected as nat, i as int) == first_bad_row(body@, expected as nat, 0),
                forall|k: int| 0 <= k < i ==> (#[trigger] body@[k]).spec_cells().len() == expected,
            decreases body@.len() - i,
        {
            let n = body[i].cells.len();
            if n != expected {
                return Err(TableError::BodyColumnCountMismatch { row: i, expected, got: n });
            }
            i = i + 1;
        }
        Ok(TableBlock { align, head, body })
    }

    pub fn align(&self) -> (r: &[TableAlign])
        ensures
            r@ == self.spec_align(),
    {
        self.align.as_slice()
    }

    pub fn head(&self) -> (r: &TableRow)
        ensures
            *r == self.spec_head(),
    {
        &self.head
    }

    pub fn body(&self) -> (r: &[TableRow])
        ensures
            r@ == self.spec_body(),
    {
        self.body.as_slice()
    }
}

/// Rows built by [`TableRow::from_raw`] for the table's column count
/// always make a table, whatever their raw lengths.
pub proof fn law_fitted_rows_make_a_table(n_cols: usize, head: TableRow, body: Seq<TableRow>)
    requires
        n_cols >= 1,
        head.spec_cells().len() == n_cols,
        forall|i: int| 0 <= i < body.len() ==> (#[trigger] body[i]).spec_cells().len() == n_cols,
    ensures
        table_check(n_cols as nat, head, body) is Ok,
{
    lemma_no_bad_row(body, n_cols as nat, 0);
}

proof fn lemma_no_bad_row(body: Seq<TableRow>, n: nat, i: int)
    requires
        0 <= i,
        forall|k: int| 0 <= k < body.len() ==> (#[trigger] body[k]).spec_cells().len() == n,
    ensures
        first_bad_row(body, n, i) is None,
    decreases body.len() - i,
{
    if i < body.len() {
        lemma_no_bad_row(body, n, i + 1);
    }
}

/// The narrowest delimiter cell an alignment can be written in.
pub open spec fn min_width(a: TableAlign) -> nat {
    match a {
        TableAlign::NoAlign => 3,
        TableAlign::Left | TableAlign::Right => 4,
        TableAlign::Center => 5,
    }
}

pub fn alignment_min_width(a: TableAlign) -> (r: usize)
    ensures
        r == min_width(a),
{
    match a {
        TableAlign::NoAlign => 3,
        TableAlign::Left | TableAlign::Right => 4,
        TableAlign::Center => 5,
    }
}

/// The characters of every cell of every row.
pub open spec fn cell_grid(rows: Seq<Vec<String>>) -> Seq<Seq<Seq<char>>> {
    rows.map_values(|r: Vec<String>| r@.map_values(|c: String| c@))
}

/// The alignment of column `j`; `None` past the listed ones.
pub open spec fn align_at(a: Seq<TableAlign>, j: int) -> TableAlign {
    if 0 <= j < a.len() {
        a[j]
    } else {
        TableAlign::NoAlign
    }
}

/// A column's width: its widest cell, and no narrower than its
/// alignment needs.
pub open spec fn raised_width(g: Seq<Seq<Seq<char>>>, a: Seq<TableAlign>, j: int) -> nat {
    let w = column_width(g, j);
    let m = min_width(align_at(a, j));
    if m > w {
        m
    } else {
        w
    }
}

/// The sum over the first `n` columns of their width plus three.
pub open spec fn padded_sum(g: Seq<Seq<Seq<char>>>, a: Seq<TableAlign>, n: int) -> nat
    decreases n,
{
    if n <= 0 {
        0
    } else {
        padded_sum(g, a, n - 1) + usat((raised_width(g, a, n - 1) + 3) as int) as nat
    }
}

/// Column widths for a table: the raised widths when the widest row
/// fits in `target` columns, else the widest cell of each column alone.
pub open spec fn table_widths(g: Seq<Seq<Seq<char>>>, a: Seq<TableAlign>, n_cols: nat, target: nat) -> Seq<nat> {
    if usat((padded_sum(g, a, n_cols as int) + 1) as int) > target {
        Seq::new(n_cols, |j: int| column_width(g, j))
    } else {
        Seq::new(n_cols, |j: int| raised_width(g, a, j))
    }
}

/// The column target of a wrap mode.
pub open spec fn wrap_target(w: Wrap) -> nat {
    match w {
        Wrap::At(n) => n as nat,
        _ => u32::MAX as nat,
    }
}

/// A display width always fits the `usize` range.
proof fn lemma_column_width_fits(g: Seq<Seq<Seq<char>>>, j: int)
    ensures
        column_width(g, j) <= usize::MAX,
    decreases g.len(),
{
    if g.len() > 0 {
        lemma_column_width_fits(g.drop_last(), j);
    }
}

/// Column widths for laying out a table with `n_cols` columns: each
/// column as wide as its widest cell and its alignment's minimum, unless
/// the resulting rows would exceed the wrap target, in which case the
/// widest cell alone.
pub fn compute_column_widths(rows: &[Vec<String>], alignments: &[TableAlign], n_cols: usize, wrap: Wrap) -> (r: Vec<usize>)
    requires
        padded_sum(cell_grid(rows@), alignments@, n_cols as int) <= usize::MAX,
    ensures
        r@.len() == n_cols,
        forall|j: int| 0 <= j < n_cols ==> #[trigger] r@[j] == table_widths(
            cell_grid(rows@),
            alignments@,
            n_cols as nat,
            wrap_target(wrap),
        )[j],
{
    let ghost g = cell_grid(rows@);
    let mut widths: Vec<usize> = Vec::new();
    while widths.len() < n_cols
        invariant
            widths@.len() <= n_cols,
            forall|k: int| 0 <= k < widths@.len() ==> widths@[k] == 0,
        decreases n_cols - widths@.len(),
    {
        widths.push(0);
    }
    let mut i: usize = 0;
    while i < rows.len()
        invariant
            g == cell_grid(rows@),
            i <= rows@.len(),
            widths@.len() == n_cols,
            forall|k: int| 0 <= k < n_cols ==> #[trigger] widths@[k] == column_width(g.take(i as int), k),
        decreases rows@.len() - i,
    {
        let row = &rows[i];
        let ghost before = widths@;
        proof {
            assert(g[i as int] =~= row@.map_values(|c: String| c@));
        }
        let mut j: usize = 0;
        while j < row.len()
            invariant
                g == cell_grid(rows@),
                i < rows@.len(),
                *row == rows@[i as int],
                g[i as int] == row@.map_values(|c: String| c@),
                widths@.len() == n_cols,
                j <= row@.len(),
                forall|k: int| 0 <= k < n_cols ==> #[trigger] before[k] == column_width(g.take(i as int), k),
                forall|k: int| 0 <= k < n_cols && k < j ==> #[trigger] widths@[k] == (if display_width(g[i as int][k]) > before[k] {
                    display_width(g[i as int][k]) as int
                } else {
                    before[k] as int
                }),
                forall|k: int| 0 <= k < n_cols && j <= k ==> #[trigger] widths@[k] == before[k],
            decreases row@.len() - j,
        {
            let w = str_width(row[j].as_str());
            if j < n_cols && w > widths[j] {
                widths.set(j, w);
            }
            j = j + 1;
        }
        proof {
            assert(g.take(i + 1).drop_last() =~= g.take(i as int));
            assert forall|k: int| 0 <= k < n_cols implies #[trigger] widths@[k] == column_width(g.take(i + 1), k) by {
                assert(g.take(i + 1).last() == g[i as int]);
            }
        }
        i = i + 1;
    }
    assert(g.take(rows@.len() as int) =~= g);
    // The widest cell of each column, kept for the case where the table
    // is too wide anyway.
    let mut acc: Vec<usize> = Vec::new();
    let mut j: usize = 0;
    while j < n_cols
        invariant
            widths@.len() == n_cols,
            j <= n_cols,
            acc@.len() == j,
            forall|k: int| 0 <= k < j ==> #[trigger] acc@[k] == widths@[k],
        decreases n_cols - j,
    {
        acc.push(widths[j]);
        j = j + 1;
    }
    let mut j: usize = 0;
    while j < n_cols
        invariant
            widths@.len() == n_cols,
            acc@.len() == n_cols,
            j <= n_cols,
            forall|k: int| 0 <= k < n_cols ==> #[trigger] acc@[k] == column_width(g, k),
            forall|k: int| 0 <= k < j ==> #[trigger] widths@[k] == raised_width(g, alignments@, k),
            forall|k: int| j <= k < n_cols ==> #[trigger] widths@[k] == column_width(g, k),
        decreases n_cols - j,
    {
        let a = if j < alignments.len() {
            alignments[j]
        } else {
            TableAlign::NoAlign
        };
        let min = alignment_min_width(a);
        if min > widths[j] {
            widths.set(j, min);
        }
        j = j + 1;
    }
    let mut total: usize = 0;
    let mut j: usize = 0;
    while j < n_cols
        invariant
            widths@.len() == n_cols,
            j <= n_cols,
            forall|k: int| 0 <= k < n_cols ==> #[trigger] widths@[k] == raised_width(g, alignments@, k),
            total == padded_sum(g, alignments@, j as int),
            padded_sum(g, alignments@, n_cols as int) <= usize::MAX,
        decreases n_cols - j,
    {
        proof {
            lemma_padded_sum_monotone(g, alignments@, j + 1, n_cols as int);
        }
        total = total + widths[j].saturating_add(3);
        j = j + 1;
    }
    let row_width = total.saturating_add(1);
    let target = wrap.columns() as usize;
    if row_width > target {
        assert forall|k: int| 0 <= k < n_cols implies #[trigger] acc@[k] == table_widths(g, alignments@, n_cols as nat, wrap_target(wrap))[k] by {}
        return acc;
    }
    widths
}

proof fn lemma_padded_sum_monotone(g: Seq<Seq<Seq<char>>>, a: Seq<TableAlign>, m: int, n: int)
    requires
        m <= n,
    ensures
        padded_sum(g, a, m) <= padded_sum(g, a, n),
    decreases n - m,
{
    if m < n {
        lemma_padded_sum_monotone(g, a, m, n - 1);
    }
}

/// The width a cell is padded to: its column's width less its own,
/// never below zero; columns without a width pad nothing.
pub open spec fn cell_pad(widths: Seq<usize>, i: int, c: Seq<char>) -> nat {
    let w: int = if 0 <= i < widths.len() { widths[i] as int } else { 0 };
    let d = display_width(c) as int;
    if w > d {
        (w - d) as nat
    } else {
        0
    }
}

/// `| c0 | c1 |` with the first `n` cells, each padded to its width.
pub open spec fn table_row_text(cells: Seq<Seq<char>>, widths: Seq<usize>, n: int) -> Seq<char>
    decreases n,
{
    if n <= 0 {
        seq!['|']
    } else {
        table_row_text(cells, widths, n - 1) + seq![' '] + cells[n - 1] + spaces(cell_pad(widths, n - 1, cells[n - 1]))
            + seq![' ', '|']
    }
}

/// Writes one table row: `|`, then each cell between single spaces,
/// padded to its column's width, and `|` after it.
pub fn format_table_row(cells: &[String], widths: &[usize]) -> (r: String)
    ensures
        r@ == table_row_text(cells@.map_values(|c: String| c@), widths@, cells@.len() as int),
{
    let ghost cs = cells@.map_values(|c: String| c@);
    let mut out = String::new();
    out.push('|');
    let mut i: usize = 0;
    while i < cells.len()
        invariant
            cs == cells@.map_values(|c: String| c@),
            i <= cells@.len(),
            out@ == table_row_text(cs, widths@, i as int),
        decreases cells@.len() - i,
    {
        let c = &cells[i];
        let w = if i < widths.len() {
            widths[i]
        } else {
            0
        };
        let pad = w.saturating_sub(str_width(c.as_str()));
        let ghost start = out@;
        out.push(' ');
        out.push_str(c.as_str());
        let ghost mid = out@;
        let mut p: usize = 0;
        while p < pad
            invariant
                p <= pad,
                out@ == mid + spaces(p as nat),
            decreases pad - p,
        {
            out.push(' ');
            assert(mid + spaces((p + 1) as nat) =~= (mid + spaces(p as nat)).push(' '));
            p = p + 1;
        }
        out.push(' ');
        out.push('|');
        proof {
            assert(cs[i as int] == c@);
            assert(pad == cell_pad(widths@, i as int, cs[i as int]));
            assert(out@ =~= table_row_text(cs, widths@, i + 1));
        }
        i = i + 1;
    }
    out
}

/// `n` dashes.
pub open spec fn dashes(n: nat) -> Seq<char> {
    Seq::new(n, |_i: int| '-')
}

/// `n - k`, or zero.
pub open spec fn sat_less(n: nat, k: nat) -> nat {
    if n > k {
        (n - k) as nat
    } else {
        0
    }
}

/// The delimiter cell of a column of width `w`.
pub open spec fn align_cell(a: TableAlign, w: nat) -> Seq<char> {
    match a {
        TableAlign::NoAlign => dashes(w),
        TableAlign::Left => seq![':'] + dashes(sat_less(w, 1)),
        TableAlign::Right => dashes(sat_less(w, 1)) + seq![':'],
        TableAlign::Center => seq![':'] + dashes(sat_less(w, 2)) + seq![':'],
    }
}

/// The delimiter row for the first `n` widths.
pub open spec fn align_row_text(a: Seq<TableAlign>, widths: Seq<usize>, n: int) -> Seq<char>
    decreases n,
{
    if n <= 0 {
        seq!['|']
    } else {
        align_row_text(a, widths, n - 1) + seq![' '] + align_cell(align_at(a, n - 1), widths[n - 1] as nat) + seq![' ', '|']
    }
}

fn push_dashes(out: &mut String, n: usize)
    ensures
        final(out)@ == old(out)@ + dashes(n as nat),
{
    let mut k: usize = 0;
    while k < n
        invariant
            k <= n,
            out@ == old(out)@ + dashes(k as nat),
        decreases n - k,
    {
        out.push('-');
        assert(old(out)@ + dashes((k + 1) as nat) =~= (old(out)@ + dashes(k as nat)).push('-'));
        k = k + 1;
    }
}

/// Writes the delimiter row: per column, dashes filling its width, with
/// colons marking its alignment.
pub fn format_alignment_row(alignments: &[TableAlign], widths: &[usize]) -> (r: String)
    ensures
        r@ == align_row_text(alignments@, widths@, widths@.len() as int),
{
    let mut out = String::new();
    out.push('|');
    let mut i: usize = 0;
    while i < widths.len()
        invariant
            i <= widths@.len(),
            out@ == align_row_text(alignments@, widths@, i as int),
        decreases widths@.len() - i,
    {
        let w = widths[i];
        let a = if i < alignments.len() {
            alignments[i]
        } else {
            TableAlign::NoAlign
        };
        let ghost start = out@;
        out.push(' ');
        match a {
            TableAlign::NoAlign => {
                push_dashes(&mut out, w);
            },
            TableAlign::Left => {
                out.push(':');
                push_dashes(&mut out, w.saturating_sub(1));
            },
            TableAlign::Right => {
                push_dashes(&mut out, w.saturating_sub(1));
                out.push(':');
            },
            TableAlign::Center => {
                out.push(':');
                push_dashes(&mut out, w.saturating_sub(2));
                out.push(':');
            },
        }
        out.push(' ');
        out.push('|');
        proof {
            assert(out@ =~= start + seq![' '] + align_cell(align_at(alignments@, i as int), w as nat) + seq![' ', '|']);
        }
        i = i + 1;
    }
    out
}

} // verus!
