//! Math-body normalisation helpers: brace validation, inline
//! whitespace collapse, display-body trimming and column alignment of
//! aligning environments.

use vstd::prelude::*;
use crate::math::span::piece;
use vstd::utf8::*;
use crate::text::{chars_of, lemma_ascii_boundaries, str_slice_or_empty, utf8_of};
use crate::format::wrap::{display_width, str_width};
use crate::format::doc::{concat_docs, hard_line, lf_from, text, unbreakable, Doc};
use crate::math::span::{close_bytes, display_family, inline_family, open_bytes, DisplayDelim, EnvKind, InlineDelim};

verus! {

/// Walks `b` from `i` with `depth` groups open; `\{` and `\}` are
/// escapes and skip two bytes. `Err(k)` at the first unmatched `}`
/// (position `k`), `Err(0)` when a group is still open at the end.
pub open spec fn brace_scan(b: Seq<u8>, i: int, depth: nat) -> Result<(), int>
    decreases b.len() - i,
{
    if i < 0 || i >= b.len() {
        if depth == 0 {
            Ok(())
        } else {
            Err(0)
        }
    } else if b[i] == 0x5C && i + 1 < b.len() && (b[i + 1] == 0x7B || b[i + 1] == 0x7D) {
        brace_scan(b, i + 2, depth)
    } else if b[i] == 0x7B {
        brace_scan(b, i + 1, depth + 1)
    } else if b[i] == 0x7D {
        if depth == 0 {
            Err(i)
        } else {
            brace_scan(b, i + 1, (depth - 1) as nat)
        }
    } else {
        brace_scan(b, i + 1, depth)
    }
}

/// Checks that `{` and `}` balance in `body`, escapes aside.
pub fn body_braces_balanced(body: &str) -> (r: Result<(), usize>)
    ensures
        match r {
            Ok(()) => brace_scan(utf8_of(body@), 0, 0) == Ok::<(), int>(()),
            Err(k) => brace_scan(utf8_of(body@), 0, 0) == Err::<(), int>(k as int),
        },
{
    let b = body.as_bytes();
    let mut depth: usize = 0;
    let mut i: usize = 0;
    while i < b.len()
        invariant
            b@ == utf8_of(body@),
            i <= b@.len(),
            depth <= i,
            brace_scan(b@, i as int, depth as nat) == brace_scan(b@, 0, 0),
        decreases b@.len() - i,
    {
        let c = b[i];
        if c == 0x5C && i + 1 < b.len() && (b[i + 1] == 0x7B || b[i + 1] == 0x7D) {
            i = i + 2;
        } else if c == 0x7B {
            depth = depth + 1;
            i = i + 1;
        } else if c == 0x7D {
            if depth == 0 {
                return Err(i);
            }
            depth = depth - 1;
            i = i + 1;
        } else {
            i = i + 1;
        }
    }
    if depth == 0 {
        Ok(())
    } else {
        Err(0)
    }
}

/// Inline whitespace collapse over the body bytes: runs of space / tab
/// become one space; a backslash and the byte after it are copied
/// as-is. Every byte is emitted as the character of the same value.
pub open spec fn collapse_from(b: Seq<u8>, i: int, in_ws: bool) -> Seq<char>
    decreases b.len() - i,
{
    if i < 0 || i >= b.len() {
        Seq::empty()
    } else if b[i] == 0x5C {
        if i + 1 < b.len() {
            seq![b[i] as char, b[i + 1] as char] + collapse_from(b, i + 2, false)
        } else {
            seq![b[i] as char]
        }
    } else if b[i] == 0x20 || b[i] == 0x09 {
        if in_ws {
            collapse_from(b, i + 1, true)
        } else {
            seq![' '] + collapse_from(b, i + 1, true)
        }
    } else {
        seq![b[i] as char] + collapse_from(b, i + 1, false)
    }
}

/// Collapses runs of spaces and tabs to one space outside backslash
/// escapes (`\,`, `\ ` and the like are TeX-significant).
pub fn collapse_inline_ws(body: &str) -> (r: String)
    ensures
        r@ == collapse_from(utf8_of(body@), 0, false),
{
    let b = body.as_bytes();
    let mut out = String::new();
    let mut i: usize = 0;
    let mut in_ws = false;
    while i < b.len()
        invariant
            b@ == utf8_of(body@),
            i <= b@.len(),
            out@ + collapse_from(b@, i as int, in_ws) == collapse_from(b@, 0, false),
        decreases b@.len() - i,
    {
        let c = b[i];
        let ghost before = out@;
        if c == 0x5C {
            in_ws = false;
            out.push('\\');
            if i + 1 < b.len() {
                out.push(b[i + 1] as char);
                proof {
                    assert(before.push('\\').push(b@[i + 1] as char) =~= before + seq![b@[i as int] as char, b@[i + 1] as char]);
                    assert(before + (seq![b@[i as int] as char, b@[i + 1] as char] + collapse_from(b@, i + 2, false))
                        =~= (before + seq![b@[i as int] as char, b@[i + 1] as char]) + collapse_from(b@, i + 2, false));
                }
                i = i + 2;
            } else {
                proof {
                    assert(collapse_from(b@, i + 1, false) =~= Seq::<char>::empty());
                    assert(before.push('\\') =~= before + seq![b@[i as int] as char]);
                    assert(before.push('\\') + Seq::<char>::empty() =~= before.push('\\'));
                }
                i = i + 1;
            }
        } else if c == 0x20 || c == 0x09 {
            if !in_ws {
                out.push(' ');
                proof {
                    assert(before + (seq![' '] + collapse_from(b@, i + 1, true)) =~= before.push(' ') + collapse_from(b@, i + 1, true));
                }
                in_ws = true;
            }
            i = i + 1;
        } else {
            in_ws = false;
            out.push(c as char);
            proof {
                assert(before + (seq![c as char] + collapse_from(b@, i + 1, false)) =~= before.push(c as char) + collapse_from(b@, i + 1, false));
            }
            i = i + 1;
        }
    }
    proof {
        assert(out@ + Seq::<char>::empty() =~= out@);
    }
    out
}

/// `char::is_whitespace`: the Unicode `White_Space` property.
pub open spec fn is_unicode_ws(c: char) -> bool {
    let v = c as u32;
    (0x09 <= v <= 0x0D) || v == 0x20 || v == 0x85 || v == 0xA0 || v == 0x1680 || (0x2000 <= v
        <= 0x200A) || v == 0x2028 || v == 0x2029 || v == 0x202F || v == 0x205F || v == 0x3000
}

pub fn is_unicode_whitespace(c: char) -> (r: bool)
    ensures
        r == is_unicode_ws(c),
{
    let v = c as u32;
    (0x09 <= v && v <= 0x0D) || v == 0x20 || v == 0x85 || v == 0xA0 || v == 0x1680 || (0x2000 <= v
        && v <= 0x200A) || v == 0x2028 || v == 0x2029 || v == 0x202F || v == 0x205F || v == 0x3000
}

/// `str::trim_end`: drops trailing Unicode whitespace.
pub open spec fn trim_end_chars(l: Seq<char>) -> Seq<char>
    decreases l.len(),
{
    if l.len() > 0 && is_unicode_ws(l.last()) {
        trim_end_chars(l.drop_last())
    } else {
        l
    }
}

/// The lines of `s` split at every `\n` (the last one possibly empty).
pub open spec fn split_nl(s: Seq<char>, start: int, i: int) -> Seq<Seq<char>>
    decreases s.len() - i,
{
    if i < start || i >= s.len() {
        seq![s.subrange(start, s.len() as int)]
    } else if s[i] == '\n' {
        seq![s.subrange(start, i)] + split_nl(s, i + 1, i + 1)
    } else {
        split_nl(s, start, i + 1)
    }
}

/// Number of leading empty lines.
pub open spec fn lead_blank(ls: Seq<Seq<char>>) -> nat
    decreases ls.len(),
{
    if ls.len() > 0 && ls[0].len() == 0 {
        1 + lead_blank(ls.drop_first())
    } else {
        0
    }
}

/// Number of trailing empty lines.
pub open spec fn trail_blank(ls: Seq<Seq<char>>) -> nat
    decreases ls.len(),
{
    if ls.len() > 0 && ls.last().len() == 0 {
        1 + trail_blank(ls.drop_last())
    } else {
        0
    }
}

/// Lines joined with `\n`.
pub open spec fn join_nl(ls: Seq<Seq<char>>) -> Seq<char>
    decreases ls.len(),
{
    if ls.len() == 0 {
        Seq::empty()
    } else if ls.len() == 1 {
        ls[0]
    } else {
        join_nl(ls.drop_last()) + seq!['\n'] + ls.last()
    }
}

/// Display body layout: every line loses its trailing whitespace,
/// leading and trailing blank lines go, the rest is kept.
pub open spec fn display_body(s: Seq<char>) -> Seq<char> {
    let ls = split_nl(s, 0, 0).map_values(|l: Seq<char>| trim_end_chars(l));
    let lo = lead_blank(ls);
    if lo == ls.len() {
        Seq::empty()
    } else {
        join_nl(ls.subrange(lo as int, ls.len() - trail_blank(ls)))
    }
}

/// `&` at `i` is a column separator: not preceded by a backslash.
pub open spec fn cell_sep(b: Seq<u8>, i: int) -> bool {
    0 <= i < b.len() && b[i] == 0x26 && !(i > 0 && b[i - 1] == 0x5C)
}

/// The cells of `s` from the cell starting at `last`, scanning from `i`.
pub open spec fn cells_from(s: Seq<char>, last: int, i: int) -> Seq<Seq<u8>>
    decreases utf8_of(s).len() - i,
{
    if i < last || i >= utf8_of(s).len() {
        seq![piece(s, last, utf8_of(s).len() as int)]
    } else if cell_sep(utf8_of(s), i) {
        seq![piece(s, last, i)] + cells_from(s, i + 1, i + 1)
    } else {
        cells_from(s, last, i + 1)
    }
}

/// Splits a row on unescaped `&` column separators.
pub fn split_cells(row: &str) -> (cells: Vec<&str>)
    ensures
        cells@.len() == cells_from(row@, 0, 0).len(),
        forall|k: int| 0 <= k < cells@.len() ==> utf8_of(#[trigger] cells@[k]@) == cells_from(row@, 0, 0)[k],
{
    let b = row.as_bytes();
    let mut cells: Vec<&str> = Vec::new();
    let mut last: usize = 0;
    let mut i: usize = 0;
    while i < b.len()
        invariant
            b@ == utf8_of(row@),
            last <= i <= b@.len(),
            cells@.len() + cells_from(row@, last as int, i as int).len() == cells_from(row@, 0, 0).len(),
            forall|k: int| 0 <= k < cells@.len() ==> utf8_of(#[trigger] cells@[k]@) == cells_from(row@, 0, 0)[k],
            forall|k: int| 0 <= k < cells_from(row@, last as int, i as int).len() ==>
                #[trigger] cells_from(row@, last as int, i as int)[k] == cells_from(row@, 0, 0)[cells@.len() + k],
        decreases b@.len() - i,
    {
        if b[i] == 0x26 && !(i > 0 && b[i - 1] == 0x5C) {
            let piece_str = str_slice_or_empty(row, last, i);
            proof {
                let rest = cells_from(row@, (i + 1) as int, (i + 1) as int);
                assert(cells_from(row@, last as int, i as int) == seq![piece(row@, last as int, i as int)] + rest);
                assert(cells_from(row@, last as int, i as int)[0] == piece(row@, last as int, i as int));
                assert forall|k: int| 0 <= k < rest.len() implies #[trigger] rest[k] == cells_from(row@, 0, 0)[cells@.len() + 1 + k] by {
                    assert(cells_from(row@, last as int, i as int)[k + 1] == rest[k]);
                }
            }
            cells.push(piece_str);
            last = i + 1;
        }
        i = i + 1;
    }
    let tail = str_slice_or_empty(row, last, b.len());
    proof {
        assert(cells_from(row@, last as int, i as int)[0] == piece(row@, last as int, b@.len() as int));
    }
    cells.push(tail);
    cells
}

/// `\\` at `i` is a row separator: not preceded by a backslash.
pub open spec fn row_sep(b: Seq<u8>, i: int) -> bool {
    0 <= i && i + 1 < b.len() && b[i] == 0x5C && b[i + 1] == 0x5C && !(i > 0 && b[i - 1] == 0x5C)
}

/// Leading `\n` bytes of `b`.
pub open spec fn lead_nl(b: Seq<u8>) -> nat
    decreases b.len(),
{
    if b.len() > 0 && b[0] == 0x0A {
        1 + lead_nl(b.drop_first())
    } else {
        0
    }
}

/// Trailing `\n` bytes of `b`.
pub open spec fn trail_nl(b: Seq<u8>) -> nat
    decreases b.len(),
{
    if b.len() > 0 && b.last() == 0x0A {
        1 + trail_nl(b.drop_last())
    } else {
        0
    }
}

/// `trim_matches('\n')` on bytes.
pub open spec fn trim_nl(b: Seq<u8>) -> Seq<u8> {
    let rest = b.subrange(lead_nl(b) as int, b.len() as int);
    rest.subrange(0, rest.len() - trail_nl(rest))
}

/// The rows of `s` from the row starting at `last`, scanning from `i`;
/// a final empty row is dropped.
pub open spec fn rows_from(s: Seq<char>, last: int, i: int) -> Seq<Seq<u8>>
    decreases utf8_of(s).len() - i,
{
    if i < last || i >= utf8_of(s).len() {
        let tail = trim_nl(piece(s, last, utf8_of(s).len() as int));
        if tail.len() == 0 {
            Seq::empty()
        } else {
            seq![tail]
        }
    } else if row_sep(utf8_of(s), i) {
        seq![trim_nl(piece(s, last, i))] + rows_from(s, i + 2, i + 2)
    } else {
        rows_from(s, last, i + 1)
    }
}

/// `s.trim_matches('\n')`.
pub fn trim_newlines(s: &str) -> (r: &str)
    ensures
        utf8_of(r@) == trim_nl(utf8_of(s@)),
{
    let b = s.as_bytes();
    let n = b.len();
    let mut a: usize = 0;
    proof {
        assert(b@.subrange(0, n as int) =~= b@);
    }
    while a < n && b[a] == 0x0A
        invariant
            n == b@.len(),
            a <= n,
            lead_nl(b@) == a + lead_nl(b@.subrange(a as int, n as int)),
            forall|k: int| 0 <= k < a ==> b@[k] == 0x0A,
        decreases n - a,
    {
        proof {
            assert(b@.subrange(a as int, n as int).drop_first() =~= b@.subrange(a + 1, n as int));
        }
        a = a + 1;
    }
    assert(lead_nl(b@.subrange(a as int, n as int)) == 0);
    let mut e: usize = n;
    proof {
        assert(b@.subrange(a as int, n as int).subrange(0, (n - a) as int) =~= b@.subrange(a as int, n as int));
    }
    while e > a && b[e - 1] == 0x0A
        invariant
            n == b@.len(),
            a <= e <= n,
            trail_nl(b@.subrange(a as int, n as int)) == (n - e) + trail_nl(b@.subrange(a as int, e as int)),
            forall|k: int| e <= k < n ==> b@[k] == 0x0A,
        decreases e - a,
    {
        proof {
            assert(b@.subrange(a as int, e as int).drop_last() =~= b@.subrange(a as int, e - 1));
        }
        e = e - 1;
    }
    proof {
        assert(trail_nl(b@.subrange(a as int, e as int)) == 0);
        encode_utf8_valid_utf8(s@);
        if a > 0 {
            lemma_ascii_boundaries(b@, a - 1);
        } else {
            is_char_boundary_start_end_of_seq(b@);
        }
        if e < n {
            lemma_ascii_boundaries(b@, e as int);
        } else {
            is_char_boundary_start_end_of_seq(b@);
        }
        let rest = b@.subrange(a as int, n as int);
        assert(rest.subrange(0, rest.len() - trail_nl(rest)) =~= b@.subrange(a as int, e as int));
    }
    str_slice_or_empty(s, a, e)
}

/// Splits an environment body on unescaped `\\` row separators; each
/// row loses its surrounding newlines and an empty last row is dropped.
pub fn split_rows(body: &str) -> (rows: Vec<&str>)
    ensures
        rows@.len() == rows_from(body@, 0, 0).len(),
        forall|k: int| 0 <= k < rows@.len() ==> utf8_of(#[trigger] rows@[k]@) == rows_from(body@, 0, 0)[k],
{
    let b = body.as_bytes();
    let mut rows: Vec<&str> = Vec::new();
    let mut last: usize = 0;
    let mut i: usize = 0;
    while i < b.len()
        invariant
            b@ == utf8_of(body@),
            last <= i <= b@.len(),
            rows@.len() + rows_from(body@, last as int, i as int).len() == rows_from(body@, 0, 0).len(),
            forall|k: int| 0 <= k < rows@.len() ==> utf8_of(#[trigger] rows@[k]@) == rows_from(body@, 0, 0)[k],
            forall|k: int| 0 <= k < rows_from(body@, last as int, i as int).len() ==>
                #[trigger] rows_from(body@, last as int, i as int)[k] == rows_from(body@, 0, 0)[rows@.len() + k],
        decreases b@.len() - i,
    {
        if b[i] == 0x5C && i + 1 < b.len() && b[i + 1] == 0x5C && !(i > 0 && b[i - 1] == 0x5C) {
            let seg = trim_newlines(str_slice_or_empty(body, last, i));
            proof {
                let rest = rows_from(body@, (i + 2) as int, (i + 2) as int);
                assert(rows_from(body@, last as int, i as int) == seq![trim_nl(piece(body@, last as int, i as int))] + rest);
                assert(rows_from(body@, last as int, i as int)[0] == trim_nl(piece(body@, last as int, i as int)));
                assert forall|k: int| 0 <= k < rest.len() implies #[trigger] rest[k] == rows_from(body@, 0, 0)[rows@.len() + 1 + k] by {
                    assert(rows_from(body@, last as int, i as int)[k + 1] == rest[k]);
                }
            }
            rows.push(seg);
            last = i + 2;
            i = i + 2;
        } else {
            i = i + 1;
        }
    }
    let tail = trim_newlines(str_slice_or_empty(body, last, b.len()));
    if tail.as_bytes().len() > 0 {
        proof {
            assert(rows_from(body@, last as int, i as int)[0] == trim_nl(piece(body@, last as int, b@.len() as int)));
        }
        rows.push(tail);
    } else {
        proof {
            assert(utf8_of(tail@).len() == 0);
        }
    }
    rows
}

/// `str::trim_start` on characters.
pub open spec fn trim_start_chars(l: Seq<char>) -> Seq<char>
    decreases l.len(),
{
    if l.len() > 0 && is_unicode_ws(l[0]) {
        trim_start_chars(l.drop_first())
    } else {
        l
    }
}

/// `str::trim` on characters.
pub open spec fn trim_chars(l: Seq<char>) -> Seq<char> {
    trim_end_chars(trim_start_chars(l))
}

/// Appends `s.trim()` to `out`.
pub fn push_trimmed(out: &mut String, s: &str)
    ensures
        final(out)@ == old(out)@ + trim_chars(s@),
{
    let cs = chars_of(s);
    let n = cs.len();
    let mut lo: usize = 0;
    proof {
        assert(cs@.subrange(0, n as int) =~= cs@);
    }
    while lo < n && is_unicode_whitespace(cs[lo])
        invariant
            n == cs@.len(),
            lo <= n,
            trim_start_chars(cs@) == trim_start_chars(cs@.subrange(lo as int, n as int)),
        decreases n - lo,
    {
        proof {
            assert(cs@.subrange(lo as int, n as int).drop_first() =~= cs@.subrange(lo + 1, n as int));
        }
        lo = lo + 1;
    }
    let mut hi: usize = n;
    proof {
        assert(trim_start_chars(cs@.subrange(lo as int, n as int)) == cs@.subrange(lo as int, n as int));
    }
    while hi > lo && is_unicode_whitespace(cs[hi - 1])
        invariant
            n == cs@.len(),
            lo <= hi <= n,
            trim_end_chars(cs@.subrange(lo as int, n as int)) == trim_end_chars(cs@.subrange(lo as int, hi as int)),
        decreases hi - lo,
    {
        proof {
            assert(cs@.subrange(lo as int, hi as int).drop_last() =~= cs@.subrange(lo as int, hi - 1));
        }
        hi = hi - 1;
    }
    proof {
        assert(trim_end_chars(cs@.subrange(lo as int, hi as int)) == cs@.subrange(lo as int, hi as int));
        assert(trim_chars(s@) == cs@.subrange(lo as int, hi as int));
    }
    let ghost start = out@;
    let mut k = lo;
    while k < hi
        invariant
            n == cs@.len(),
            lo <= k <= hi <= n,
            out@ == start + cs@.subrange(lo as int, k as int),
        decreases hi - k,
    {
        out.push(cs[k]);
        proof {
            assert(start + cs@.subrange(lo as int, k + 1) =~= (start + cs@.subrange(lo as int, k as int)).push(cs@[k as int]));
        }
        k = k + 1;
    }
}

/// The cells of every row of an aligning-environment body, each
/// trimmed of surrounding whitespace.
pub open spec fn body_cells(body: Seq<char>) -> Seq<Seq<Seq<char>>> {
    rows_from(body, 0, 0).map_values(
        |r: Seq<u8>| cells_from(decode_utf8(r), 0, 0).map_values(|c: Seq<u8>| trim_chars(decode_utf8(c))),
    )
}

/// The display width of the widest cell in column `j`.
pub open spec fn column_width(rows: Seq<Seq<Seq<char>>>, j: int) -> nat
    decreases rows.len(),
{
    if rows.len() == 0 {
        0
    } else {
        let w: nat = if 0 <= j < rows.last().len() {
            display_width(rows.last()[j]) as nat
        } else {
            0
        };
        let rest = column_width(rows.drop_last(), j);
        if w > rest {
            w
        } else {
            rest
        }
    }
}

/// `n` spaces.
pub open spec fn spaces(n: nat) -> Seq<char> {
    Seq::new(n, |_i: int| ' ')
}

/// Cell `j` of `row` as laid out: padded with spaces to its column's
/// width, unless it is the row's last cell.
pub open spec fn laid_cell(rows: Seq<Seq<Seq<char>>>, row: Seq<Seq<char>>, j: int) -> Seq<char> {
    if j + 1 < row.len() {
        let w = display_width(row[j]) as int;
        let c = column_width(rows, j) as int;
        row[j] + spaces(if c > w { (c - w) as nat } else { 0 })
    } else {
        row[j]
    }
}

/// The first `n` cells of `row`, laid out and joined with ` & `.
pub open spec fn laid_row(rows: Seq<Seq<Seq<char>>>, row: Seq<Seq<char>>, n: int) -> Seq<char>
    decreases n,
{
    if n <= 0 {
        Seq::empty()
    } else if n == 1 {
        laid_cell(rows, row, 0)
    } else {
        laid_row(rows, row, n - 1) + seq![' ', '&', ' '] + laid_cell(rows, row, n - 1)
    }
}

/// The first `n` rows laid out and joined with ` \\` and a newline.
pub open spec fn laid_rows(rows: Seq<Seq<Seq<char>>>, n: int) -> Seq<char>
    decreases n,
{
    if n <= 0 {
        Seq::empty()
    } else if n == 1 {
        laid_row(rows, rows[0], rows[0].len() as int)
    } else {
        laid_rows(rows, n - 1) + seq![' ', '\\', '\\', '\n'] + laid_row(rows, rows[n - 1], rows[n - 1].len() as int)
    }
}

/// An aligning body laid out: rows split on `\\`, cells on `&`, every
/// cell trimmed and padded to its column's display width.
pub open spec fn aligned_body(body: Seq<char>) -> Seq<char> {
    let rows = body_cells(body);
    laid_rows(rows, rows.len() as int)
}

/// Lays out an aligning-environment body: cells padded so that the `&`
/// separators line up, ` & ` between cells, ` \\` and a newline
/// between rows.
pub fn align_env_body(body: &str) -> (r: String)
    ensures
        r@ == aligned_body(body@),
{
    let ghost bc = body_cells(body@);
    let raw_rows = split_rows(body);
    let mut rows: Vec<Vec<String>> = Vec::new();
    let mut i: usize = 0;
    while i < raw_rows.len()
        invariant
            bc == body_cells(body@),
            raw_rows@.len() == rows_from(body@, 0, 0).len(),
            forall|k: int| 0 <= k < raw_rows@.len() ==> utf8_of(#[trigger] raw_rows@[k]@) == rows_from(body@, 0, 0)[k],
            i <= raw_rows@.len(),
            rows@.len() == i,
            forall|a: int| 0 <= a < i ==> (#[trigger] rows@[a])@.len() == bc[a].len(),
            forall|a: int, c: int| 0 <= a < i && 0 <= c < bc[a].len() ==> (#[trigger] rows@[a]@[c])@ == bc[a][c],
        decreases raw_rows@.len() - i,
    {
        let row = raw_rows[i];
        proof {
            encode_utf8_decode_utf8(row@);
        }
        let cells = split_cells(row);
        let ghost rc = cells_from(row@, 0, 0);
        assert(bc[i as int] =~= rc.map_values(|c: Seq<u8>| trim_chars(decode_utf8(c))));
        let mut trimmed: Vec<String> = Vec::new();
        let mut j: usize = 0;
        while j < cells.len()
            invariant
                cells@.len() == rc.len(),
                forall|k: int| 0 <= k < cells@.len() ==> utf8_of(#[trigger] cells@[k]@) == rc[k],
                j <= cells@.len(),
                trimmed@.len() == j,
                forall|c: int| 0 <= c < j ==> (#[trigger] trimmed@[c])@ == trim_chars(decode_utf8(rc[c])),
            decreases cells@.len() - j,
        {
            let mut t = String::new();
            push_trimmed(&mut t, cells[j]);
            proof {
                encode_utf8_decode_utf8(cells@[j as int]@);
                assert(t@ =~= trim_chars(cells@[j as int]@));
            }
            trimmed.push(t);
            j = j + 1;
        }
        rows.push(trimmed);
        i = i + 1;
    }
    if rows.len() == 0 {
        return String::new();
    }
    // The number of columns: the longest row.
    let mut n_cols: usize = 0;
    let mut i: usize = 0;
    while i < rows.len()
        invariant
            i <= rows@.len(),
            forall|a: int| 0 <= a < i ==> (#[trigger] rows@[a])@.len() <= n_cols,
        decreases rows@.len() - i,
    {
        if rows[i].len() > n_cols {
            n_cols = rows[i].len();
        }
        i = i + 1;
    }
    let mut widths: Vec<usize> = Vec::new();
    while widths.len() < n_cols
        invariant
            widths@.len() <= n_cols,
            forall|k: int| 0 <= k < widths@.len() ==> widths@[k] == 0,
        decreases n_cols - widths@.len(),
    {
        widths.push(0);
    }
    let mut i: usize = 0;
    while i < rows.len()
        invariant
            rows@.len() == bc.len(),
            forall|a: int| 0 <= a < rows@.len() ==> (#[trigger] rows@[a])@.len() == bc[a].len(),
            forall|a: int, c: int| 0 <= a < rows@.len() && 0 <= c < bc[a].len() ==> (#[trigger] rows@[a]@[c])@ == bc[a][c],
            forall|a: int| 0 <= a < rows@.len() ==> (#[trigger] rows@[a])@.len() <= n_cols,
            widths@.len() == n_cols,
            i <= rows@.len(),
            forall|k: int| 0 <= k < n_cols ==> #[trigger] widths@[k] == column_width(bc.take(i as int), k),
        decreases rows@.len() - i,
    {
        let row = &rows[i];
        let ghost before = widths@;
        let mut j: usize = 0;
        while j < row.len()
            invariant
                rows@.len() == bc.len(),
                i < rows@.len(),
                *row == rows@[i as int],
                row@.len() == bc[i as int].len(),
                forall|c: int| 0 <= c < bc[i as int].len() ==> (#[trigger] row@[c])@ == bc[i as int][c],
                row@.len() <= n_cols,
                widths@.len() == n_cols,
                j <= row@.len(),
                forall|k: int| 0 <= k < n_cols ==> #[trigger] before[k] == column_width(bc.take(i as int), k),
                forall|k: int| 0 <= k < j ==> #[trigger] widths@[k] == (if display_width(bc[i as int][k]) > before[k] {
                    display_width(bc[i as int][k]) as int
                } else {
                    before[k] as int
                }),
                forall|k: int| j <= k < n_cols ==> #[trigger] widths@[k] == before[k],
            decreases row@.len() - j,
        {
            let w = str_width(row[j].as_str());
            if w > widths[j] {
                widths.set(j, w);
            }
            j = j + 1;
        }
        proof {
            assert(bc.take(i + 1).drop_last() =~= bc.take(i as int));
            assert forall|k: int| 0 <= k < n_cols implies #[trigger] widths@[k] == column_width(bc.take(i + 1), k) by {
                assert(bc.take(i + 1).last() == bc[i as int]);
            }
        }
        i = i + 1;
    }
    assert(bc.take(bc.len() as int) =~= bc);
    let mut out = String::new();
    let mut i: usize = 0;
    while i < rows.len()
        invariant
            rows@.len() == bc.len(),
            bc.len() > 0,
            forall|a: int| 0 <= a < rows@.len() ==> (#[trigger] rows@[a])@.len() == bc[a].len(),
            forall|a: int, c: int| 0 <= a < rows@.len() && 0 <= c < bc[a].len() ==> (#[trigger] rows@[a]@[c])@ == bc[a][c],
            forall|a: int| 0 <= a < rows@.len() ==> (#[trigger] rows@[a])@.len() <= n_cols,
            widths@.len() == n_cols,
            forall|k: int| 0 <= k < n_cols ==> #[trigger] widths@[k] == column_width(bc, k),
            i <= rows@.len(),
            out@ == laid_rows(bc, i as int),
        decreases rows@.len() - i,
    {
        let row = &rows[i];
        let ghost r = bc[i as int];
        let ghost head = if i == 0 { Seq::<char>::empty() } else { laid_rows(bc, i as int) + seq![' ', '\\', '\\', '\n'] };
        if i > 0 {
            out.push_str(" \\\\\n");
            proof {
                reveal_strlit(" \\\\\n");
            }
        }
        assert(out@ == head);
        let n = row.len();
        let mut j: usize = 0;
        while j < n
            invariant
                *row == rows@[i as int],
                r == bc[i as int],
                n == row@.len(),
                n == r.len(),
                n <= n_cols,
                forall|c: int| 0 <= c < r.len() ==> (#[trigger] row@[c])@ == r[c],
                widths@.len() == n_cols,
                forall|k: int| 0 <= k < n_cols ==> #[trigger] widths@[k] == column_width(bc, k),
                j <= n,
                out@ == head + laid_row(bc, r, j as int),
            decreases n - j,
        {
            let ghost before = out@;
            if j > 0 {
                out.push_str(" & ");
                proof {
                    reveal_strlit(" & ");
                }
            }
            let ghost mid = out@;
            out.push_str(row[j].as_str());
            if j + 1 < n {
                let w = str_width(row[j].as_str());
                let pad = widths[j].saturating_sub(w);
                let ghost cell_start = out@;
                let mut p: usize = 0;
                while p < pad
                    invariant
                        p <= pad,
                        out@ == cell_start + spaces(p as nat),
                    decreases pad - p,
                {
                    out.push(' ');
                    proof {
                        assert(cell_start + spaces((p + 1) as nat) =~= (cell_start + spaces(p as nat)).push(' '));
                    }
                    p = p + 1;
                }
                assert(out@ =~= mid + laid_cell(bc, r, j as int));
            } else {
                assert(out@ =~= mid + laid_cell(bc, r, j as int));
            }
            proof {
                if j == 0 {
                    assert(laid_row(bc, r, 1) == laid_cell(bc, r, 0));
                    assert(out@ =~= head + laid_row(bc, r, 1));
                } else {
                    assert(out@ =~= head + laid_row(bc, r, j + 1));
                }
            }
            j = j + 1;
        }
        proof {
            if i == 0 {
                assert(out@ =~= laid_rows(bc, 1));
            } else {
                assert(out@ =~= laid_rows(bc, i + 1));
            }
        }
        i = i + 1;
    }
    out
}

/// The position where `cs[a..e]` ends once trailing whitespace is cut.
fn trim_end_index(cs: &Vec<char>, a: usize, e: usize) -> (r: usize)
    requires
        a <= e <= cs@.len(),
    ensures
        a <= r <= e,
        cs@.subrange(a as int, r as int) == trim_end_chars(cs@.subrange(a as int, e as int)),
{
    let mut hi = e;
    while hi > a && is_unicode_whitespace(cs[hi - 1])
        invariant
            a <= hi <= e <= cs@.len(),
            trim_end_chars(cs@.subrange(a as int, e as int)) == trim_end_chars(cs@.subrange(a as int, hi as int)),
        decreases hi - a,
    {
        proof {
            assert(cs@.subrange(a as int, hi as int).drop_last() =~= cs@.subrange(a as int, hi - 1));
        }
        hi = hi - 1;
    }
    hi
}

/// A count of leading empty lines, read off the lines themselves.
proof fn lemma_lead_blank(ls: Seq<Seq<char>>, k: int)
    requires
        0 <= k <= ls.len(),
        forall|m: int| 0 <= m < k ==> (#[trigger] ls[m]).len() == 0,
        k == ls.len() || ls[k].len() > 0,
    ensures
        lead_blank(ls) == k,
    decreases k,
{
    if k > 0 {
        lemma_lead_blank(ls.drop_first(), k - 1);
    }
}

/// A count of trailing empty lines, read off the lines themselves.
proof fn lemma_trail_blank(ls: Seq<Seq<char>>, k: int)
    requires
        0 <= k <= ls.len(),
        forall|m: int| ls.len() - k <= m < ls.len() ==> (#[trigger] ls[m]).len() == 0,
        k == ls.len() || ls[ls.len() - k - 1].len() > 0,
    ensures
        trail_blank(ls) == k,
    decreases k,
{
    if k > 0 {
        assert forall|m: int| ls.drop_last().len() - (k - 1) <= m < ls.drop_last().len() implies (#[trigger] ls.drop_last()[m]).len() == 0 by {
            assert(ls.drop_last()[m] == ls[m]);
        }
        lemma_trail_blank(ls.drop_last(), k - 1);
    }
}

/// Lays out a display-math body: every line loses its trailing
/// whitespace, leading and trailing blank lines are dropped, and the
/// remaining lines are joined with `\n`.
pub fn trim_display_body(body: &str) -> (r: String)
    ensures
        r@ == display_body(body@),
{
    let cs = chars_of(body);
    let ghost s = body@;
    let ghost total = split_nl(s, 0, 0);
    let ghost tl = total.map_values(|l: Seq<char>| trim_end_chars(l));
    let n = cs.len();
    let mut lines: Vec<(usize, usize)> = Vec::new();
    let mut start: usize = 0;
    let mut i: usize = 0;
    proof {
        lemma_split_nl_nonempty(s, 0, 0);
    }
    while i < n
        invariant
            cs@ == s,
            n == s.len(),
            total == split_nl(s, 0, 0),
            start <= i <= n,
            lines@.len() + split_nl(s, start as int, i as int).len() == total.len(),
            forall|k: int| 0 <= k < lines@.len() ==> (#[trigger] lines@[k]).0 <= lines@[k].1 <= n,
            forall|k: int| 0 <= k < lines@.len() ==> s.subrange((#[trigger] lines@[k]).0 as int, lines@[k].1 as int) == trim_end_chars(total[k]),
            forall|k: int| 0 <= k < split_nl(s, start as int, i as int).len() ==>
                #[trigger] split_nl(s, start as int, i as int)[k] == total[lines@.len() + k],
        decreases n - i,
    {
        if cs[i] == '\n' {
            let e = trim_end_index(&cs, start, i);
            proof {
                let rest = split_nl(s, i + 1, i + 1);
                assert(split_nl(s, start as int, i as int) == seq![s.subrange(start as int, i as int)] + rest);
                assert(split_nl(s, start as int, i as int)[0] == s.subrange(start as int, i as int));
                assert forall|k: int| 0 <= k < rest.len() implies #[trigger] rest[k] == total[lines@.len() + 1 + k] by {
                    assert(split_nl(s, start as int, i as int)[k + 1] == rest[k]);
                }
            }
            lines.push((start, e));
            start = i + 1;
        }
        i = i + 1;
    }
    let e = trim_end_index(&cs, start, n);
    proof {
        assert(split_nl(s, start as int, n as int) == seq![s.subrange(start as int, n as int)]);
        assert(split_nl(s, start as int, n as int)[0] == total[lines@.len() as int]);
    }
    lines.push((start, e));
    assert(lines@.len() == tl.len());
    // Leading blank lines.
    let m = lines.len();
    let mut lo: usize = 0;
    while lo < m && lines[lo].0 == lines[lo].1
        invariant
            cs@ == s,
            n == s.len(),
            m == lines@.len(),
            m == tl.len(),
            lo <= m,
            forall|k: int| 0 <= k < m ==> (#[trigger] lines@[k]).0 <= lines@[k].1 <= n,
            forall|k: int| 0 <= k < m ==> s.subrange((#[trigger] lines@[k]).0 as int, lines@[k].1 as int) == tl[k],
            forall|k: int| 0 <= k < lo ==> (#[trigger] tl[k]).len() == 0,
        decreases m - lo,
    {
        assert(tl[lo as int].len() == 0);
        lo = lo + 1;
    }
    proof {
        if lo < m {
            assert(tl[lo as int].len() > 0);
        }
        lemma_lead_blank(tl, lo as int);
    }
    if lo == m {
        return String::new();
    }
    // Trailing blank lines.
    let mut hi: usize = m;
    while hi > lo && lines[hi - 1].0 == lines[hi - 1].1
        invariant
            cs@ == s,
            n == s.len(),
            m == lines@.len(),
            m == tl.len(),
            lo < m,
            lo <= hi <= m,
            tl[lo as int].len() > 0,
            forall|k: int| 0 <= k < m ==> (#[trigger] lines@[k]).0 <= lines@[k].1 <= n,
            forall|k: int| 0 <= k < m ==> s.subrange((#[trigger] lines@[k]).0 as int, lines@[k].1 as int) == tl[k],
            forall|k: int| hi <= k < m ==> (#[trigger] tl[k]).len() == 0,
        decreases hi - lo,
    {
        assert(tl[hi - 1].len() == 0);
        hi = hi - 1;
    }
    proof {
        assert(hi > lo);
        assert(tl[hi - 1].len() > 0);
        lemma_trail_blank(tl, (m - hi) as int);
    }
    let mut out = String::new();
    let mut k = lo;
    while k < hi
        invariant
            cs@ == s,
            n == s.len(),
            m == lines@.len(),
            m == tl.len(),
            lo < hi <= m,
            lo <= k <= hi,
            forall|q: int| 0 <= q < m ==> (#[trigger] lines@[q]).0 <= lines@[q].1 <= n,
            forall|q: int| 0 <= q < m ==> s.subrange((#[trigger] lines@[q]).0 as int, lines@[q].1 as int) == tl[q],
            out@ == join_nl(tl.subrange(lo as int, k as int)),
        decreases hi - k,
    {
        let ghost before = out@;
        if k > lo {
            out.push('\n');
        }
        let (a, b) = lines[k];
        assert(a <= b <= n);
        let mut p = a;
        let ghost mid = out@;
        while p < b
            invariant
                cs@ == s,
                n == s.len(),
                a <= p <= b <= n,
                out@ == mid + s.subrange(a as int, p as int),
            decreases b - p,
        {
            out.push(cs[p]);
            proof {
                assert(mid + s.subrange(a as int, p + 1) =~= (mid + s.subrange(a as int, p as int)).push(s[p as int]));
            }
            p = p + 1;
        }
        proof {
            let ls = tl.subrange(lo as int, k + 1);
            assert(ls.drop_last() =~= tl.subrange(lo as int, k as int));
            assert(ls.last() == tl[k as int]);
            if k == lo {
                assert(out@ =~= join_nl(ls));
            } else {
                assert(out@ =~= join_nl(ls));
            }
        }
        k = k + 1;
    }
    out
}

/// The characters of a text leaf.
pub open spec fn leaf_text<'a>(d: Doc<'a>) -> Option<Seq<char>> {
    match d {
        Doc::Text(c) => Some(c@),
        _ => None,
    }
}

/// `d` is `Concat` of text leaves holding `parts`, line endings made LF.
pub open spec fn texts_are<'a>(d: Doc<'a>, parts: Seq<Seq<char>>) -> bool {
    d matches Doc::Concat(v) && v@.len() == parts.len() && forall|k: int|
        0 <= k < parts.len() ==> leaf_text(#[trigger] v@[k]) == Some(lf_from(parts[k], 0))
}

/// `d` is an unbreakable `Concat` of `head`, a hard line, `body`, a
/// hard line and `tail`, each text with line endings made LF.
pub open spec fn block_doc<'a>(d: Doc<'a>, head: Seq<char>, body: Seq<char>, tail: Seq<char>) -> bool {
    d matches Doc::Atomic(inner) && *inner matches Doc::Concat(v) && v@.len() == 5
        && leaf_text(v@[0]) == Some(lf_from(head, 0)) && v@[1] is HardLine
        && leaf_text(v@[2]) == Some(lf_from(body, 0)) && v@[3] is HardLine
        && leaf_text(v@[4]) == Some(lf_from(tail, 0))
}

/// Renders inline math: the opener, the body with its whitespace
/// collapsed and trimmed, and the closer, with no padding.
pub fn pretty_inline<'a>(delim: InlineDelim, body: &str) -> (d: Doc<'a>)
    ensures
        texts_are(
            d,
            seq![
                decode_utf8(open_bytes(inline_family(delim))),
                trim_chars(collapse_from(utf8_of(body@), 0, false)),
                decode_utf8(close_bytes(inline_family(delim))),
            ],
        ),
{
    let normalised = collapse_inline_ws(body);
    let mut trimmed = String::new();
    push_trimmed(&mut trimmed, normalised.as_str());
    let open = delim.open();
    let close = delim.close();
    proof {
        encode_utf8_decode_utf8(open@);
        encode_utf8_decode_utf8(close@);
        assert(trimmed@ =~= trim_chars(normalised@));
    }
    let t0 = text(open);
    let t1 = text(trimmed);
    let t2 = text(close);
    let d = concat_docs([t0, t1, t2]);
    proof {
        let parts = seq![
            decode_utf8(open_bytes(inline_family(delim))),
            trim_chars(collapse_from(utf8_of(body@), 0, false)),
            decode_utf8(close_bytes(inline_family(delim))),
        ];
        let v = seq![t0, t1, t2];
        assert(leaf_text(v[0]) == Some(lf_from(parts[0], 0)));
        assert(leaf_text(v[1]) == Some(lf_from(parts[1], 0)));
        assert(leaf_text(v[2]) == Some(lf_from(parts[2], 0)));
    }
    d
}

/// Renders display math: opener and closer on their own lines around
/// the body, laid out by [`display_body`].
pub fn pretty_display<'a>(delim: DisplayDelim, body: &str) -> (d: Doc<'a>)
    ensures
        block_doc(
            d,
            decode_utf8(open_bytes(display_family(delim))),
            display_body(body@),
            decode_utf8(close_bytes(display_family(delim))),
        ),
{
    let trimmed_body = trim_display_body(body);
    let open = delim.open();
    let close = delim.close();
    proof {
        encode_utf8_decode_utf8(open@);
        encode_utf8_decode_utf8(close@);
    }
    unbreakable(concat_docs([text(open), hard_line(), text(trimmed_body), hard_line(), text(close)]))
}

/// `\begin{name}` and `\end{name}` for a name.
pub open spec fn begin_line(name: Seq<char>) -> Seq<char> {
    "\\begin{"@ + name + "}"@
}

pub open spec fn end_line(name: Seq<char>) -> Seq<char> {
    "\\end{"@ + name + "}"@
}

/// Renders an environment: `\begin{name}` and `\end{name}` on their own
/// lines around the body, which is column-aligned for an aligning
/// environment and laid out as display math otherwise.
pub fn pretty_env<'a>(env: &EnvKind, body: &str, source: &str) -> (d: Doc<'a>)
    ensures
        block_doc(
            d,
            begin_line(crate::format::canonicalise::env_name_chars(*env, source@)),
            if (match *env {
                EnvKind::Known(k) => crate::math::span::env_aligning(k),
                EnvKind::Custom(_) => false,
            }) {
                aligned_body(body@)
            } else {
                display_body(body@)
            },
            end_line(crate::format::canonicalise::env_name_chars(*env, source@)),
        ),
{
    let name = env.name(source);
    proof {
        encode_utf8_decode_utf8(name@);
    }
    let body_rendered = if env.is_aligning() {
        align_env_body(body)
    } else {
        trim_display_body(body)
    };
    let mut begin = String::new();
    begin.push_str("\\begin{");
    begin.push_str(name);
    begin.push_str("}");
    let mut end = String::new();
    end.push_str("\\end{");
    end.push_str(name);
    end.push_str("}");
    unbreakable(concat_docs([text(begin), hard_line(), text(body_rendered), hard_line(), text(end)]))
}

/// Splitting always yields at least one segment.
pub proof fn lemma_split_nl_nonempty(s: Seq<char>, start: int, i: int)
    ensures
        split_nl(s, start, i).len() >= 1,
    decreases s.len() - i,
{
    if !(i < start || i >= s.len()) {
        if s[i] == '\n' {
            lemma_split_nl_nonempty(s, i + 1, i + 1);
        } else {
            lemma_split_nl_nonempty(s, start, i + 1);
        }
    }
}

} // verus!
