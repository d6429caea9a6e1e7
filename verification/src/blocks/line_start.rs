//! Line-start escapes that keep a paragraph's text from re-parsing as
//! another block.
//!
//! Each function looks at a text fragment that begins a line and
//! answers whether emitting it verbatim would start a different block;
//! if so it returns the fragment with one backslash inserted.
//!
//! - [`escape_for_block_start`]: the full block-start set (ATX heading,
//!   blockquote, list, fence, thematic break, indented code), at an
//!   absolute line start.
//! - [`escape_for_paragraph_interrupt`]: only what can interrupt a
//!   paragraph, after a soft break that follows a text line.
//! - [`escape_setext_underline`]: a pure `=` / `-` run that would turn
//!   the previous line into a setext heading.

use vstd::prelude::*;
use vstd::utf8::*;
use crate::text::{lemma_ascii_boundaries, lemma_ascii_byte_valid, string_of_valid, utf8_of};

verus! {

/// What follows the fragment on the same line.
#[derive(Copy, Clone, Debug, PartialEq, Eq, Structural)]
pub enum LineContext {
    MoreContent,
    EndOfLine,
}

/// `b` with a backslash inserted before position `pos`.
pub open spec fn with_backslash_at(b: Seq<u8>, pos: int) -> Seq<u8> {
    b.take(pos) + seq![0x5Cu8] + b.skip(pos)
}

pub open spec fn is_digit(c: u8) -> bool {
    0x30 <= c <= 0x39
}

pub open spec fn blank_byte(c: u8) -> bool {
    c == 0x20 || c == 0x09
}

/// The end of the run of bytes equal to `c` starting at `i`.
pub open spec fn run_end(b: Seq<u8>, i: int, c: u8) -> int
    decreases b.len() - i,
{
    if 0 <= i < b.len() && b[i] == c {
        run_end(b, i + 1, c)
    } else {
        i
    }
}

/// The end of the run of ASCII digits starting at `i`.
pub open spec fn digits_end(b: Seq<u8>, i: int) -> int
    decreases b.len() - i,
{
    if 0 <= i < b.len() && is_digit(b[i]) {
        digits_end(b, i + 1)
    } else {
        i
    }
}

pub open spec fn byte_at(b: Seq<u8>, i: int) -> Option<u8> {
    if 0 <= i < b.len() {
        Some(b[i])
    } else {
        None
    }
}

/// Some byte from `start` on is not blank, or more content follows on
/// the line.
pub open spec fn nonblank_after(b: Seq<u8>, start: int, next: LineContext) -> bool {
    (exists|k: int| start <= k < b.len() && !blank_byte(#[trigger] b[k])) || next == LineContext::MoreContent
}

/// Number of bytes equal to `c` in `b`.
pub open spec fn count_byte(b: Seq<u8>, c: u8) -> nat
    decreases b.len(),
{
    if b.len() == 0 {
        0
    } else {
        count_byte(b.drop_last(), c) + (if b.last() == c {
            1nat
        } else {
            0
        })
    }
}

/// A thematic-break line: at least three of one of `*`, `-`, `_`, with
/// only spaces or tabs besides.
pub open spec fn thematic_line(b: Seq<u8>) -> bool {
    b.len() > 0 && (b[0] == 0x2A || b[0] == 0x2D || b[0] == 0x5F) && (forall|k: int|
        0 <= k < b.len() ==> #[trigger] b[k] == b[0] || blank_byte(b[k])) && count_byte(b, b[0]) >= 3
}

fn blank(c: u8) -> (r: bool)
    ensures
        r == blank_byte(c),
{
    c == 0x20 || c == 0x09
}

fn run_end_exec(b: &[u8], i: usize, c: u8) -> (r: usize)
    requires
        i <= b@.len(),
    ensures
        r == run_end(b@, i as int, c),
        i <= r <= b@.len(),
{
    let mut j = i;
    while j < b.len() && b[j] == c
        invariant
            i <= j <= b@.len(),
            run_end(b@, j as int, c) == run_end(b@, i as int, c),
        decreases b@.len() - j,
    {
        j = j + 1;
    }
    j
}

fn digits_end_exec(b: &[u8], i: usize) -> (r: usize)
    requires
        i <= b@.len(),
    ensures
        r == digits_end(b@, i as int),
        i <= r <= b@.len(),
        forall|k: int| i <= k < r ==> is_digit(#[trigger] b@[k]),
{
    let mut j = i;
    while j < b.len() && 0x30 <= b[j] && b[j] <= 0x39
        invariant
            i <= j <= b@.len(),
            digits_end(b@, j as int) == digits_end(b@, i as int),
            forall|k: int| i <= k < j ==> is_digit(#[trigger] b@[k]),
        decreases b@.len() - j,
    {
        j = j + 1;
    }
    j
}

fn line_has_nonblank_after(b: &[u8], start: usize, next: LineContext) -> (r: bool)
    ensures
        r == nonblank_after(b@, start as int, next),
{
    let mut k = start;
    while k < b.len()
        invariant
            start <= k,
            forall|m: int| start <= m < k && m < b@.len() ==> blank_byte(#[trigger] b@[m]),
        decreases b@.len() - k,
    {
        if !blank(b[k]) {
            return true;
        }
        k = k + 1;
    }
    match next {
        LineContext::MoreContent => true,
        LineContext::EndOfLine => false,
    }
}

/// Whether `b` is a thematic-break line.
pub fn is_thematic_break_line(b: &[u8]) -> (r: bool)
    ensures
        r == thematic_line(b@),
{
    if b.len() == 0 {
        return false;
    }
    let first = b[0];
    if !(first == 0x2A || first == 0x2D || first == 0x5F) {
        return false;
    }
    let mut count: usize = 0;
    let mut k: usize = 0;
    while k < b.len()
        invariant
            k <= b@.len(),
            b@.len() > 0,
            first == b@[0],
            count == count_byte(b@.take(k as int), first),
            count <= k,
            forall|m: int| 0 <= m < k ==> #[trigger] b@[m] == first || blank_byte(b@[m]),
        decreases b@.len() - k,
    {
        proof {
            assert(b@.take(k + 1).drop_last() =~= b@.take(k as int));
        }
        if b[k] == first {
            count = count + 1;
        } else if !blank(b[k]) {
            return false;
        }
        k = k + 1;
    }
    proof {
        assert(b@.take(b@.len() as int) =~= b@);
    }
    count >= 3
}

/// Where a backslash must go for the block-start set, if anywhere.
pub open spec fn block_start_pos(b: Seq<u8>, next: LineContext) -> Option<int> {
    if b.len() == 0 {
        None
    } else {
        let first = b[0];
        let two = byte_at(b, 1);
        let cont = two is None && next == LineContext::MoreContent;
        if first == 0x23 || first == 0x3E {
            Some(0)
        } else if first == 0x2D || first == 0x2B || first == 0x2A {
            if !cont && (two is None || two == Some(0x20u8) || two == Some(0x09u8) || (two == Some(first)
                && byte_at(b, 2) == Some(first))) {
                Some(0)
            } else {
                None
            }
        } else if first == 0x3D {
            if two == Some(0x3Du8) {
                Some(0)
            } else {
                None
            }
        } else if first == 0x60 || first == 0x7E {
            if two == Some(first) && byte_at(b, 2) == Some(first) {
                Some(0)
            } else {
                None
            }
        } else if is_digit(first) {
            let i = digits_end(b, 1);
            let punct = byte_at(b, i);
            let after = byte_at(b, i + 1);
            if punct is None && next == LineContext::MoreContent {
                None
            } else if (punct == Some(0x2Eu8) || punct == Some(0x29u8)) && (after is None || after == Some(
                0x20u8,
            ) || after == Some(0x09u8)) {
                Some(i)
            } else {
                None
            }
        } else if first == 0x20 {
            if b.len() >= 4 && b[1] == 0x20 && b[2] == 0x20 && b[3] == 0x20 {
                Some(0)
            } else {
                None
            }
        } else {
            None
        }
    }
}

/// Where a backslash must go for the paragraph-interrupt set, if
/// anywhere (always at the start).
pub open spec fn interrupt_needed(b: Seq<u8>, next: LineContext) -> bool {
    b.len() > 0 && {
        let first = b[0];
        if first == 0x3E {
            true
        } else if first == 0x23 {
            let h = run_end(b, 0, 0x23);
            1 <= h <= 6 && if h == b.len() {
                next == LineContext::EndOfLine
            } else {
                blank_byte(b[h])
            }
        } else if (first == 0x2A || first == 0x2D || first == 0x5F) && thematic_line(b) {
            true
        } else if first == 0x2A || first == 0x2D || first == 0x2B {
            byte_at(b, 1) is Some && blank_byte(b[1]) && nonblank_after(b, 2, next)
        } else if first == 0x31 {
            (byte_at(b, 1) == Some(0x2Eu8) || byte_at(b, 1) == Some(0x29u8)) && byte_at(b, 2) is Some
                && blank_byte(b[2]) && nonblank_after(b, 3, next)
        } else if first == 0x60 || first == 0x7E {
            run_end(b, 0, first) >= 3
        } else {
            false
        }
    }
}

/// A setext underline: the fragment is a run of one `=` or `-` and
/// ends the line.
pub open spec fn setext_underline(b: Seq<u8>, next: LineContext) -> bool {
    b.len() > 0 && (b[0] == 0x3D || b[0] == 0x2D) && run_end(b, 0, b[0]) == b.len() && next
        == LineContext::EndOfLine
}

/// Inserting a backslash before an ASCII byte keeps UTF-8 well formed.
proof fn lemma_backslash_at_valid(b: Seq<u8>, pos: int)
    requires
        valid_utf8(b),
        0 <= pos < b.len(),
        b[pos] < 0x80,
    ensures
        valid_utf8(with_backslash_at(b, pos)),
{
    lemma_ascii_boundaries(b, pos);
    valid_utf8_split(b, pos);
    assert(b.take(pos) =~= b.subrange(0, pos));
    assert(b.skip(pos) =~= b.subrange(pos, b.len() as int));
    lemma_ascii_byte_valid(0x5C);
    valid_utf8_concat(b.take(pos), seq![0x5Cu8]);
    valid_utf8_concat(b.take(pos) + seq![0x5Cu8], b.skip(pos));
}

/// `s` with a backslash before byte `pos`.
fn insert_backslash(s: &str, pos: usize) -> (r: String)
    requires
        pos < utf8_of(s@).len(),
        utf8_of(s@)[pos as int] < 0x80,
    ensures
        utf8_of(r@) == with_backslash_at(utf8_of(s@), pos as int),
{
    let b = s.as_bytes();
    let mut out: Vec<u8> = Vec::new();
    let mut k: usize = 0;
    while k < b.len()
        invariant
            k <= b@.len(),
            pos < b@.len(),
            out@ == (if k <= pos {
                b@.take(k as int)
            } else {
                b@.take(pos as int) + seq![0x5Cu8] + b@.subrange(pos as int, k as int)
            }),
        decreases b@.len() - k,
    {
        if k == pos {
            out.push(0x5C);
        }
        out.push(b[k]);
        proof {
            if k < pos {
                assert(out@ =~= b@.take(k + 1));
            } else if k == pos {
                assert(b@.take(pos as int) =~= b@.take(k as int));
                assert(out@ =~= b@.take(pos as int) + seq![0x5Cu8] + b@.subrange(pos as int, k + 1));
            } else {
                assert(out@ =~= b@.take(pos as int) + seq![0x5Cu8] + b@.subrange(pos as int, k + 1));
            }
        }
        k = k + 1;
    }
    proof {
        assert(b@.subrange(pos as int, b@.len() as int) =~= b@.skip(pos as int));
        encode_utf8_valid_utf8(s@);
        lemma_backslash_at_valid(b@, pos as int);
    }
    string_of_valid(out)
}

/// The setext-underline escape: a fragment that is one run of `=` or
/// `-` and ends the line gets a leading backslash.
pub fn escape_setext_underline(s: &str, next: LineContext) -> (r: Option<String>)
    ensures
        setext_underline(utf8_of(s@), next) ==> (r matches Some(t) && utf8_of(t@) == with_backslash_at(
            utf8_of(s@),
            0,
        )),
        !setext_underline(utf8_of(s@), next) ==> r is None,
{
    let b = s.as_bytes();
    if b.len() == 0 {
        return None;
    }
    let first = b[0];
    if !(first == 0x3D || first == 0x2D) {
        return None;
    }
    let i = run_end_exec(b, 0, first);
    if i != b.len() {
        return None;
    }
    match next {
        LineContext::MoreContent => None,
        LineContext::EndOfLine => Some(insert_backslash(s, 0)),
    }
}

/// The paragraph-interrupt escape: `>`; an ATX opener of one to six
/// `#`; a thematic break; a bullet with content; `1.` or `1)` with
/// content; a fence of three or more. A leading backslash is added.
pub fn escape_for_paragraph_interrupt(s: &str, next: LineContext) -> (r: Option<String>)
    ensures
        interrupt_needed(utf8_of(s@), next) ==> (r matches Some(t) && utf8_of(t@) == with_backslash_at(
            utf8_of(s@),
            0,
        )),
        !interrupt_needed(utf8_of(s@), next) ==> r is None,
{
    let b = s.as_bytes();
    if b.len() == 0 {
        return None;
    }
    let first = b[0];
    let needs = if first == 0x3E {
        true
    } else if first == 0x23 {
        let h = run_end_exec(b, 0, 0x23);
        if !(1 <= h && h <= 6) {
            false
        } else if h == b.len() {
            match next {
                LineContext::EndOfLine => true,
                LineContext::MoreContent => false,
            }
        } else {
            blank(b[h])
        }
    } else if (first == 0x2A || first == 0x2D || first == 0x5F) && is_thematic_break_line(b) {
        true
    } else if first == 0x2A || first == 0x2D || first == 0x2B {
        b.len() > 1 && blank(b[1]) && line_has_nonblank_after(b, 2, next)
    } else if first == 0x31 {
        b.len() > 2 && (b[1] == 0x2E || b[1] == 0x29) && blank(b[2]) && line_has_nonblank_after(b, 3, next)
    } else if first == 0x60 || first == 0x7E {
        run_end_exec(b, 0, first) >= 3
    } else {
        false
    };
    if !needs {
        return None;
    }
    Some(insert_backslash(s, 0))
}

/// The block-start escape. For an ordered-list opener the backslash
/// goes before the `.` or `)` after the digits; otherwise it leads.
pub fn escape_for_block_start(s: &str, next: LineContext) -> (r: Option<String>)
    ensures
        match block_start_pos(utf8_of(s@), next) {
            Some(p) => r matches Some(t) && utf8_of(t@) == with_backslash_at(utf8_of(s@), p),
            None => r is None,
        },
{
    let b = s.as_bytes();
    if b.len() == 0 {
        return None;
    }
    let first = b[0];
    let has_two = b.len() > 1;
    let cont = !has_two && match next {
        LineContext::MoreContent => true,
        LineContext::EndOfLine => false,
    };
    if first == 0x23 || first == 0x3E {
        return Some(insert_backslash(s, 0));
    }
    if first == 0x2D || first == 0x2B || first == 0x2A {
        if !cont && (!has_two || b[1] == 0x20 || b[1] == 0x09 || (b[1] == first && b.len() > 2 && b[2]
            == first)) {
            return Some(insert_backslash(s, 0));
        }
        return None;
    }
    if first == 0x3D {
        if has_two && b[1] == 0x3D {
            return Some(insert_backslash(s, 0));
        }
        return None;
    }
    if first == 0x60 || first == 0x7E {
        if has_two && b[1] == first && b.len() > 2 && b[2] == first {
            return Some(insert_backslash(s, 0));
        }
        return None;
    }
    if 0x30 <= first && first <= 0x39 {
        let i = digits_end_exec(b, 1);
        let has_punct = i < b.len();
        if !has_punct {
            match next {
                LineContext::MoreContent => return None,
                LineContext::EndOfLine => {},
            }
        }
        if has_punct && (b[i] == 0x2E || b[i] == 0x29) && (i + 1 >= b.len() || b[i + 1] == 0x20 || b[i
            + 1] == 0x09) {
            return Some(insert_backslash(s, i));
        }
        return None;
    }
    if first == 0x20 {
        if b.len() >= 4 && b[1] == 0x20 && b[2] == 0x20 && b[3] == 0x20 {
            return Some(insert_backslash(s, 0));
        }
        return None;
    }
    None
}

} // verus!
