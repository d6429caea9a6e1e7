//! Byte scanners behind the style canonicalisation pass.
//!
//! Each rewrite of the pass is verified against a re-parse of the
//! paragraph window around it; the helpers here find that window and
//! the byte sites a rewrite touches: list bullets, ordered-list digits,
//! and link destinations in inline links and reference definitions.
//! They work on raw bytes and never panic on any offset.

use vstd::prelude::*;
use vstd::utf8::*;
use crate::config::{
    italic_target, link_style_target, list_marker_target, strong_target, thematic_target, FmtOptions, LinkDefStyle,
    MathRender, OrderedListStyle,
};
use crate::math::pretty::{align_env_body, aligned_body, body_braces_balanced, brace_scan};
use crate::math::render::{body_chars, convert_for_renderer};
use crate::math::span::{env_aligning, env_name, EnvKind, MathRegion, MathSpan};
use crate::format::semantic::{canonical_eq, canonical_events, canonical_of, cmark, cmark_at, parse_events_at, EndTag, ParsedEvent, StartTag};
use crate::text::{cow_str, lemma_utf8_of_injective, str_eq, slice_ok, str_get, string_from_utf8, utf8_of};

verus! {

/// `x` clamped to the `usize` range, as `saturating_add` leaves it.
pub open spec fn usat(x: int) -> int {
    if x > usize::MAX {
        usize::MAX as int
    } else {
        x
    }
}

/// The byte at `i`, when `i` is in range.
pub open spec fn byte_at(b: Seq<u8>, i: int) -> Option<u8> {
    if 0 <= i < b.len() {
        Some(b[i])
    } else {
        None
    }
}

/// A space or a tab.
pub open spec fn is_hspace(c: u8) -> bool {
    c == 0x20u8 || c == 0x09u8
}

/// No newline byte in `[lo, hi)`.
pub open spec fn no_newline_in(b: Seq<u8>, lo: int, hi: int) -> bool {
    forall|m: int| lo <= m < hi ==> b[m] != 0x0Au8
}

/// The line that ends just before position `p` (it starts after the
/// previous newline, or at the start of the text) holds only spaces and
/// tabs.
pub open spec fn blank_line_before(b: Seq<u8>, p: int) -> bool {
    forall|k: int| 0 <= k < p && #[trigger] no_newline_in(b, k, p) ==> is_hspace(b[k])
}

/// The line that starts just after position `p` (it ends at the next
/// newline, or at the end of the text) holds only spaces and tabs.
pub open spec fn blank_line_after(b: Seq<u8>, p: int) -> bool {
    forall|k: int| p < k < b.len() && #[trigger] no_newline_in(b, p + 1, k + 1) ==> is_hspace(b[k])
}

/// A newline at `p` closes a blank line: the line before it is blank.
pub open spec fn blank_break_before(b: Seq<u8>, p: int) -> bool {
    0 <= p < b.len() && b[p] == 0x0Au8 && blank_line_before(b, p)
}

/// A newline at `p` opens a blank line: the line after it is blank.
pub open spec fn blank_break_after(b: Seq<u8>, p: int) -> bool {
    0 <= p < b.len() && b[p] == 0x0Au8 && blank_line_after(b, p)
}

/// Walks back from `lo` (clamped to the text) to the start of the
/// paragraph window: the position just after the nearest newline before
/// `lo` that ends a blank line, or 0 when there is none.
pub fn previous_blank_line_or_start(s: &str, lo: usize) -> (r: usize)
    ensures
        ({
            let b = utf8_of(s@);
            let l = if lo <= b.len() { lo as int } else { b.len() as int };
            &&& r <= l
            &&& (r == 0 || blank_break_before(b, r - 1))
            &&& forall|p: int| r <= p < l ==> !#[trigger] blank_break_before(b, p)
        }),
{
    let bytes = s.as_bytes();
    let ghost b = bytes@;
    let l = if lo <= bytes.len() { lo } else { bytes.len() };
    let mut i = l;
    while i > 0
        invariant
            b == bytes@,
            b == utf8_of(s@),
            l == (if lo <= b.len() { lo as int } else { b.len() as int }),
            i <= l <= b.len(),
            forall|p: int| i <= p < l ==> !#[trigger] blank_break_before(b, p),
        decreases i,
    {
        // The last newline before `i`.
        let mut j = i;
        while j > 0 && bytes[j - 1] != 0x0Au8
            invariant
                b == bytes@,
                j <= i <= b.len(),
                no_newline_in(b, j as int, i as int),
            decreases j,
        {
            j = j - 1;
        }
        if j == 0 {
            assert forall|p: int| 0 <= p < l implies !#[trigger] blank_break_before(b, p) by {
                if p < i {
                    assert(b[p] != 0x0Au8);
                }
            }
            return 0;
        }
        let nl = j - 1;
        // The start of the line that ends at `nl`, and whether it is blank.
        let mut k = nl;
        let mut blank = true;
        while k > 0 && bytes[k - 1] != 0x0Au8
            invariant
                b == bytes@,
                k <= nl < b.len(),
                no_newline_in(b, k as int, nl as int),
                blank <==> forall|m: int| k <= m < nl ==> is_hspace(b[m]),
            decreases k,
        {
            let c = bytes[k - 1];
            if c != 0x20u8 && c != 0x09u8 {
                blank = false;
            }
            k = k - 1;
        }
        assert(k == 0 || b[k - 1] == 0x0Au8);
        if blank {
            assert(blank_line_before(b, nl as int)) by {
                assert forall|q: int| 0 <= q < nl && #[trigger] no_newline_in(b, q, nl as int) implies is_hspace(b[q]) by {
                    if q < k {
                        assert(b[k - 1] == 0x0Au8);
                    }
                }
            }
            assert forall|p: int| nl + 1 <= p < l implies !#[trigger] blank_break_before(b, p) by {
                if p < i {
                    assert(b[p] != 0x0Au8);
                }
            }
            return nl + 1;
        }
        assert(!blank_line_before(b, nl as int)) by {
            let m = choose|m: int| k <= m < nl && !is_hspace(b[m]);
            assert(no_newline_in(b, m, nl as int));
        }
        assert forall|p: int| k <= p < l implies !#[trigger] blank_break_before(b, p) by {
            if p < nl {
                assert(b[p] != 0x0Au8);
            } else if nl < p < i {
                assert(b[p] != 0x0Au8);
            }
        }
        i = k;
    }
    0
}

/// Walks forward from `hi` (clamped to the text) to the end of the
/// paragraph window: the position of the nearest newline at or after
/// `hi` that opens a blank line, or the text's length when there is
/// none.
pub fn next_blank_line_or_end(s: &str, hi: usize) -> (r: usize)
    ensures
        ({
            let b = utf8_of(s@);
            let h = if hi <= b.len() { hi as int } else { b.len() as int };
            &&& h <= r <= b.len()
            &&& (r == b.len() || blank_break_after(b, r as int))
            &&& forall|p: int| h <= p < r ==> !#[trigger] blank_break_after(b, p)
        }),
{
    let bytes = s.as_bytes();
    let ghost b = bytes@;
    let len = bytes.len();
    let h = if hi <= len { hi } else { len };
    let mut i = h;
    while i < len
        invariant
            b == bytes@,
            b == utf8_of(s@),
            len == b.len(),
            h == (if hi <= b.len() { hi as int } else { b.len() as int }),
            h <= i <= len,
            forall|p: int| h <= p < i ==> !#[trigger] blank_break_after(b, p),
        decreases len - i,
    {
        // The next newline at or after `i`.
        let mut nl = i;
        while nl < len && bytes[nl] != 0x0Au8
            invariant
                b == bytes@,
                len == b.len(),
                i <= nl <= len,
                no_newline_in(b, i as int, nl as int),
            decreases len - nl,
        {
            nl = nl + 1;
        }
        if nl == len {
            assert forall|p: int| h <= p < len implies !#[trigger] blank_break_after(b, p) by {
                if p >= i {
                    assert(b[p] != 0x0Au8);
                }
            }
            return len;
        }
        // The line after `nl`, and whether it is blank.
        let mut k = nl + 1;
        let mut blank = true;
        while k < len && bytes[k] != 0x0Au8
            invariant
                b == bytes@,
                len == b.len(),
                nl < k <= len,
                b[nl as int] == 0x0Au8,
                no_newline_in(b, nl + 1, k as int),
                blank <==> forall|m: int| nl < m < k ==> is_hspace(b[m]),
            decreases len - k,
        {
            let c = bytes[k];
            if c != 0x20u8 && c != 0x09u8 {
                blank = false;
            }
            k = k + 1;
        }
        if blank {
            assert(blank_line_after(b, nl as int)) by {
                assert forall|q: int| nl < q < b.len() && #[trigger] no_newline_in(b, nl + 1, q + 1) implies is_hspace(b[q]) by {
                    if q >= k {
                        assert(b[k as int] == 0x0Au8);
                    }
                }
            }
            assert forall|p: int| h <= p < nl implies !#[trigger] blank_break_after(b, p) by {
                if p >= i {
                    assert(b[p] != 0x0Au8);
                }
            }
            return nl;
        }
        assert(!blank_line_after(b, nl as int)) by {
            let m = choose|m: int| nl < m < k && !is_hspace(b[m]);
            assert(no_newline_in(b, nl + 1, m + 1));
        }
        assert forall|p: int| h <= p < k implies !#[trigger] blank_break_after(b, p) by {
            if i <= p < nl {
                assert(b[p] != 0x0Au8);
            } else if nl < p {
                assert(b[p] != 0x0Au8);
            }
        }
        i = k;
    }
    len
}

/// A non-empty run of emphasis delimiter bytes (`*` or `_`).
pub fn is_emphasis_delim_run(bytes: &[u8]) -> (r: bool)
    ensures
        r <==> (bytes@.len() > 0 && forall|i: int| 0 <= i < bytes@.len() ==> #[trigger] bytes@[i] == 0x2Au8 || bytes@[i] == 0x5Fu8),
{
    if bytes.len() == 0 {
        return false;
    }
    let mut i: usize = 0;
    while i < bytes.len()
        invariant
            0 <= i <= bytes@.len(),
            forall|k: int| 0 <= k < i ==> #[trigger] bytes@[k] == 0x2Au8 || bytes@[k] == 0x5Fu8,
        decreases bytes@.len() - i,
    {
        if bytes[i] != 0x2Au8 && bytes[i] != 0x5Fu8 {
            return false;
        }
        i = i + 1;
    }
    true
}

/// A bullet byte of an unordered list marker.
pub open spec fn is_bullet(c: u8) -> bool {
    c == 0x2Du8 || c == 0x2Au8 || c == 0x2Bu8
}

/// The first bullet in `[i, e)` after only spaces and tabs.
pub open spec fn bullet_from(b: Seq<u8>, i: int, e: int) -> Option<int>
    decreases e - i,
{
    if i >= e || i < 0 || i >= b.len() {
        None
    } else if is_bullet(b[i]) {
        Some(i)
    } else if !is_hspace(b[i]) {
        None
    } else {
        bullet_from(b, i + 1, e)
    }
}

/// The position of the bullet of a list item whose source range is
/// `[start, end)`: the first `-`, `*` or `+` after leading spaces and
/// tabs, if the range begins so.
pub fn find_unordered_bullet(bytes: &[u8], start: usize, end: usize) -> (r: Option<usize>)
    ensures
        ({
            let e = if end <= bytes@.len() { end as int } else { bytes@.len() as int };
            match r {
                Some(p) => bullet_from(bytes@, start as int, e) == Some(p as int),
                None => bullet_from(bytes@, start as int, e) is None,
            }
        }),
{
    let ghost b = bytes@;
    let e = if end <= bytes.len() { end } else { bytes.len() };
    let mut i = start;
    while i < e
        invariant
            b == bytes@,
            start <= i,
            e == (if end <= b.len() { end as int } else { b.len() as int }),
            bullet_from(b, i as int, e as int) == bullet_from(b, start as int, e as int),
        decreases e - i,
    {
        let c = bytes[i];
        if c == 0x2Du8 || c == 0x2Au8 || c == 0x2Bu8 {
            return Some(i);
        }
        if c != 0x20u8 && c != 0x09u8 {
            return None;
        }
        i = i + 1;
    }
    None
}

/// An ASCII digit.
pub open spec fn is_digit(c: u8) -> bool {
    0x30u8 <= c <= 0x39u8
}

/// The end of the digit run that starts at `i`, within `e`.
pub open spec fn digits_end(b: Seq<u8>, i: int, e: int) -> int
    decreases e - i,
{
    if i < e && 0 <= i < b.len() && is_digit(b[i]) {
        digits_end(b, i + 1, e)
    } else {
        i
    }
}

/// The digits of an ordered marker in `[i, e)`: leading spaces and tabs
/// are skipped, then a digit run must start.
pub open spec fn marker_digits_from(b: Seq<u8>, i: int, e: int) -> Option<(int, int)>
    decreases e - i,
{
    if i >= e || i < 0 || i >= b.len() {
        None
    } else if is_hspace(b[i]) {
        marker_digits_from(b, i + 1, e)
    } else if !is_digit(b[i]) {
        None
    } else {
        Some((i, digits_end(b, i, e)))
    }
}

/// The value of a run of ASCII digits.
pub open spec fn decimal_value(d: Seq<u8>) -> int
    decreases d.len(),
{
    if d.len() == 0 {
        0
    } else {
        decimal_value(d.drop_last()) * 10 + (d.last() - 0x30u8)
    }
}

pub open spec fn all_digits(d: Seq<u8>) -> bool {
    forall|k: int| 0 <= k < d.len() ==> 0x30u8 <= #[trigger] d[k] <= 0x39u8
}

/// What `u64`'s `FromStr` reads from `t`: an optional `+`, then one or
/// more ASCII digits whose value fits in 64 bits.
pub open spec fn u64_text(t: Seq<u8>) -> Option<u64> {
    let d = if t.len() > 0 && t[0] == 0x2Bu8 {
        t.drop_first()
    } else {
        t
    };
    if d.len() > 0 && all_digits(d) && decimal_value(d) <= u64::MAX {
        Some(decimal_value(d) as u64)
    } else {
        None
    }
}

proof fn lemma_decimal_grows(d: Seq<u8>, k: int, j: int)
    requires
        0 <= k <= j <= d.len(),
        all_digits(d),
    ensures
        decimal_value(d.take(k)) <= decimal_value(d.take(j)),
        decimal_value(d.take(j)) >= 0,
    decreases j,
{
    if j > 0 {
        assert(d.take(j).drop_last() =~= d.take(j - 1));
        assert(d.take(j).last() == d[j - 1]);
        if k < j {
            lemma_decimal_grows(d, k, j - 1);
        } else {
            lemma_decimal_grows(d, j - 1, j - 1);
        }
    }
}

/// The number an ordered-list marker's digits `bytes[lo..hi]` spell, as
/// `u64`'s `FromStr` reads it; `None` for an empty or out-of-bounds
/// range, a non-digit, or a value past `u64::MAX`.
#[verifier::loop_isolation(false)]
pub fn scan_ordered_marker_number(bytes: &[u8], lo: usize, hi: usize) -> (r: Option<u64>)
    ensures
        r == (if lo <= hi && hi <= bytes@.len() {
            u64_text(bytes@.subrange(lo as int, hi as int))
        } else {
            None
        }),
{
    if lo > hi || hi > bytes.len() {
        return None;
    }
    let ghost t = bytes@.subrange(lo as int, hi as int);
    let start = if lo < hi && bytes[lo] == 0x2Bu8 {
        lo + 1
    } else {
        lo
    };
    let ghost d = bytes@.subrange(start as int, hi as int);
    proof {
        if lo < hi && bytes@[lo as int] == 0x2Bu8 {
            assert(t.drop_first() =~= d);
        } else {
            assert(t =~= d);
        }
    }
    if start == hi {
        return None;
    }
    let mut v: u64 = 0;
    let mut i = start;
    while i < hi
        invariant
            lo <= start <= i <= hi <= bytes@.len(),
            d == bytes@.subrange(start as int, hi as int),
            all_digits(d.take(i - start)),
            v as int == decimal_value(d.take(i - start)),
        decreases hi - i,
    {
        let c = bytes[i];
        if !(0x30u8 <= c && c <= 0x39u8) {
            assert(d[i - start] == c);
            assert(!all_digits(d));
            return None;
        }
        let dig = (c - 0x30u8) as u64;
        proof {
            assert(d.take(i + 1 - start).drop_last() =~= d.take(i - start));
        }
        if v > (0xffff_ffff_ffff_ffffu64 - dig) / 10 {
            proof {
                assert(all_digits(d.take(i + 1 - start)));
                assert(decimal_value(d.take(i + 1 - start)) > u64::MAX) by (nonlinear_arith)
                    requires
                        decimal_value(d.take(i + 1 - start)) == v * 10 + dig,
                        v > (0xffff_ffff_ffff_ffffu64 - dig) / 10,
                        dig <= 9,
                ;
                if all_digits(d) {
                    lemma_decimal_grows(d, i + 1 - start, d.len() as int);
                    assert(d.take(d.len() as int) =~= d);
                }
            }
            return None;
        }
        v = v * 10 + dig;
        i = i + 1;
    }
    proof {
        assert(d.take(hi - start) =~= d);
    }
    Some(v)
}

/// The digit range of the marker of an ordered list item whose source
/// range is `[start, end)`.
pub fn find_ordered_marker_digits(bytes: &[u8], start: usize, end: usize) -> (r: Option<(usize, usize)>)
    ensures
        ({
            let e = if end <= bytes@.len() { end as int } else { bytes@.len() as int };
            match r {
                Some((lo, hi)) => marker_digits_from(bytes@, start as int, e) == Some((lo as int, hi as int)),
                None => marker_digits_from(bytes@, start as int, e) is None,
            }
        }),
{
    let ghost b = bytes@;
    let e = if end <= bytes.len() { end } else { bytes.len() };
    let mut i = start;
    while i < e
        invariant
            b == bytes@,
            start <= i,
            e == (if end <= b.len() { end as int } else { b.len() as int }),
            marker_digits_from(b, i as int, e as int) == marker_digits_from(b, start as int, e as int),
        decreases e - i,
    {
        let c = bytes[i];
        if c == 0x20u8 || c == 0x09u8 {
            i = i + 1;
            continue;
        }
        if !(0x30u8 <= c && c <= 0x39u8) {
            return None;
        }
        let digit_lo = i;
        while i < e && 0x30u8 <= bytes[i] && bytes[i] <= 0x39u8
            invariant
                b == bytes@,
                digit_lo <= i <= e,
                e <= b.len(),
                digits_end(b, i as int, e as int) == digits_end(b, digit_lo as int, e as int),
            decreases e - i,
        {
            i = i + 1;
        }
        return Some((digit_lo, i));
    }
    None
}


/// A space, a tab or a newline.
pub open spec fn is_dest_space(c: u8) -> bool {
    c == 0x20u8 || c == 0x09u8 || c == 0x0Au8
}

/// One step of bracket depth up, saturating at `i32::MAX`.
pub open spec fn depth_up(d: int) -> int {
    if d < i32::MAX {
        d + 1
    } else {
        d
    }
}

/// Scanning a link label from `i` with `depth` brackets open: the
/// position of the `]` that closes the outermost one, before `e`.
/// A backslash skips the byte after it.
pub open spec fn label_close(b: Seq<u8>, e: int, i: int, depth: int) -> Option<int>
    decreases e + 2 - i,
{
    if i >= e || i < 0 || i >= b.len() {
        None
    } else if b[i] == 0x5Cu8 {
        label_close(b, e, i + 2, depth)
    } else if b[i] == 0x5Bu8 {
        label_close(b, e, i + 1, depth_up(depth))
    } else if b[i] == 0x5Du8 {
        if depth - 1 == 0 {
            Some(i)
        } else {
            label_close(b, e, i + 1, depth - 1)
        }
    } else {
        label_close(b, e, i + 1, depth)
    }
}

/// The first position at or after `j`, before `e`, that is not a
/// space, tab or newline.
pub open spec fn skip_dest_space(b: Seq<u8>, e: int, j: int) -> int
    decreases e - j,
{
    if j < e && 0 <= j < b.len() && is_dest_space(b[j]) {
        skip_dest_space(b, e, j + 1)
    } else {
        j
    }
}

/// The end of an angle-bracketed destination whose body starts at `k`:
/// just past its `>`. There is none when a newline comes first, or no
/// `>` is found.
pub open spec fn angle_dest_end(b: Seq<u8>, e: int, k: int) -> Option<int>
    decreases e - k,
{
    if k < e && 0 <= k < b.len() && b[k] != 0x3Eu8 {
        if b[k] == 0x0Au8 {
            None
        } else {
            angle_dest_end(b, e, k + 1)
        }
    } else if byte_at(b, k) == Some(0x3Eu8) {
        Some(k + 1)
    } else {
        None
    }
}

/// The end of a bare destination scanned from `k` with `depth` open
/// parentheses: the first space, tab or newline, or the `)` that closes
/// the link, or `e`. A backslash skips the byte after it.
pub open spec fn bare_dest_end(b: Seq<u8>, e: int, k: int, depth: int) -> int
    decreases e + 2 - k,
{
    if k >= e || k < 0 || k >= b.len() || k >= usize::MAX {
        k
    } else if b[k] == 0x5Cu8 {
        bare_dest_end(b, e, usat(k + 2), depth)
    } else if b[k] == 0x28u8 {
        bare_dest_end(b, e, k + 1, depth_up(depth))
    } else if b[k] == 0x29u8 {
        if depth == 0 {
            k
        } else {
            bare_dest_end(b, e, k + 1, depth - 1)
        }
    } else if is_dest_space(b[k]) {
        k
    } else {
        bare_dest_end(b, e, k + 1, depth)
    }
}

/// The destination range of the inline link written at `[start, end)`:
/// the label `[...]`, then `(`, optional spaces, and the destination,
/// either `<...>` (brackets included) or bare. `None` when the bytes do
/// not have that shape or the destination is empty.
pub open spec fn inline_dest(b: Seq<u8>, start: int, end: int) -> Option<(int, int)> {
    let e = if end <= b.len() { end } else { b.len() as int };
    if byte_at(b, start) != Some(0x5Bu8) {
        None
    } else {
        match label_close(b, e, start + 1, 1) {
            None => None,
            Some(i) => {
                let ac = i + 1;
                if byte_at(b, ac) != Some(0x28u8) {
                    None
                } else {
                    let j = skip_dest_space(b, e, ac + 1);
                    let hi = if byte_at(b, j) == Some(0x3Cu8) {
                        angle_dest_end(b, e, j + 1)
                    } else {
                        Some(bare_dest_end(b, e, j, 0))
                    };
                    match hi {
                        None => None,
                        Some(h) => if h <= j {
                            None
                        } else {
                            Some((j, h))
                        },
                    }
                }
            },
        }
    }
}

/// A pair of offsets as integers.
pub open spec fn int_pair(r: Option<(usize, usize)>) -> Option<(int, int)> {
    match r {
        Some((a, b)) => Some((a as int, b as int)),
        None => None,
    }
}

/// The destination of the inline link whose source is `[start, end)`.
#[verifier::loop_isolation(false)]
#[verifier::rlimit(30)]
pub fn find_inline_dest_range(bytes: &[u8], start: usize, end: usize) -> (r: Option<(usize, usize)>)
    ensures
        int_pair(r) == inline_dest(bytes@, start as int, end as int),
{
    let ghost b = bytes@;
    let e = if end <= bytes.len() { end } else { bytes.len() };
    if start >= bytes.len() || bytes[start] != 0x5Bu8 {
        return None;
    }
    let mut depth: i32 = 1;
    let mut i = start + 1;
    let mut closed = false;
    while i < e
        invariant
            b == bytes@,
            e <= b.len(),
            e == (if end <= b.len() { end as int } else { b.len() as int }),
            start < i,
            1 <= depth,
            !closed,
            label_close(b, e as int, i as int, depth as int) == label_close(b, e as int, start + 1, 1),
        decreases e + 2 - i,
    {
        let c = bytes[i];
        if c == 0x5Cu8 {
            let ni = if i < usize::MAX - 1 { i + 2 } else { usize::MAX };
            proof {
                assert(label_close(b, e as int, i as int, depth as int) == label_close(b, e as int, i + 2, depth as int));
                if ni as int != i + 2 {
                    assert(label_close(b, e as int, ni as int, depth as int) == label_close(b, e as int, i + 2, depth as int));
                }
            }
            i = ni;
            continue;
        } else if c == 0x5Bu8 {
            depth = if depth < i32::MAX { depth + 1 } else { depth };
        } else if c == 0x5Du8 {
            if depth == 1 {
                closed = true;
                break;
            }
            depth = depth - 1;
        }
        i = i + 1;
    }
    if !closed {
        return None;
    }
    assert(label_close(b, e as int, start + 1, 1) == Some(i as int));
    let after_close = i + 1;
    if after_close >= bytes.len() || bytes[after_close] != 0x28u8 {
        return None;
    }
    let mut j = after_close + 1;
    while j < e && (bytes[j] == 0x20u8 || bytes[j] == 0x09u8 || bytes[j] == 0x0Au8)
        invariant
            b == bytes@,
            e <= b.len(),
            after_close < j,
            skip_dest_space(b, e as int, j as int) == skip_dest_space(b, e as int, after_close + 1),
        decreases e - j,
    {
        j = j + 1;
    }
    let dest_lo = j;
    let dest_hi = if j < bytes.len() && bytes[j] == 0x3Cu8 {
        let mut k = j + 1;
        while k < e && bytes[k] != 0x3Eu8
            invariant
                b == bytes@,
                e <= b.len(),
                j < k,
                angle_dest_end(b, e as int, k as int) == angle_dest_end(b, e as int, j + 1),
            decreases e - k,
        {
            if bytes[k] == 0x0Au8 {
                return None;
            }
            k = k + 1;
        }
        if k >= bytes.len() || bytes[k] != 0x3Eu8 {
            return None;
        }
        k + 1
    } else {
        let mut depth: i32 = 0;
        let mut k = j;
        while k < e
            invariant
                b == bytes@,
                e <= b.len(),
                j <= k,
                0 <= depth,
                bare_dest_end(b, e as int, k as int, depth as int) == bare_dest_end(b, e as int, j as int, 0),
            decreases e + 2 - k,
        {
            let c = bytes[k];
            if c == 0x5Cu8 {
                k = if k < usize::MAX - 1 { k + 2 } else { usize::MAX };
                continue;
            } else if c == 0x28u8 {
                depth = if depth < i32::MAX { depth + 1 } else { depth };
            } else if c == 0x29u8 {
                if depth == 0 {
                    break;
                }
                depth = depth - 1;
            } else if c == 0x20u8 || c == 0x09u8 || c == 0x0Au8 {
                break;
            }
            k = k + 1;
        }
        assert(bare_dest_end(b, e as int, j as int, 0) == k);
        k
    };
    if dest_hi <= dest_lo {
        return None;
    }
    Some((dest_lo, dest_hi))
}

/// The indent of a reference definition: up to three spaces from `i`.
pub open spec fn def_indent_end(b: Seq<u8>, hi: int, i: int, spaces: int) -> int
    decreases hi - i,
{
    if i < hi && byte_at(b, i) == Some(0x20u8) && spaces < 3 {
        def_indent_end(b, hi, i + 1, spaces + 1)
    } else {
        i
    }
}

/// Scanning a definition's label from `i`: the position where the scan
/// stops, at its `]` or at `hi`; `None` when a newline comes first or
/// the scan runs off the text. A backslash skips the byte after it.
pub open spec fn def_label_end(b: Seq<u8>, hi: int, i: int) -> Option<int>
    decreases hi + 2 - i,
{
    if i >= hi || i >= usize::MAX {
        Some(i)
    } else if i < 0 || i >= b.len() {
        None
    } else if b[i] == 0x5Cu8 {
        def_label_end(b, hi, usat(i + 2))
    } else if b[i] == 0x5Du8 {
        Some(i)
    } else if b[i] == 0x0Au8 {
        None
    } else {
        def_label_end(b, hi, i + 1)
    }
}

/// The first position at or after `i`, before `hi`, that is not a space
/// or a tab.
pub open spec fn skip_hspace(b: Seq<u8>, hi: int, i: int) -> int
    decreases hi - i,
{
    if i < hi && (byte_at(b, i) == Some(0x20u8) || byte_at(b, i) == Some(0x09u8)) {
        skip_hspace(b, hi, i + 1)
    } else {
        i
    }
}

/// The first position at or after `k`, before `hi`, that holds `>`.
pub open spec fn find_gt(b: Seq<u8>, hi: int, k: int) -> int
    decreases hi - k,
{
    if k < hi && byte_at(b, k) != Some(0x3Eu8) {
        find_gt(b, hi, k + 1)
    } else {
        k
    }
}

/// The first position at or after `k`, before `hi`, that holds a space
/// or a tab.
pub open spec fn find_hspace(b: Seq<u8>, hi: int, k: int) -> int
    decreases hi - k,
{
    if k < hi && byte_at(b, k) != Some(0x20u8) && byte_at(b, k) != Some(0x09u8) {
        find_hspace(b, hi, k + 1)
    } else {
        k
    }
}

/// The destination range of a reference definition on the line
/// `[lo, hi)`: up to three spaces, `[label]:`, spaces, then `<...>`
/// (brackets included) or a bare run up to the next space or tab.
pub open spec fn ref_def_dest(b: Seq<u8>, lo: int, hi: int) -> Option<(int, int)> {
    let i0 = def_indent_end(b, hi, lo, 0);
    if byte_at(b, i0) != Some(0x5Bu8) {
        None
    } else {
        match def_label_end(b, hi, i0 + 1) {
            None => None,
            Some(i1) => if byte_at(b, i1) != Some(0x5Du8) || byte_at(b, i1 + 1) != Some(0x3Au8) {
                None
            } else {
                let d = skip_hspace(b, hi, i1 + 2);
                if d >= hi {
                    None
                } else {
                    let h = if byte_at(b, d) == Some(0x3Cu8) {
                        let k = find_gt(b, hi, d + 1);
                        if byte_at(b, k) != Some(0x3Eu8) {
                            None
                        } else {
                            Some(k + 1)
                        }
                    } else {
                        Some(find_hspace(b, hi, d))
                    };
                    match h {
                        None => None,
                        Some(h) => if h <= d {
                            None
                        } else {
                            Some((d, h))
                        },
                    }
                }
            },
        }
    }
}

/// The destination of the reference definition written on the line
/// `[lo, hi)`, if the line is one.
#[verifier::loop_isolation(false)]
pub fn parse_ref_def_line(bytes: &[u8], lo: usize, hi: usize) -> (r: Option<(usize, usize)>)
    ensures
        int_pair(r) == ref_def_dest(bytes@, lo as int, hi as int),
{
    let ghost b = bytes@;
    let mut i = lo;
    let mut spaces: usize = 0;
    while i < hi && i < bytes.len() && bytes[i] == 0x20u8 && spaces < 3
        invariant
            b == bytes@,
            lo <= i,
            spaces <= 3,
            def_indent_end(b, hi as int, i as int, spaces as int) == def_indent_end(b, hi as int, lo as int, 0),
        decreases hi - i,
    {
        i = i + 1;
        spaces = spaces + 1;
    }
    if i >= bytes.len() || bytes[i] != 0x5Bu8 {
        return None;
    }
    let ghost i0 = i;
    i = i + 1;
    while i < hi
        invariant
            b == bytes@,
            i0 < i,
            def_label_end(b, hi as int, i as int) == def_label_end(b, hi as int, i0 + 1),
        decreases hi + 2 - i,
    {
        if i >= bytes.len() {
            return None;
        }
        let c = bytes[i];
        if c == 0x5Cu8 {
            i = if i < usize::MAX - 1 { i + 2 } else { usize::MAX };
        } else if c == 0x5Du8 {
            break;
        } else if c == 0x0Au8 {
            return None;
        } else {
            i = i + 1;
        }
    }
    assert(def_label_end(b, hi as int, i0 + 1) == Some(i as int));
    if i >= bytes.len() || bytes[i] != 0x5Du8 {
        return None;
    }
    i = i + 1;
    if i >= bytes.len() || bytes[i] != 0x3Au8 {
        return None;
    }
    i = i + 1;
    let ghost i2 = i;
    while i < hi && i < bytes.len() && (bytes[i] == 0x20u8 || bytes[i] == 0x09u8)
        invariant
            b == bytes@,
            i2 <= i,
            skip_hspace(b, hi as int, i as int) == skip_hspace(b, hi as int, i2 as int),
        decreases hi - i,
    {
        i = i + 1;
    }
    if i >= hi {
        return None;
    }
    let dest_lo = i;
    let dest_hi = if i < bytes.len() && bytes[i] == 0x3Cu8 {
        let mut k = i + 1;
        while k < hi && (k >= bytes.len() || bytes[k] != 0x3Eu8)
            invariant
                b == bytes@,
                i < k,
                find_gt(b, hi as int, k as int) == find_gt(b, hi as int, i + 1),
            decreases hi - k,
        {
            k = k + 1;
        }
        if k >= bytes.len() || bytes[k] != 0x3Eu8 {
            return None;
        }
        k + 1
    } else {
        let mut k = i;
        while k < hi && (k >= bytes.len() || (bytes[k] != 0x20u8 && bytes[k] != 0x09u8))
            invariant
                b == bytes@,
                i <= k,
                find_hspace(b, hi as int, k as int) == find_hspace(b, hi as int, i as int),
            decreases hi - k,
        {
            k = k + 1;
        }
        k
    };
    if dest_hi <= dest_lo {
        return None;
    }
    Some((dest_lo, dest_hi))
}

/// The end of the line that starts at `s`: its newline, or the end of
/// the text.
pub open spec fn line_end_from(b: Seq<u8>, s: int) -> int
    decreases b.len() - s,
{
    if s >= b.len() || s < 0 {
        b.len() as int
    } else if b[s] == 0x0Au8 {
        s
    } else {
        line_end_from(b, s + 1)
    }
}

/// The destinations of the reference definitions on the lines from the
/// one that starts at `s` to the end of the text, in order.
pub open spec fn ref_def_sites_from(b: Seq<u8>, s: int) -> Seq<(int, int)>
    decreases b.len() - s,
{
    let le = line_end_from(b, s);
    let here = match ref_def_dest(b, s, le) {
        Some(x) => seq![x],
        None => seq![],
    };
    if le >= b.len() || le < s || s < 0 {
        here
    } else {
        here + ref_def_sites_from(b, le + 1)
    }
}

/// The destination ranges of every line of `out` that reads as a
/// reference definition, in order.
pub fn scan_reference_definitions(out: &str) -> (sites: Vec<(usize, usize)>)
    ensures
        sites@.len() == ref_def_sites_from(utf8_of(out@), 0).len(),
        forall|i: int| 0 <= i < sites@.len() ==> (#[trigger] sites@[i].0 as int, sites@[i].1 as int) == ref_def_sites_from(utf8_of(out@), 0)[i],
{
    let bytes = out.as_bytes();
    let ghost b = bytes@;
    let len = bytes.len();
    let mut sites: Vec<(usize, usize)> = Vec::new();
    let mut line_start: usize = 0;
    let ghost mut done: Seq<(int, int)> = seq![];
    loop
        invariant
            b == bytes@,
            b == utf8_of(out@),
            len == b.len(),
            line_start <= len,
            sites@.len() == done.len(),
            forall|i: int| 0 <= i < sites@.len() ==> (#[trigger] sites@[i].0 as int, sites@[i].1 as int) == done[i],
            done + ref_def_sites_from(b, line_start as int) == ref_def_sites_from(b, 0),
        decreases len - line_start,
    {
        let mut line_end = line_start;
        while line_end < len && bytes[line_end] != 0x0Au8
            invariant
                b == bytes@,
                len == b.len(),
                line_start <= line_end <= len,
                line_end_from(b, line_end as int) == line_end_from(b, line_start as int),
            decreases len - line_end,
        {
            line_end = line_end + 1;
        }
        let ghost here = match ref_def_dest(b, line_start as int, line_end as int) {
            Some(x) => seq![x],
            None => seq![],
        };
        let ghost rest = ref_def_sites_from(b, line_start as int);
        match parse_ref_def_line(bytes, line_start, line_end) {
            Some(site) => {
                sites.push(site);
                proof {
                    done = done.push((site.0 as int, site.1 as int));
                }
            },
            None => {},
        }
        if line_end == len {
            assert(rest == here);
            assert(done =~= ref_def_sites_from(b, 0));
            return sites;
        }
        assert(rest == here + ref_def_sites_from(b, line_end + 1));
        proof {
            assert(done + ref_def_sites_from(b, line_end + 1) =~= ref_def_sites_from(b, 0));
        }
        line_start = line_end + 1;
    }
}


/// The characters of an environment's name in `s`.
pub open spec fn env_name_chars(env: EnvKind, s: Seq<char>) -> Seq<char> {
    match env {
        EnvKind::Known(k) => env_name(k),
        EnvKind::Custom(r) => if slice_ok(s, r.start as int, r.end as int) {
            decode_utf8(utf8_of(s).subrange(r.start as int, r.end as int))
        } else {
            Seq::empty()
        },
    }
}

/// The math rewrite for one region: the dollar form for non-environment
/// regions when the renderer wants dollars; otherwise, when math
/// normalisation is on and the region is an aligning environment with
/// balanced braces, the environment re-emitted with its body laid out
/// in aligned columns. `None` when nothing is to be rewritten.
pub open spec fn math_replacement(s: Seq<char>, region: MathRegion, opts: FmtOptions) -> Option<Seq<char>> {
    let span = region.span;
    let body = body_chars(span, s);
    if opts.math.render == MathRender::Dollar && !(span is Environment) {
        Some(
            if span is Display {
                "$$ "@ + crate::math::pretty::trim_chars(body) + " $$"@
            } else {
                "$"@ + crate::math::pretty::trim_chars(body) + "$"@
            },
        )
    } else if !opts.math.normalise {
        None
    } else if brace_scan(utf8_of(body), 0, 0) is Err {
        None
    } else {
        match span {
            MathSpan::Environment { env, .. } => if !(match env {
                EnvKind::Known(k) => env_aligning(k),
                EnvKind::Custom(_) => false,
            }) {
                None
            } else {
                let name = env_name_chars(env, s);
                Some("\\begin{"@ + name + "}\n"@ + aligned_body(body) + "\n\\end{"@ + name + "}"@)
            },
            _ => None,
        }
    }
}

/// Whether the options ask for any math rewrite: the dollar render
/// mode, or column normalisation.
pub fn needs_math_rewrite(opts: &FmtOptions) -> (r: bool)
    ensures
        r == (opts.math.render == MathRender::Dollar || opts.math.normalise),
{
    opts.math.render == MathRender::Dollar || opts.math.normalise
}

/// Computes the rewrite of one math region of `source`, per
/// [`math_replacement`].
pub fn compute_math_replacement(source: &str, region: &MathRegion, opts: &FmtOptions) -> (r: Option<String>)
    ensures
        match r {
            Some(t) => math_replacement(source@, *region, *opts) == Some(t@),
            None => math_replacement(source@, *region, *opts) is None,
        },
{
    let span = &region.span;
    let render_mode = opts.math().render;
    let is_env = match span {
        MathSpan::Environment { .. } => true,
        _ => false,
    };
    if render_mode == MathRender::Dollar && !is_env {
        let cow = convert_for_renderer(source, &region.range, span, MathRender::Dollar);
        let mut out = String::new();
        out.push_str(cow_str(&cow));
        return Some(out);
    }
    if !opts.math().normalise {
        return None;
    }
    let body = span.body().as_str(source);
    proof {
        encode_utf8_decode_utf8(body@);
    }
    if body_braces_balanced(cow_str(&body)).is_err() {
        return None;
    }
    let env = match span {
        MathSpan::Environment { env, .. } => env,
        _ => {
            return None;
        },
    };
    if !env.is_aligning() {
        return None;
    }
    let name = env.name(source);
    proof {
        encode_utf8_decode_utf8(name@);
    }
    let body_rendered = align_env_body(cow_str(&body));
    let mut out = String::new();
    out.push_str("\\begin{");
    out.push_str(name);
    out.push_str("}\n");
    out.push_str(body_rendered.as_str());
    out.push_str("\n\\end{");
    out.push_str(name);
    out.push_str("}");
    Some(out)
}


// ============================================================
// The re-parse check
// ============================================================

/// The bytes of the window `[wl, wh)` of `out` with `[lo, hi)` replaced
/// by `rewrite`.
pub open spec fn spliced(out: Seq<char>, rewrite: Seq<u8>, wl: int, lo: int, hi: int, wh: int) -> Seq<u8> {
    let b = utf8_of(out);
    b.subrange(wl, lo) + rewrite + b.subrange(hi, wh)
}

/// The window `[wl, wh)` of `out` before the rewrite, and after it with
/// `[lo, hi)` replaced by `rewrite`; `None` when a bound is out of order
/// or splits a character, or the result is not UTF-8.
pub fn splice_window<'s>(out: &'s str, rewrite: &[u8], wl: usize, lo: usize, hi: usize, wh: usize) -> (r:
    Option<(&'s str, String)>)
    ensures
        r is Some <==> (slice_ok(out@, wl as int, wh as int) && slice_ok(out@, wl as int, lo as int)
            && slice_ok(out@, hi as int, wh as int) && valid_utf8(
            spliced(out@, rewrite@, wl as int, lo as int, hi as int, wh as int),
        )),
        r matches Some((before, after)) ==> utf8_of(before@) == utf8_of(out@).subrange(wl as int, wh as int)
            && utf8_of(after@) == spliced(out@, rewrite@, wl as int, lo as int, hi as int, wh as int),
{
    let before = match str_get(out, wl, wh) {
        Some(t) => t,
        None => {
            return None;
        },
    };
    let prefix = match str_get(out, wl, lo) {
        Some(t) => t,
        None => {
            return None;
        },
    };
    let suffix = match str_get(out, hi, wh) {
        Some(t) => t,
        None => {
            return None;
        },
    };
    let p = prefix.as_bytes();
    let q = suffix.as_bytes();
    let mut bytes: Vec<u8> = Vec::new();
    let mut i: usize = 0;
    while i < p.len()
        invariant
            i <= p@.len(),
            bytes@ == p@.take(i as int),
        decreases p@.len() - i,
    {
        bytes.push(p[i]);
        assert(p@.take(i + 1) =~= p@.take(i as int).push(p@[i as int]));
        i = i + 1;
    }
    assert(p@.take(p@.len() as int) =~= p@);
    let mut j: usize = 0;
    while j < rewrite.len()
        invariant
            j <= rewrite@.len(),
            bytes@ == p@ + rewrite@.take(j as int),
        decreases rewrite@.len() - j,
    {
        bytes.push(rewrite[j]);
        assert(rewrite@.take(j + 1) =~= rewrite@.take(j as int).push(rewrite@[j as int]));
        j = j + 1;
    }
    assert(rewrite@.take(rewrite@.len() as int) =~= rewrite@);
    let mut k: usize = 0;
    while k < q.len()
        invariant
            k <= q@.len(),
            bytes@ == p@ + rewrite@ + q@.take(k as int),
        decreases q@.len() - k,
    {
        bytes.push(q[k]);
        assert(q@.take(k + 1) =~= q@.take(k as int).push(q@[k as int]));
        k = k + 1;
    }
    assert(q@.take(q@.len() as int) =~= q@);
    match string_from_utf8(bytes) {
        Some(after) => Some((before, after)),
        None => None,
    }
}

/// `r` starts the paragraph window around `lo`: just after the nearest
/// newline before `lo` (clamped) that ends a blank line, or 0.
pub open spec fn is_window_start(b: Seq<u8>, lo: int, r: int) -> bool {
    let l = if lo <= b.len() { lo } else { b.len() as int };
    &&& 0 <= r <= l
    &&& (r == 0 || blank_break_before(b, r - 1))
    &&& forall|p: int| r <= p < l ==> !#[trigger] blank_break_before(b, p)
}

/// `r` ends the paragraph window around `hi`: the nearest newline at or
/// after `hi` (clamped) that opens a blank line, or the text's end.
pub open spec fn is_window_end(b: Seq<u8>, hi: int, r: int) -> bool {
    let h = if hi <= b.len() { hi } else { b.len() as int };
    &&& h <= r <= b.len()
    &&& (r == b.len() || blank_break_after(b, r))
    &&& forall|p: int| h <= p < r ==> !#[trigger] blank_break_after(b, p)
}

pub open spec fn window_start(b: Seq<u8>, lo: int) -> int {
    choose|r: int| is_window_start(b, lo, r)
}

pub open spec fn window_end(b: Seq<u8>, hi: int) -> int {
    choose|r: int| is_window_end(b, hi, r)
}

proof fn lemma_window_start(b: Seq<u8>, lo: int, r: int)
    requires
        is_window_start(b, lo, r),
    ensures
        window_start(b, lo) == r,
{
    let c = window_start(b, lo);
    assert(is_window_start(b, lo, c));
    if c < r {
        assert(blank_break_before(b, r - 1));
    } else if c > r {
        assert(blank_break_before(b, c - 1));
    }
}

proof fn lemma_window_end(b: Seq<u8>, hi: int, r: int)
    requires
        is_window_end(b, hi, r),
    ensures
        window_end(b, hi) == r,
{
    let c = window_end(b, hi);
    assert(is_window_end(b, hi, c));
    if c < r {
        assert(blank_break_after(b, c));
    } else if c > r {
        assert(blank_break_after(b, r));
    }
}

/// The characters whose UTF-8 bytes are `b`.
pub open spec fn chars_of_bytes(b: Seq<u8>) -> Seq<char> {
    choose|t: Seq<char>| utf8_of(t) == b
}

pub proof fn lemma_chars_of_bytes(t: Seq<char>)
    ensures
        chars_of_bytes(utf8_of(t)) == t,
{
    let c = chars_of_bytes(utf8_of(t));
    assert(utf8_of(c) == utf8_of(t));
    lemma_utf8_of_injective(c, t);
}

/// Replacing `out[lo..hi]` with `rw` keeps the meaning of the paragraph
/// window around it: every bound falls on a character, the spliced
/// window is UTF-8, and both windows parse to the same canonical stream.
pub open spec fn preserves_parse(out: Seq<char>, rw: Seq<u8>, lo: int, hi: int) -> bool {
    let b = utf8_of(out);
    let wl = window_start(b, lo);
    let wh = window_end(b, hi);
    &&& slice_ok(out, wl, wh)
    &&& slice_ok(out, wl, lo)
    &&& slice_ok(out, hi, wh)
    &&& valid_utf8(spliced(out, rw, wl, lo, hi, wh))
    &&& canonical_of(cmark(chars_of_bytes(b.subrange(wl, wh)))) == canonical_of(
        cmark(chars_of_bytes(spliced(out, rw, wl, lo, hi, wh))),
    )
}

/// Whether replacing `out[lo..hi]` with `rewrite` keeps the meaning of
/// the paragraph window around it: the window, bounded by blank lines,
/// parses to the same canonical stream before and after. False whenever
/// a bound splits a character or the spliced window is not UTF-8.
pub fn rewrite_preserves_parse(out: &str, rewrite: &[u8], lo: usize, hi: usize) -> (r: bool)
    ensures
        r == preserves_parse(out@, rewrite@, lo as int, hi as int),
{
    let wl = previous_blank_line_or_start(out, lo);
    let wh = next_blank_line_or_end(out, hi);
    proof {
        lemma_window_start(utf8_of(out@), lo as int, wl as int);
        lemma_window_end(utf8_of(out@), hi as int, wh as int);
    }
    match splice_window(out, rewrite, wl, lo, hi, wh) {
        Some((before, after)) => {
            proof {
                lemma_chars_of_bytes(before@);
                lemma_chars_of_bytes(after@);
            }
            let a = canonical_events(before);
            let c = canonical_events(after.as_str());
            canonical_eq(&a, &c)
        },
        None => false,
    }
}

// ============================================================
// Committing rewrites
// ============================================================

/// `out` with `[lo, hi)` replaced by `rw`, where the bounds fall on
/// characters and the result is UTF-8; `out` unchanged otherwise.
pub open spec fn committed(out: Seq<char>, rw: Seq<u8>, lo: int, hi: int) -> Seq<char> {
    let n = utf8_of(out).len() as int;
    if slice_ok(out, 0, lo) && slice_ok(out, hi, n) && valid_utf8(spliced(out, rw, 0, lo, hi, n)) {
        chars_of_bytes(spliced(out, rw, 0, lo, hi, n))
    } else {
        out
    }
}

/// One guarded rewrite: committed when it keeps the window's meaning.
pub open spec fn guarded(out: Seq<char>, rw: Seq<u8>, lo: int, hi: int) -> Seq<char> {
    if preserves_parse(out, rw, lo, hi) {
        committed(out, rw, lo, hi)
    } else {
        out
    }
}

/// Replaces `out[lo..hi]` with `rewrite` where the bounds fall on
/// characters and the result is UTF-8.
pub fn commit_rewrite(out: &mut String, lo: usize, hi: usize, rewrite: &[u8])
    ensures
        final(out)@ == committed(old(out)@, rewrite@, lo as int, hi as int),
{
    let n = out.as_str().as_bytes().len();
    let r = splice_window(out.as_str(), rewrite, 0, lo, hi, n);
    match r {
        Some((_, after)) => {
            proof {
                lemma_chars_of_bytes(after@);
            }
            *out = after;
        },
        None => {},
    }
}

/// Commits the rewrite when `rewrite_preserves_parse` accepts it.
pub fn guarded_rewrite(out: &mut String, lo: usize, hi: usize, rewrite: &[u8])
    ensures
        final(out)@ == guarded(old(out)@, rewrite@, lo as int, hi as int),
{
    if rewrite_preserves_parse(out.as_str(), rewrite, lo, hi) {
        commit_rewrite(out, lo, hi, rewrite);
    }
}

/// The bytes `[lo, hi)` of `s`, when the range lies in it.
pub fn byte_range(s: &str, lo: usize, hi: usize) -> (r: Option<Vec<u8>>)
    ensures
        r is Some <==> lo <= hi <= utf8_of(s@).len(),
        r matches Some(v) ==> v@ == utf8_of(s@).subrange(lo as int, hi as int),
{
    let b = s.as_bytes();
    if lo > hi || hi > b.len() {
        return None;
    }
    let mut v: Vec<u8> = Vec::new();
    let mut i = lo;
    while i < hi
        invariant
            lo <= i <= hi <= b@.len(),
            b@ == utf8_of(s@),
            v@ == b@.subrange(lo as int, i as int),
        decreases hi - i,
    {
        v.push(b[i]);
        assert(b@.subrange(lo as int, i + 1) =~= b@.subrange(lo as int, i as int).push(b@[i as int]));
        i = i + 1;
    }
    Some(v)
}

// ============================================================
// Thematic breaks
// ============================================================

pub open spec fn is_rule_byte(c: u8) -> bool {
    c == 0x2Du8 || c == 0x2Au8 || c == 0x5Fu8
}

/// `hi` moved back over line-ending bytes, not below `start`.
pub open spec fn trim_line_end(b: Seq<u8>, start: int, hi: int) -> int
    decreases hi,
{
    if hi > start && 0 < hi <= b.len() && (b[hi - 1] == 0x0Au8 || b[hi - 1] == 0x0Du8) {
        trim_line_end(b, start, hi - 1)
    } else {
        hi
    }
}

/// The byte ranges of the thematic breaks among `evs`, line endings
/// trimmed.
pub open spec fn rule_sites(b: Seq<u8>, evs: Seq<(ParsedEvent, usize, usize)>) -> Seq<(usize, usize)>
    decreases evs.len(),
{
    if evs.len() == 0 {
        Seq::empty()
    } else {
        let e = evs.last();
        let hi = if (e.2 as int) < b.len() { e.2 as int } else { b.len() as int };
        rule_sites(b, evs.drop_last()) + if e.0 is Rule {
            seq![(e.1, trim_line_end(b, e.1 as int, hi) as usize)]
        } else {
            Seq::empty()
        }
    }
}

/// The thematic breaks of `out` by the named parse.
pub open spec fn thematic_sites(out: Seq<char>) -> Seq<(usize, usize)> {
    rule_sites(utf8_of(out), cmark_at(out))
}

/// The byte range of each thematic break of `out`, line endings trimmed.
pub fn collect_thematic_breaks(out: &str) -> (r: Vec<(usize, usize)>)
    ensures
        r@ == thematic_sites(out@),
{
    let evs = parse_events_at(out);
    let b = out.as_bytes();
    let mut sites: Vec<(usize, usize)> = Vec::new();
    let mut i: usize = 0;
    while i < evs.len()
        invariant
            i <= evs@.len(),
            b@ == utf8_of(out@),
            sites@ == rule_sites(b@, evs@.take(i as int)),
        decreases evs@.len() - i,
    {
        proof {
            assert(evs@.take(i + 1).drop_last() =~= evs@.take(i as int));
        }
        if matches!(evs[i].0, ParsedEvent::Rule) {
            let start = evs[i].1;
            let mut hi = if evs[i].2 < b.len() { evs[i].2 } else { b.len() };
            while hi > start && (b[hi - 1] == 0x0Au8 || b[hi - 1] == 0x0Du8)
                invariant
                    hi <= b@.len(),
                    trim_line_end(b@, start as int, hi as int) == trim_line_end(
                        b@,
                        start as int,
                        if (evs@[i as int].2 as int) < b@.len() { evs@[i as int].2 as int } else { b@.len() as int },
                    ),
                decreases hi,
            {
                hi = hi - 1;
            }
            sites.push((start, hi));
        }
        i = i + 1;
    }
    assert(evs@.take(evs@.len() as int) =~= evs@);
    sites
}

/// The break's bytes with every rule byte made `target`.
pub open spec fn rule_rewrite(line: Seq<u8>, target: u8) -> Seq<u8> {
    line.map_values(|c: u8| if is_rule_byte(c) { target } else { c })
}

/// One thematic break rewritten, if it has a rule byte other than
/// `target` and the rewrite keeps the window's meaning.
pub open spec fn thematic_step(s: Seq<char>, site: (usize, usize), target: u8) -> Seq<char> {
    let b = utf8_of(s);
    let lo = site.0 as int;
    let hi = site.1 as int;
    if !(lo <= hi <= b.len()) || lo == hi {
        s
    } else {
        let line = b.subrange(lo, hi);
        if exists|k: int| 0 <= k < line.len() && is_rule_byte(#[trigger] line[k]) && line[k] != target {
            guarded(s, rule_rewrite(line, target), lo, hi)
        } else {
            s
        }
    }
}

/// The sites handled from the last to the first.
pub open spec fn thematic_pass(s: Seq<char>, sites: Seq<(usize, usize)>, target: u8) -> Seq<char>
    decreases sites.len(),
{
    if sites.len() == 0 {
        s
    } else {
        thematic_pass(thematic_step(s, sites.last(), target), sites.drop_last(), target)
    }
}

fn thematic_one(out: &mut String, lo: usize, hi: usize, target: u8)
    ensures
        final(out)@ == thematic_step(old(out)@, (lo, hi), target),
{
    let line = match byte_range(out.as_str(), lo, hi) {
        Some(v) => v,
        None => {
            return;
        },
    };
    if line.len() == 0 {
        return;
    }
    let mut off = false;
    let mut rewrite: Vec<u8> = Vec::new();
    let mut k: usize = 0;
    while k < line.len()
        invariant
            k <= line@.len(),
            rewrite@ == rule_rewrite(line@.take(k as int), target),
            off == exists|q: int| 0 <= q < k && is_rule_byte(#[trigger] line@[q]) && line@[q] != target,
        decreases line@.len() - k,
    {
        let c = line[k];
        let is_rule = c == 0x2Du8 || c == 0x2Au8 || c == 0x5Fu8;
        if is_rule && c != target {
            off = true;
        }
        rewrite.push(if is_rule { target } else { c });
        proof {
            assert(rule_rewrite(line@.take(k + 1), target) =~= rule_rewrite(line@.take(k as int), target).push(
                if is_rule_byte(c) { target } else { c },
            ));
            if !(is_rule && c != target) {
                assert forall|q: int| 0 <= q < k + 1 && is_rule_byte(#[trigger] line@[q]) && line@[q] != target implies q < k by {}
            }
        }
        k = k + 1;
    }
    assert(line@.take(line@.len() as int) =~= line@);
    if off {
        guarded_rewrite(out, lo, hi, rewrite.as_slice());
    }
}

/// Rewrites every thematic break to use `target`, from the last to the
/// first, each only where the paragraph window keeps its meaning.
pub fn rewrite_thematic(out: &mut String, target: u8)
    ensures
        final(out)@ == thematic_pass(old(out)@, thematic_sites(old(out)@), target),
{
    let sites = collect_thematic_breaks(out.as_str());
    let ghost s0 = old(out)@;
    let mut k = sites.len();
    assert(sites@.take(k as int) =~= sites@);
    while k > 0
        invariant
            k <= sites@.len(),
            sites@ == thematic_sites(s0),
            thematic_pass(s0, sites@, target) == thematic_pass(out@, sites@.take(k as int), target),
        decreases k,
    {
        let ghost before = out@;
        let (lo, hi) = sites[k - 1];
        thematic_one(out, lo, hi, target);
        proof {
            assert(sites@.take(k as int).drop_last() =~= sites@.take(k - 1));
            assert(sites@.take(k as int).last() == sites@[k - 1]);
        }
        k = k - 1;
    }
    proof {
        assert(sites@.take(sites@.len() as int) =~= sites@);
    }
}

// ============================================================
// Unordered list bullets
// ============================================================

/// Open lists: whether each is unordered, its byte range, and the bullet
/// positions found so far.
pub type ListStack = Seq<(bool, (usize, usize), Seq<usize>)>;

/// Finished unordered lists: range and bullet positions.
pub type ListSitesView = Seq<((usize, usize), Seq<usize>)>;

/// The bullet of an item whose range is `[s, e)`.
pub open spec fn item_bullet(b: Seq<u8>, s: usize, e: usize) -> Option<int> {
    bullet_from(b, s as int, if (e as int) <= b.len() { e as int } else { b.len() as int })
}

/// One event of the unordered-list walk.
pub open spec fn ul_step(b: Seq<u8>, st: (ListStack, ListSitesView), ev: (ParsedEvent, usize, usize)) -> (
    ListStack,
    ListSitesView,
) {
    let stack = st.0;
    let done = st.1;
    match ev.0 {
        ParsedEvent::Start(StartTag::List(start)) => (stack.push((start is None, (ev.1, ev.2), Seq::empty())), done),
        ParsedEvent::End(EndTag::List(_)) => if stack.len() == 0 {
            st
        } else {
            let top = stack.last();
            (stack.drop_last(), if top.0 { done.push((top.1, top.2)) } else { done })
        },
        ParsedEvent::Start(StartTag::Item) => if stack.len() == 0 || !stack.last().0 {
            st
        } else {
            match item_bullet(b, ev.1, ev.2) {
                Some(p) => {
                    let top = stack.last();
                    (stack.update(stack.len() - 1, (top.0, top.1, top.2.push(p as usize))), done)
                },
                None => st,
            }
        },
        _ => st,
    }
}

pub open spec fn ul_fold(b: Seq<u8>, evs: Seq<(ParsedEvent, usize, usize)>) -> (ListStack, ListSitesView)
    decreases evs.len(),
{
    if evs.len() == 0 {
        (Seq::empty(), Seq::empty())
    } else {
        ul_step(b, ul_fold(b, evs.drop_last()), evs.last())
    }
}

/// The unordered lists of `out` by the named parse, in the order they
/// close.
pub open spec fn unordered_sites(out: Seq<char>) -> ListSitesView {
    ul_fold(utf8_of(out), cmark_at(out)).1
}

pub open spec fn stack_view(v: Seq<(bool, (usize, usize), Vec<usize>)>) -> ListStack {
    v.map_values(|x: (bool, (usize, usize), Vec<usize>)| (x.0, x.1, x.2@))
}

pub open spec fn sites_view(v: Seq<((usize, usize), Vec<usize>)>) -> ListSitesView {
    v.map_values(|x: ((usize, usize), Vec<usize>)| (x.0, x.1@))
}

/// Each unordered list of `out`: its byte range and its items' bullet
/// positions, in the order the lists close.
pub fn collect_unordered_lists(out: &str) -> (r: Vec<((usize, usize), Vec<usize>)>)
    ensures
        sites_view(r@) == unordered_sites(out@),
{
    let evs = parse_events_at(out);
    let bytes = out.as_bytes();
    let mut stack: Vec<(bool, (usize, usize), Vec<usize>)> = Vec::new();
    let mut completed: Vec<((usize, usize), Vec<usize>)> = Vec::new();
    let mut i: usize = 0;
    assert(stack_view(stack@) =~= Seq::<(bool, (usize, usize), Seq<usize>)>::empty());
    assert(sites_view(completed@) =~= Seq::<((usize, usize), Seq<usize>)>::empty());
    while i < evs.len()
        invariant
            i <= evs@.len(),
            bytes@ == utf8_of(out@),
            (stack_view(stack@), sites_view(completed@)) == ul_fold(bytes@, evs@.take(i as int)),
        decreases evs@.len() - i,
    {
        proof {
            assert(evs@.take(i + 1).drop_last() =~= evs@.take(i as int));
        }
        let ghost sv = stack_view(stack@);
        let ghost cv = sites_view(completed@);
        let (s0, e0) = (evs[i].1, evs[i].2);
        match &evs[i].0 {
            ParsedEvent::Start(StartTag::List(start)) => {
                let unordered = start.is_none();
                stack.push((unordered, (s0, e0), Vec::new()));
                proof {
                    assert(stack_view(stack@) =~= sv.push((unordered, (s0, e0), Seq::<usize>::empty())));
                }
            },
            ParsedEvent::End(EndTag::List(_)) => {
                if stack.len() > 0 {
                    let top = stack.pop().unwrap();
                    proof {
                        assert(stack_view(stack@) =~= sv.drop_last());
                    }
                    if top.0 {
                        completed.push((top.1, top.2));
                        proof {
                            assert(sites_view(completed@) =~= cv.push((top.1, top.2@)));
                        }
                    }
                }
            },
            ParsedEvent::Start(StartTag::Item) => {
                let n = stack.len();
                if n > 0 && stack[n - 1].0 {
                    match find_unordered_bullet(bytes, s0, e0) {
                        Some(p) => {
                            let mut top = stack.pop().unwrap();
                            top.2.push(p);
                            stack.push(top);
                            proof {
                                assert(stack_view(stack@) =~= sv.update(
                                    sv.len() - 1,
                                    (sv.last().0, sv.last().1, sv.last().2.push(p)),
                                ));
                            }
                        },
                        None => {},
                    }
                }
            },
            _ => {},
        }
        i = i + 1;
    }
    assert(evs@.take(evs@.len() as int) =~= evs@);
    completed
}

/// The list's bytes `slice` (starting at `lo`) with each bullet inside
/// it made `target`.
pub open spec fn bullet_rewrite(slice: Seq<u8>, lo: int, bullets: Seq<usize>, target: u8) -> Seq<u8> {
    Seq::new(
        slice.len(),
        |k: int|
            if exists|j: int| 0 <= j < bullets.len() && bullets[j] >= lo && #[trigger] bullets[j] - lo == k {
                target
            } else {
                slice[k]
            },
    )
}

/// Every bullet already reads `target`.
pub open spec fn bullets_on_target(b: Seq<u8>, bullets: Seq<usize>, target: u8) -> bool {
    forall|j: int| 0 <= j < bullets.len() ==> (#[trigger] bullets[j] as int) < b.len() && b[bullets[j] as int] == target
}

/// One list's bullets rewritten as a whole, unless they already read
/// `target`, and only where the rewrite keeps the window's meaning.
pub open spec fn bullet_step(s: Seq<char>, site: ((usize, usize), Seq<usize>), target: u8) -> Seq<char> {
    let b = utf8_of(s);
    let lo = site.0.0 as int;
    let hi = site.0.1 as int;
    if site.1.len() == 0 || bullets_on_target(b, site.1, target) || !(lo <= hi <= b.len()) {
        s
    } else {
        guarded(s, bullet_rewrite(b.subrange(lo, hi), lo, site.1, target), lo, hi)
    }
}

pub open spec fn bullet_pass(s: Seq<char>, sites: ListSitesView, target: u8) -> Seq<char>
    decreases sites.len(),
{
    if sites.len() == 0 {
        s
    } else {
        bullet_pass(bullet_step(s, sites.last(), target), sites.drop_last(), target)
    }
}

fn bullet_one(out: &mut String, lo: usize, hi: usize, bullets: &Vec<usize>, target: u8)
    ensures
        final(out)@ == bullet_step(old(out)@, ((lo, hi), bullets@), target),
{
    if bullets.len() == 0 {
        return;
    }
    let bytes = out.as_str().as_bytes();
    let mut all = true;
    let mut j: usize = 0;
    while j < bullets.len()
        invariant
            j <= bullets@.len(),
            bytes@ == utf8_of(out@),
            all == forall|q: int| 0 <= q < j ==> (#[trigger] bullets@[q] as int) < bytes@.len() && bytes@[bullets@[q] as int] == target,
        decreases bullets@.len() - j,
    {
        let p = bullets[j];
        if !(p < bytes.len() && bytes[p] == target) {
            all = false;
        }
        j = j + 1;
    }
    if all {
        return;
    }
    let slice = match byte_range(out.as_str(), lo, hi) {
        Some(v) => v,
        None => {
            return;
        },
    };
    let ghost sl = slice@;
    let mut rewrite = slice;
    let mut m: usize = 0;
    while m < bullets.len()
        invariant
            m <= bullets@.len(),
            rewrite@.len() == sl.len(),
            forall|k: int| 0 <= k < sl.len() ==> #[trigger] rewrite@[k] == if exists|q: int|
                0 <= q < m && bullets@[q] >= lo && #[trigger] bullets@[q] - lo == k {
                target
            } else {
                sl[k]
            },
        decreases bullets@.len() - m,
    {
        let p = bullets[m];
        if p >= lo {
            let local = p - lo;
            if local < rewrite.len() {
                rewrite.set(local, target);
            }
        }
        proof {
            assert forall|k: int| 0 <= k < sl.len() implies #[trigger] rewrite@[k] == if exists|q: int|
                0 <= q < m + 1 && bullets@[q] >= lo && #[trigger] bullets@[q] - lo == k {
                target
            } else {
                sl[k]
            } by {
                if p >= lo && k == p - lo {
                    assert(bullets@[m as int] - lo == k);
                } else if exists|q: int| 0 <= q < m + 1 && bullets@[q] >= lo && #[trigger] bullets@[q] - lo == k {
                    let q = choose|q: int| 0 <= q < m + 1 && bullets@[q] >= lo && #[trigger] bullets@[q] - lo == k;
                    assert(q < m);
                }
            }
        }
        m = m + 1;
    }
    assert(rewrite@ =~= bullet_rewrite(sl, lo as int, bullets@, target));
    guarded_rewrite(out, lo, hi, rewrite.as_slice());
}

/// Rewrites the bullets of every unordered list to `target`, each list
/// as a whole, from the last list to close to the first, each only
/// where the list's window keeps its meaning.
pub fn rewrite_unordered_list_marker(out: &mut String, target: u8)
    ensures
        final(out)@ == bullet_pass(old(out)@, unordered_sites(old(out)@), target),
{
    let lists = collect_unordered_lists(out.as_str());
    let ghost s0 = old(out)@;
    let ghost sv = sites_view(lists@);
    let mut k = lists.len();
    assert(sv.take(k as int) =~= sv);
    while k > 0
        invariant
            k <= lists@.len(),
            sv == sites_view(lists@),
            sv == unordered_sites(s0),
            bullet_pass(s0, sv, target) == bullet_pass(out@, sv.take(k as int), target),
        decreases k,
    {
        let (lo, hi) = lists[k - 1].0;
        bullet_one(out, lo, hi, &lists[k - 1].1, target);
        proof {
            assert(sv.take(k as int).drop_last() =~= sv.take(k - 1));
            assert(sv.take(k as int).last() == sv[k - 1]);
        }
        k = k - 1;
    }
}

// ============================================================
// Ordered list renumbering
// ============================================================

pub type OlStack = Seq<(bool, (usize, usize), Seq<(usize, usize)>)>;

pub type OlSitesView = Seq<((usize, usize), Seq<(usize, usize)>)>;

/// The marker digits of an item whose range is `[s, e)`.
pub open spec fn item_digits(b: Seq<u8>, s: usize, e: usize) -> Option<(int, int)> {
    marker_digits_from(b, s as int, if (e as int) <= b.len() { e as int } else { b.len() as int })
}

/// One event of the ordered-list walk.
pub open spec fn ol_step(b: Seq<u8>, st: (OlStack, OlSitesView), ev: (ParsedEvent, usize, usize)) -> (OlStack, OlSitesView) {
    let stack = st.0;
    let done = st.1;
    match ev.0 {
        ParsedEvent::Start(StartTag::List(start)) => (stack.push((start is Some, (ev.1, ev.2), Seq::empty())), done),
        ParsedEvent::End(EndTag::List(_)) => if stack.len() == 0 {
            st
        } else {
            let top = stack.last();
            (stack.drop_last(), if top.0 { done.push((top.1, top.2)) } else { done })
        },
        ParsedEvent::Start(StartTag::Item) => if stack.len() == 0 || !stack.last().0 {
            st
        } else {
            match item_digits(b, ev.1, ev.2) {
                Some(d) => {
                    let top = stack.last();
                    (stack.update(stack.len() - 1, (top.0, top.1, top.2.push((d.0 as usize, d.1 as usize)))), done)
                },
                None => st,
            }
        },
        _ => st,
    }
}

pub open spec fn ol_fold(b: Seq<u8>, evs: Seq<(ParsedEvent, usize, usize)>) -> (OlStack, OlSitesView)
    decreases evs.len(),
{
    if evs.len() == 0 {
        (Seq::empty(), Seq::empty())
    } else {
        ol_step(b, ol_fold(b, evs.drop_last()), evs.last())
    }
}

/// The ordered lists of `out` by the named parse, in the order they
/// close, each with its items' marker digit ranges.
pub open spec fn ordered_sites(out: Seq<char>) -> OlSitesView {
    ol_fold(utf8_of(out), cmark_at(out)).1
}

pub open spec fn ol_stack_view(v: Seq<(bool, (usize, usize), Vec<(usize, usize)>)>) -> OlStack {
    v.map_values(|x: (bool, (usize, usize), Vec<(usize, usize)>)| (x.0, x.1, x.2@))
}

pub open spec fn ol_sites_view(v: Seq<((usize, usize), Vec<(usize, usize)>)>) -> OlSitesView {
    v.map_values(|x: ((usize, usize), Vec<(usize, usize)>)| (x.0, x.1@))
}

/// Each ordered list of `out`: its byte range and its items' marker
/// digit ranges, in the order the lists close.
pub fn collect_ordered_lists(out: &str) -> (r: Vec<((usize, usize), Vec<(usize, usize)>)>)
    ensures
        ol_sites_view(r@) == ordered_sites(out@),
{
    let evs = parse_events_at(out);
    let bytes = out.as_bytes();
    let mut stack: Vec<(bool, (usize, usize), Vec<(usize, usize)>)> = Vec::new();
    let mut completed: Vec<((usize, usize), Vec<(usize, usize)>)> = Vec::new();
    let mut i: usize = 0;
    assert(ol_stack_view(stack@) =~= Seq::<(bool, (usize, usize), Seq<(usize, usize)>)>::empty());
    assert(ol_sites_view(completed@) =~= Seq::<((usize, usize), Seq<(usize, usize)>)>::empty());
    while i < evs.len()
        invariant
            i <= evs@.len(),
            bytes@ == utf8_of(out@),
            (ol_stack_view(stack@), ol_sites_view(completed@)) == ol_fold(bytes@, evs@.take(i as int)),
        decreases evs@.len() - i,
    {
        proof {
            assert(evs@.take(i + 1).drop_last() =~= evs@.take(i as int));
        }
        let ghost sv = ol_stack_view(stack@);
        let ghost cv = ol_sites_view(completed@);
        let (s0, e0) = (evs[i].1, evs[i].2);
        match &evs[i].0 {
            ParsedEvent::Start(StartTag::List(start)) => {
                let ordered = start.is_some();
                stack.push((ordered, (s0, e0), Vec::new()));
                proof {
                    assert(ol_stack_view(stack@) =~= sv.push((ordered, (s0, e0), Seq::<(usize, usize)>::empty())));
                }
            },
            ParsedEvent::End(EndTag::List(_)) => {
                if stack.len() > 0 {
                    let top = stack.pop().unwrap();
                    proof {
                        assert(ol_stack_view(stack@) =~= sv.drop_last());
                    }
                    if top.0 {
                        completed.push((top.1, top.2));
                        proof {
                            assert(ol_sites_view(completed@) =~= cv.push((top.1, top.2@)));
                        }
                    }
                }
            },
            ParsedEvent::Start(StartTag::Item) => {
                let n = stack.len();
                if n > 0 && stack[n - 1].0 {
                    match find_ordered_marker_digits(bytes, s0, e0) {
                        Some(d) => {
                            let mut top = stack.pop().unwrap();
                            top.2.push(d);
                            stack.push(top);
                            proof {
                                assert(ol_stack_view(stack@) =~= sv.update(
                                    sv.len() - 1,
                                    (sv.last().0, sv.last().1, sv.last().2.push(d)),
                                ));
                            }
                        },
                        None => {},
                    }
                }
            },
            _ => {},
        }
        i = i + 1;
    }
    assert(evs@.take(evs@.len() as int) =~= evs@);
    completed
}

pub open spec fn dec_digit(d: nat) -> u8 {
    (48 + d) as u8
}

/// The decimal digits of `n` as ASCII bytes.
pub open spec fn decimal_bytes(n: nat) -> Seq<u8>
    decreases n,
{
    if n < 10 {
        seq![dec_digit(n)]
    } else {
        decimal_bytes(n / 10).push(dec_digit(n % 10))
    }
}

fn push_decimal_bytes(v: &mut Vec<u8>, n: u64)
    ensures
        final(v)@ == old(v)@ + decimal_bytes(n as nat),
    decreases n,
{
    if n >= 10 {
        push_decimal_bytes(v, n / 10);
    }
    v.push(48u8 + (n % 10) as u8);
    assert(v@ =~= old(v)@ + decimal_bytes(n as nat));
}

/// `v` with `[a, b)` replaced by `w`.
pub open spec fn replaced(v: Seq<u8>, a: int, b: int, w: Seq<u8>) -> Seq<u8> {
    v.take(a) + w + v.skip(b)
}

fn replace_bytes(v: &Vec<u8>, a: usize, b: usize, w: &Vec<u8>) -> (r: Vec<u8>)
    requires
        a <= b <= v@.len(),
    ensures
        r@ == replaced(v@, a as int, b as int, w@),
{
    let mut r: Vec<u8> = Vec::new();
    let mut i: usize = 0;
    while i < a
        invariant
            i <= a <= b <= v@.len(),
            r@ == v@.take(i as int),
        decreases a - i,
    {
        r.push(v[i]);
        assert(v@.take(i + 1) =~= v@.take(i as int).push(v@[i as int]));
        i = i + 1;
    }
    let mut j: usize = 0;
    while j < w.len()
        invariant
            j <= w@.len(),
            r@ == v@.take(a as int) + w@.take(j as int),
        decreases w@.len() - j,
    {
        r.push(w[j]);
        assert(w@.take(j + 1) =~= w@.take(j as int).push(w@[j as int]));
        j = j + 1;
    }
    assert(w@.take(w@.len() as int) =~= w@);
    let mut k: usize = b;
    while k < v.len()
        invariant
            b <= k <= v@.len(),
            r@ == v@.take(a as int) + w@ + v@.subrange(b as int, k as int),
        decreases v@.len() - k,
    {
        r.push(v[k]);
        assert(v@.subrange(b as int, k + 1) =~= v@.subrange(b as int, k as int).push(v@[k as int]));
        k = k + 1;
    }
    assert(v@.subrange(b as int, v@.len() as int) =~= v@.skip(b as int));
    r
}

pub open spec fn sat_add_u64k(a: u64, k: int) -> u64 {
    if a + k > u64::MAX {
        u64::MAX
    } else {
        (a + k) as u64
    }
}

/// The marker number of item `k` now, as `scan_ordered_marker_number`
/// reads it.
pub open spec fn marker_value(b: Seq<u8>, item: (usize, usize)) -> Option<u64> {
    if item.0 <= item.1 && (item.1 as int) <= b.len() {
        u64_text(b.subrange(item.0 as int, item.1 as int))
    } else {
        None
    }
}

/// The list's bytes after renumbering items `k..` (last first): each
/// item inside the list whose marker does not read `start + k` gets that
/// number; the flag says whether any did.
pub open spec fn renumbered(
    b: Seq<u8>,
    slice: Seq<u8>,
    lo: int,
    hi: int,
    items: Seq<(usize, usize)>,
    start: u64,
    k: int,
) -> (Seq<u8>, bool)
    decreases items.len() - k,
{
    if k < 0 || k >= items.len() {
        (slice, false)
    } else {
        let st = renumbered(b, slice, lo, hi, items, start, k + 1);
        let item = items[k];
        let want = sat_add_u64k(start, k);
        if (item.0 as int) < lo || (item.1 as int) > hi || marker_value(b, item) == Some(want) {
            st
        } else {
            let a = item.0 - lo;
            let z = item.1 - lo;
            (
                if z <= st.0.len() && a <= z {
                    replaced(st.0, a, z, decimal_bytes(want as nat))
                } else {
                    st.0
                },
                true,
            )
        }
    }
}

/// One list renumbered from its first item's number, where that number
/// reads, some item needs a change, and the rewrite keeps the window's
/// meaning.
pub open spec fn renumber_step(s: Seq<char>, site: ((usize, usize), Seq<(usize, usize)>)) -> Seq<char> {
    let b = utf8_of(s);
    let lo = site.0.0 as int;
    let hi = site.0.1 as int;
    let items = site.1;
    if items.len() == 0 {
        s
    } else {
        match marker_value(b, items[0]) {
            None => s,
            Some(start) => if !(lo <= hi <= b.len()) {
                s
            } else {
                let r = renumbered(b, b.subrange(lo, hi), lo, hi, items, start, 0);
                if r.1 {
                    guarded(s, r.0, lo, hi)
                } else {
                    s
                }
            },
        }
    }
}

pub open spec fn renumber_pass(s: Seq<char>, sites: OlSitesView) -> Seq<char>
    decreases sites.len(),
{
    if sites.len() == 0 {
        s
    } else {
        renumber_pass(renumber_step(s, sites.last()), sites.drop_last())
    }
}

fn renumber_one(out: &mut String, lo: usize, hi: usize, items: &Vec<(usize, usize)>)
    ensures
        final(out)@ == renumber_step(old(out)@, ((lo, hi), items@)),
{
    if items.len() == 0 {
        return;
    }
    let bytes = out.as_str().as_bytes();
    let (flo, fhi) = items[0];
    let start = match scan_ordered_marker_number(bytes, flo, fhi) {
        Some(n) => n,
        None => {
            return;
        },
    };
    let slice = match byte_range(out.as_str(), lo, hi) {
        Some(v) => v,
        None => {
            return;
        },
    };
    let ghost b = bytes@;
    let ghost sl = slice@;
    let mut rewrite = slice;
    let mut changed = false;
    let mut k = items.len();
    while k > 0
        invariant
            k <= items@.len(),
            b == bytes@,
            (rewrite@, changed) == renumbered(b, sl, lo as int, hi as int, items@, start, k as int),
        decreases k,
    {
        k = k - 1;
        let (ilo, ihi) = items[k];
        let want: u64 = if start <= u64::MAX - (k as u64) { start + k as u64 } else { u64::MAX };
        if ilo < lo || ihi > hi {
        } else {
            let cur = scan_ordered_marker_number(bytes, ilo, ihi);
            let same = match cur {
                Some(c) => c == want,
                None => false,
            };
            if !same {
                changed = true;
                let a = ilo - lo;
                let z = if ihi >= lo { ihi - lo } else { 0 };
                if ihi >= lo && z <= rewrite.len() && a <= z {
                    let mut w: Vec<u8> = Vec::new();
                    push_decimal_bytes(&mut w, want);
                    assert(w@ =~= decimal_bytes(want as nat));
                    rewrite = replace_bytes(&rewrite, a, z, &w);
                }
            }
        }
    }
    if changed {
        guarded_rewrite(out, lo, hi, rewrite.as_slice());
    }
}

/// Renumbers every ordered list consecutively from its first item's
/// number, each list as a whole, from the last list to close to the
/// first, each only where the list's window keeps its meaning.
pub fn rewrite_ordered_list_renumber(out: &mut String)
    ensures
        final(out)@ == renumber_pass(old(out)@, ordered_sites(old(out)@)),
{
    let lists = collect_ordered_lists(out.as_str());
    let ghost s0 = old(out)@;
    let ghost sv = ol_sites_view(lists@);
    let mut k = lists.len();
    assert(sv.take(k as int) =~= sv);
    while k > 0
        invariant
            k <= lists@.len(),
            sv == ol_sites_view(lists@),
            sv == ordered_sites(s0),
            renumber_pass(s0, sv) == renumber_pass(out@, sv.take(k as int)),
        decreases k,
    {
        let (lo, hi) = lists[k - 1].0;
        renumber_one(out, lo, hi, &lists[k - 1].1);
        proof {
            assert(sv.take(k as int).drop_last() =~= sv.take(k - 1));
            assert(sv.take(k as int).last() == sv[k - 1]);
        }
        k = k - 1;
    }
}

// ============================================================
// Emphasis delimiters
// ============================================================

/// Which emphasis a delimiter rewrite targets.
#[derive(Copy, Clone, Debug, PartialEq, Eq, Structural)]
pub enum EmphasisKind {
    Italic,
    Strong,
}

impl EmphasisKind {
    /// Delimiter bytes on each side: one for italic, two for strong.
    pub fn delim_len(self) -> (r: usize)
        ensures
            r == delim_count(self),
    {
        match self {
            EmphasisKind::Italic => 1,
            EmphasisKind::Strong => 2,
        }
    }
}

pub open spec fn delim_count(kind: EmphasisKind) -> usize {
    match kind {
        EmphasisKind::Italic => 1,
        EmphasisKind::Strong => 2,
    }
}

pub open spec fn opens_kind(e: ParsedEvent, kind: EmphasisKind) -> bool {
    match kind {
        EmphasisKind::Italic => e == ParsedEvent::Start(StartTag::Emphasis),
        EmphasisKind::Strong => e == ParsedEvent::Start(StartTag::Strong),
    }
}

pub open spec fn closes_kind(e: ParsedEvent, kind: EmphasisKind) -> bool {
    match kind {
        EmphasisKind::Italic => e == ParsedEvent::End(EndTag::Emphasis),
        EmphasisKind::Strong => e == ParsedEvent::End(EndTag::Strong),
    }
}

/// A non-empty run of `*` and `_` bytes.
pub open spec fn delim_run(b: Seq<u8>) -> bool {
    b.len() > 0 && forall|i: int| 0 <= i < b.len() ==> #[trigger] b[i] == 0x2Au8 || b[i] == 0x5Fu8
}

pub type Span4 = (usize, usize, usize, usize);

/// One event of the span walk: open positions are stacked; a closing
/// tag pairs with the last one, and the pair is kept when both ends are
/// delimiter runs of the kind's length that do not overlap.
pub open spec fn em_step(b: Seq<u8>, kind: EmphasisKind, st: (Seq<usize>, Seq<Span4>), ev: (
    ParsedEvent,
    usize,
    usize,
)) -> (Seq<usize>, Seq<Span4>) {
    let starts = st.0;
    let spans = st.1;
    let d = delim_count(kind) as int;
    if opens_kind(ev.0, kind) {
        (starts.push(ev.1), spans)
    } else if closes_kind(ev.0, kind) {
        if starts.len() == 0 {
            st
        } else {
            let ol = starts.last() as int;
            let rest = starts.drop_last();
            let ch = ev.2 as int;
            let oh = if ol + d > usize::MAX { usize::MAX as int } else { ol + d };
            if ch < d || oh > ch - d || oh > b.len() || ch > b.len() {
                (rest, spans)
            } else if delim_run(b.subrange(ol, oh)) && delim_run(b.subrange(ch - d, ch)) {
                (rest, spans.push((ol as usize, oh as usize, (ch - d) as usize, ch as usize)))
            } else {
                (rest, spans)
            }
        }
    } else {
        st
    }
}

pub open spec fn em_fold(b: Seq<u8>, kind: EmphasisKind, evs: Seq<(ParsedEvent, usize, usize)>) -> (
    Seq<usize>,
    Seq<Span4>,
)
    decreases evs.len(),
{
    if evs.len() == 0 {
        (Seq::empty(), Seq::empty())
    } else {
        em_step(b, kind, em_fold(b, kind, evs.drop_last()), evs.last())
    }
}

/// The emphasis spans of `kind` in `out` by the named parse, as
/// `(open_lo, open_hi, close_lo, close_hi)` in the order they close.
pub open spec fn emphasis_sites(out: Seq<char>, kind: EmphasisKind) -> Seq<Span4> {
    em_fold(utf8_of(out), kind, cmark_at(out)).1
}

fn opens_kind_exec(e: &ParsedEvent, kind: EmphasisKind) -> (r: bool)
    ensures
        r == opens_kind(*e, kind),
{
    match (e, kind) {
        (ParsedEvent::Start(StartTag::Emphasis), EmphasisKind::Italic) => true,
        (ParsedEvent::Start(StartTag::Strong), EmphasisKind::Strong) => true,
        _ => false,
    }
}

fn closes_kind_exec(e: &ParsedEvent, kind: EmphasisKind) -> (r: bool)
    ensures
        r == closes_kind(*e, kind),
{
    match (e, kind) {
        (ParsedEvent::End(EndTag::Emphasis), EmphasisKind::Italic) => true,
        (ParsedEvent::End(EndTag::Strong), EmphasisKind::Strong) => true,
        _ => false,
    }
}

/// Every emphasis span of `kind` in `out`, as its delimiter ranges.
pub fn collect_emphasis_spans(out: &str, kind: EmphasisKind) -> (r: Vec<Span4>)
    ensures
        r@ == emphasis_sites(out@, kind),
{
    let evs = parse_events_at(out);
    let bytes = out.as_bytes();
    let d = kind.delim_len();
    let mut starts: Vec<usize> = Vec::new();
    let mut spans: Vec<Span4> = Vec::new();
    let mut i: usize = 0;
    while i < evs.len()
        invariant
            i <= evs@.len(),
            bytes@ == utf8_of(out@),
            d == delim_count(kind),
            (starts@, spans@) == em_fold(bytes@, kind, evs@.take(i as int)),
        decreases evs@.len() - i,
    {
        proof {
            assert(evs@.take(i + 1).drop_last() =~= evs@.take(i as int));
        }
        if opens_kind_exec(&evs[i].0, kind) {
            starts.push(evs[i].1);
        } else if closes_kind_exec(&evs[i].0, kind) {
            match starts.pop() {
                None => {},
                Some(ol) => {
                    let ch = evs[i].2;
                    let oh = if ol <= usize::MAX - d { ol + d } else { usize::MAX };
                    if ch >= d && oh <= ch - d && oh <= bytes.len() && ch <= bytes.len() {
                        let open = byte_range(out, ol, oh).unwrap();
                        let close = byte_range(out, ch - d, ch).unwrap();
                        if is_emphasis_delim_run(open.as_slice()) && is_emphasis_delim_run(close.as_slice()) {
                            spans.push((ol, oh, ch - d, ch));
                        }
                    }
                },
            }
        }
        i = i + 1;
    }
    assert(evs@.take(evs@.len() as int) =~= evs@);
    spans
}

/// `d` copies of `c`.
pub open spec fn repeated(c: u8, d: int) -> Seq<u8> {
    Seq::new(d as nat, |k: int| c)
}

/// One span's delimiters made `target`, unless both already are, and only
/// where the rewrite keeps the window's meaning.
pub open spec fn emphasis_step(s: Seq<char>, span: Span4, kind: EmphasisKind, target: u8) -> Seq<char> {
    let b = utf8_of(s);
    let (ol, oh, cl, ch) = (span.0 as int, span.1 as int, span.2 as int, span.3 as int);
    let d = delim_count(kind) as int;
    if !(ol <= oh <= b.len()) || !(cl <= ch <= b.len()) || !(oh <= cl) {
        s
    } else if (forall|k: int| ol <= k < oh ==> b[k] == target) && (forall|k: int| cl <= k < ch ==> b[k] == target) {
        s
    } else {
        guarded(s, repeated(target, d) + b.subrange(oh, cl) + repeated(target, d), ol, ch)
    }
}

pub open spec fn emphasis_pass(s: Seq<char>, spans: Seq<Span4>, kind: EmphasisKind, target: u8) -> Seq<char>
    decreases spans.len(),
{
    if spans.len() == 0 {
        s
    } else {
        emphasis_pass(emphasis_step(s, spans.last(), kind, target), spans.drop_last(), kind, target)
    }
}

fn all_target(v: &Vec<u8>, target: u8) -> (r: bool)
    ensures
        r == forall|k: int| 0 <= k < v@.len() ==> v@[k] == target,
{
    let mut i: usize = 0;
    while i < v.len()
        invariant
            i <= v@.len(),
            forall|k: int| 0 <= k < i ==> v@[k] == target,
        decreases v@.len() - i,
    {
        if v[i] != target {
            return false;
        }
        i = i + 1;
    }
    true
}

fn emphasis_one(out: &mut String, span: Span4, kind: EmphasisKind, target: u8)
    ensures
        final(out)@ == emphasis_step(old(out)@, span, kind, target),
{
    let (ol, oh, cl, ch) = span;
    let open = match byte_range(out.as_str(), ol, oh) {
        Some(v) => v,
        None => {
            return;
        },
    };
    let close = match byte_range(out.as_str(), cl, ch) {
        Some(v) => v,
        None => {
            return;
        },
    };
    let inner = match byte_range(out.as_str(), oh, cl) {
        Some(v) => v,
        None => {
            return;
        },
    };
    let ghost b = utf8_of(out@);
    if all_target(&open, target) && all_target(&close, target) {
        assert forall|k: int| ol <= k < oh implies b[k] == target by {
            assert(open@[k - ol] == b[k]);
        }
        assert forall|k: int| cl <= k < ch implies b[k] == target by {
            assert(close@[k - cl] == b[k]);
        }
        return;
    }
    let d = kind.delim_len();
    let mut rewrite: Vec<u8> = Vec::new();
    let mut j: usize = 0;
    while j < d
        invariant
            j <= d,
            rewrite@ == repeated(target, j as int),
        decreases d - j,
    {
        rewrite.push(target);
        assert(rewrite@ =~= repeated(target, j + 1));
        j = j + 1;
    }
    let mut k: usize = 0;
    while k < inner.len()
        invariant
            k <= inner@.len(),
            rewrite@ == repeated(target, d as int) + inner@.take(k as int),
        decreases inner@.len() - k,
    {
        rewrite.push(inner[k]);
        assert(inner@.take(k + 1) =~= inner@.take(k as int).push(inner@[k as int]));
        k = k + 1;
    }
    assert(inner@.take(inner@.len() as int) =~= inner@);
    let ghost mid = rewrite@;
    let mut m: usize = 0;
    while m < d
        invariant
            m <= d,
            rewrite@ == mid + repeated(target, m as int),
        decreases d - m,
    {
        rewrite.push(target);
        assert(rewrite@ =~= mid + repeated(target, m + 1));
        m = m + 1;
    }
    proof {
        if (forall|k: int| ol <= k < oh ==> b[k] == target) && (forall|k: int| cl <= k < ch ==> b[k] == target) {
            assert forall|q: int| 0 <= q < open@.len() implies open@[q] == target by {
                assert(open@[q] == b[ol + q]);
            }
            assert forall|q: int| 0 <= q < close@.len() implies close@[q] == target by {
                assert(close@[q] == b[cl + q]);
            }
        }
    }
    guarded_rewrite(out, ol, ch, rewrite.as_slice());
}

/// Rewrites the delimiters of every emphasis span of `kind` to `target`,
/// from the last span to close to the first, each only where the span's
/// window keeps its meaning.
pub fn rewrite_emphasis_delim(out: &mut String, kind: EmphasisKind, target: u8)
    ensures
        final(out)@ == emphasis_pass(old(out)@, emphasis_sites(old(out)@, kind), kind, target),
{
    let spans = collect_emphasis_spans(out.as_str(), kind);
    let ghost s0 = old(out)@;
    let mut k = spans.len();
    assert(spans@.take(k as int) =~= spans@);
    while k > 0
        invariant
            k <= spans@.len(),
            spans@ == emphasis_sites(s0, kind),
            emphasis_pass(s0, spans@, kind, target) == emphasis_pass(out@, spans@.take(k as int), kind, target),
        decreases k,
    {
        emphasis_one(out, spans[k - 1], kind, target);
        proof {
            assert(spans@.take(k as int).drop_last() =~= spans@.take(k - 1));
            assert(spans@.take(k as int).last() == spans@[k - 1]);
        }
        k = k - 1;
    }
}

// ============================================================
// Link destinations
// ============================================================

/// One event of the link walk: link openings are stacked; a link's
/// close pairs with the last one, and the inline destination between
/// them, if any, is kept.
pub open spec fn link_step(b: Seq<u8>, st: (Seq<usize>, Seq<(int, int)>), ev: (ParsedEvent, usize, usize)) -> (
    Seq<usize>,
    Seq<(int, int)>,
) {
    match ev.0 {
        ParsedEvent::Start(StartTag::Link { .. }) => (st.0.push(ev.1), st.1),
        ParsedEvent::End(EndTag::Link) => if st.0.len() == 0 {
            st
        } else {
            match inline_dest(b, st.0.last() as int, ev.2 as int) {
                Some(p) => (st.0.drop_last(), st.1.push(p)),
                None => (st.0.drop_last(), st.1),
            }
        },
        _ => st,
    }
}

pub open spec fn link_fold(b: Seq<u8>, evs: Seq<(ParsedEvent, usize, usize)>) -> (Seq<usize>, Seq<(int, int)>)
    decreases evs.len(),
{
    if evs.len() == 0 {
        (Seq::empty(), Seq::empty())
    } else {
        link_step(b, link_fold(b, evs.drop_last()), evs.last())
    }
}

/// The destination ranges of `out`: those of its inline links by the
/// named parse, then those of its reference definitions.
pub open spec fn link_sites(out: Seq<char>) -> Seq<(int, int)> {
    let b = utf8_of(out);
    link_fold(b, cmark_at(out)).1 + ref_def_sites_from(b, 0)
}

pub open spec fn pairs_view(v: Seq<(usize, usize)>) -> Seq<(int, int)> {
    v.map_values(|p: (usize, usize)| (p.0 as int, p.1 as int))
}

/// The destination range of every inline link and reference definition
/// of `out`.
pub fn collect_link_destination_sites(out: &str) -> (r: Vec<(usize, usize)>)
    ensures
        pairs_view(r@) == link_sites(out@),
{
    let bytes = out.as_bytes();
    let mut sites: Vec<(usize, usize)> = Vec::new();
    let evs = parse_events_at(out);
    let mut stack: Vec<usize> = Vec::new();
    let mut i: usize = 0;
    assert(pairs_view(sites@) =~= Seq::<(int, int)>::empty());
    while i < evs.len()
        invariant
            i <= evs@.len(),
            bytes@ == utf8_of(out@),
            (stack@, pairs_view(sites@)) == link_fold(bytes@, evs@.take(i as int)),
        decreases evs@.len() - i,
    {
        proof {
            assert(evs@.take(i + 1).drop_last() =~= evs@.take(i as int));
        }
        let ghost pv = pairs_view(sites@);
        match &evs[i].0 {
            ParsedEvent::Start(StartTag::Link { .. }) => {
                stack.push(evs[i].1);
            },
            ParsedEvent::End(EndTag::Link) => {
                match stack.pop() {
                    None => {},
                    Some(open) => {
                        match find_inline_dest_range(bytes, open, evs[i].2) {
                            Some(site) => {
                                sites.push(site);
                                assert(pairs_view(sites@) =~= pv.push((site.0 as int, site.1 as int)));
                            },
                            None => {},
                        }
                    },
                }
            },
            _ => {},
        }
        i = i + 1;
    }
    assert(evs@.take(evs@.len() as int) =~= evs@);
    let ghost inl = pairs_view(sites@);
    let defs = scan_reference_definitions(out);
    let mut j: usize = 0;
    while j < defs.len()
        invariant
            j <= defs@.len(),
            pairs_view(sites@) == inl + pairs_view(defs@).take(j as int),
        decreases defs@.len() - j,
    {
        let ghost pv = pairs_view(sites@);
        sites.push(defs[j]);
        assert(pairs_view(sites@) =~= pv.push((defs@[j as int].0 as int, defs@[j as int].1 as int)));
        assert(pairs_view(defs@).take(j + 1) =~= pairs_view(defs@).take(j as int).push(pairs_view(defs@)[j as int]));
        assert(pairs_view(sites@) =~= inl + pairs_view(defs@).take(j + 1));
        j = j + 1;
    }
    assert(pairs_view(defs@) =~= ref_def_sites_from(utf8_of(out@), 0));
    assert(pairs_view(defs@).take(defs@.len() as int) =~= pairs_view(defs@));
    sites
}

/// A destination written in angle brackets.
pub open spec fn is_angle_dest(d: Seq<u8>) -> bool {
    d.len() >= 2 && d[0] == 0x3Cu8 && d[d.len() - 1] == 0x3Eu8
}

/// One destination switched to the wanted style, where it is in the
/// other and the rewrite keeps the window's meaning.
pub open spec fn link_step_pass(s: Seq<char>, site: (int, int), target: LinkDefStyle) -> Seq<char> {
    let b = utf8_of(s);
    let (lo, hi) = site;
    if !(0 <= lo <= hi <= b.len()) || target == LinkDefStyle::Preserve {
        s
    } else {
        let d = b.subrange(lo, hi);
        let angle = is_angle_dest(d);
        let bare = if angle { d.subrange(1, d.len() - 1) } else { d };
        let want = target == LinkDefStyle::Angle;
        if want == angle {
            s
        } else if want {
            guarded(s, seq![0x3Cu8] + bare + seq![0x3Eu8], lo, hi)
        } else {
            guarded(s, bare, lo, hi)
        }
    }
}

pub open spec fn link_pass(s: Seq<char>, sites: Seq<(int, int)>, target: LinkDefStyle) -> Seq<char>
    decreases sites.len(),
{
    if sites.len() == 0 {
        s
    } else {
        link_pass(link_step_pass(s, sites.last(), target), sites.drop_last(), target)
    }
}

fn link_one(out: &mut String, lo: usize, hi: usize, target: LinkDefStyle)
    ensures
        final(out)@ == link_step_pass(old(out)@, (lo as int, hi as int), target),
{
    let d = match byte_range(out.as_str(), lo, hi) {
        Some(v) => v,
        None => {
            return;
        },
    };
    let want = match target {
        LinkDefStyle::Bare => false,
        LinkDefStyle::Angle => true,
        LinkDefStyle::Preserve => {
            return;
        },
    };
    let n = d.len();
    let angle = n >= 2 && d[0] == 0x3Cu8 && d[n - 1] == 0x3Eu8;
    if want == angle {
        return;
    }
    let (a, z) = if angle { (1, n - 1) } else { (0, n) };
    let mut rewrite: Vec<u8> = Vec::new();
    if want {
        rewrite.push(0x3Cu8);
    }
    let ghost pre = rewrite@;
    let mut k = a;
    while k < z
        invariant
            a <= k <= z <= n == d@.len(),
            rewrite@ == pre + d@.subrange(a as int, k as int),
        decreases z - k,
    {
        rewrite.push(d[k]);
        assert(d@.subrange(a as int, k + 1) =~= d@.subrange(a as int, k as int).push(d@[k as int]));
        k = k + 1;
    }
    if want {
        rewrite.push(0x3Eu8);
    }
    proof {
        assert(angle == is_angle_dest(d@));
        let bare = if angle { d@.subrange(1, d@.len() - 1) } else { d@ };
        if !angle {
            assert(d@.subrange(0, n as int) =~= d@);
        }
        assert(d@.subrange(a as int, z as int) == bare);
        if !want {
            assert(pre =~= Seq::<u8>::empty());
            assert(rewrite@ =~= bare);
        } else {
            assert(rewrite@ =~= seq![0x3Cu8] + bare + seq![0x3Eu8]);
        }
    }
    guarded_rewrite(out, lo, hi, rewrite.as_slice());
}

/// Switches every link destination to the wanted style (angle brackets
/// or bare), from the last site to the first, each only where the
/// window keeps its meaning; nothing for `Preserve`.
pub fn rewrite_link_def_style(out: &mut String, target: LinkDefStyle)
    ensures
        final(out)@ == link_pass(old(out)@, link_sites(old(out)@), target),
{
    let sites = collect_link_destination_sites(out.as_str());
    let ghost s0 = old(out)@;
    let ghost sv = pairs_view(sites@);
    let mut k = sites.len();
    assert(sv.take(k as int) =~= sv);
    while k > 0
        invariant
            k <= sites@.len(),
            sv == pairs_view(sites@),
            sv == link_sites(s0),
            link_pass(s0, sv, target) == link_pass(out@, sv.take(k as int), target),
        decreases k,
    {
        let (lo, hi) = sites[k - 1];
        link_one(out, lo, hi, target);
        proof {
            assert(sv.take(k as int).drop_last() =~= sv.take(k - 1));
            assert(sv.take(k as int).last() == sv[k - 1]);
        }
        k = k - 1;
    }
}

// ============================================================
// The canonicalisation pass
// ============================================================

/// Rounds of the pass before it gives up on a fixed point.
pub const MAX_CANONICALISE_ITERS: u32 = 8;

/// One round: italic and strong delimiters, unordered bullets, ordered
/// renumbering, thematic breaks and link destinations, each where its
/// option asks for it.
pub open spec fn one_pass(s: Seq<char>, o: FmtOptions) -> Seq<char> {
    let s1 = match italic_target(o.italic) {
        Some(t) => emphasis_pass(s, emphasis_sites(s, EmphasisKind::Italic), EmphasisKind::Italic, t),
        None => s,
    };
    let s2 = match strong_target(o.strong) {
        Some(t) => emphasis_pass(s1, emphasis_sites(s1, EmphasisKind::Strong), EmphasisKind::Strong, t),
        None => s1,
    };
    let s3 = match list_marker_target(o.list_marker) {
        Some(t) => bullet_pass(s2, unordered_sites(s2), t),
        None => s2,
    };
    let s4 = if o.ordered_list == OrderedListStyle::Consistent {
        renumber_pass(s3, ordered_sites(s3))
    } else {
        s3
    };
    let s5 = match thematic_target(o.thematic_break_style) {
        Some(t) => thematic_pass(s4, thematic_sites(s4), t),
        None => s4,
    };
    match link_style_target(o.link_def_style) {
        Some(t) => link_pass(s5, link_sites(s5), t),
        None => s5,
    }
}

/// Rounds until one changes nothing, at most `k` of them.
pub open spec fn canonical_rounds(s: Seq<char>, o: FmtOptions, k: nat) -> Seq<char>
    decreases k,
{
    let t = one_pass(s, o);
    if t == s || k <= 1 {
        t
    } else {
        canonical_rounds(t, o, (k - 1) as nat)
    }
}

/// One round of every opted-in rewrite.
pub fn canonicalise_one_pass(out: &mut String, opts: &FmtOptions)
    ensures
        final(out)@ == one_pass(old(out)@, *opts),
{
    match opts.italic_target_byte() {
        Some(t) => rewrite_emphasis_delim(out, EmphasisKind::Italic, t),
        None => {},
    }
    match opts.strong_target_byte() {
        Some(t) => rewrite_emphasis_delim(out, EmphasisKind::Strong, t),
        None => {},
    }
    match opts.list_marker_target_byte() {
        Some(t) => rewrite_unordered_list_marker(out, t),
        None => {},
    }
    if opts.should_renumber_ordered_lists() {
        rewrite_ordered_list_renumber(out);
    }
    match opts.thematic_target_byte() {
        Some(t) => rewrite_thematic(out, t),
        None => {},
    }
    match opts.link_def_target() {
        Some(t) => rewrite_link_def_style(out, t),
        None => {},
    }
}

/// Applies every opted-in style rewrite to `out`, round after round,
/// until a round changes nothing or `MAX_CANONICALISE_ITERS` rounds
/// have run.
pub fn canonicalise(out: &mut String, opts: &FmtOptions)
    ensures
        final(out)@ == canonical_rounds(old(out)@, *opts, MAX_CANONICALISE_ITERS as nat),
{
    let ghost s0 = old(out)@;
    let mut iter: u32 = 0;
    loop
        invariant
            iter < MAX_CANONICALISE_ITERS,
            s0 == old(out)@,
            canonical_rounds(s0, *opts, MAX_CANONICALISE_ITERS as nat) == canonical_rounds(
                out@,
                *opts,
                (MAX_CANONICALISE_ITERS - iter) as nat,
            ),
        decreases MAX_CANONICALISE_ITERS - iter,
    {
        let ghost b = out@;
        let ghost k = (MAX_CANONICALISE_ITERS - iter) as nat;
        let before = out.clone();
        canonicalise_one_pass(out, opts);
        proof {
            assert(canonical_rounds(b, *opts, k) == (if out@ == b || k <= 1 {
                out@
            } else {
                canonical_rounds(out@, *opts, (k - 1) as nat)
            }));
        }
        if str_eq(out.as_str(), before.as_str()) {
            return;
        }
        iter = iter + 1;
        if iter >= MAX_CANONICALISE_ITERS {
            return;
        }
    }
}
} // verus!
