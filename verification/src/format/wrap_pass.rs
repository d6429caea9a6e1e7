//! Paragraph re-wrapping over rendered output bytes.
//!
//! For each paragraph the pass knows its byte range, the container
//! prefix of its first line, the unbreakable inline ranges (code spans,
//! links, images, inline HTML, math) and its hard breaks. It tokenises
//! the text between hard breaks on whitespace, keeping every atomic
//! range inside one token, lays the tokens out in lines with a
//! squared-slack dynamic programme, and re-emits them with the
//! continuation prefix on every line after the first.

use std::ops::Range;
use vstd::prelude::*;
use vstd::utf8::*;
use crate::config::Wrap;
use crate::format::canonicalise::byte_at;
use crate::format::wrap::{
    add_u32, add_u64, badness, badness_spec, breaker_steps, lemma_breaker_step_within, lemma_breaker_steps_grow, budget_spent, clock_now, cost_is_lower, cost_is_reached, display_width,
    division_cost, lemma_cost_zero, lemma_division_bound, lemma_trace_push, lemma_trace_update, sat_add_u32, sat_add_u64,
    str_width, trace, valid_breaks,
};
use crate::text::{lemma_utf8_of_valid, slice_ok, str_eq, str_get, string_from_utf8, utf8_of};
use crate::format::canonicalise::{chars_of_bytes, commit_rewrite, committed, lemma_chars_of_bytes};
use crate::format::semantic::{cmark_at, dec_sat, equivalent_sources, inc_sat, parse_events_at, semantically_equivalent, EndTag, ParsedEvent, StartTag};
use vstd::slice::slice_subrange;

verus! {

/// A hard break inside a paragraph: the marker (`\` or two spaces)
/// starting at `marker_lo`, and the newline at `nl` that ends its line.
#[derive(Clone, Copy, Debug)]
pub struct HardBreak {
    pub marker_lo: usize,
    pub nl: usize,
    pub marker: &'static str,
}

/// The last newline in `[lo, hi)`.
pub open spec fn last_nl_in(b: Seq<u8>, lo: int, hi: int) -> Option<int>
    decreases hi - lo,
{
    if hi <= lo {
        None
    } else if b[hi - 1] == 0x0Au8 {
        Some(hi - 1)
    } else {
        last_nl_in(b, lo, hi - 1)
    }
}

/// The hard break a `HardBreak` event over `[start, end)` denotes:
/// `(marker_lo, nl, marker)`. The event ends at a newline; a
/// backslash before it (not itself escaped) or two spaces before it
/// make the marker.
pub open spec fn hard_break_shape(b: Seq<u8>, start: int, end: int) -> Option<(int, int, Seq<char>)> {
    if !(0 <= start <= end <= b.len()) {
        None
    } else {
        match last_nl_in(b, start, end) {
            None => None,
            Some(nl) => if nl < 1 {
                None
            } else if b[nl - 1] == 0x5Cu8 {
                if nl >= 2 && b[nl - 2] == 0x5Cu8 {
                    None
                } else {
                    Some((nl - 1, nl, "\\"@))
                }
            } else if b[nl - 1] == 0x20u8 && nl >= 2 && b[nl - 2] == 0x20u8 {
                Some((nl - 2, nl, "  "@))
            } else {
                None
            },
        }
    }
}

/// Reads the hard break of a `HardBreak` event spanning `[start, end)`.
pub fn classify_hard_break(bytes: &[u8], start: usize, end: usize) -> (r: Option<HardBreak>)
    ensures
        match r {
            None => hard_break_shape(bytes@, start as int, end as int) is None,
            Some(h) => hard_break_shape(bytes@, start as int, end as int) == Some(
                (h.marker_lo as int, h.nl as int, h.marker@),
            ),
        },
{
    if !(start <= end && end <= bytes.len()) {
        return None;
    }
    let mut k = end;
    while k > start && bytes[k - 1] != 0x0Au8
        invariant
            start <= k <= end <= bytes@.len(),
            last_nl_in(bytes@, start as int, k as int) == last_nl_in(bytes@, start as int, end as int),
        decreases k,
    {
        k = k - 1;
    }
    if k == start {
        return None;
    }
    let nl = k - 1;
    if nl < 1 {
        return None;
    }
    let before = bytes[nl - 1];
    if before == 0x5Cu8 {
        if nl >= 2 && bytes[nl - 2] == 0x5Cu8 {
            return None;
        }
        let m = "\\";
        proof {
            reveal_strlit("\\");
            reveal_strlit("  ");
        }
        return Some(HardBreak { marker_lo: nl - 1, nl, marker: m });
    }
    if before == 0x20u8 && nl >= 2 && bytes[nl - 2] == 0x20u8 {
        let m = "  ";
        proof {
            reveal_strlit("\\");
            reveal_strlit("  ");
            assert("  "@.len() == 2 && "\\"@.len() == 1);
        }
        return Some(HardBreak { marker_lo: nl - 2, nl, marker: m });
    }
    None
}

/// The start of the line that holds `p`: just after the last newline
/// before it, or 0.
pub open spec fn line_start_of(b: Seq<u8>, p: int) -> int {
    match last_nl_in(b, 0, p) {
        Some(n) => n + 1,
        None => 0,
    }
}

/// The container prefix of a paragraph's first line: the bytes from the
/// start of the line to where the paragraph's content starts, when they
/// are well-formed UTF-8.
pub fn extract_first_prefix(bytes: &[u8], content_lo: usize) -> (r: Option<(usize, String)>)
    ensures
        match r {
            None => content_lo > bytes@.len() || !valid_utf8(
                bytes@.subrange(line_start_of(bytes@, content_lo as int), content_lo as int),
            ),
            Some((lo, s)) => content_lo <= bytes@.len() && lo == line_start_of(bytes@, content_lo as int)
                && utf8_of(s@) == bytes@.subrange(lo as int, content_lo as int),
        },
{
    if content_lo > bytes.len() {
        return None;
    }
    let mut k = content_lo;
    while k > 0 && bytes[k - 1] != 0x0Au8
        invariant
            k <= content_lo <= bytes@.len(),
            last_nl_in(bytes@, 0, k as int) == last_nl_in(bytes@, 0, content_lo as int),
        decreases k,
    {
        k = k - 1;
    }
    let line_lo = k;
    let mut prefix: Vec<u8> = Vec::new();
    let mut i = line_lo;
    while i < content_lo
        invariant
            line_lo <= i <= content_lo <= bytes@.len(),
            prefix@ == bytes@.subrange(line_lo as int, i as int),
        decreases content_lo - i,
    {
        prefix.push(bytes[i]);
        assert(prefix@ =~= bytes@.subrange(line_lo as int, i + 1));
        i = i + 1;
    }
    match string_from_utf8(prefix) {
        Some(s) => Some((line_lo, s)),
        None => None,
    }
}

/// The first newline at or after `i`.
pub open spec fn next_nl_from(b: Seq<u8>, i: int) -> Option<int>
    decreases b.len() - i,
{
    if i < 0 || i >= b.len() {
        None
    } else if b[i] == 0x0Au8 {
        Some(i)
    } else {
        next_nl_from(b, i + 1)
    }
}

/// The end of a paragraph's physical lines: just past the newline that
/// ends its last line, or the end of the text.
pub open spec fn line_hi_of(b: Seq<u8>, content_hi: int) -> int {
    let ch = if content_hi <= b.len() { content_hi } else { b.len() as int };
    if ch > 0 && b[ch - 1] == 0x0Au8 {
        ch
    } else {
        match next_nl_from(b, ch) {
            Some(p) => p + 1,
            None => b.len() as int,
        }
    }
}

pub fn extract_line_hi(bytes: &[u8], content_hi: usize) -> (r: usize)
    ensures
        r == line_hi_of(bytes@, content_hi as int),
{
    let len = bytes.len();
    let ch = if content_hi <= len { content_hi } else { len };
    if ch > 0 && bytes[ch - 1] == 0x0Au8 {
        return ch;
    }
    let mut k = ch;
    while k < len && bytes[k] != 0x0Au8
        invariant
            ch <= k <= len == bytes@.len(),
            next_nl_from(bytes@, k as int) == next_nl_from(bytes@, ch as int),
        decreases len - k,
    {
        k = k + 1;
    }
    if k == len {
        len
    } else {
        k + 1
    }
}

/// `n` spaces.
pub open spec fn space_run(n: nat) -> Seq<char> {
    Seq::new(n, |_i: int| ' ')
}

/// The end of the digit run from `i`.
pub open spec fn digit_run_end(b: Seq<u8>, i: int) -> int
    decreases b.len() - i,
{
    if 0 <= i < b.len() && 0x30u8 <= b[i] <= 0x39u8 {
        digit_run_end(b, i + 1)
    } else {
        i
    }
}

/// The end of an ordered marker that starts with digits at `i`: the
/// digits, an optional `.` or `)`, an optional space.
pub open spec fn ordered_marker_end(b: Seq<u8>, i: int) -> int {
    let d = digit_run_end(b, i);
    let p = if byte_at(b, d) == Some(0x2Eu8) || byte_at(b, d) == Some(0x29u8) { d + 1 } else { d };
    if byte_at(b, p) == Some(0x20u8) { p + 1 } else { p }
}

/// One step of the continuation-prefix derivation at `i`: what it
/// emits and where it goes on. A blockquote marker (with the space after
/// it) is kept, a bullet becomes as many spaces as it and its space
/// took, an ordered marker (digits, `.` or `)`, a space) likewise;
/// spaces and tabs are kept; any other byte stops the derivation.
pub open spec fn cont_step(b: Seq<u8>, i: int) -> Option<(Seq<char>, int)> {
    let c = b[i];
    if c == 0x3Eu8 {
        if byte_at(b, i + 1) == Some(0x20u8) {
            Some((seq!['>', ' '], i + 2))
        } else {
            Some((seq!['>'], i + 1))
        }
    } else if c == 0x20u8 || c == 0x09u8 {
        Some((seq![c as char], i + 1))
    } else if c == 0x2Du8 || c == 0x2Au8 || c == 0x2Bu8 {
        if byte_at(b, i + 1) == Some(0x20u8) {
            Some((seq![' ', ' '], i + 2))
        } else {
            Some((seq![' '], i + 1))
        }
    } else if 0x30u8 <= c <= 0x39u8 {
        let e = ordered_marker_end(b, i);
        Some((space_run((e - i) as nat), e))
    } else {
        None
    }
}

/// The continuation prefix derived from the first-line prefix bytes from
/// `i`; `None` when a byte the derivation does not model occurs.
pub open spec fn cont_prefix_from(b: Seq<u8>, i: int) -> Option<Seq<char>>
    decreases b.len() - i,
{
    if i < 0 || i >= b.len() {
        Some(Seq::empty())
    } else {
        match cont_step(b, i) {
            None => None,
            Some((head, next)) => if next <= i || next > b.len() {
                None
            } else {
                match cont_prefix_from(b, next) {
                    Some(rest) => Some(head + rest),
                    None => None,
                }
            },
        }
    }
}

/// Performs one derivation step at `i < bytes.len()`.
fn cont_prefix_step(bytes: &[u8], i: usize, out: &mut String) -> (r: Option<usize>)
    requires
        i < bytes@.len(),
    ensures
        match cont_step(bytes@, i as int) {
            None => r is None && final(out)@ == old(out)@,
            Some((head, next)) => r == Some(next as usize) && final(out)@ == old(out)@ + head && i < next <= bytes@.len(),
        },
{
    let c = bytes[i];
    if c == 0x3Eu8 {
        out.push('>');
        if i + 1 < bytes.len() && bytes[i + 1] == 0x20u8 {
            out.push(' ');
            assert(out@ =~= old(out)@ + seq!['>', ' ']);
            return Some(i + 2);
        }
        assert(out@ =~= old(out)@ + seq!['>']);
        Some(i + 1)
    } else if c == 0x20u8 || c == 0x09u8 {
        out.push(if c == 0x20u8 { ' ' } else { '\t' });
        assert(out@ =~= old(out)@ + seq![c as char]);
        Some(i + 1)
    } else if c == 0x2Du8 || c == 0x2Au8 || c == 0x2Bu8 {
        out.push(' ');
        if i + 1 < bytes.len() && bytes[i + 1] == 0x20u8 {
            out.push(' ');
            assert(out@ =~= old(out)@ + seq![' ', ' ']);
            return Some(i + 2);
        }
        assert(out@ =~= old(out)@ + seq![' ']);
        Some(i + 1)
    } else if 0x30u8 <= c && c <= 0x39u8 {
        let mut j = i;
        while j < bytes.len() && 0x30u8 <= bytes[j] && bytes[j] <= 0x39u8
            invariant
                i <= j <= bytes@.len(),
                digit_run_end(bytes@, j as int) == digit_run_end(bytes@, i as int),
            decreases bytes@.len() - j,
        {
            j = j + 1;
        }
        if j < bytes.len() && (bytes[j] == 0x2Eu8 || bytes[j] == 0x29u8) {
            j = j + 1;
        }
        if j < bytes.len() && bytes[j] == 0x20u8 {
            j = j + 1;
        }
        assert(j as int == ordered_marker_end(bytes@, i as int));
        let consumed = j - i;
        let mut k: usize = 0;
        while k < consumed
            invariant
                k <= consumed,
                out@ == old(out)@ + space_run(k as nat),
            decreases consumed - k,
        {
            out.push(' ');
            assert(old(out)@ + space_run((k + 1) as nat) =~= (old(out)@ + space_run(k as nat)).push(' '));
            k = k + 1;
        }
        Some(j)
    } else {
        None
    }
}

/// The prefix for a paragraph's continuation lines, from its first
/// line's prefix; `None` for a prefix the pass does not model
/// (footnote or definition-list markers), whose paragraphs are left as
/// they are.
pub fn derive_continuation_prefix(first: &str) -> (r: Option<String>)
    ensures
        match r {
            Some(s) => cont_prefix_from(utf8_of(first@), 0) == Some(s@),
            None => cont_prefix_from(utf8_of(first@), 0) is None,
        },
{
    let bytes = first.as_bytes();
    let ghost b = bytes@;
    let mut out = String::new();
    let mut i: usize = 0;
    while i < bytes.len()
        invariant
            b == bytes@,
            b == utf8_of(first@),
            i <= b.len(),
            match cont_prefix_from(b, i as int) {
                Some(rest) => cont_prefix_from(b, 0) == Some(out@ + rest),
                None => cont_prefix_from(b, 0) is None,
            },
        decreases b.len() - i,
    {
        let ghost before = out@;
        match cont_prefix_step(bytes, i, &mut out) {
            None => {
                return None;
            },
            Some(next) => {
                proof {
                    let head = cont_step(b, i as int).unwrap().0;
                    match cont_prefix_from(b, next as int) {
                        Some(rest) => {
                            assert(before + (head + rest) =~= out@ + rest);
                        },
                        None => {},
                    }
                }
                i = next;
            },
        }
    }
    assert(out@ + Seq::<char>::empty() =~= out@);
    Some(out)
}

/// What the rewrite needs to know about one paragraph.
#[derive(Clone, Debug)]
pub struct Paragraph {
    /// The paragraph's physical lines: from the start of its first line
    /// through the newline that ends its last line.
    pub line_lo: usize,
    pub line_hi: usize,
    /// The paragraph's content, as the parser reported it.
    pub content_lo: usize,
    pub content_hi: usize,
    /// The first line's container prefix, verbatim.
    pub first_prefix: String,
    /// The prefix of every continuation line.
    pub cont_prefix: String,
    /// Unbreakable inline ranges.
    pub atomics: Vec<Range<usize>>,
    /// Hard breaks, in source order.
    pub hard_breaks: Vec<HardBreak>,
}

/// The segment starts: the content start, then just past every hard
/// break (from the `k`-th on) that begins at or after the current start
/// and ends inside the content.
pub open spec fn cut_list(hbs: Seq<HardBreak>, k: int, start: int, hi: int) -> Seq<int>
    decreases hbs.len() - k,
{
    if k < 0 || k >= hbs.len() {
        seq![start]
    } else if hbs[k].marker_lo >= start && hbs[k].nl < hi {
        seq![start] + cut_list(hbs, k + 1, hbs[k].nl + 1, hi)
    } else {
        cut_list(hbs, k + 1, start, hi)
    }
}

/// The end of the segment that starts at cut `i`: the marker of the
/// `i`-th listed hard break, or the content end for the last cut.
pub open spec fn seg_end_at(cuts: Seq<int>, hbs: Seq<HardBreak>, hi: int, i: int) -> int {
    if i + 1 < cuts.len() {
        if i < hbs.len() {
            hbs[i].marker_lo as int
        } else {
            hi
        }
    } else {
        hi
    }
}

/// The segments from cut `i` on: every cut whose end is not before it.
pub open spec fn segs_from(cuts: Seq<int>, hbs: Seq<HardBreak>, hi: int, i: int) -> Seq<(int, int)>
    decreases cuts.len() - i,
{
    if i < 0 || i >= cuts.len() {
        Seq::empty()
    } else {
        let e = seg_end_at(cuts, hbs, hi, i);
        (if e >= cuts[i] {
            seq![(cuts[i], e)]
        } else {
            Seq::empty()
        }) + segs_from(cuts, hbs, hi, i + 1)
    }
}

/// A paragraph's content split at its hard breaks.
pub open spec fn segments_of(p: Paragraph) -> Seq<(int, int)> {
    let cuts = cut_list(p.hard_breaks@, 0, p.content_lo as int, p.content_hi as int);
    let s = segs_from(cuts, p.hard_breaks@, p.content_hi as int, 0);
    if s.len() == 0 {
        seq![(p.content_lo as int, p.content_hi as int)]
    } else {
        s
    }
}

/// The ranges of a list of ranges, as integer pairs.
pub open spec fn range_pairs(v: Seq<Range<usize>>) -> Seq<(int, int)> {
    v.map_values(|r: Range<usize>| (r.start as int, r.end as int))
}

/// Splits a paragraph's content into the segments between its hard
/// breaks; the text of each is laid out on its own.
pub fn split_at_hard_breaks(p: &Paragraph, bytes: &[u8]) -> (r: Vec<Range<usize>>)
    ensures
        range_pairs(r@) == segments_of(*p),
{
    let ghost hbs = p.hard_breaks@;
    let ghost hi = p.content_hi as int;
    let mut cuts: Vec<usize> = Vec::new();
    let mut start = p.content_lo;
    let mut k: usize = 0;
    while k < p.hard_breaks.len()
        invariant
            hbs == p.hard_breaks@,
            hi == p.content_hi,
            k <= hbs.len(),
            cuts@.map_values(|c: usize| c as int) + cut_list(hbs, k as int, start as int, hi) == cut_list(
                hbs,
                0,
                p.content_lo as int,
                hi,
            ),
        decreases hbs.len() - k,
    {
        let hb = p.hard_breaks[k];
        if hb.marker_lo >= start && hb.nl < p.content_hi {
            let ghost before = cuts@.map_values(|c: usize| c as int);
            cuts.push(start);
            assert(cuts@.map_values(|c: usize| c as int) =~= before.push(start as int));
            assert(before + cut_list(hbs, k as int, start as int, hi) =~= cuts@.map_values(|c: usize| c as int)
                + cut_list(hbs, k + 1, hb.nl + 1, hi));
            start = hb.nl + 1;
        }
        k = k + 1;
    }
    let ghost before = cuts@.map_values(|c: usize| c as int);
    cuts.push(start);
    let ghost cl = cut_list(hbs, 0, p.content_lo as int, hi);
    assert(cuts@.map_values(|c: usize| c as int) =~= before + seq![start as int]);
    assert(cuts@.map_values(|c: usize| c as int) == cl);
    let mut segments: Vec<Range<usize>> = Vec::new();
    let mut i: usize = 0;
    while i < cuts.len()
        invariant
            hbs == p.hard_breaks@,
            hi == p.content_hi,
            cl == cuts@.map_values(|c: usize| c as int),
            i <= cuts@.len(),
            range_pairs(segments@) + segs_from(cl, hbs, hi, i as int) == segs_from(cl, hbs, hi, 0),
        decreases cuts@.len() - i,
    {
        let lo = cuts[i];
        let e = if i + 1 < cuts.len() {
            if i < p.hard_breaks.len() {
                p.hard_breaks[i].marker_lo
            } else {
                p.content_hi
            }
        } else {
            p.content_hi
        };
        let ghost before = range_pairs(segments@);
        if e >= lo {
            segments.push(lo..e);
            assert(range_pairs(segments@) =~= before.push((lo as int, e as int)));
        }
        assert(before + segs_from(cl, hbs, hi, i as int) =~= range_pairs(segments@) + segs_from(cl, hbs, hi, i + 1));
        i = i + 1;
    }
    assert(range_pairs(segments@) + Seq::<(int, int)>::empty() =~= range_pairs(segments@));
    if segments.len() == 0 {
        segments.push(p.content_lo..p.content_hi);
        assert(range_pairs(segments@) =~= seq![(p.content_lo as int, p.content_hi as int)]);
    }
    segments
}

/// A word or atomic run of a paragraph, with its display width.
#[derive(Clone, Copy, Debug)]
pub struct Token<'a> {
    pub text: &'a str,
    pub width: u32,
}

/// A token's text and width.
pub open spec fn token_view<'a>(t: Token<'a>) -> (Seq<char>, u32) {
    (t.text@, t.width)
}

/// A display width clamped to `u32`.
pub open spec fn width_u32(s: Seq<char>) -> u32 {
    if display_width(s) > u32::MAX {
        u32::MAX
    } else {
        display_width(s) as u32
    }
}

/// The token for bytes `[s, e)`: its text, when the range is in bounds,
/// non-empty and well-formed UTF-8.
pub open spec fn token_of(b: Seq<u8>, r: (int, int)) -> Option<(Seq<char>, u32)> {
    if 0 <= r.0 < r.1 <= b.len() && valid_utf8(b.subrange(r.0, r.1)) {
        let t = decode_utf8(b.subrange(r.0, r.1));
        Some((t, width_u32(t)))
    } else {
        None
    }
}

/// The tokens of a list of byte ranges; ranges that make no token drop.
pub open spec fn tokens_of(b: Seq<u8>, rs: Seq<(int, int)>) -> Seq<(Seq<char>, u32)>
    decreases rs.len(),
{
    if rs.len() == 0 {
        Seq::empty()
    } else {
        tokens_of(b, rs.drop_last()) + match token_of(b, rs.last()) {
            Some(t) => seq![t],
            None => Seq::empty(),
        }
    }
}

/// Calls `std::str::from_utf8`.
///
/// Trusted: it succeeds exactly on well-formed UTF-8, and the string it
/// returns views the same bytes.
#[verifier::external_body]
fn str_from_utf8<'a>(b: &'a [u8]) -> (r: Option<&'a str>)
    ensures
        r is Some <==> valid_utf8(b@),
        r matches Some(s) ==> utf8_of(s@) == b@,
{
    std::str::from_utf8(b).ok()
}

/// A display width clamped to `u32`.
pub fn display_width_u32(s: &str) -> (r: u32)
    ensures
        r == width_u32(s@),
{
    let w = str_width(s);
    if w > 0xFFFF_FFFFusize {
        0xFFFF_FFFFu32
    } else {
        w as u32
    }
}

/// Appends the token for bytes `range`, if they make one.
pub fn push_slice<'a>(bytes: &'a [u8], range: Range<usize>, tokens: &mut Vec<Token<'a>>)
    ensures
        final(tokens)@.map_values(|t: Token<'a>| token_view(t)) == old(tokens)@.map_values(|t: Token<'a>| token_view(t))
            + match token_of(bytes@, (range.start as int, range.end as int)) {
            Some(t) => seq![t],
            None => Seq::empty(),
        },
{
    let ghost before = tokens@.map_values(|t: Token<'a>| token_view(t));
    if !(range.start <= range.end && range.end <= bytes.len()) {
        assert(tokens@.map_values(|t: Token<'a>| token_view(t)) =~= before + Seq::empty());
        return;
    }
    let slice = slice_subrange(bytes, range.start, range.end);
    match str_from_utf8(slice) {
        None => {
            assert(tokens@.map_values(|t: Token<'a>| token_view(t)) =~= before + Seq::empty());
        },
        Some(s) => {
            if range.start == range.end {
                assert(tokens@.map_values(|t: Token<'a>| token_view(t)) =~= before + Seq::empty());
                return;
            }
            let width = display_width_u32(s);
            proof {
                encode_utf8_decode_utf8(s@);
            }
            tokens.push(Token { text: s, width });
            assert(tokens@.map_values(|t: Token<'a>| token_view(t)) =~= before + seq![(s@, width)]);
        },
    }
}

/// The ranges flushed when a token in progress ends at `end`.
pub open spec fn flush_range(ts: Option<usize>, end: int) -> Seq<(int, int)> {
    match ts {
        Some(s) => if end > s {
            seq![(s as int, end)]
        } else {
            Seq::empty()
        },
        None => Seq::empty(),
    }
}

/// Ends the token in progress at `end` and appends it.
pub fn flush_token<'a>(bytes: &'a [u8], tok_start: &mut Option<usize>, end: usize, tokens: &mut Vec<Token<'a>>)
    ensures
        *final(tok_start) is None,
        final(tokens)@.map_values(|t: Token<'a>| token_view(t)) == old(tokens)@.map_values(|t: Token<'a>| token_view(t))
            + tokens_of(bytes@, flush_range(*old(tok_start), end as int)),
{
    let ghost before = tokens@.map_values(|t: Token<'a>| token_view(t));
    let ts = tok_start.take();
    match ts {
        Some(start) => {
            if end > start {
                push_slice(bytes, start..end, tokens);
                proof {
                    let rs = seq![(start as int, end as int)];
                    assert(rs.drop_last() =~= Seq::<(int, int)>::empty());
                    assert(tokens_of(bytes@, Seq::<(int, int)>::empty()) =~= Seq::empty());
                    assert(tokens_of(bytes@, rs) =~= Seq::empty() + match token_of(bytes@, rs.last()) {
                        Some(t) => seq![t],
                        None => Seq::empty(),
                    });
                }
            } else {
                assert(tokens@.map_values(|t: Token<'a>| token_view(t)) =~= before + Seq::empty());
            }
        },
        None => {
            assert(tokens@.map_values(|t: Token<'a>| token_view(t)) =~= before + Seq::empty());
        },
    }
}


/// Tokens of concatenated range lists are concatenated tokens.
proof fn lemma_tokens_of_concat(b: Seq<u8>, r1: Seq<(int, int)>, r2: Seq<(int, int)>)
    ensures
        tokens_of(b, r1 + r2) == tokens_of(b, r1) + tokens_of(b, r2),
    decreases r2.len(),
{
    if r2.len() == 0 {
        assert(r1 + r2 =~= r1);
        assert(tokens_of(b, r2) =~= Seq::empty());
        assert(tokens_of(b, r1) + tokens_of(b, r2) =~= tokens_of(b, r1));
    } else {
        lemma_tokens_of_concat(b, r1, r2.drop_last());
        assert((r1 + r2).drop_last() =~= r1 + r2.drop_last());
        assert((r1 + r2).last() == r2.last());
    }
}

/// Atomic range `a` lies inside segment `seg`.
pub open spec fn in_seg(a: Range<usize>, seg: Range<usize>) -> bool {
    a.start >= seg.start && a.end <= seg.end
}

/// The end of the first atomic range (from the `k`-th) inside `seg`
/// that starts at `i`.
pub open spec fn atomic_end_at(atoms: Seq<Range<usize>>, seg: Range<usize>, i: int, k: int) -> Option<int>
    decreases atoms.len() - k,
{
    if k < 0 || k >= atoms.len() {
        None
    } else if in_seg(atoms[k], seg) && atoms[k].start == i {
        Some(atoms[k].end as int)
    } else {
        atomic_end_at(atoms, seg, i, k + 1)
    }
}

fn find_atomic_end(atomics: &[Range<usize>], seg: &Range<usize>, i: usize) -> (r: Option<usize>)
    ensures
        match r {
            Some(e) => atomic_end_at(atomics@, *seg, i as int, 0) == Some(e as int),
            None => atomic_end_at(atomics@, *seg, i as int, 0) is None,
        },
{
    let mut k: usize = 0;
    while k < atomics.len()
        invariant
            k <= atomics@.len(),
            atomic_end_at(atomics@, *seg, i as int, k as int) == atomic_end_at(atomics@, *seg, i as int, 0),
        decreases atomics@.len() - k,
    {
        let a = &atomics[k];
        if a.start >= seg.start && a.end <= seg.end && a.start == i {
            return Some(a.end);
        }
        k = k + 1;
    }
    None
}

/// The token byte ranges of a segment, scanning from `i` with a token
/// in progress since `ts`: whitespace ends a token, an atomic range is
/// swallowed whole into the token, and after a newline the continuation
/// prefix must follow and is skipped. `None` when a continuation line
/// does not start with the prefix.
pub open spec fn token_ranges(
    b: Seq<u8>,
    atoms: Seq<Range<usize>>,
    seg: Range<usize>,
    prefix: Seq<u8>,
    i: int,
    ts: Option<usize>,
) -> Option<Seq<(int, int)>>
    decreases seg.end - i,
{
    if i >= seg.end || i < 0 {
        Some(flush_range(ts, seg.end as int))
    } else {
        match atomic_end_at(atoms, seg, i, 0) {
            Some(e) => if e <= i || e > seg.end {
                None
            } else {
                token_ranges(b, atoms, seg, prefix, e, if ts is Some { ts } else { Some(i as usize) })
            },
            None => {
                let c = match byte_at(b, i) {
                    Some(x) => x,
                    None => 0x20u8,
                };
                if c == 0x0Au8 {
                    let f = flush_range(ts, i);
                    let j = i + 1;
                    if prefix.len() > 0 && j < seg.end {
                        let upper = j + prefix.len();
                        if upper > seg.end || upper > b.len() || b.subrange(j, upper) != prefix {
                            None
                        } else {
                            match token_ranges(b, atoms, seg, prefix, upper, None) {
                                Some(rest) => Some(f + rest),
                                None => None,
                            }
                        }
                    } else {
                        match token_ranges(b, atoms, seg, prefix, j, None) {
                            Some(rest) => Some(f + rest),
                            None => None,
                        }
                    }
                } else if c == 0x20u8 || c == 0x09u8 {
                    match token_ranges(b, atoms, seg, prefix, i + 1, None) {
                        Some(rest) => Some(flush_range(ts, i) + rest),
                        None => None,
                    }
                } else {
                    token_ranges(b, atoms, seg, prefix, i + 1, if ts is Some { ts } else { Some(i as usize) })
                }
            },
        }
    }
}

/// Whether `bytes[lo..lo + p.len()]` is `p`, in bounds.
fn bytes_match_at(bytes: &[u8], lo: usize, p: &[u8]) -> (r: bool)
    requires
        lo + p@.len() <= usize::MAX,
    ensures
        r == (lo + p@.len() <= bytes@.len() && bytes@.subrange(lo as int, lo + p@.len()) == p@),
{
    if lo + p.len() > bytes.len() {
        return false;
    }
    let n = bytes.len();
    let mut k: usize = 0;
    while k < p.len()
        invariant
            n == bytes@.len(),
            lo + p@.len() <= n,
            k <= p@.len(),
            forall|m: int| 0 <= m < k ==> bytes@[lo + m] == p@[m],
        decreases p@.len() - k,
    {
        assert(lo + k < n);
        if bytes[lo + k] != p[k] {
            assert(bytes@.subrange(lo as int, lo + p@.len())[k as int] != p@[k as int]);
            return false;
        }
        k = k + 1;
    }
    assert(bytes@.subrange(lo as int, lo + p@.len()) =~= p@);
    true
}

/// Splits a segment into tokens: runs of non-whitespace bytes, each
/// atomic range kept whole inside one token; the continuation prefix
/// after each newline is skipped. `None` when a continuation line does
/// not carry the prefix, or when the first atomic range that starts at a
/// position the scan reaches is empty (the scan could not move past it):
/// the paragraph then keeps its bytes.
pub fn tokenize_segment<'a>(bytes: &'a [u8], seg: &Range<usize>, atomics: &[Range<usize>], cont_prefix: &str) -> (r: Option<Vec<Token<'a>>>)
    ensures
        match token_ranges(bytes@, atomics@, *seg, utf8_of(cont_prefix@), seg.start as int, None) {
            None => r is None,
            Some(rs) => r matches Some(v) && v@.map_values(|t: Token<'a>| token_view(t)) == tokens_of(bytes@, rs),
        },
{
    let prefix_bytes = cont_prefix.as_bytes();
    let ghost b = bytes@;
    let ghost pre = prefix_bytes@;
    let ghost top = token_ranges(b, atomics@, *seg, pre, seg.start as int, None);
    let mut tokens: Vec<Token<'a>> = Vec::new();
    let mut tok_start: Option<usize> = None;
    let mut i = seg.start;
    let ghost mut done: Seq<(int, int)> = Seq::empty();
    while i < seg.end
        invariant
            b == bytes@,
            pre == prefix_bytes@,
            pre == utf8_of(cont_prefix@),
            top == token_ranges(b, atomics@, *seg, pre, seg.start as int, None),
            tokens@.map_values(|t: Token<'a>| token_view(t)) == tokens_of(b, done),
            match token_ranges(b, atomics@, *seg, pre, i as int, tok_start) {
                Some(rest) => top == Some(done + rest),
                None => top is None,
            },
        decreases seg.end - i,
    {
        match find_atomic_end(atomics, seg, i) {
            Some(e) => {
                if e <= i || e > seg.end {
                    return None;
                }
                if tok_start.is_none() {
                    tok_start = Some(i);
                }
                i = e;
                continue;
            },
            None => {},
        }
        let c = if i < bytes.len() {
            bytes[i]
        } else {
            0x20u8
        };
        if c == 0x0Au8 {
            let ghost old_done = done;
            let ghost f = flush_range(tok_start, i as int);
            flush_token(bytes, &mut tok_start, i, &mut tokens);
            proof {
                lemma_tokens_of_concat(b, done, f);
                done = done + f;
            }
            let j = i + 1;
            if prefix_bytes.len() > 0 && j < seg.end {
                if prefix_bytes.len() > seg.end - j {
                    return None;
                }
                let upper = j + prefix_bytes.len();
                if !bytes_match_at(bytes, j, prefix_bytes) {
                    return None;
                }
                proof {
                    match token_ranges(b, atomics@, *seg, pre, upper as int, None) {
                        Some(rest) => {
                            assert(old_done + (f + rest) =~= done + rest);
                        },
                        None => {},
                    }
                }
                i = upper;
            } else {
                proof {
                    match token_ranges(b, atomics@, *seg, pre, j as int, None) {
                        Some(rest) => {
                            assert(old_done + (f + rest) =~= done + rest);
                        },
                        None => {},
                    }
                }
                i = j;
            }
            continue;
        }
        if c == 0x20u8 || c == 0x09u8 {
            let ghost old_done = done;
            let ghost f = flush_range(tok_start, i as int);
            flush_token(bytes, &mut tok_start, i, &mut tokens);
            proof {
                lemma_tokens_of_concat(b, done, f);
                done = done + f;
                match token_ranges(b, atomics@, *seg, pre, i + 1, None) {
                    Some(rest) => {
                        assert(old_done + (f + rest) =~= done + rest);
                    },
                    None => {},
                }
            }
            i = i + 1;
            continue;
        }
        if tok_start.is_none() {
            tok_start = Some(i);
        }
        i = i + 1;
    }
    let ghost f = flush_range(tok_start, seg.end as int);
    flush_token(bytes, &mut tok_start, seg.end, &mut tokens);
    proof {
        lemma_tokens_of_concat(b, done, f);
    }
    Some(tokens)
}


/// The most tokens a paragraph may have for the layout to run.
pub const MAX_WRAP_TOKENS: usize = 100_000;

/// How many layout steps pass between looks at the clock.
pub const TIME_CHECK_STRIDE: usize = 1024;

/// The widths of the token views.
pub open spec fn token_widths<'a>(ts: Seq<Token<'a>>) -> Seq<u32> {
    ts.map_values(|t: Token<'a>| t.width)
}

/// The widths of tokens `[i, j)` summed, saturating at `u32::MAX`.
pub open spec fn width_sum(w: Seq<u32>, i: int, j: int) -> u32
    decreases j - i,
{
    if j <= i {
        0
    } else {
        sat_add_u32(width_sum(w, i, j - 1) as int, w[j - 1] as int)
    }
}

/// The width of a line holding tokens `[i, j)`: their widths and one
/// column between each two, saturating; out-of-range bounds count no
/// token width.
pub open spec fn tokens_line_width(w: Seq<u32>, i: int, j: int) -> u32 {
    let words: u32 = if 0 <= i <= j <= w.len() { width_sum(w, i, j) } else { 0 };
    let gaps: int = if j - i - 1 > 0 { j - i - 1 } else { 0 };
    let glue: u32 = if gaps > u32::MAX { 0 } else { gaps as u32 };
    sat_add_u32(words as int, glue as int)
}

pub fn line_width(tokens: &[Token<'_>], i: usize, j: usize) -> (r: u32)
    ensures
        r == tokens_line_width(token_widths(tokens@), i as int, j as int),
{
    let ghost w = token_widths(tokens@);
    let mut words: u32 = 0;
    if i <= j && j <= tokens.len() {
        let mut k = i;
        while k < j
            invariant
                i <= k <= j <= tokens@.len(),
                w == token_widths(tokens@),
                words == width_sum(w, i as int, k as int),
            decreases j - k,
        {
            words = add_u32(words, tokens[k].width);
            k = k + 1;
        }
    }
    let gaps = if j > i { j - i - 1 } else { 0 };
    let glue: u32 = if gaps > 0xFFFF_FFFFusize { 0 } else { gaps as u32 };
    add_u32(words, glue)
}

/// Lines cover the tokens in order, each line at least one token.
pub open spec fn lines_cover<'a>(lines: Seq<Vec<Token<'a>>>, tokens: Seq<Token<'a>>) -> bool {
    &&& forall|k: int| 0 <= k < lines.len() ==> (#[trigger] lines[k])@.len() > 0
    &&& flatten_lines(lines) == tokens
}

/// The tokens of the lines, in order.
pub open spec fn flatten_lines<'a>(lines: Seq<Vec<Token<'a>>>) -> Seq<Token<'a>>
    decreases lines.len(),
{
    if lines.len() == 0 {
        Seq::empty()
    } else {
        flatten_lines(lines.drop_last()) + lines.last()@
    }
}

/// The column target of the line `i..j` of a paragraph of `n` tokens:
/// `first` for the first line, `cont` after it; the last line also
/// leaves `extra` columns, and targets at least one.
pub open spec fn layout_target(first: u32, cont: u32, extra: u32, n: int, i: int, j: int) -> u32 {
    let raw = if i == 0 {
        first
    } else {
        cont
    };
    if j == n {
        let t: u32 = if raw > extra {
            (raw - extra) as u32
        } else {
            0
        };
        if t < 1 {
            1
        } else {
            t
        }
    } else {
        raw
    }
}

/// The line costs of a paragraph layout.
pub open spec fn layout_costs(w: Seq<u32>, first: u32, cont: u32, extra: u32, n: int) -> spec_fn(int, int) -> u64 {
    |i: int, j: int| badness_spec(tokens_line_width(w, i, j), layout_target(first, cont, extra, n, i, j), j == n, j - i)
}

/// Where each line ends: the running count of tokens.
pub open spec fn line_ends<'a>(lines: Seq<Vec<Token<'a>>>) -> Seq<usize>
    decreases lines.len(),
{
    if lines.len() == 0 {
        seq![]
    } else {
        line_ends(lines.drop_last()).push(flatten_lines(lines).len() as usize)
    }
}

/// `lines` divide `tokens` at valid line ends, and no other division of
/// them into lines costs less.
#[verifier::opaque]
pub open spec fn optimal_layout<'a>(
    lines: Seq<Vec<Token<'a>>>,
    tokens: Seq<Token<'a>>,
    first: u32,
    cont: u32,
    extra: u32,
) -> bool {
    let n = tokens.len() as int;
    let lc = layout_costs(token_widths(tokens), first, cont, extra, n);
    &&& valid_breaks(line_ends(lines), n)
    &&& forall|bs: Seq<usize>| #[trigger] valid_breaks(bs, n) ==> division_cost(lc, line_ends(lines))
        <= division_cost(lc, bs)
}

/// Lays tokens out in lines, choosing breaks that minimise the summed
/// squared slack (the last line is free; one oversized token pays a
/// fixed penalty; several tokens that overflow are not allowed): no
/// other division into lines costs less. The first line targets
/// `first_target` columns, the others `cont_target`; the last line also
/// leaves room for `last_line_extra`. `None` when the paragraph has more
/// than `MAX_WRAP_TOKENS` tokens or the time budget runs out; below
/// `TIME_CHECK_STRIDE` steps the clock is not read and the layout is owed.
#[verifier::rlimit(30)]
pub fn layout_lines<'a>(
    tokens: &[Token<'a>],
    first_target: u32,
    cont_target: u32,
    last_line_extra: u32,
    start: std::time::Instant,
) -> (r: Option<Vec<Vec<Token<'a>>>>)
    ensures
        tokens@.len() == 0 ==> (r matches Some(v) && v@.len() == 0),
        tokens@.len() > MAX_WRAP_TOKENS ==> r is None,
        breaker_steps(tokens@.len() as int) < TIME_CHECK_STRIDE ==> r is Some,
        r matches Some(v) ==> lines_cover(v@, tokens@),
        r matches Some(v) ==> optimal_layout(v@, tokens@, first_target, cont_target, last_line_extra),
{
    let n = tokens.len();
    let ghost w = token_widths(tokens@);
    let ghost lc = layout_costs(w, first_target, cont_target, last_line_extra, n as int);
    if n == 0 {
        let v: Vec<Vec<Token<'a>>> = Vec::new();
        assert(flatten_lines(v@) =~= tokens@);
        proof {
            reveal(optimal_layout);
            assert(line_ends(v@) =~= Seq::<usize>::empty());
            assert forall|bs: Seq<usize>| #[trigger] valid_breaks(bs, 0) implies division_cost(lc, line_ends(v@))
                <= division_cost(lc, bs) by {
                assert(bs.len() == 0);
            }
        }
        return Some(v);
    }
    if n > MAX_WRAP_TOKENS {
        proof {
            lemma_breaker_steps_grow(0, n - 1);
        }
        return None;
    }
    let mut cost: Vec<u64> = Vec::new();
    let mut prev: Vec<usize> = Vec::new();
    let mut z: usize = 0;
    while z <= n
        invariant
            z <= n + 1,
            n == tokens@.len(),
            n <= MAX_WRAP_TOKENS,
            cost@.len() == z,
            prev@.len() == z,
            forall|q: int| 0 <= q < z ==> #[trigger] prev@[q] < q || q == 0,
            z > 0 ==> cost@[0] == 0,
            forall|q: int| 0 < q < z ==> #[trigger] cost@[q] == u64::MAX,
        decreases n + 1 - z,
    {
        cost.push(if z == 0 {
            0
        } else {
            u64::MAX
        });
        prev.push(0);
        z = z + 1;
    }
    proof {
        lemma_cost_zero(lc, cost@);
    }
    let mut tick: usize = 0;
    let mut j: usize = 1;
    while j <= n
        invariant
            1 <= j <= n + 1,
            n == tokens@.len(),
            n <= MAX_WRAP_TOKENS,
            w == token_widths(tokens@),
            lc == layout_costs(w, first_target, cont_target, last_line_extra, n as int),
            cost@.len() == n + 1,
            prev@.len() == n + 1,
            forall|q: int| 0 < q <= n ==> #[trigger] prev@[q] < q,
            cost@[0] == 0,
            forall|q: int| j <= q <= n ==> #[trigger] cost@[q] == u64::MAX,
            forall|q: int| 0 <= q < j ==> #[trigger] cost_is_lower(lc, cost@, q),
            forall|q: int| 0 <= q < j ==> #[trigger] cost_is_reached(lc, cost@, prev@, q),
            tick as int <= breaker_steps(j - 1),
        decreases n + 1 - j,
    {
        let mut i: usize = 0;
        while i < j
            invariant
                i <= j <= n,
                n == tokens@.len(),
                w == token_widths(tokens@),
                lc == layout_costs(w, first_target, cont_target, last_line_extra, n as int),
                cost@.len() == n + 1,
                prev@.len() == n + 1,
                forall|q: int| 0 < q <= n ==> #[trigger] prev@[q] < q,
                cost@[0] == 0,
                forall|q: int| j < q <= n ==> #[trigger] cost@[q] == u64::MAX,
                forall|q: int| 0 <= q < j ==> #[trigger] cost_is_lower(lc, cost@, q),
                forall|q: int| 0 <= q < j ==> #[trigger] cost_is_reached(lc, cost@, prev@, q),
                forall|p: int| 0 <= p < i && cost@[p] != u64::MAX ==> cost@[j as int] <= sat_add_u64(
                    cost@[p] as int,
                    #[trigger] lc(p, j as int) as int,
                ),
                cost@[j as int] < u64::MAX ==> (prev@[j as int] as int) < j && cost@[prev@[j as int] as int]
                    < u64::MAX && cost@[j as int] == sat_add_u64(
                    cost@[prev@[j as int] as int] as int,
                    lc(prev@[j as int] as int, j as int) as int,
                ),
                tick as int <= breaker_steps(j - 1) + i,
            decreases j - i,
        {
            tick = if tick < usize::MAX {
                tick + 1
            } else {
                tick
            };
            proof {
                lemma_breaker_step_within(i as int, j as int, n as int);
            }
            if tick % TIME_CHECK_STRIDE == 0 && budget_spent(&start) {
                return None;
            }
            let base = cost[i];
            if base != u64::MAX {
                let raw_target = if i == 0 {
                    first_target
                } else {
                    cont_target
                };
                let target = if j == n {
                    let t = if raw_target > last_line_extra {
                        raw_target - last_line_extra
                    } else {
                        0
                    };
                    if t < 1 {
                        1
                    } else {
                        t
                    }
                } else {
                    raw_target
                };
                let line_w = line_width(tokens, i, j);
                let bad = badness(line_w, target, j == n, j - i);
                assert(bad == lc(i as int, j as int));
                let total = add_u64(base, bad);
                if total < cost[j] {
                    let ghost old_cost = cost@;
                    let ghost old_prev = prev@;
                    cost.set(j, total);
                    prev.set(j, i);
                    proof {
                        assert forall|q: int| 0 <= q < j implies #[trigger] cost_is_lower(lc, cost@, q) by {
                            assert(cost_is_lower(lc, old_cost, q));
                            assert(cost@[q] == old_cost[q]);
                        }
                        assert forall|q: int| 0 <= q < j implies #[trigger] cost_is_reached(lc, cost@, prev@, q) by {
                            assert(cost_is_reached(lc, old_cost, old_prev, q));
                            lemma_trace_update(old_prev, q, j as int, i);
                        }
                    }
                }
            }
            i = i + 1;
        }
        proof {
            assert(cost_is_lower(lc, cost@, j as int)) by {
                assert forall|bs: Seq<usize>| #[trigger] valid_breaks(bs, j as int) implies cost@[j as int]
                    <= division_cost(lc, bs) by {
                    lemma_division_bound(lc, cost@, j as int, bs);
                }
            }
            if cost@[j as int] < u64::MAX {
                let p = prev@[j as int] as int;
                assert(cost_is_reached(lc, cost@, prev@, p));
                lemma_trace_push(lc, prev@, p, j as int);
            }
            assert(cost_is_reached(lc, cost@, prev@, j as int));
        }
        j = j + 1;
    }
    // The line ends, last first.
    let mut rev: Vec<usize> = Vec::new();
    let mut jj = n;
    while jj > 0
        invariant
            jj <= n,
            n == tokens@.len(),
            prev@.len() == n + 1,
            forall|q: int| 0 < q <= n ==> #[trigger] prev@[q] < q,
            forall|k: int| 0 <= k < rev@.len() ==> jj < #[trigger] rev@[k] <= n,
            forall|a: int, b: int| 0 <= a < b < rev@.len() ==> #[trigger] rev@[a] > #[trigger] rev@[b],
            rev@.len() > 0 ==> rev@[0] == n,
            rev@.len() == 0 ==> jj == n,
            trace(prev@, n as int) == trace(prev@, jj as int) + rev@.reverse(),
        decreases jj,
    {
        proof {
            let t = trace(prev@, prev@[jj as int] as int);
            assert(trace(prev@, jj as int) == t.push(jj));
            assert(t.push(jj) + rev@.reverse() =~= t + rev@.push(jj).reverse());
        }
        rev.push(jj);
        jj = prev[jj];
    }
    let ghost bsq = rev@.reverse();
    proof {
        assert(trace(prev@, 0) =~= Seq::<usize>::empty());
        assert(trace(prev@, n as int) =~= bsq);
    }
    let mut lines: Vec<Vec<Token<'a>>> = Vec::new();
    let mut consumed: usize = 0;
    let mut k = rev.len();
    proof {
        assert(line_ends(lines@) =~= bsq.take(0));
    }
    while k > 0
        invariant
            k <= rev@.len(),
            rev@.len() > 0,
            rev@[0] == n,
            n == tokens@.len(),
            bsq == rev@.reverse(),
            forall|q: int| 0 <= q < rev@.len() ==> 0 < #[trigger] rev@[q] <= n,
            forall|a: int, b: int| 0 <= a < b < rev@.len() ==> #[trigger] rev@[a] > #[trigger] rev@[b],
            consumed == (if k == rev@.len() { 0 } else { rev@[k as int] }),
            consumed <= n,
            forall|q: int| 0 <= q < lines@.len() ==> (#[trigger] lines@[q])@.len() > 0,
            flatten_lines(lines@) == tokens@.take(consumed as int),
            line_ends(lines@) == bsq.take(rev@.len() - k),
        decreases k,
    {
        let end = rev[k - 1];
        assert(end > consumed) by {
            if k < rev@.len() {
                assert(rev@[k - 1] > rev@[k as int]);
            }
        }
        let mut line: Vec<Token<'a>> = Vec::new();
        let mut t = consumed;
        while t < end
            invariant
                consumed <= t <= end <= n,
                n == tokens@.len(),
                line@ == tokens@.subrange(consumed as int, t as int),
            decreases end - t,
        {
            line.push(tokens[t]);
            assert(line@ =~= tokens@.subrange(consumed as int, t + 1));
            t = t + 1;
        }
        let ghost before = lines@;
        lines.push(line);
        proof {
            assert(lines@.drop_last() =~= before);
            assert(tokens@.take(consumed as int) + tokens@.subrange(consumed as int, end as int) =~= tokens@.take(end as int));
            assert(bsq[rev@.len() - k] == rev@[k - 1]);
            assert(bsq.take(rev@.len() - k + 1) =~= bsq.take(rev@.len() - k).push(end));
        }
        consumed = end;
        k = k - 1;
    }
    assert(tokens@.take(n as int) =~= tokens@);
    proof {
        reveal(optimal_layout);
        assert(bsq.take(rev@.len() as int) =~= bsq);
        assert(cost_is_lower(lc, cost@, n as int));
        assert(cost_is_reached(lc, cost@, prev@, n as int));
        assert forall|bs: Seq<usize>| #[trigger] valid_breaks(bs, n as int) implies division_cost(lc, line_ends(lines@))
            <= division_cost(lc, bs) by {
            assert(cost@[n as int] <= division_cost(lc, bs));
        }
        assert forall|a: int, b: int| 0 <= a < b < bsq.len() implies #[trigger] bsq[a] < #[trigger] bsq[b] by {
            assert(rev@[rev@.len() - 1 - b] > rev@[rev@.len() - 1 - a]);
        }
        assert(bsq.last() == rev@[0]);
    }
    Some(lines)
}


/// Token texts joined by single spaces.
pub open spec fn join_tokens(line: Seq<Seq<char>>) -> Seq<char>
    decreases line.len(),
{
    if line.len() == 0 {
        Seq::empty()
    } else if line.len() == 1 {
        line[0]
    } else {
        join_tokens(line.drop_last()) + seq![' '] + line.last()
    }
}

/// Lines joined by a newline and the continuation prefix.
pub open spec fn join_lines(lines: Seq<Seq<Seq<char>>>, cont: Seq<char>) -> Seq<char>
    decreases lines.len(),
{
    if lines.len() == 0 {
        Seq::empty()
    } else if lines.len() == 1 {
        join_tokens(lines[0])
    } else {
        join_lines(lines.drop_last(), cont) + seq!['\n'] + cont + join_tokens(lines.last())
    }
}

/// The text of segments `0..k`: each segment's lines, and after every
/// segment but the last its hard-break marker, a newline and the
/// continuation prefix.
pub open spec fn emit_segments(
    lines: Seq<Seq<Seq<Seq<char>>>>,
    markers: Seq<Seq<char>>,
    nsegs: int,
    cont: Seq<char>,
    k: int,
) -> Seq<char>
    decreases k,
{
    if k <= 0 {
        Seq::empty()
    } else {
        emit_segments(lines, markers, nsegs, cont, k - 1) + join_lines(lines[k - 1], cont) + (if k < nsegs {
            markers[k - 1] + seq!['\n'] + cont
        } else {
            Seq::empty()
        })
    }
}

/// A segment's bounds as a range.
pub open spec fn seg_range(s: (int, int)) -> Range<usize> {
    (s.0 as usize)..(s.1 as usize)
}

/// The token texts of segment `seg`, when it tokenises.
pub open spec fn seg_tokens(p: Paragraph, b: Seq<u8>, seg: (int, int)) -> Option<Seq<Seq<char>>> {
    match token_ranges(
        b,
        p.atomics@,
        seg_range(seg),
        utf8_of(p.cont_prefix@),
        seg.0,
        None,
    ) {
        Some(rs) => Some(tokens_of(b, rs).map_values(|t: (Seq<char>, u32)| t.0)),
        None => None,
    }
}

/// The token texts of some lines, in order.
pub open spec fn flatten_texts(lines: Seq<Seq<Seq<char>>>) -> Seq<Seq<char>>
    decreases lines.len(),
{
    if lines.len() == 0 {
        Seq::empty()
    } else {
        flatten_texts(lines.drop_last()) + lines.last()
    }
}

/// `lines` lays out `toks`: non-empty lines that hold the tokens in
/// order; without wrapping (`No`) a segment is one line.
pub open spec fn lays_out(lines: Seq<Seq<Seq<char>>>, toks: Seq<Seq<char>>, mode: Wrap) -> bool {
    &&& forall|k: int| 0 <= k < lines.len() ==> (#[trigger] lines[k]).len() > 0
    &&& flatten_texts(lines) == toks
    &&& mode is No ==> lines == (if toks.len() == 0 { Seq::<Seq<Seq<char>>>::empty() } else { seq![toks] })
}

/// The paragraph tokenises: its content range is in bounds, every
/// segment tokenises, and every segment but the last has its hard
/// break listed.
pub open spec fn rewrap_input_ok(p: Paragraph, b: Seq<u8>) -> bool {
    let segs = segments_of(p);
    &&& p.content_lo <= p.content_hi <= b.len()
    &&& forall|k: int| 0 <= k < segs.len() ==> #[trigger] seg_tokens(p, b, segs[k]) is Some
    &&& segs.len() - 1 <= p.hard_breaks@.len()
}

/// Whether the source's last paragraph line ended with a newline.
pub open spec fn had_trailing_nl(p: Paragraph, b: Seq<u8>) -> bool {
    p.line_hi > 0 && byte_at(b, p.line_hi - 1) == Some(0x0Au8)
}

/// The re-emitted paragraph for some choice of lines per segment.
pub open spec fn rewrapped(p: Paragraph, b: Seq<u8>, lines: Seq<Seq<Seq<Seq<char>>>>) -> Seq<char> {
    let segs = segments_of(p);
    p.first_prefix@ + emit_segments(
        lines,
        p.hard_breaks@.map_values(|h: HardBreak| h.marker@),
        segs.len() as int,
        p.cont_prefix@,
        segs.len() as int,
    ) + (if had_trailing_nl(p, b) { seq!['\n'] } else { Seq::empty() })
}

/// Every segment has so few tokens that laying it out never reads the
/// clock.
pub open spec fn layout_unhurried(p: Paragraph, b: Seq<u8>) -> bool {
    forall|k: int|
        0 <= k < segments_of(p).len() ==> breaker_steps(
            (#[trigger] seg_tokens(p, b, segments_of(p)[k])).unwrap().len() as int,
        ) < TIME_CHECK_STRIDE
}

/// Re-emits a paragraph: the first-line prefix, then each segment's
/// tokens laid out in lines (every line after the first behind the
/// continuation prefix), each hard break's marker after its segment,
/// and the final newline if the source had one. `Keep` rewrites
/// nothing; `No` puts each segment on one line; `At(n)` lays the tokens
/// out within `n` columns. `None` when the paragraph does not tokenise,
/// or (for `At`) when the layout gives up on time, which it cannot do
/// while every segment is small enough that the clock is never read.
#[verifier::rlimit(30)]
pub fn rewrap_paragraph(out: &str, p: &Paragraph, mode: Wrap) -> (r: Option<String>)
    requires
        forall|q: int| 0 <= q < segments_of(*p).len() ==> #[trigger] segments_of(*p)[q].0 >= 0 && segments_of(*p)[q].1 <= usize::MAX,
    ensures
        mode is Keep ==> r is None,
        (mode is No && rewrap_input_ok(*p, utf8_of(out@))) ==> r is Some,
        (mode is At && rewrap_input_ok(*p, utf8_of(out@)) && layout_unhurried(*p, utf8_of(out@))) ==> r is Some,
        r is Some ==> rewrap_input_ok(*p, utf8_of(out@)) && !(mode is Keep),
        r matches Some(t) ==> exists|lines: Seq<Seq<Seq<Seq<char>>>>|
            lines.len() == segments_of(*p).len() && (forall|k: int| 0 <= k < lines.len() ==> lays_out(
                #[trigger] lines[k],
                seg_tokens(*p, utf8_of(out@), segments_of(*p)[k]).unwrap(),
                mode,
            )) && t@ == rewrapped(*p, utf8_of(out@), lines),
{
    let bytes = out.as_bytes();
    let ghost b = bytes@;
    if matches!(mode, Wrap::Keep) {
        return None;
    }
    if !(p.content_lo <= p.content_hi && p.content_hi <= bytes.len()) {
        return None;
    }
    let trailing_nl = p.line_hi > 0 && p.line_hi - 1 < bytes.len() && bytes[p.line_hi - 1] == 0x0Au8;
    let segments = split_at_hard_breaks(p, bytes);
    let ghost segs = segments_of(*p);
    let first_prefix_width = display_width_u32(p.first_prefix.as_str());
    let cont_prefix_width = display_width_u32(p.cont_prefix.as_str());
    let target: u32 = match mode {
        Wrap::Keep => 0xFFFF_FFFFu32,
        Wrap::No => 0xFFFF_FFFFu32,
        Wrap::At(n) => if n < 1 {
            1
        } else {
            n
        },
    };
    let ghost markers = p.hard_breaks@.map_values(|h: HardBreak| h.marker@);
    let ghost cont = p.cont_prefix@;
    let mut emitted = String::new();
    emitted.push_str(p.first_prefix.as_str());
    let start = clock_now();
    let ghost mut chosen: Seq<Seq<Seq<Seq<char>>>> = Seq::empty();
    let mut seg_idx: usize = 0;
    while seg_idx < segments.len()
        invariant
            b == bytes@,
            b == utf8_of(out@),
            segs == segments_of(*p),
            range_pairs(segments@) == segs,
            markers == p.hard_breaks@.map_values(|h: HardBreak| h.marker@),
            cont == p.cont_prefix@,
            !(mode is Keep),
            p.content_lo <= p.content_hi <= b.len(),
            seg_idx <= segments@.len(),
            chosen.len() == seg_idx,
            forall|k: int| 0 <= k < seg_idx ==> #[trigger] seg_tokens(*p, b, segs[k]) is Some,
            forall|k: int| 0 <= k < seg_idx ==> lays_out(#[trigger] chosen[k], seg_tokens(*p, b, segs[k]).unwrap(), mode),
            seg_idx < segs.len() ==> seg_idx <= p.hard_breaks@.len(),
            seg_idx >= segs.len() ==> segs.len() - 1 <= p.hard_breaks@.len(),
            emitted@ == p.first_prefix@ + emit_segments(chosen, markers, segs.len() as int, cont, seg_idx as int),
            forall|q: int| 0 <= q < segments_of(*p).len() ==> #[trigger] segments_of(*p)[q].0 >= 0 && segments_of(*p)[q].1 <= usize::MAX,
        decreases segments@.len() - seg_idx,
    {
        let seg = segments[seg_idx].clone();
        proof {
            assert(range_pairs(segments@)[seg_idx as int] == (seg.start as int, seg.end as int));
            assert(seg == seg_range(segs[seg_idx as int]));
        }
        let tokens = match tokenize_segment(bytes, &seg, p.atomics.as_slice(), p.cont_prefix.as_str()) {
            Some(t) => t,
            None => {
                return None;
            },
        };
        let ghost toks = tokens@.map_values(|t: Token<'_>| token_view(t).0);
        assert(seg_tokens(*p, b, segs[seg_idx as int]) == Some(toks)) by {
            assert(tokens@.map_values(|t: Token<'_>| token_view(t)).map_values(|t: (Seq<char>, u32)| t.0) =~= toks);
        }
        let first_target = if seg_idx == 0 {
            let t = if target > first_prefix_width { target - first_prefix_width } else { 0 };
            if t < 1 { 1 } else { t }
        } else {
            let t = if target > cont_prefix_width { target - cont_prefix_width } else { 0 };
            if t < 1 { 1 } else { t }
        };
        let cont_target = {
            let t = if target > cont_prefix_width { target - cont_prefix_width } else { 0 };
            if t < 1 { 1 } else { t }
        };
        let last_line_extra = if seg_idx + 1 < segments.len() {
            if seg_idx < p.hard_breaks.len() {
                display_width_u32(p.hard_breaks[seg_idx].marker)
            } else {
                0
            }
        } else {
            0
        };
        let ghost tok_seq = tokens@;
        let lines: Vec<Vec<Token<'_>>> = if tokens.len() == 0 {
            let v: Vec<Vec<Token<'_>>> = Vec::new();
            assert(flatten_lines(v@) =~= tok_seq);
            v
        } else {
            match mode {
                Wrap::No => {
                    let mut v: Vec<Vec<Token<'_>>> = Vec::new();
                    v.push(tokens);
                    proof {
                        assert(v@.drop_last() =~= Seq::<Vec<Token<'_>>>::empty());
                        assert(flatten_lines(v@.drop_last()) =~= Seq::<Token<'_>>::empty());
                        assert(flatten_lines(v@) =~= tok_seq);
                    }
                    v
                },
                _ => match layout_lines(tokens.as_slice(), first_target, cont_target, last_line_extra, start) {
                    Some(l) => l,
                    None => {
                        return None;
                    },
                },
            }
        };
        let ghost line_texts = lines@.map_values(|l: Vec<Token<'_>>| l@.map_values(|t: Token<'_>| t.text@));
        proof {
            assert(flatten_lines(lines@) == tok_seq);
            lemma_flatten_texts(lines@);
            assert(toks =~= tok_seq.map_values(|t: Token<'_>| t.text@));
            assert(flatten_texts(line_texts) == toks);
            assert forall|k: int| 0 <= k < line_texts.len() implies (#[trigger] line_texts[k]).len() > 0 by {
                assert(line_texts[k].len() == lines@[k]@.len());
            }
            if mode is No {
                if toks.len() == 0 {
                    assert(line_texts =~= Seq::<Seq<Seq<char>>>::empty());
                } else {
                    assert(lines@.len() == 1);
                    assert(line_texts[0] =~= toks);
                    assert(line_texts =~= seq![toks]);
                }
            }
            assert(lays_out(line_texts, toks, mode));
        }
        let ghost seg_start = emitted@;
        let mut li: usize = 0;
        while li < lines.len()
            invariant
                li <= lines@.len(),
                line_texts == lines@.map_values(|l: Vec<Token<'_>>| l@.map_values(|t: Token<'_>| t.text@)),
                cont == p.cont_prefix@,
                emitted@ == seg_start + join_lines(line_texts.take(li as int), cont),
            decreases lines@.len() - li,
        {
            let ghost before = emitted@;
            if li > 0 {
                emitted.push('\n');
                emitted.push_str(p.cont_prefix.as_str());
            }
            let line = &lines[li];
            let ghost mid = emitted@;
            let mut k: usize = 0;
            while k < line.len()
                invariant
                    k <= line@.len(),
                    *line == lines@[li as int],
                    emitted@ == mid + join_tokens(line@.map_values(|t: Token<'_>| t.text@).take(k as int)),
                decreases line@.len() - k,
            {
                let ghost lt = line@.map_values(|t: Token<'_>| t.text@);
                if k > 0 {
                    emitted.push(' ');
                }
                emitted.push_str(line[k].text);
                proof {
                    assert(lt.take(k + 1).drop_last() =~= lt.take(k as int));
                    if k == 0 {
                        assert(lt.take(1) =~= seq![lt[0]]);
                    }
                    assert(emitted@ =~= mid + join_tokens(lt.take(k + 1)));
                }
                k = k + 1;
            }
            proof {
                let lt = line@.map_values(|t: Token<'_>| t.text@);
                assert(lt.take(line@.len() as int) =~= lt);
                assert(line_texts[li as int] == lt);
                assert(line_texts.take(li + 1).drop_last() =~= line_texts.take(li as int));
                if li == 0 {
                    assert(line_texts.take(1) =~= seq![line_texts[0]]);
                    assert(emitted@ =~= seg_start + join_lines(line_texts.take(1), cont));
                } else {
                    assert(emitted@ =~= seg_start + join_lines(line_texts.take(li + 1), cont));
                }
            }
            li = li + 1;
        }
        assert(line_texts.take(lines@.len() as int) =~= line_texts);
        let ghost before_marker = emitted@;
        if seg_idx + 1 < segments.len() {
            if seg_idx >= p.hard_breaks.len() {
                return None;
            }
            let hb = p.hard_breaks[seg_idx];
            emitted.push_str(hb.marker);
            emitted.push('\n');
            emitted.push_str(p.cont_prefix.as_str());
            assert(markers[seg_idx as int] == hb.marker@);
        }
        proof {
            let ch2 = chosen.push(line_texts);
            assert(ch2.take(seg_idx as int) =~= chosen);
            assert forall|k: int| 0 <= k < seg_idx + 1 implies lays_out(#[trigger] ch2[k], seg_tokens(*p, b, segs[k]).unwrap(), mode) by {
                if k < seg_idx {
                    assert(ch2[k] == chosen[k]);
                }
            }
            lemma_emit_segments_prefix(chosen, ch2, markers, segs.len() as int, cont, seg_idx as int);
            assert(emitted@ =~= p.first_prefix@ + emit_segments(ch2, markers, segs.len() as int, cont, seg_idx + 1));
            chosen = ch2;
        }
        seg_idx = seg_idx + 1;
    }
    if trailing_nl {
        emitted.push('\n');
    }
    proof {
        assert(had_trailing_nl(*p, b) == trailing_nl);
        assert(emitted@ =~= rewrapped(*p, b, chosen));
        assert(rewrap_input_ok(*p, b));
    }
    Some(emitted)
}

/// Flattening the token texts of some token lines.
proof fn lemma_flatten_texts<'a>(lines: Seq<Vec<Token<'a>>>)
    ensures
        flatten_texts(lines.map_values(|l: Vec<Token<'a>>| l@.map_values(|t: Token<'a>| t.text@))) == flatten_lines(
            lines,
        ).map_values(|t: Token<'a>| t.text@),
    decreases lines.len(),
{
    if lines.len() > 0 {
        lemma_flatten_texts(lines.drop_last());
        assert(lines.map_values(|l: Vec<Token<'a>>| l@.map_values(|t: Token<'a>| t.text@)).drop_last() =~= lines.drop_last().map_values(
            |l: Vec<Token<'a>>| l@.map_values(|t: Token<'a>| t.text@),
        ));
        assert((flatten_lines(lines.drop_last()) + lines.last()@).map_values(|t: Token<'a>| t.text@) =~= flatten_lines(
            lines.drop_last(),
        ).map_values(|t: Token<'a>| t.text@) + lines.last()@.map_values(|t: Token<'a>| t.text@));
    } else {
        assert(flatten_texts(lines.map_values(|l: Vec<Token<'a>>| l@.map_values(|t: Token<'a>| t.text@))) =~= Seq::empty());
        assert(flatten_lines(lines).map_values(|t: Token<'a>| t.text@) =~= Seq::empty());
    }
}

/// `emit_segments` up to `k` reads only the first `k` segments' lines.
proof fn lemma_emit_segments_prefix(
    a: Seq<Seq<Seq<Seq<char>>>>,
    b: Seq<Seq<Seq<Seq<char>>>>,
    markers: Seq<Seq<char>>,
    nsegs: int,
    cont: Seq<char>,
    k: int,
)
    requires
        0 <= k <= a.len(),
        k <= b.len(),
        forall|q: int| 0 <= q < k ==> a[q] == b[q],
    ensures
        emit_segments(a, markers, nsegs, cont, k) == emit_segments(b, markers, nsegs, cont, k),
    decreases k,
{
    if k > 0 {
        lemma_emit_segments_prefix(a, b, markers, nsegs, cont, k - 1);
    }
}


// ============================================================
// Finding the paragraphs
// ============================================================

/// A hard break as plain values: marker start, newline, and whether the
/// marker is a backslash.
pub open spec fn hb_view(h: HardBreak) -> (int, int, Seq<char>) {
    (h.marker_lo as int, h.nl as int, h.marker@)
}

/// A paragraph being collected.
pub struct PartialView {
    pub content_lo: usize,
    pub content_hi: usize,
    pub atomics: Seq<Range<usize>>,
    pub hard_breaks: Seq<(int, int, Seq<char>)>,
    pub links: Seq<usize>,
}

/// A collected paragraph as plain values.
pub struct ParaView {
    pub line_lo: int,
    pub line_hi: int,
    pub content_lo: usize,
    pub content_hi: usize,
    pub first_prefix: Seq<char>,
    pub cont_prefix: Seq<char>,
    pub atomics: Seq<Range<usize>>,
    pub hard_breaks: Seq<(int, int, Seq<char>)>,
}

pub open spec fn para_view(p: Paragraph) -> ParaView {
    ParaView {
        line_lo: p.line_lo as int,
        line_hi: p.line_hi as int,
        content_lo: p.content_lo,
        content_hi: p.content_hi,
        first_prefix: p.first_prefix@,
        cont_prefix: p.cont_prefix@,
        atomics: p.atomics@,
        hard_breaks: hb_views(p.hard_breaks@),
    }
}

/// `x` inserted into `s` after every range that starts no later.
pub open spec fn ins_by_start(s: Seq<Range<usize>>, x: Range<usize>) -> Seq<Range<usize>>
    decreases s.len(),
{
    if s.len() == 0 {
        seq![x]
    } else if s.last().start <= x.start {
        s.push(x)
    } else {
        ins_by_start(s.drop_last(), x).push(s.last())
    }
}

/// `s` sorted by start, equal starts kept in order.
pub open spec fn sort_by_start(s: Seq<Range<usize>>) -> Seq<Range<usize>>
    decreases s.len(),
{
    if s.len() == 0 {
        s
    } else {
        ins_by_start(sort_by_start(s.drop_last()), s.last())
    }
}

pub open spec fn ins_by_nl(s: Seq<(int, int, Seq<char>)>, x: (int, int, Seq<char>)) -> Seq<(int, int, Seq<char>)>
    decreases s.len(),
{
    if s.len() == 0 {
        seq![x]
    } else if s.last().1 <= x.1 {
        s.push(x)
    } else {
        ins_by_nl(s.drop_last(), x).push(s.last())
    }
}

/// Hard breaks sorted by newline, equal ones kept in order.
pub open spec fn sort_by_nl(s: Seq<(int, int, Seq<char>)>) -> Seq<(int, int, Seq<char>)>
    decreases s.len(),
{
    if s.len() == 0 {
        s
    } else {
        ins_by_nl(sort_by_nl(s.drop_last()), s.last())
    }
}

/// A collected paragraph finished against the bytes `b`: its lines, its
/// prefixes, and its atomics and hard breaks in order; `None` where its
/// first-line prefix is not UTF-8 or yields no continuation prefix.
pub open spec fn finish_view(b: Seq<u8>, pp: PartialView) -> Option<ParaView> {
    let lo = pp.content_lo as int;
    if lo > b.len() || !valid_utf8(b.subrange(line_start_of(b, lo), lo)) {
        None
    } else {
        let ll = line_start_of(b, lo);
        let first = chars_of_bytes(b.subrange(ll, lo));
        match cont_prefix_from(utf8_of(first), 0) {
            None => None,
            Some(c) => Some(
                ParaView {
                    line_lo: ll,
                    line_hi: line_hi_of(b, pp.content_hi as int),
                    content_lo: pp.content_lo,
                    content_hi: pp.content_hi,
                    first_prefix: first,
                    cont_prefix: c,
                    atomics: sort_by_start(pp.atomics),
                    hard_breaks: sort_by_nl(pp.hard_breaks),
                },
            ),
        }
    }
}

pub type ParaState = (Seq<ParaView>, Option<PartialView>, u32, u32);

/// The paragraphs so far with the open one, if any, finished.
pub open spec fn close_open(b: Seq<u8>, done: Seq<ParaView>, cur: Option<PartialView>) -> Seq<ParaView> {
    match cur {
        Some(pp) => match finish_view(b, pp) {
            Some(v) => done.push(v),
            None => done,
        },
        None => done,
    }
}

pub open spec fn new_partial(s: usize, t: usize) -> PartialView {
    PartialView { content_lo: s, content_hi: t, atomics: Seq::empty(), hard_breaks: Seq::empty(), links: Seq::empty() }
}

/// Inline content inside a list item outside any paragraph opens one.
pub open spec fn open_if(cur: Option<PartialView>, pd: u32, idp: u32, s: usize, t: usize) -> Option<PartialView> {
    if cur is None && pd == 0 && idp > 0 {
        Some(new_partial(s, t))
    } else {
        cur
    }
}

pub open spec fn extend_to(pp: PartialView, t: usize) -> PartialView {
    if t > pp.content_hi {
        PartialView { content_hi: t, ..pp }
    } else {
        pp
    }
}

pub open spec fn extended(cur: Option<PartialView>, t: usize) -> Option<PartialView> {
    match cur {
        Some(pp) => Some(extend_to(pp, t)),
        None => None,
    }
}

/// Starts of blocks that end a paragraph opened for list-item content.
pub open spec fn block_start(t: StartTag) -> bool {
    t is CodeBlock || t is HtmlBlock || t is Heading || t is BlockQuote || t is List || t is Table
        || t is FootnoteDefinition || t is DefinitionList || t is MetadataBlock
}

pub open spec fn span_start(t: StartTag) -> bool {
    t is Emphasis || t is Strong || t is Strikethrough || t is Superscript || t is Subscript
}

pub open spec fn span_end(t: EndTag) -> bool {
    t is Emphasis || t is Strong || t is Strikethrough || t is Superscript || t is Subscript
}

/// One event of the paragraph walk.
pub open spec fn para_step(b: Seq<u8>, st: ParaState, ev: (ParsedEvent, usize, usize)) -> ParaState {
    let (done, cur, pd, idp) = st;
    let (e, s, t) = ev;
    match e {
        ParsedEvent::Start(StartTag::Paragraph) => (done, if pd == 0 { Some(new_partial(s, t)) } else { cur }, inc_sat(pd), idp),
        ParsedEvent::End(EndTag::Paragraph) => if dec_sat(pd) == 0 {
            (close_open(b, done, cur), None, 0, idp)
        } else {
            (done, cur, dec_sat(pd), idp)
        },
        ParsedEvent::Start(StartTag::Item) => (done, cur, pd, inc_sat(idp)),
        ParsedEvent::End(EndTag::Item) => (close_open(b, done, cur), None, pd, dec_sat(idp)),
        ParsedEvent::Start(tag) => if block_start(tag) {
            (close_open(b, done, cur), None, pd, idp)
        } else if tag is Link || tag is Image {
            match open_if(cur, pd, idp, s, t) {
                Some(pp) => (done, Some(extend_to(PartialView { links: pp.links.push(s), ..pp }, t)), pd, idp),
                None => st,
            }
        } else if span_start(tag) {
            (done, extended(open_if(cur, pd, idp, s, t), t), pd, idp)
        } else {
            st
        },
        ParsedEvent::End(tag) => if tag is Link || tag is Image {
            match cur {
                Some(pp) => {
                    let pp2 = if pp.links.len() > 0 {
                        PartialView {
                            atomics: pp.atomics.push(pp.links.last()..t),
                            links: pp.links.drop_last(),
                            ..pp
                        }
                    } else {
                        pp
                    };
                    (done, Some(extend_to(pp2, t)), pd, idp)
                },
                None => st,
            }
        } else if span_end(tag) {
            (done, extended(cur, t), pd, idp)
        } else {
            st
        },
        ParsedEvent::Text(_) => (done, extended(open_if(cur, pd, idp, s, t), t), pd, idp),
        ParsedEvent::Code(_) | ParsedEvent::InlineHtml(_) | ParsedEvent::InlineMath(_) | ParsedEvent::DisplayMath(_) => {
            match open_if(cur, pd, idp, s, t) {
                Some(pp) => (done, Some(extend_to(PartialView { atomics: pp.atomics.push(s..t), ..pp }, t)), pd, idp),
                None => st,
            }
        },
        ParsedEvent::SoftBreak => (done, extended(cur, t), pd, idp),
        ParsedEvent::HardBreak => match cur {
            Some(pp) => {
                let pp2 = match hard_break_shape(b, s as int, t as int) {
                    Some(h) => PartialView { hard_breaks: pp.hard_breaks.push(h), ..pp },
                    None => pp,
                };
                (done, Some(extend_to(pp2, t)), pd, idp)
            },
            None => st,
        },
        _ => st,
    }
}

pub open spec fn para_fold(b: Seq<u8>, evs: Seq<(ParsedEvent, usize, usize)>) -> ParaState
    decreases evs.len(),
{
    if evs.len() == 0 {
        (Seq::empty(), None, 0, 0)
    } else {
        para_step(b, para_fold(b, evs.drop_last()), evs.last())
    }
}

/// The paragraphs of `out` by the named parse, in the order they end.
pub open spec fn paragraphs_of(out: Seq<char>) -> Seq<ParaView> {
    para_fold(utf8_of(out), cmark_at(out)).0
}

/// A paragraph being collected.
pub struct PartialParagraph {
    pub content_lo: usize,
    pub content_hi: usize,
    pub atomics: Vec<Range<usize>>,
    pub hard_breaks: Vec<HardBreak>,
    pub links: Vec<usize>,
}

pub open spec fn hb_views(v: Seq<HardBreak>) -> Seq<(int, int, Seq<char>)> {
    v.map_values(|h: HardBreak| hb_view(h))
}

pub open spec fn pview(pp: PartialParagraph) -> PartialView {
    PartialView {
        content_lo: pp.content_lo,
        content_hi: pp.content_hi,
        atomics: pp.atomics@,
        hard_breaks: hb_views(pp.hard_breaks@),
        links: pp.links@,
    }
}

pub open spec fn optv(o: Option<PartialParagraph>) -> Option<PartialView> {
    match o {
        Some(pp) => Some(pview(pp)),
        None => None,
    }
}

pub open spec fn para_views(v: Seq<Paragraph>) -> Seq<ParaView> {
    v.map_values(|p: Paragraph| para_view(p))
}

fn insert_by_start(v: Vec<Range<usize>>, x: Range<usize>) -> (r: Vec<Range<usize>>)
    ensures
        r@ == ins_by_start(v@, x),
    decreases v@.len(),
{
    let mut v = v;
    let ghost v0 = v@;
    match v.pop() {
        None => {
            let mut r = Vec::new();
            r.push(x);
            assert(r@ =~= seq![x]);
            r
        },
        Some(last) => {
            assert(v@ =~= v0.drop_last());
            if last.start <= x.start {
                v.push(last);
                v.push(x);
                assert(v@ =~= v0.push(x));
                v
            } else {
                let mut r = insert_by_start(v, x);
                r.push(last);
                r
            }
        },
    }
}

/// `v` sorted by start, equal starts kept in order.
pub fn sorted_by_start(v: &Vec<Range<usize>>) -> (r: Vec<Range<usize>>)
    ensures
        r@ == sort_by_start(v@),
{
    let mut acc: Vec<Range<usize>> = Vec::new();
    let mut i: usize = 0;
    while i < v.len()
        invariant
            i <= v@.len(),
            acc@ == sort_by_start(v@.take(i as int)),
        decreases v@.len() - i,
    {
        let x = Range { start: v[i].start, end: v[i].end };
        assert(v@.take(i + 1).drop_last() =~= v@.take(i as int));
        assert(x == v@.take(i + 1).last());
        acc = insert_by_start(acc, x);
        i = i + 1;
    }
    assert(v@.take(v@.len() as int) =~= v@);
    acc
}

fn insert_by_nl(v: Vec<HardBreak>, x: HardBreak) -> (r: Vec<HardBreak>)
    ensures
        hb_views(r@) == ins_by_nl(hb_views(v@), hb_view(x)),
    decreases v@.len(),
{
    let mut v = v;
    let ghost v0 = v@;
    match v.pop() {
        None => {
            let mut r = Vec::new();
            r.push(x);
            assert(hb_views(r@) =~= seq![hb_view(x)]);
            assert(hb_views(v0) =~= Seq::<(int, int, Seq<char>)>::empty());
            r
        },
        Some(last) => {
            assert(v@ =~= v0.drop_last());
            assert(hb_views(v0).drop_last() =~= hb_views(v@));
            assert(hb_views(v0).last() == hb_view(last));
            if last.nl <= x.nl {
                v.push(last);
                v.push(x);
                assert(hb_views(v@) =~= hb_views(v0).push(hb_view(x)));
                v
            } else {
                let mut r = insert_by_nl(v, x);
                let ghost r0 = r@;
                r.push(last);
                assert(hb_views(r@) =~= hb_views(r0).push(hb_view(last)));
                r
            }
        },
    }
}

/// Hard breaks sorted by newline, equal ones kept in order.
pub fn sorted_by_nl(v: &Vec<HardBreak>) -> (r: Vec<HardBreak>)
    ensures
        hb_views(r@) == sort_by_nl(hb_views(v@)),
{
    let mut acc: Vec<HardBreak> = Vec::new();
    let mut i: usize = 0;
    assert(hb_views(acc@) =~= sort_by_nl(hb_views(v@).take(0)));
    while i < v.len()
        invariant
            i <= v@.len(),
            hb_views(acc@) == sort_by_nl(hb_views(v@).take(i as int)),
        decreases v@.len() - i,
    {
        let x = v[i];
        assert(hb_views(v@).take(i + 1).drop_last() =~= hb_views(v@).take(i as int));
        assert(hb_view(x) == hb_views(v@).take(i + 1).last());
        acc = insert_by_nl(acc, x);
        i = i + 1;
    }
    assert(hb_views(v@).take(v@.len() as int) =~= hb_views(v@));
    acc
}

/// A collected paragraph finished: its lines, its prefixes, and its
/// atomics and hard breaks in order.
pub fn finish_paragraph(pp: PartialParagraph, bytes: &[u8]) -> (r: Option<Paragraph>)
    ensures
        match finish_view(bytes@, pview(pp)) {
            Some(v) => r matches Some(p) && para_view(p) == v,
            None => r is None,
        },
{
    let (line_lo, first_prefix) = match extract_first_prefix(bytes, pp.content_lo) {
        Some(x) => x,
        None => {
            return None;
        },
    };
    proof {
        lemma_chars_of_bytes(first_prefix@);
        lemma_utf8_of_valid(first_prefix@);
    }
    let line_hi = extract_line_hi(bytes, pp.content_hi);
    let cont_prefix = match derive_continuation_prefix(first_prefix.as_str()) {
        Some(c) => c,
        None => {
            return None;
        },
    };
    let atomics = sorted_by_start(&pp.atomics);
    let hard_breaks = sorted_by_nl(&pp.hard_breaks);
    proof {
        assert(chars_of_bytes(bytes@.subrange(line_lo as int, pp.content_lo as int)) == first_prefix@);
    }
    let p = Paragraph {
        line_lo,
        line_hi,
        content_lo: pp.content_lo,
        content_hi: pp.content_hi,
        first_prefix,
        cont_prefix,
        atomics,
        hard_breaks,
    };
    Some(p)
}

fn close_open_exec(bytes: &[u8], done: &mut Vec<Paragraph>, cur: Option<PartialParagraph>)
    ensures
        para_views(final(done)@) == close_open(bytes@, para_views(old(done)@), optv(cur)),
{
    match cur {
        Some(pp) => match finish_paragraph(pp, bytes) {
            Some(p) => {
                let ghost d = done@;
                done.push(p);
                assert(para_views(done@) =~= para_views(d).push(para_view(p)));
            },
            None => {},
        },
        None => {},
    }
}

fn new_partial_exec(s: usize, t: usize) -> (r: PartialParagraph)
    ensures
        pview(r) == new_partial(s, t),
{
    let r = PartialParagraph { content_lo: s, content_hi: t, atomics: Vec::new(), hard_breaks: Vec::new(), links: Vec::new() };
    assert(hb_views(r.hard_breaks@) =~= Seq::<(int, int, Seq<char>)>::empty());
    assert(pview(r) =~= new_partial(s, t));
    r
}

fn open_if_exec(cur: Option<PartialParagraph>, pd: u32, idp: u32, s: usize, t: usize) -> (r: Option<PartialParagraph>)
    ensures
        optv(r) == open_if(optv(cur), pd, idp, s, t),
{
    if cur.is_none() && pd == 0 && idp > 0 {
        Some(new_partial_exec(s, t))
    } else {
        cur
    }
}

fn extend_exec(pp: PartialParagraph, t: usize) -> (r: PartialParagraph)
    ensures
        pview(r) == extend_to(pview(pp), t),
{
    let mut pp = pp;
    if t > pp.content_hi {
        pp.content_hi = t;
    }
    pp
}

fn extended_exec(cur: Option<PartialParagraph>, t: usize) -> (r: Option<PartialParagraph>)
    ensures
        optv(r) == extended(optv(cur), t),
{
    match cur {
        Some(pp) => Some(extend_exec(pp, t)),
        None => None,
    }
}

fn is_block_start(t: &StartTag) -> (r: bool)
    ensures
        r == block_start(*t),
{
    match t {
        StartTag::CodeBlock { .. } | StartTag::HtmlBlock | StartTag::Heading(_) | StartTag::BlockQuote
        | StartTag::List(_) | StartTag::Table(_) | StartTag::FootnoteDefinition(_) | StartTag::DefinitionList
        | StartTag::MetadataBlock => true,
        _ => false,
    }
}

fn is_span_start(t: &StartTag) -> (r: bool)
    ensures
        r == span_start(*t),
{
    match t {
        StartTag::Emphasis | StartTag::Strong | StartTag::Strikethrough | StartTag::Superscript
        | StartTag::Subscript => true,
        _ => false,
    }
}

fn is_span_end(t: EndTag) -> (r: bool)
    ensures
        r == span_end(t),
{
    match t {
        EndTag::Emphasis | EndTag::Strong | EndTag::Strikethrough | EndTag::Superscript | EndTag::Subscript => true,
        _ => false,
    }
}

/// Every paragraph of `out`, and the prose of each tight list item, as
/// the wrap pass rewrites it: lines, prefixes, unbreakable ranges and
/// hard breaks, in the order the paragraphs end.
pub fn collect_paragraphs(out: &str) -> (r: Vec<Paragraph>)
    ensures
        para_views(r@) == paragraphs_of(out@),
{
    let evs = parse_events_at(out);
    paragraphs_from_events(out, evs.as_slice())
}

/// The paragraphs that the events `evs` (each with its source range)
/// delimit in `out`: the fold of `collect_paragraphs` over given events.
#[verifier::rlimit(40)]
pub fn paragraphs_from_events(out: &str, evs: &[(ParsedEvent, usize, usize)]) -> (r: Vec<Paragraph>)
    ensures
        para_views(r@) == para_fold(utf8_of(out@), evs@).0,
{
    let bytes = out.as_bytes();
    let mut done: Vec<Paragraph> = Vec::new();
    let mut cur: Option<PartialParagraph> = None;
    let mut pd: u32 = 0;
    let mut idp: u32 = 0;
    let mut i: usize = 0;
    assert(para_views(done@) =~= Seq::<ParaView>::empty());
    while i < evs.len()
        invariant
            i <= evs@.len(),
            bytes@ == utf8_of(out@),
            (para_views(done@), optv(cur), pd, idp) == para_fold(bytes@, evs@.take(i as int)),
        decreases evs@.len() - i,
    {
        proof {
            assert(evs@.take(i + 1).drop_last() =~= evs@.take(i as int));
        }
        let s0 = evs[i].1;
        let t0 = evs[i].2;
        match &evs[i].0 {
            ParsedEvent::Start(StartTag::Paragraph) => {
                if pd == 0 {
                    cur = Some(new_partial_exec(s0, t0));
                }
                pd = if pd < u32::MAX { pd + 1 } else { pd };
            },
            ParsedEvent::End(EndTag::Paragraph) => {
                let nd = if pd == 0 { 0 } else { pd - 1 };
                if nd == 0 {
                    let mut c: Option<PartialParagraph> = None;
                    std::mem::swap(&mut c, &mut cur);
                    close_open_exec(bytes, &mut done, c);
                    pd = 0;
                } else {
                    pd = nd;
                }
            },
            ParsedEvent::Start(StartTag::Item) => {
                idp = if idp < u32::MAX { idp + 1 } else { idp };
            },
            ParsedEvent::End(EndTag::Item) => {
                let mut c: Option<PartialParagraph> = None;
                std::mem::swap(&mut c, &mut cur);
                close_open_exec(bytes, &mut done, c);
                idp = if idp == 0 { 0 } else { idp - 1 };
            },
            ParsedEvent::Start(tag) => {
                if is_block_start(tag) {
                    let mut c: Option<PartialParagraph> = None;
                    std::mem::swap(&mut c, &mut cur);
                    close_open_exec(bytes, &mut done, c);
                } else if matches!(tag, StartTag::Link { .. }) || matches!(tag, StartTag::Image { .. }) {
                    let mut c: Option<PartialParagraph> = None;
                    std::mem::swap(&mut c, &mut cur);
                    match open_if_exec(c, pd, idp, s0, t0) {
                        Some(pp) => {
                            let mut pp = pp;
                            pp.links.push(s0);
                            cur = Some(extend_exec(pp, t0));
                        },
                        None => {},
                    }
                } else if is_span_start(tag) {
                    let mut c: Option<PartialParagraph> = None;
                    std::mem::swap(&mut c, &mut cur);
                    cur = extended_exec(open_if_exec(c, pd, idp, s0, t0), t0);
                }
            },
            ParsedEvent::End(tag) => {
                if matches!(tag, EndTag::Link) || matches!(tag, EndTag::Image) {
                    let mut c: Option<PartialParagraph> = None;
                    std::mem::swap(&mut c, &mut cur);
                    match c {
                        Some(pp) => {
                            let mut pp = pp;
                            match pp.links.pop() {
                                Some(start) => {
                                    pp.atomics.push(start..t0);
                                },
                                None => {},
                            }
                            cur = Some(extend_exec(pp, t0));
                        },
                        None => {},
                    }
                } else if is_span_end(*tag) {
                    let mut c: Option<PartialParagraph> = None;
                    std::mem::swap(&mut c, &mut cur);
                    cur = extended_exec(c, t0);
                }
            },
            ParsedEvent::Text(_) => {
                let mut c: Option<PartialParagraph> = None;
                std::mem::swap(&mut c, &mut cur);
                cur = extended_exec(open_if_exec(c, pd, idp, s0, t0), t0);
            },
            ParsedEvent::Code(_) | ParsedEvent::InlineHtml(_) | ParsedEvent::InlineMath(_)
            | ParsedEvent::DisplayMath(_) => {
                let mut c: Option<PartialParagraph> = None;
                std::mem::swap(&mut c, &mut cur);
                match open_if_exec(c, pd, idp, s0, t0) {
                    Some(pp) => {
                        let mut pp = pp;
                        pp.atomics.push(s0..t0);
                        cur = Some(extend_exec(pp, t0));
                    },
                    None => {},
                }
            },
            ParsedEvent::SoftBreak => {
                let mut c: Option<PartialParagraph> = None;
                std::mem::swap(&mut c, &mut cur);
                cur = extended_exec(c, t0);
            },
            ParsedEvent::HardBreak => {
                let mut c: Option<PartialParagraph> = None;
                std::mem::swap(&mut c, &mut cur);
                match c {
                    Some(pp) => {
                        let mut pp = pp;
                        let ghost hv = hb_views(pp.hard_breaks@);
                        match classify_hard_break(bytes, s0, t0) {
                            Some(h) => {
                                pp.hard_breaks.push(h);
                                assert(hb_views(pp.hard_breaks@) =~= hv.push(hb_view(h)));
                            },
                            None => {},
                        }
                        cur = Some(extend_exec(pp, t0));
                    },
                    None => {},
                }
            },
            _ => {},
        }
        i = i + 1;
    }
    assert(evs@.take(evs@.len() as int) =~= evs@);
    done
}

// ============================================================
// The wrap pass
// ============================================================

/// What `rewrap_paragraph` may give for `p` over the text `s`: nothing
/// for `Keep`; a result owed for `No`, and for `At` while no segment's
/// layout reads the clock, whenever the paragraph tokenises; and any
/// result the re-emission of the segments' tokens, laid out as `mode`
/// asks.
pub open spec fn rewrap_allows(s: Seq<char>, p: Paragraph, mode: Wrap, r: Option<Seq<char>>) -> bool {
    let b = utf8_of(s);
    &&& mode is Keep ==> r is None
    &&& (mode is No && rewrap_input_ok(p, b)) ==> r is Some
    &&& (mode is At && rewrap_input_ok(p, b) && layout_unhurried(p, b)) ==> r is Some
    &&& r is Some ==> rewrap_input_ok(p, b) && !(mode is Keep)
    &&& r matches Some(t) ==> exists|lines: Seq<Seq<Seq<Seq<char>>>>|
        lines.len() == segments_of(p).len() && (forall|k: int| 0 <= k < lines.len() ==> lays_out(
            #[trigger] lines[k],
            seg_tokens(p, b, segments_of(p)[k]).unwrap(),
            mode,
        )) && t == rewrapped(p, b, lines)
}

/// The paragraph's lines in `s`, as text.
pub open spec fn para_lines(s: Seq<char>, p: Paragraph) -> Seq<char> {
    chars_of_bytes(utf8_of(s).subrange(p.line_lo as int, p.line_hi as int))
}

/// The text after handling `p` with the rewrap result `r`: the
/// paragraph's lines are replaced by `r` exactly when there is one, the
/// lines lie on character boundaries, `r` differs from them and parses
/// the same; otherwise `s` is unchanged.
pub open spec fn wrap_commit(s: Seq<char>, p: Paragraph, r: Option<Seq<char>>) -> Seq<char> {
    match r {
        Some(rep) => if slice_ok(s, p.line_lo as int, p.line_hi as int) && rep != para_lines(s, p)
            && equivalent_sources(para_lines(s, p), rep) {
            committed(s, utf8_of(rep), p.line_lo as int, p.line_hi as int)
        } else {
            s
        },
        None => s,
    }
}

/// One paragraph of the pass: `t` is `s` after committing a result that
/// `rewrap_paragraph` may give for `p`.
pub open spec fn wrap_step(s: Seq<char>, p: Paragraph, mode: Wrap, t: Seq<char>) -> bool {
    exists|r: Option<Seq<char>>| #[trigger] rewrap_allows(s, p, mode, r) && t == wrap_commit(s, p, r)
}

/// `t` comes from `s` by handling the paragraphs `ps` from the last to
/// the first, each as `wrap_step` says.
pub open spec fn wrap_fold(s: Seq<char>, ps: Seq<Paragraph>, mode: Wrap, t: Seq<char>) -> bool
    decreases ps.len(),
{
    if ps.len() == 0 {
        t == s
    } else {
        exists|m: Seq<char>| #[trigger] wrap_step(s, ps.last(), mode, m) && wrap_fold(m, ps.drop_last(), mode, t)
    }
}

fn wrap_one(out: &mut String, p: &Paragraph, mode: Wrap)
    ensures
        wrap_step(old(out)@, *p, mode, final(out)@),
{
    let ghost s = out@;
    let segs = split_at_hard_breaks(p, out.as_str().as_bytes());
    proof {
        assert forall|q: int| 0 <= q < segments_of(*p).len() implies #[trigger] segments_of(*p)[q].0 >= 0
            && segments_of(*p)[q].1 <= usize::MAX by {
            assert(segments_of(*p)[q] == (segs@[q].start as int, segs@[q].end as int));
        }
    }
    let replacement = match rewrap_paragraph(out.as_str(), p, mode) {
        Some(r) => r,
        None => {
            assert(rewrap_allows(s, *p, mode, None::<Seq<char>>));
            return;
        },
    };
    let ghost rep = replacement@;
    assert(rewrap_allows(s, *p, mode, Some(rep)));
    let existing = match str_get(out.as_str(), p.line_lo, p.line_hi) {
        Some(e) => e,
        None => {
            assert(out@ == wrap_commit(s, *p, Some(rep)));
            return;
        },
    };
    let ghost ex = existing@;
    proof {
        lemma_chars_of_bytes(ex);
        assert(para_lines(s, *p) == ex);
    }
    if str_eq(replacement.as_str(), existing) {
        assert(out@ == wrap_commit(s, *p, Some(rep)));
        return;
    }
    if !semantically_equivalent(existing, replacement.as_str()) {
        assert(out@ == wrap_commit(s, *p, Some(rep)));
        return;
    }
    let rb = replacement.as_str().as_bytes();
    assert(rb@ == utf8_of(replacement@));
    commit_rewrite(out, p.line_lo, p.line_hi, rb);
    assert(out@ == wrap_commit(s, *p, Some(rep)));
}

/// Applies the wrap policy to every paragraph of `out`, from the last
/// to the first: each is re-laid out by `rewrap_paragraph`, and its
/// lines are replaced exactly when that gives a result that differs from
/// them and parses the same. Nothing changes for `Keep`.
pub fn wrap_paragraphs(out: &mut String, mode: Wrap)
    ensures
        mode is Keep ==> final(out)@ == old(out)@,
        !(mode is Keep) ==> exists|ps: Seq<Paragraph>|
            para_views(ps) == paragraphs_of(old(out)@) && #[trigger] wrap_fold(old(out)@, ps, mode, final(out)@),
{
    if matches!(mode, Wrap::Keep) {
        return;
    }
    let paragraphs = collect_paragraphs(out.as_str());
    let ghost s0 = old(out)@;
    let ghost ps = paragraphs@;
    let mut k = paragraphs.len();
    proof {
        assert(ps.take(k as int) =~= ps);
    }
    while k > 0
        invariant
            k <= paragraphs@.len(),
            ps == paragraphs@,
            forall|t: Seq<char>| wrap_fold(out@, ps.take(k as int), mode, t) ==> wrap_fold(s0, ps, mode, t),
        decreases k,
    {
        let ghost before = out@;
        wrap_one(out, &paragraphs[k - 1], mode);
        proof {
            let pk = ps.take(k as int);
            assert(pk.drop_last() =~= ps.take(k - 1));
            assert(pk.last() == paragraphs@[k - 1]);
            assert forall|t: Seq<char>| wrap_fold(out@, ps.take(k - 1), mode, t) implies wrap_fold(s0, ps, mode, t) by {
                assert(wrap_step(before, pk.last(), mode, out@));
                assert(wrap_fold(before, pk, mode, t));
            }
        }
        k = k - 1;
    }
    proof {
        assert(ps.take(0) =~= Seq::<Paragraph>::empty());
        assert(wrap_fold(out@, ps.take(0), mode, out@));
        assert(wrap_fold(s0, ps, mode, out@));
    }
}
} // verus!
