//! Block-boundary checkpoints for range formatting.
//!
//! A checkpoint table is a sorted list of byte offsets, one per
//! top-level Markdown block, that lets a requested byte range be snapped
//! to the smallest covering slice of whole blocks. A checkpoint sits at
//! the start of a block at container depth zero (not inside a
//! blockquote, list, footnote or table), so the slice between two
//! checkpoints is a self-contained sub-document.
//!
//! The table is built from the parser's block events over the document
//! body, the part after any frontmatter; [`frontmatter_end`] finds where
//! that body starts. The first checkpoint is always byte 0 and a
//! sentinel at the source length closes the table.

use std::ops::Range;
use vstd::prelude::*;
use crate::format::canonicalise::line_end_from;
use crate::format::semantic::{cmark_at, parse_events_at, EndTag, ParsedEvent, StartTag};
use crate::text::{lemma_ascii_boundaries, lemma_utf8_of_injective, lemma_utf8_of_valid, slice_ok, str_get, utf8_of};
use vstd::utf8::*;

verus! {

// ============================================================
// Frontmatter
// ============================================================

/// A three-byte Unicode white-space character in UTF-8.
pub open spec fn ws3(x: u8, y: u8, z: u8) -> bool {
    ||| x == 0xE1u8 && y == 0x9Au8 && z == 0x80u8
    ||| x == 0xE2u8 && y == 0x80u8 && ((0x80u8 <= z && z <= 0x8Au8) || z == 0xA8u8 || z == 0xA9u8
        || z == 0xAFu8)
    ||| x == 0xE2u8 && y == 0x81u8 && z == 0x9Fu8
    ||| x == 0xE3u8 && y == 0x80u8 && z == 0x80u8
}

/// A one-byte white-space character: tab, line feed, vertical tab, form
/// feed, carriage return or space.
pub open spec fn ws1(x: u8) -> bool {
    (0x09u8 <= x && x <= 0x0Du8) || x == 0x20u8
}

/// The UTF-8 length of the Unicode white-space character (the
/// `White_Space` property, as `char::is_whitespace` reads it) that ends
/// at `hi` and starts no earlier than `lo`, or 0.
pub open spec fn ws_before(b: Seq<u8>, lo: int, hi: int) -> int {
    if lo + 1 <= hi && ws1(b[hi - 1]) {
        1
    } else if lo + 2 <= hi && b[hi - 2] == 0xC2u8 && (b[hi - 1] == 0x85u8 || b[hi - 1] == 0xA0u8) {
        2
    } else if lo + 3 <= hi && ws3(b[hi - 3], b[hi - 2], b[hi - 1]) {
        3
    } else {
        0
    }
}

/// The UTF-8 length of the white-space character that starts at `lo`
/// and ends no later than `hi`, or 0.
pub open spec fn ws_after(b: Seq<u8>, lo: int, hi: int) -> int {
    if lo + 1 <= hi && ws1(b[lo]) {
        1
    } else if lo + 2 <= hi && b[lo] == 0xC2u8 && (b[lo + 1] == 0x85u8 || b[lo + 1] == 0xA0u8) {
        2
    } else if lo + 3 <= hi && ws3(b[lo], b[lo + 1], b[lo + 2]) {
        3
    } else {
        0
    }
}

/// The end of `b[lo..hi]` once its trailing white space is removed.
pub open spec fn trim_end_at(b: Seq<u8>, lo: int, hi: int) -> int
    decreases hi - lo,
{
    if lo < hi && ws_before(b, lo, hi) > 0 {
        trim_end_at(b, lo, hi - ws_before(b, lo, hi))
    } else {
        hi
    }
}

/// The start of `b[lo..hi]` once its leading white space is removed.
pub open spec fn trim_start_at(b: Seq<u8>, lo: int, hi: int) -> int
    decreases hi - lo,
{
    if lo < hi && ws_after(b, lo, hi) > 0 {
        trim_start_at(b, lo + ws_after(b, lo, hi), hi)
    } else {
        lo
    }
}

/// `b[lo..hi]` is three copies of `c`.
pub open spec fn triple_at(b: Seq<u8>, lo: int, hi: int, c: u8) -> bool {
    hi - lo == 3 && b[lo] == c && b[lo + 1] == c && b[lo + 2] == c
}

/// `b[lo..hi]` (already trimmed) closes a frontmatter block: `+++` for
/// TOML, `---` or `...` for YAML.
pub open spec fn closes_frontmatter(b: Seq<u8>, lo: int, hi: int, toml: bool) -> bool {
    if toml {
        triple_at(b, lo, hi, 0x2Bu8)
    } else {
        triple_at(b, lo, hi, 0x2Du8) || triple_at(b, lo, hi, 0x2Eu8)
    }
}

/// A byte that may appear in a frontmatter key: ASCII letters and
/// digits, `_` and `-`.
pub open spec fn key_byte(c: u8) -> bool {
    (0x30u8 <= c && c <= 0x39u8) || (0x41u8 <= c && c <= 0x5Au8) || (0x61u8 <= c && c <= 0x7Au8)
        || c == 0x5Fu8 || c == 0x2Du8
}

/// The first position in `[lo, hi)` that holds `c`, or `hi`.
pub open spec fn first_byte_at(b: Seq<u8>, lo: int, hi: int, c: u8) -> int
    decreases hi - lo,
{
    if lo >= hi {
        hi
    } else if b[lo] == c {
        lo
    } else {
        first_byte_at(b, lo + 1, hi, c)
    }
}

/// The line `b[lo..hi]` reads as a `key: value` (YAML) or `key = value`
/// (TOML) entry: the text before the first separator, trimmed, is a
/// non-empty run of key bytes.
pub open spec fn line_keyed(b: Seq<u8>, lo: int, hi: int, toml: bool) -> bool {
    let s = trim_start_at(b, lo, hi);
    let sep = if toml {
        0x3Du8
    } else {
        0x3Au8
    };
    let idx = first_byte_at(b, s, hi, sep);
    let ks = trim_start_at(b, s, idx);
    let ke = trim_end_at(b, ks, idx);
    idx < hi && ks < ke && forall|k: int| ks <= k < ke ==> key_byte(#[trigger] b[k])
}

/// Where the document body starts after a frontmatter block whose lines
/// from `pos` on are scanned: just past the closing line, if a key was
/// seen before it; 0 when the block never closes or holds no key.
pub open spec fn frontmatter_scan(b: Seq<u8>, pos: int, toml: bool, saw_key: bool) -> int
    decreases b.len() - pos,
{
    if pos < 0 || pos >= b.len() {
        0
    } else {
        let e = line_end_from(b, pos);
        let lt = trim_end_at(b, pos, e);
        if closes_frontmatter(b, pos, lt, toml) {
            if saw_key {
                if e + 1 < b.len() {
                    e + 1
                } else {
                    b.len() as int
                }
            } else {
                0
            }
        } else if e < pos || e >= b.len() {
            0
        } else {
            frontmatter_scan(b, e + 1, toml, saw_key || line_keyed(b, pos, lt, toml))
        }
    }
}

/// The byte where the body starts: past a YAML (`---` … `---`/`...`) or
/// TOML (`+++` … `+++`) frontmatter block that opens on the first line
/// and holds at least one key, else 0.
pub open spec fn frontmatter_end_of(b: Seq<u8>) -> int {
    let fle = line_end_from(b, 0);
    if fle >= b.len() {
        0
    } else {
        let t = trim_end_at(b, 0, fle);
        if triple_at(b, 0, t, 0x2Du8) {
            frontmatter_scan(b, fle + 1, false, false)
        } else if triple_at(b, 0, t, 0x2Bu8) {
            frontmatter_scan(b, fle + 1, true, false)
        } else {
            0
        }
    }
}

fn ws_len_before(b: &[u8], lo: usize, hi: usize) -> (r: usize)
    requires
        lo <= hi <= b@.len(),
    ensures
        r == ws_before(b@, lo as int, hi as int),
{
    if hi - lo >= 1 && ((0x09u8 <= b[hi - 1] && b[hi - 1] <= 0x0Du8) || b[hi - 1] == 0x20u8) {
        1
    } else if hi - lo >= 2 && b[hi - 2] == 0xC2u8 && (b[hi - 1] == 0x85u8 || b[hi - 1] == 0xA0u8) {
        2
    } else if hi - lo >= 3 && is_ws3(b[hi - 3], b[hi - 2], b[hi - 1]) {
        3
    } else {
        0
    }
}

fn ws_len_after(b: &[u8], lo: usize, hi: usize) -> (r: usize)
    requires
        lo <= hi <= b@.len(),
    ensures
        r == ws_after(b@, lo as int, hi as int),
{
    if hi - lo >= 1 && ((0x09u8 <= b[lo] && b[lo] <= 0x0Du8) || b[lo] == 0x20u8) {
        1
    } else if hi - lo >= 2 && b[lo] == 0xC2u8 && (b[lo + 1] == 0x85u8 || b[lo + 1] == 0xA0u8) {
        2
    } else if hi - lo >= 3 && is_ws3(b[lo], b[lo + 1], b[lo + 2]) {
        3
    } else {
        0
    }
}

fn is_ws3(x: u8, y: u8, z: u8) -> (r: bool)
    ensures
        r == ws3(x, y, z),
{
    (x == 0xE1u8 && y == 0x9Au8 && z == 0x80u8) || (x == 0xE2u8 && y == 0x80u8 && ((0x80u8 <= z
        && z <= 0x8Au8) || z == 0xA8u8 || z == 0xA9u8 || z == 0xAFu8)) || (x == 0xE2u8 && y == 0x81u8
        && z == 0x9Fu8) || (x == 0xE3u8 && y == 0x80u8 && z == 0x80u8)
}

fn trim_end_in(b: &[u8], lo: usize, hi: usize) -> (r: usize)
    requires
        lo <= hi <= b@.len(),
    ensures
        r == trim_end_at(b@, lo as int, hi as int),
        lo <= r <= hi,
{
    let mut h = hi;
    loop
        invariant
            lo <= h <= hi <= b@.len(),
            trim_end_at(b@, lo as int, h as int) == trim_end_at(b@, lo as int, hi as int),
        decreases h - lo,
    {
        if h <= lo {
            return h;
        }
        let w = ws_len_before(b, lo, h);
        if w == 0 {
            return h;
        }
        h = h - w;
    }
}

fn trim_start_in(b: &[u8], lo: usize, hi: usize) -> (r: usize)
    requires
        lo <= hi <= b@.len(),
    ensures
        r == trim_start_at(b@, lo as int, hi as int),
        lo <= r <= hi,
{
    let mut l = lo;
    loop
        invariant
            lo <= l <= hi <= b@.len(),
            trim_start_at(b@, l as int, hi as int) == trim_start_at(b@, lo as int, hi as int),
        decreases hi - l,
    {
        if l >= hi {
            return l;
        }
        let w = ws_len_after(b, l, hi);
        if w == 0 {
            return l;
        }
        l = l + w;
    }
}

fn is_triple(b: &[u8], lo: usize, hi: usize, c: u8) -> (r: bool)
    requires
        lo <= hi <= b@.len(),
    ensures
        r == triple_at(b@, lo as int, hi as int, c),
{
    hi - lo == 3 && b[lo] == c && b[lo + 1] == c && b[lo + 2] == c
}

/// Whether a frontmatter line, trimmed of trailing white space to
/// `b[lo..hi]`, holds a key: the text before the first `:` (YAML) or
/// `=` (TOML), trimmed, is a non-empty run of ASCII letters, digits,
/// `_` and `-`.
#[verifier::loop_isolation(false)]
pub fn line_has_key(b: &[u8], lo: usize, hi: usize, toml: bool) -> (r: bool)
    requires
        lo <= hi <= b@.len(),
    ensures
        r == line_keyed(b@, lo as int, hi as int, toml),
{
    let s = trim_start_in(b, lo, hi);
    let sep = if toml {
        0x3Du8
    } else {
        0x3Au8
    };
    let mut idx = s;
    while idx < hi && b[idx] != sep
        invariant
            s <= idx <= hi <= b@.len(),
            first_byte_at(b@, idx as int, hi as int, sep) == first_byte_at(b@, s as int, hi as int, sep),
        decreases hi - idx,
    {
        idx = idx + 1;
    }
    assert(idx == first_byte_at(b@, s as int, hi as int, sep));
    if idx >= hi {
        return false;
    }
    let ks = trim_start_in(b, s, idx);
    let ke = trim_end_in(b, ks, idx);
    if ks >= ke {
        return false;
    }
    let mut k = ks;
    while k < ke
        invariant
            ks <= k <= ke <= b@.len(),
            forall|j: int| ks <= j < k ==> key_byte(#[trigger] b@[j]),
        decreases ke - k,
    {
        let c = b[k];
        if !((0x30u8 <= c && c <= 0x39u8) || (0x41u8 <= c && c <= 0x5Au8) || (0x61u8 <= c && c <= 0x7Au8)
            || c == 0x5Fu8 || c == 0x2Du8) {
            assert(!key_byte(b@[k as int]));
            return false;
        }
        k = k + 1;
    }
    true
}

fn line_end_in(b: &[u8], pos: usize) -> (e: usize)
    requires
        pos <= b@.len(),
    ensures
        pos <= e <= b@.len(),
        e == line_end_from(b@, pos as int),
{
    let mut e = pos;
    while e < b.len() && b[e] != 0x0Au8
        invariant
            pos <= e <= b@.len(),
            line_end_from(b@, e as int) == line_end_from(b@, pos as int),
        decreases b@.len() - e,
    {
        e = e + 1;
    }
    e
}

/// The byte where the document body starts: just past a frontmatter
/// block (YAML `---` … `---` or `...`, TOML `+++` … `+++`) that opens on
/// the first line and holds at least one key, else 0.
pub fn frontmatter_end(source: &str) -> (r: usize)
    ensures
        r == frontmatter_end_of(utf8_of(source@)),
{
    let b = source.as_bytes();
    let ghost bs = b@;
    let n = b.len();
    let fle = line_end_in(b, 0);
    if fle >= n {
        return 0;
    }
    let t = trim_end_in(b, 0, fle);
    let toml = if is_triple(b, 0, t, 0x2Du8) {
        false
    } else if is_triple(b, 0, t, 0x2Bu8) {
        true
    } else {
        return 0;
    };
    let mut pos = fle + 1;
    let mut saw_key = false;
    while pos < n
        invariant
            bs == b@,
            bs == utf8_of(source@),
            n == bs.len(),
            fle < pos <= n,
            frontmatter_scan(bs, pos as int, toml, saw_key) == frontmatter_end_of(bs),
        decreases n - pos,
    {
        let e = line_end_in(b, pos);
        let lt = trim_end_in(b, pos, e);
        let closes = if toml {
            is_triple(b, pos, lt, 0x2Bu8)
        } else {
            is_triple(b, pos, lt, 0x2Du8) || is_triple(b, pos, lt, 0x2Eu8)
        };
        proof {
            assert(closes == closes_frontmatter(bs, pos as int, lt as int, toml));
            assert(frontmatter_scan(bs, pos as int, toml, saw_key) == (if closes {
                if saw_key {
                    if e + 1 < n {
                        e + 1
                    } else {
                        n as int
                    }
                } else {
                    0
                }
            } else if e >= n {
                0
            } else {
                frontmatter_scan(bs, e + 1, toml, saw_key || line_keyed(bs, pos as int, lt as int, toml))
            }));
        }
        if closes {
            if !saw_key {
                return 0;
            }
            return if e < n && e + 1 < n {
                e + 1
            } else {
                n
            };
        }
        if line_has_key(b, pos, lt, toml) {
            saw_key = true;
        }
        if e >= n {
            return 0;
        }
        pos = e + 1;
    }
    0
}

// ============================================================
// Block events
// ============================================================

/// The block tags the boundary scan tells apart; every other tag is
/// `Other`.
#[derive(Copy, Clone, Debug, PartialEq, Eq, Structural)]
pub enum BlockTag {
    Paragraph,
    Heading,
    BlockQuote,
    CodeBlock,
    HtmlBlock,
    List,
    Item,
    FootnoteDefinition,
    Table,
    TableHead,
    TableRow,
    TableCell,
    Other,
}

/// One parser event, as far as the boundary scan reads it.
#[derive(Copy, Clone, Debug, PartialEq, Eq, Structural)]
pub enum ScanEvent {
    /// A tag opens.
    Start(BlockTag),
    /// A tag closes.
    End(BlockTag),
    /// A thematic break.
    Rule,
    /// Any other event.
    Other,
}

/// Blocks that may open at the top level of a document.
pub open spec fn top_level_tag(t: BlockTag) -> bool {
    ||| t is Paragraph
    ||| t is Heading
    ||| t is BlockQuote
    ||| t is CodeBlock
    ||| t is HtmlBlock
    ||| t is List
    ||| t is Table
    ||| t is FootnoteDefinition
}

/// Tags that hold further blocks: inside them the depth rises.
pub open spec fn container_tag(t: BlockTag) -> bool {
    ||| t is BlockQuote
    ||| t is List
    ||| t is Item
    ||| t is FootnoteDefinition
    ||| t is Table
    ||| t is TableHead
    ||| t is TableRow
    ||| t is TableCell
}

/// Whether a block of this tag can start a top-level block.
pub fn is_top_level_block(tag: BlockTag) -> (r: bool)
    ensures
        r == top_level_tag(tag),
{
    match tag {
        BlockTag::Paragraph | BlockTag::Heading | BlockTag::BlockQuote | BlockTag::CodeBlock
        | BlockTag::HtmlBlock | BlockTag::List | BlockTag::Table | BlockTag::FootnoteDefinition => true,
        _ => false,
    }
}

/// Whether this tag holds further blocks.
pub fn is_container(tag: BlockTag) -> (r: bool)
    ensures
        r == container_tag(tag),
{
    match tag {
        BlockTag::BlockQuote | BlockTag::List | BlockTag::Item | BlockTag::FootnoteDefinition
        | BlockTag::Table | BlockTag::TableHead | BlockTag::TableRow | BlockTag::TableCell => true,
        _ => false,
    }
}

/// Whether closing this tag lowers the depth.
pub fn is_container_end(end: BlockTag) -> (r: bool)
    ensures
        r == container_tag(end),
{
    is_container(end)
}

/// The block tag an opening tag is read as.
pub open spec fn start_block_tag(t: StartTag) -> BlockTag {
    match t {
        StartTag::Paragraph => BlockTag::Paragraph,
        StartTag::Heading(_) => BlockTag::Heading,
        StartTag::BlockQuote => BlockTag::BlockQuote,
        StartTag::CodeBlock { .. } => BlockTag::CodeBlock,
        StartTag::HtmlBlock => BlockTag::HtmlBlock,
        StartTag::List(_) => BlockTag::List,
        StartTag::Item => BlockTag::Item,
        StartTag::FootnoteDefinition(_) => BlockTag::FootnoteDefinition,
        StartTag::Table(_) => BlockTag::Table,
        StartTag::TableHead => BlockTag::TableHead,
        StartTag::TableRow => BlockTag::TableRow,
        StartTag::TableCell => BlockTag::TableCell,
        _ => BlockTag::Other,
    }
}

/// The block tag a closing tag is read as.
pub open spec fn end_block_tag(t: EndTag) -> BlockTag {
    match t {
        EndTag::Paragraph => BlockTag::Paragraph,
        EndTag::Heading(_) => BlockTag::Heading,
        EndTag::BlockQuote => BlockTag::BlockQuote,
        EndTag::CodeBlock => BlockTag::CodeBlock,
        EndTag::HtmlBlock => BlockTag::HtmlBlock,
        EndTag::List(_) => BlockTag::List,
        EndTag::Item => BlockTag::Item,
        EndTag::FootnoteDefinition => BlockTag::FootnoteDefinition,
        EndTag::Table => BlockTag::Table,
        EndTag::TableHead => BlockTag::TableHead,
        EndTag::TableRow => BlockTag::TableRow,
        EndTag::TableCell => BlockTag::TableCell,
        _ => BlockTag::Other,
    }
}

/// A parsed event as the boundary scan reads it.
pub open spec fn scan_event_of(e: ParsedEvent) -> ScanEvent {
    match e {
        ParsedEvent::Start(t) => ScanEvent::Start(start_block_tag(t)),
        ParsedEvent::End(t) => ScanEvent::End(end_block_tag(t)),
        ParsedEvent::Rule => ScanEvent::Rule,
        _ => ScanEvent::Other,
    }
}

/// Parsed events with their ranges, as the scan reads them: the event
/// and where it starts.
pub open spec fn scan_events_of(evs: Seq<(ParsedEvent, usize, usize)>) -> Seq<(ScanEvent, usize)> {
    evs.map_values(|e: (ParsedEvent, usize, usize)| (scan_event_of(e.0), e.1))
}

fn start_tag_block(t: &StartTag) -> (r: BlockTag)
    ensures
        r == start_block_tag(*t),
{
    match t {
        StartTag::Paragraph => BlockTag::Paragraph,
        StartTag::Heading(_) => BlockTag::Heading,
        StartTag::BlockQuote => BlockTag::BlockQuote,
        StartTag::CodeBlock { .. } => BlockTag::CodeBlock,
        StartTag::HtmlBlock => BlockTag::HtmlBlock,
        StartTag::List(_) => BlockTag::List,
        StartTag::Item => BlockTag::Item,
        StartTag::FootnoteDefinition(_) => BlockTag::FootnoteDefinition,
        StartTag::Table(_) => BlockTag::Table,
        StartTag::TableHead => BlockTag::TableHead,
        StartTag::TableRow => BlockTag::TableRow,
        StartTag::TableCell => BlockTag::TableCell,
        _ => BlockTag::Other,
    }
}

fn end_tag_block(t: EndTag) -> (r: BlockTag)
    ensures
        r == end_block_tag(t),
{
    match t {
        EndTag::Paragraph => BlockTag::Paragraph,
        EndTag::Heading(_) => BlockTag::Heading,
        EndTag::BlockQuote => BlockTag::BlockQuote,
        EndTag::CodeBlock => BlockTag::CodeBlock,
        EndTag::HtmlBlock => BlockTag::HtmlBlock,
        EndTag::List(_) => BlockTag::List,
        EndTag::Item => BlockTag::Item,
        EndTag::FootnoteDefinition => BlockTag::FootnoteDefinition,
        EndTag::Table => BlockTag::Table,
        EndTag::TableHead => BlockTag::TableHead,
        EndTag::TableRow => BlockTag::TableRow,
        EndTag::TableCell => BlockTag::TableCell,
        _ => BlockTag::Other,
    }
}

/// Reads parsed events with their ranges as scan events.
pub fn scan_events(evs: &Vec<(ParsedEvent, usize, usize)>) -> (r: Vec<(ScanEvent, usize)>)
    ensures
        r@ == scan_events_of(evs@),
{
    let mut out: Vec<(ScanEvent, usize)> = Vec::new();
    let mut i: usize = 0;
    while i < evs.len()
        invariant
            i <= evs@.len(),
            out@ == scan_events_of(evs@.take(i as int)),
        decreases evs@.len() - i,
    {
        let e = match &evs[i].0 {
            ParsedEvent::Start(t) => ScanEvent::Start(start_tag_block(t)),
            ParsedEvent::End(t) => ScanEvent::End(end_tag_block(*t)),
            ParsedEvent::Rule => ScanEvent::Rule,
            _ => ScanEvent::Other,
        };
        out.push((e, evs[i].1));
        assert(scan_events_of(evs@.take(i + 1)) =~= scan_events_of(evs@.take(i as int)).push(
            (scan_event_of(evs@[i as int].0), evs@[i as int].1),
        ));
        i = i + 1;
    }
    assert(evs@.take(evs@.len() as int) =~= evs@);
    out
}

/// The text of `s` after its frontmatter.
pub open spec fn body_chars(s: Seq<char>) -> Seq<char> {
    let b = utf8_of(s);
    choose|t: Seq<char>| utf8_of(t) == b.subrange(frontmatter_end_of(b), b.len() as int)
}

/// The named parse of the text after the frontmatter, with ranges
/// relative to it.
pub open spec fn body_events(s: Seq<char>) -> Seq<(ParsedEvent, usize, usize)> {
    cmark_at(body_chars(s))
}

proof fn lemma_line_end(b: Seq<u8>, s: int)
    ensures
        line_end_from(b, s) == b.len() || (0 <= line_end_from(b, s) < b.len() && b[line_end_from(b, s)] == 0x0Au8),
    decreases b.len() - s,
{
    if !(s >= b.len() || s < 0) && b[s] != 0x0Au8 {
        lemma_line_end(b, s + 1);
    }
}

/// Where a frontmatter scan stops: 0, the end, or just past a newline.
pub open spec fn after_newline_or_edge(b: Seq<u8>, p: int) -> bool {
    p == 0 || p == b.len() || (0 < p < b.len() && b[p - 1] == 0x0Au8)
}

proof fn lemma_scan_end(b: Seq<u8>, pos: int, toml: bool, saw_key: bool)
    ensures
        after_newline_or_edge(b, frontmatter_scan(b, pos, toml, saw_key)),
    decreases b.len() - pos,
{
    if !(pos < 0 || pos >= b.len()) {
        let e = line_end_from(b, pos);
        lemma_line_end(b, pos);
        let lt = trim_end_at(b, pos, e);
        if !closes_frontmatter(b, pos, lt, toml) && !(e < pos || e >= b.len()) {
            lemma_scan_end(b, e + 1, toml, saw_key || line_keyed(b, pos, lt, toml));
        }
    }
}

/// The frontmatter end falls on a character boundary.
proof fn lemma_frontmatter_boundary(s: Seq<char>)
    ensures
        slice_ok(s, frontmatter_end_of(utf8_of(s)), utf8_of(s).len() as int),
{
    let b = utf8_of(s);
    lemma_utf8_of_valid(s);
    let fle = line_end_from(b, 0);
    if fle < b.len() {
        let t = trim_end_at(b, 0, fle);
        lemma_scan_end(b, fle + 1, false, false);
        lemma_scan_end(b, fle + 1, true, false);
    }
    let f = frontmatter_end_of(b);
    assert(after_newline_or_edge(b, f));
    is_char_boundary_start_end_of_seq(b);
    if 0 < f < b.len() {
        lemma_ascii_boundaries(b, f - 1);
    }
}

// ============================================================
// The scan
// ============================================================

/// One block boundary in the caller's source, with a snapshot of the
/// scan state there (the depth in the high half, the event count in the
/// low half).
#[derive(Copy, Clone, Debug, PartialEq, Eq, Structural)]
pub struct BlockCheckpoint {
    pub byte: u32,
    pub parser_state: u64,
}

pub open spec fn state_hash(depth: u32, count: u32) -> u64 {
    (depth as int * 0x1_0000_0000 + count as int) as u64
}

/// The scan state as one number: the depth above bit 32, the event
/// count below.
pub fn parser_state_hash(depth: u32, event_count: u32) -> (r: u64)
    ensures
        r == state_hash(depth, event_count),
        r as int == depth as int * 0x1_0000_0000 + event_count as int,
{
    let d = depth as u64;
    let c = event_count as u64;
    assert(((d << 32u64) | c) == d * 0x1_0000_0000u64 + c) by (bit_vector)
        requires
            d <= 0xffff_ffffu64,
            c <= 0xffff_ffffu64,
    ;
    (d << 32u64) | c
}

pub open spec fn inc_sat(x: u32) -> u32 {
    if x == u32::MAX {
        x
    } else {
        (x + 1) as u32
    }
}

pub open spec fn dec_sat(x: u32) -> u32 {
    if x == 0 {
        0
    } else {
        (x - 1) as u32
    }
}

/// The absolute byte of an event that starts `start` bytes into the
/// body, which begins at `fm_end`; saturated at `u32::MAX`.
pub open spec fn absolute_of(start: usize, fm_end: usize) -> u32 {
    if start + fm_end > u32::MAX {
        u32::MAX
    } else {
        (start + fm_end) as u32
    }
}

/// `pts` with a checkpoint at `at` appended, unless the last checkpoint
/// is already at or past it.
pub open spec fn push_boundary(pts: Seq<BlockCheckpoint>, at: u32, depth: u32, count: u32) -> Seq<
    BlockCheckpoint,
> {
    if pts.len() == 0 || pts.last().byte < at {
        pts.push(BlockCheckpoint { byte: at, parser_state: state_hash(depth, count) })
    } else {
        pts
    }
}

/// One step of the scan: a top-level block start or a top-level rule
/// records a boundary; container starts and ends move the depth.
pub open spec fn walk(pts: Seq<BlockCheckpoint>, depth: u32, ev: ScanEvent, at: u32, count: u32) -> (
    Seq<BlockCheckpoint>,
    u32,
) {
    match ev {
        ScanEvent::Start(tag) => if depth == 0 && top_level_tag(tag) {
            (
                push_boundary(pts, at, depth, count),
                if container_tag(tag) {
                    inc_sat(depth)
                } else {
                    depth
                },
            )
        } else if container_tag(tag) {
            (pts, inc_sat(depth))
        } else {
            (pts, depth)
        },
        ScanEvent::End(tag) => if container_tag(tag) {
            (pts, dec_sat(depth))
        } else {
            (pts, depth)
        },
        ScanEvent::Rule => if depth == 0 {
            (push_boundary(pts, at, depth, count), depth)
        } else {
            (pts, depth)
        },
        ScanEvent::Other => (pts, depth),
    }
}

/// The checkpoints, depth and event count after scanning `events`
/// (each with its start, relative to the body at `fm_end`).
pub open spec fn scan(events: Seq<(ScanEvent, usize)>, fm_end: usize) -> (Seq<BlockCheckpoint>, u32, u32)
    decreases events.len(),
{
    if events.len() == 0 {
        (seq![BlockCheckpoint { byte: 0, parser_state: 0 }], 0, 0)
    } else {
        let prev = scan(events.drop_last(), fm_end);
        let count = inc_sat(prev.2);
        let w = walk(prev.0, prev.1, events.last().0, absolute_of(events.last().1, fm_end), count);
        (w.0, w.1, count)
    }
}

/// The whole table: the scanned checkpoints and a sentinel at the
/// source length, unless a checkpoint already reaches it.
pub open spec fn checkpoints_of(events: Seq<(ScanEvent, usize)>, fm_end: usize, source_len: u32) -> Seq<
    BlockCheckpoint,
> {
    let s = scan(events, fm_end);
    push_boundary(s.0, source_len, s.1, s.2)
}

/// Strictly increasing by byte, starting at byte 0.
pub open spec fn rising_from_zero(pts: Seq<BlockCheckpoint>) -> bool {
    &&& pts.len() > 0
    &&& pts[0].byte == 0
    &&& forall|i: int, j: int| 0 <= i < j < pts.len() ==> pts[i].byte < pts[j].byte
}

/// The shape of every table: strictly increasing from byte 0 to at
/// least the source length.
pub open spec fn table_shape(pts: Seq<BlockCheckpoint>, source_len: u32) -> bool {
    rising_from_zero(pts) && pts.last().byte >= source_len
}

proof fn lemma_push_keeps_rising(pts: Seq<BlockCheckpoint>, at: u32, depth: u32, count: u32)
    requires
        rising_from_zero(pts),
    ensures
        rising_from_zero(push_boundary(pts, at, depth, count)),
        push_boundary(pts, at, depth, count).last().byte >= at,
{
    let q = push_boundary(pts, at, depth, count);
    if pts.last().byte < at {
        assert forall|i: int, j: int| 0 <= i < j < q.len() implies q[i].byte < q[j].byte by {
            if j == q.len() - 1 && i < pts.len() - 1 {
                assert(pts[i].byte < pts[pts.len() - 1].byte);
            }
        }
    }
}

proof fn lemma_scan_rising(events: Seq<(ScanEvent, usize)>, fm_end: usize)
    ensures
        rising_from_zero(scan(events, fm_end).0),
    decreases events.len(),
{
    if events.len() > 0 {
        let prev = scan(events.drop_last(), fm_end);
        lemma_scan_rising(events.drop_last(), fm_end);
        let count = inc_sat(prev.2);
        let at = absolute_of(events.last().1, fm_end);
        lemma_push_keeps_rising(prev.0, at, prev.1, count);
    }
}

fn try_push(points: &mut Vec<BlockCheckpoint>, at: u32, depth: u32, event_count: u32)
    ensures
        final(points)@ == push_boundary(old(points)@, at, depth, event_count),
{
    let n = points.len();
    if n == 0 || points[n - 1].byte < at {
        let state = parser_state_hash(depth, event_count);
        points.push(BlockCheckpoint { byte: at, parser_state: state });
    }
}

/// Applies one parser event to the scan: records a boundary at `at` for
/// a block that opens at the top level (or a top-level rule), and moves
/// the container depth.
pub fn walk_event(
    event: ScanEvent,
    at: u32,
    depth: &mut u32,
    event_count: u32,
    points: &mut Vec<BlockCheckpoint>,
)
    ensures
        (final(points)@, *final(depth)) == walk(old(points)@, *old(depth), event, at, event_count),
{
    match event {
        ScanEvent::Start(tag) => {
            if *depth == 0 && is_top_level_block(tag) {
                try_push(points, at, *depth, event_count);
                if is_container(tag) {
                    *depth = depth.saturating_add(1);
                }
            } else if is_container(tag) {
                *depth = depth.saturating_add(1);
            }
        },
        ScanEvent::End(end) => {
            if is_container_end(end) {
                *depth = depth.saturating_sub(1);
            }
        },
        ScanEvent::Rule => {
            if *depth == 0 {
                try_push(points, at, *depth, event_count);
            }
        },
        ScanEvent::Other => {},
    }
}

fn absolute_offset(start: usize, fm_end: usize) -> (r: u32)
    ensures
        r == absolute_of(start, fm_end),
{
    let sum = start.saturating_add(fm_end);
    if sum > 0xffff_ffffusize {
        0xffff_ffffu32
    } else {
        sum as u32
    }
}

// ============================================================
// The table
// ============================================================

/// The top-level block boundaries of one document: a strictly
/// increasing list of checkpoints from byte 0 up to a sentinel at the
/// source length.
#[derive(Debug)]
pub struct CheckpointTable {
    source_len: u32,
    points: Vec<BlockCheckpoint>,
}

impl CheckpointTable {
    /// The checkpoints, in order.
    pub closed spec fn spec_points(&self) -> Seq<BlockCheckpoint> {
        self.points@
    }

    /// The source length the table was built for.
    pub closed spec fn spec_source_len(&self) -> u32 {
        self.source_len
    }

    pub open spec fn wf(&self) -> bool {
        table_shape(self.spec_points(), self.spec_source_len())
    }

    /// Builds the table of `source` from the parser's events over its
    /// body (the text after [`frontmatter_end`]), each with its start
    /// relative to the body and already in the caller's coordinates.
    /// The first checkpoint is byte 0; a top-level block start or rule
    /// adds one when it lies past the last; a sentinel closes the table
    /// at the source length.
    pub fn build_from_events(source: &str, events: &[(ScanEvent, usize)]) -> (t: Self)
        ensures
            t.spec_source_len() == (if utf8_of(source@).len() > u32::MAX {
                u32::MAX
            } else {
                utf8_of(source@).len() as u32
            }),
            t.spec_points() == checkpoints_of(
                events@,
                frontmatter_end_of(utf8_of(source@)) as usize,
                t.spec_source_len(),
            ),
            t.wf(),
    {
        let len = source.as_bytes().len();
        let source_len: u32 = if len > 0xffff_ffffusize {
            0xffff_ffffu32
        } else {
            len as u32
        };
        let fm_end = frontmatter_end(source);
        let mut points: Vec<BlockCheckpoint> = Vec::new();
        points.push(BlockCheckpoint { byte: 0, parser_state: 0 });
        let mut depth: u32 = 0;
        let mut event_count: u32 = 0;
        let mut i: usize = 0;
        while i < events.len()
            invariant
                i <= events@.len(),
                ({
                    let s = scan(events@.take(i as int), fm_end);
                    points@ == s.0 && depth == s.1 && event_count == s.2
                }),
            decreases events@.len() - i,
        {
            proof {
                assert(events@.take(i + 1).drop_last() =~= events@.take(i as int));
            }
            event_count = event_count.saturating_add(1);
            let (event, start) = events[i];
            let at = absolute_offset(start, fm_end);
            walk_event(event, at, &mut depth, event_count, &mut points);
            i = i + 1;
        }
        proof {
            assert(events@.take(events@.len() as int) =~= events@);
            lemma_scan_rising(events@, fm_end);
            lemma_push_keeps_rising(points@, source_len, depth, event_count);
        }
        try_push(&mut points, source_len, depth, event_count);
        CheckpointTable { source_len, points }
    }

    /// Builds the table of `source`: parses the text after the
    /// frontmatter and records its top-level block boundaries (see
    /// `build_from_events`).
    pub fn build(source: &str) -> (t: Self)
        ensures
            t.wf(),
            t.spec_source_len() == (if utf8_of(source@).len() > u32::MAX {
                u32::MAX
            } else {
                utf8_of(source@).len() as u32
            }),
            t.spec_points() == checkpoints_of(
                scan_events_of(body_events(source@)),
                frontmatter_end_of(utf8_of(source@)) as usize,
                t.spec_source_len(),
            ),
    {
        let fm = frontmatter_end(source);
        let n = source.as_bytes().len();
        proof {
            lemma_frontmatter_boundary(source@);
        }
        let body = str_get(source, fm, n).unwrap();
        proof {
            let b = utf8_of(source@);
            assert(utf8_of(body_chars(source@)) == b.subrange(frontmatter_end_of(b), b.len() as int));
            lemma_utf8_of_injective(body_chars(source@), body@);
        }
        let evs = parse_events_at(body);
        let scanned = scan_events(&evs);
        Self::build_from_events(source, scanned.as_slice())
    }

    /// The smallest `[lo, hi)` that covers `range` (clamped to the
    /// source) and starts and ends on checkpoints: `lo` is the last
    /// checkpoint at or before the clamped start, `hi` the first at or
    /// after the clamped end.
    pub fn snap_to_block_boundaries(&self, range: Range<u32>) -> (r: Range<u32>)
        requires
            self.wf(),
        ensures
            snaps_to(self.spec_points(), self.spec_source_len(), range.start, range.end, r.start, r.end),
    {
        let pts = &self.points;
        let ghost p = pts@;
        let req_start = if range.start < self.source_len {
            range.start
        } else {
            self.source_len
        };
        let e0 = if range.end < self.source_len {
            range.end
        } else {
            self.source_len
        };
        let req_end = if e0 < req_start {
            req_start
        } else {
            e0
        };
        // Largest checkpoint at or before `req_start`: every index below
        // `a` is a candidate, every index from `b` on lies past it.
        let mut a: usize = 0;
        let mut b: usize = pts.len();
        while b - a > 1
            invariant
                p == pts@,
                rising_from_zero(p),
                0 <= a < b <= p.len(),
                p[a as int].byte <= req_start,
                forall|j: int| b <= j < p.len() ==> p[j].byte > req_start,
            decreases b - a,
        {
            let mid = a + (b - a) / 2;
            if pts[mid].byte <= req_start {
                a = mid;
            } else {
                proof {
                    assert forall|j: int| mid <= j < p.len() implies p[j].byte > req_start by {
                        if j > mid {
                            assert(p[mid as int].byte < p[j].byte);
                        }
                    }
                }
                b = mid;
            }
        }
        let lo = pts[a].byte;
        proof {
            assert forall|j: int| 0 <= j < p.len() && p[j].byte <= req_start implies p[j].byte <= lo by {
                if j < a {
                    assert(p[j].byte < p[a as int].byte);
                }
            }
        }
        // First checkpoint at or after `req_end`: every index below `c`
        // lies before it, the one at `d` does not.
        let mut c: usize = 0;
        let mut d: usize = pts.len() - 1;
        while c < d
            invariant
                p == pts@,
                rising_from_zero(p),
                0 <= c <= d < p.len(),
                p[d as int].byte >= req_end,
                forall|j: int| 0 <= j < c ==> p[j].byte < req_end,
            decreases d - c,
        {
            let mid = c + (d - c) / 2;
            if pts[mid].byte >= req_end {
                d = mid;
            } else {
                proof {
                    assert forall|j: int| 0 <= j < mid + 1 implies p[j].byte < req_end by {
                        if j < mid {
                            assert(p[j].byte < p[mid as int].byte);
                        }
                    }
                }
                c = mid + 1;
            }
        }
        let hi = pts[d].byte;
        proof {
            assert forall|j: int| 0 <= j < p.len() && p[j].byte >= req_end implies p[j].byte >= hi by {
                if j > d {
                    assert(p[d as int].byte < p[j].byte);
                }
            }
        }
        lo..hi
    }

    /// Number of checkpoints, the first one and the sentinel included.
    pub fn len(&self) -> (r: usize)
        ensures
            r == self.spec_points().len(),
    {
        self.points.len()
    }

    /// Whether the document has no top-level block: only the two
    /// bookends are recorded.
    pub fn is_empty(&self) -> (r: bool)
        ensures
            r == (self.spec_points().len() <= 2),
    {
        self.points.len() <= 2
    }
}

/// The request clamped to the source: the start no later than the
/// source length, the end between the start and the source length.
pub open spec fn clamp_request(start: u32, end: u32, source_len: u32) -> (u32, u32) {
    let a = if start < source_len {
        start
    } else {
        source_len
    };
    let e = if end < source_len {
        end
    } else {
        source_len
    };
    (a, if e < a {
        a
    } else {
        e
    })
}

/// `v` is the last checkpoint at or before `x`.
pub open spec fn is_floor(pts: Seq<BlockCheckpoint>, x: u32, v: u32) -> bool {
    &&& exists|i: int| 0 <= i < pts.len() && pts[i].byte == v
    &&& v <= x
    &&& forall|i: int| 0 <= i < pts.len() && pts[i].byte <= x ==> pts[i].byte <= v
}

/// `v` is the first checkpoint at or after `x`.
pub open spec fn is_ceiling(pts: Seq<BlockCheckpoint>, x: u32, v: u32) -> bool {
    &&& exists|i: int| 0 <= i < pts.len() && pts[i].byte == v
    &&& v >= x
    &&& forall|i: int| 0 <= i < pts.len() && pts[i].byte >= x ==> pts[i].byte >= v
}

/// `[lo, hi)` is the snap of the request `[start, end)`.
pub open spec fn snaps_to(pts: Seq<BlockCheckpoint>, source_len: u32, start: u32, end: u32, lo: u32, hi: u32) -> bool {
    let (a, b) = clamp_request(start, end, source_len);
    is_floor(pts, a, lo) && is_ceiling(pts, b, hi)
}

/// A snapped range covers the (clamped) request, and snapping it again
/// gives it back: its ends are already block boundaries.
pub proof fn law_snap_is_stable(
    pts: Seq<BlockCheckpoint>,
    source_len: u32,
    start: u32,
    end: u32,
    lo: u32,
    hi: u32,
)
    requires
        table_shape(pts, source_len),
        snaps_to(pts, source_len, start, end, lo, hi),
    ensures
        lo <= clamp_request(start, end, source_len).0 <= clamp_request(start, end, source_len).1 <= hi,
        snaps_to(pts, source_len, lo, hi, lo, hi),
{
    let (a, b) = clamp_request(start, end, source_len);
    let (a2, b2) = clamp_request(lo, hi, source_len);
    assert(a2 == lo);
    assert(is_floor(pts, a2, lo));
    if hi <= source_len {
        assert(b2 == hi);
    } else {
        assert(b2 == source_len);
    }
    assert(is_ceiling(pts, b2, hi));
}

/// A block that may open at the top level of a document: a paragraph,
/// heading, block quote, code block, HTML block, list, table or footnote
/// definition.
pub open spec fn opens_top_level_block(t: StartTag) -> bool {
    ||| t is Paragraph
    ||| t is Heading
    ||| t is BlockQuote
    ||| t is CodeBlock
    ||| t is HtmlBlock
    ||| t is List
    ||| t is Table
    ||| t is FootnoteDefinition
}

/// Outside every container, the start of a top-level block that lies past
/// the last checkpoint adds a checkpoint at its start byte, keeping those
/// before it; the start of any other tag, or of any tag inside a
/// container, adds none.
pub proof fn law_block_start_checkpoint(
    pre: Seq<(ParsedEvent, usize, usize)>,
    tag: StartTag,
    lo: usize,
    hi: usize,
    fm_end: usize,
)
    requires
        lo + fm_end <= u32::MAX,
    ensures
        ({
            let before = scan(scan_events_of(pre), fm_end);
            let after = scan(scan_events_of(pre.push((ParsedEvent::Start(tag), lo, hi))), fm_end).0;
            &&& (opens_top_level_block(tag) && before.1 == 0 && before.0.last().byte < lo + fm_end) ==> {
                &&& after.len() == before.0.len() + 1
                &&& after.drop_last() == before.0
                &&& after.last().byte == lo + fm_end
            }
            &&& (!opens_top_level_block(tag) || before.1 != 0) ==> after == before.0
        }),
{
    let evs = pre.push((ParsedEvent::Start(tag), lo, hi));
    assert(scan_events_of(evs).drop_last() =~= scan_events_of(pre));
    assert(scan_events_of(evs).last() == (ScanEvent::Start(start_block_tag(tag)), lo));
}

/// A block that holds further blocks: a block quote, list, list item,
/// footnote definition, or a table and its head, rows and cells.
pub open spec fn opens_container(t: StartTag) -> bool {
    ||| t is BlockQuote
    ||| t is List
    ||| t is Item
    ||| t is FootnoteDefinition
    ||| t is Table
    ||| t is TableHead
    ||| t is TableRow
    ||| t is TableCell
}

/// The end of a block that holds further blocks.
pub open spec fn closes_container(t: EndTag) -> bool {
    ||| t is BlockQuote
    ||| t is List
    ||| t is Item
    ||| t is FootnoteDefinition
    ||| t is Table
    ||| t is TableHead
    ||| t is TableRow
    ||| t is TableCell
}

/// Containers nest: opening one goes one level deeper, closing one comes
/// back up, and any other tag leaves the depth as it is. A thematic break
/// outside every container that lies past the last checkpoint adds a
/// checkpoint at its start; inside a container it adds none.
pub proof fn law_container_depth_and_rules(
    pre: Seq<(ParsedEvent, usize, usize)>,
    ev: ParsedEvent,
    lo: usize,
    hi: usize,
    fm_end: usize,
)
    requires
        lo + fm_end <= u32::MAX,
    ensures
        ({
            let before = scan(scan_events_of(pre), fm_end);
            let after = scan(scan_events_of(pre.push((ev, lo, hi))), fm_end);
            &&& ev matches ParsedEvent::Start(t) ==> (if opens_container(t) {
                before.1 < u32::MAX ==> after.1 == before.1 + 1
            } else {
                after.1 == before.1
            })
            &&& ev matches ParsedEvent::End(t) ==> (if closes_container(t) {
                before.1 > 0 ==> after.1 == before.1 - 1
            } else {
                after.1 == before.1 && after.0 == before.0
            })
            &&& ev is Rule ==> after.1 == before.1
            &&& (ev is Rule && before.1 == 0 && before.0.last().byte < lo + fm_end) ==> {
                &&& after.0.len() == before.0.len() + 1
                &&& after.0.drop_last() == before.0
                &&& after.0.last().byte == lo + fm_end
            }
            &&& (ev is Rule && before.1 != 0) ==> after.0 == before.0
        }),
{
    let evs = pre.push((ev, lo, hi));
    assert(scan_events_of(evs).drop_last() =~= scan_events_of(pre));
    assert(scan_events_of(evs).last() == (scan_event_of(ev), lo));
}

} // verus!
