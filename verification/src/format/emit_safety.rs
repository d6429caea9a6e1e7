//! Emphasis emission fallbacks.
//!
//! When the canonical delimiter of an emphasis run would not re-parse as
//! a single run, the emitter escapes the body bytes that the delimiter
//! would interact with before falling back to the source bytes.

use vstd::prelude::*;
use vstd::utf8::*;
use crate::inline::emphasis::EmphasisDelim;
use crate::format::semantic::{cmark, cmark_at, inc_sat, parse_events, parse_events_at, EndTag, ParsedEvent, StartTag};
use crate::format::doc::{concat_docs, lemma_lf_from_no_cr, text, Doc};
use crate::text::{
    insert_backslashes, lemma_insert_keeps_utf8, lemma_insert_push, lemma_utf8_of_valid, string_of_valid, utf8_of,
};

verus! {

/// The byte an emphasis delimiter is written with.
pub open spec fn delim_byte(d: EmphasisDelim) -> u8 {
    match d {
        EmphasisDelim::Asterisk => 0x2Au8,
        EmphasisDelim::Underscore => 0x5Fu8,
    }
}

/// One flag per byte: set where the byte is `t`.
pub open spec fn flags_for(b: Seq<u8>, t: u8) -> Seq<bool> {
    Seq::new(b.len(), |i: int| b[i] == t)
}

/// `body` with a backslash before every occurrence of the delimiter's
/// byte; `None` when the byte does not occur, so that the caller can
/// skip the retry.
pub fn escape_body_for_emphasis(body: &str, delim: EmphasisDelim) -> (r: Option<String>)
    ensures
        r is Some <==> utf8_of(body@).contains(delim_byte(delim)),
        r matches Some(s) ==> utf8_of(s@) == insert_backslashes(
            utf8_of(body@),
            flags_for(utf8_of(body@), delim_byte(delim)),
        ),
{
    let target_byte: u8 = match delim {
        EmphasisDelim::Asterisk => 0x2Au8,
        EmphasisDelim::Underscore => 0x5Fu8,
    };
    let bytes = body.as_bytes();
    let ghost b = bytes@;
    let ghost flags = flags_for(b, target_byte);
    let mut found = false;
    let mut k: usize = 0;
    while k < bytes.len()
        invariant
            b == bytes@,
            k <= b.len(),
            found <==> exists|m: int| 0 <= m < k && b[m] == target_byte,
        decreases b.len() - k,
    {
        if bytes[k] == target_byte {
            found = true;
        }
        k = k + 1;
    }
    if !found {
        proof {
            if b.contains(target_byte) {
                let m = choose|m: int| 0 <= m < b.len() && b[m] == target_byte;
                assert(exists|m: int| 0 <= m < k && b[m] == target_byte);
            }
        }
        return None;
    }
    let mut out: Vec<u8> = Vec::new();
    let mut i: usize = 0;
    while i < bytes.len()
        invariant
            b == bytes@,
            flags == flags_for(b, target_byte),
            i <= b.len(),
            out@ == insert_backslashes(b.take(i as int), flags.take(i as int)),
        decreases b.len() - i,
    {
        proof {
            lemma_insert_push(b, flags, i as int);
        }
        if bytes[i] == target_byte {
            out.push(0x5Cu8);
        }
        out.push(bytes[i]);
        i = i + 1;
    }
    proof {
        assert(b.take(b.len() as int) =~= b);
        assert(flags.take(b.len() as int) =~= flags);
        lemma_utf8_of_valid(body@);
        lemma_insert_keeps_utf8(b, flags);
        let m = choose|m: int| 0 <= m < k && b[m] == target_byte;
        assert(b.contains(target_byte));
    }
    Some(string_of_valid(out))
}


/// Which kind of run an emphasis check is about.
#[derive(Copy, Clone, Debug, PartialEq, Eq, Structural)]
pub enum RunKind {
    Emphasis,
    Strong,
}

/// The delimiter string of a run: one delimiter byte for emphasis, two
/// for strong.
pub open spec fn wrap_chars(kind: RunKind, delim: EmphasisDelim) -> Seq<char> {
    let c = if delim == EmphasisDelim::Asterisk { '*' } else { '_' };
    match kind {
        RunKind::Emphasis => seq![c],
        RunKind::Strong => seq![c, c],
    }
}

impl RunKind {
    pub fn wrap_str(self, delim: EmphasisDelim) -> (r: &'static str)
        ensures
            r@ == wrap_chars(self, delim),
    {
        match (self, delim) {
            (RunKind::Emphasis, EmphasisDelim::Asterisk) => {
                proof {
                    reveal_strlit("*");
                }
                "*"
            },
            (RunKind::Emphasis, EmphasisDelim::Underscore) => {
                proof {
                    reveal_strlit("_");
                }
                "_"
            },
            (RunKind::Strong, EmphasisDelim::Asterisk) => {
                proof {
                    reveal_strlit("**");
                }
                "**"
            },
            (RunKind::Strong, EmphasisDelim::Underscore) => {
                proof {
                    reveal_strlit("__");
                }
                "__"
            },
        }
    }
}

/// `body` between two copies of the run's delimiter: one byte for
/// emphasis, two for strong.
pub fn wrap_in_delim<'a>(body: Doc<'a>, kind: RunKind, delim: EmphasisDelim) -> (d: Doc<'a>)
    ensures
        d matches Doc::Concat(v) && v@.len() == 3 && v@[1] == body && (v@[0] matches Doc::Text(c)
            && c@ == wrap_chars(kind, delim)) && (v@[2] matches Doc::Text(c) && c@ == wrap_chars(kind, delim)),
{
    let w = kind.wrap_str(delim);
    proof {
        lemma_lf_from_no_cr(w@, 0);
        assert(w@.subrange(0, w@.len() as int) =~= w@);
    }
    concat_docs([text(w), body, text(w)])
}

/// The inline tags the outer-run check tells apart.
#[derive(Copy, Clone, Debug, PartialEq, Eq, Structural)]
pub enum InlineTag {
    Emphasis,
    Strong,
    Link,
    Image,
    Other,
}

/// One parser event of a re-parse, as far as the outer-run check reads
/// it; text, code, breaks and the other leaves are `Leaf`.
#[derive(Copy, Clone, Debug, PartialEq, Eq, Structural)]
pub enum InlineEvent {
    Start(InlineTag),
    End(InlineTag),
    Leaf,
}

/// The tag a run of this kind opens and closes with.
pub open spec fn run_tag(kind: RunKind) -> InlineTag {
    match kind {
        RunKind::Emphasis => InlineTag::Emphasis,
        RunKind::Strong => InlineTag::Strong,
    }
}

/// Tags that wrap inline content: emphasis, strong, links and images.
pub open spec fn wrap_tag(t: InlineTag) -> bool {
    t is Emphasis || t is Strong || t is Link || t is Image
}

/// Where the outer-run check stands after some events: whether the
/// target run has opened, how many wrapping tags were open before it,
/// how deep inside it the walk is, and whether it closed where wanted.
#[derive(Copy, Clone, Debug, PartialEq, Eq, Structural)]
pub struct RunScan {
    pub found_open: bool,
    pub pre_wrap_depth: u32,
    pub depth: u32,
    pub matched: bool,
}

pub open spec fn up(x: u32) -> u32 {
    if x == u32::MAX {
        x
    } else {
        (x + 1) as u32
    }
}

pub open spec fn down(x: u32) -> u32 {
    if x == 0 {
        0
    } else {
        (x - 1) as u32
    }
}

/// One event of the check. The target run must open at `open_at` with
/// no wrapping tag already open, and close at `close_at` with nothing
/// nested still open.
pub open spec fn run_step(
    s: RunScan,
    ev: InlineEvent,
    start: usize,
    end: usize,
    open_at: usize,
    close_at: usize,
    tag: InlineTag,
) -> RunScan {
    if s.matched {
        s
    } else {
        match ev {
            InlineEvent::Start(t) => if !s.found_open && start == open_at && s.pre_wrap_depth == 0 && t == tag {
                RunScan { found_open: true, ..s }
            } else if !s.found_open {
                if wrap_tag(t) {
                    RunScan { pre_wrap_depth: up(s.pre_wrap_depth), ..s }
                } else {
                    s
                }
            } else {
                RunScan { depth: up(s.depth), ..s }
            },
            InlineEvent::End(t) => if s.found_open && s.depth == 0 && end == close_at && t == tag {
                RunScan { matched: true, ..s }
            } else if !s.found_open {
                if wrap_tag(t) {
                    RunScan { pre_wrap_depth: down(s.pre_wrap_depth), ..s }
                } else {
                    s
                }
            } else {
                RunScan { depth: down(s.depth), ..s }
            },
            InlineEvent::Leaf => s,
        }
    }
}

/// The check's state after `events`, each with its byte range.
pub open spec fn run_scan(
    events: Seq<(InlineEvent, usize, usize)>,
    open_at: usize,
    close_at: usize,
    tag: InlineTag,
) -> RunScan
    decreases events.len(),
{
    if events.len() == 0 {
        RunScan { found_open: false, pre_wrap_depth: 0, depth: 0, matched: false }
    } else {
        let e = events.last();
        run_step(run_scan(events.drop_last(), open_at, close_at, tag), e.0, e.1, e.2, open_at, close_at, tag)
    }
}

proof fn lemma_matched_stays(
    events: Seq<(InlineEvent, usize, usize)>,
    k: int,
    open_at: usize,
    close_at: usize,
    tag: InlineTag,
)
    requires
        0 <= k <= events.len(),
        run_scan(events.take(k), open_at, close_at, tag).matched,
    ensures
        run_scan(events, open_at, close_at, tag).matched,
    decreases events.len() - k,
{
    if k < events.len() {
        assert(events.take(k + 1).drop_last() =~= events.take(k));
        lemma_matched_stays(events, k + 1, open_at, close_at, tag);
    } else {
        assert(events.take(k) =~= events);
    }
}

fn is_inline_wrap(tag: InlineTag) -> (r: bool)
    ensures
        r == wrap_tag(tag),
{
    match tag {
        InlineTag::Emphasis | InlineTag::Strong | InlineTag::Link | InlineTag::Image => true,
        InlineTag::Other => false,
    }
}

/// Whether a re-parse, given as its `events` with their byte ranges,
/// holds the wrapped run as one top-level run of `kind`: it opens at
/// `skip_left` while no emphasis, strong, link or image is open, and it
/// closes at `skip_left + run_len` (saturating) with nothing nested
/// still open.
pub fn parses_with_outer_run_at(
    events: &[(InlineEvent, usize, usize)],
    kind: RunKind,
    skip_left: usize,
    run_len: usize,
) -> (r: bool)
    ensures
        r == run_scan(
            events@,
            skip_left,
            if skip_left + run_len > usize::MAX {
                usize::MAX
            } else {
                (skip_left + run_len) as usize
            },
            run_tag(kind),
        ).matched,
{
    let tag = match kind {
        RunKind::Emphasis => InlineTag::Emphasis,
        RunKind::Strong => InlineTag::Strong,
    };
    let target_open = skip_left;
    let target_close = skip_left.saturating_add(run_len);
    let mut pre_wrap_depth: u32 = 0;
    let mut depth: u32 = 0;
    let mut found_open = false;
    let mut i: usize = 0;
    while i < events.len()
        invariant
            i <= events@.len(),
            tag == run_tag(kind),
            target_open == skip_left,
            target_close == (if skip_left + run_len > usize::MAX {
                usize::MAX
            } else {
                (skip_left + run_len) as usize
            }),
            run_scan(events@.take(i as int), target_open, target_close, tag) == (RunScan {
                found_open,
                pre_wrap_depth,
                depth,
                matched: false,
            }),
        decreases events@.len() - i,
    {
        proof {
            assert(events@.take(i + 1).drop_last() =~= events@.take(i as int));
            assert(events@.take(i + 1).last() == events@[i as int]);
        }
        let (ev, start, end) = events[i];
        match ev {
            InlineEvent::Start(t) => {
                if !found_open && start == target_open && pre_wrap_depth == 0 && t == tag {
                    found_open = true;
                } else if !found_open {
                    if is_inline_wrap(t) {
                        pre_wrap_depth = pre_wrap_depth.saturating_add(1);
                    }
                } else {
                    depth = depth.saturating_add(1);
                }
            },
            InlineEvent::End(t) => {
                if found_open && depth == 0 && end == target_close && t == tag {
                    proof {
                        assert(run_scan(events@.take(i + 1), target_open, target_close, tag).matched);
                        lemma_matched_stays(events@, i + 1, target_open, target_close, tag);
                    }
                    return true;
                } else if !found_open {
                    if is_inline_wrap(t) {
                        pre_wrap_depth = pre_wrap_depth.saturating_sub(1);
                    }
                } else {
                    depth = depth.saturating_sub(1);
                }
            },
            InlineEvent::Leaf => {},
        }
        i = i + 1;
    }
    proof {
        assert(events@.take(events@.len() as int) =~= events@);
    }
    false
}


// ============================================================
// Re-parsing the emitted bytes
// ============================================================

/// A parsed event as the outer-run check reads it.
pub open spec fn inline_event_of(e: ParsedEvent) -> InlineEvent {
    match e {
        ParsedEvent::Start(StartTag::Emphasis) => InlineEvent::Start(InlineTag::Emphasis),
        ParsedEvent::Start(StartTag::Strong) => InlineEvent::Start(InlineTag::Strong),
        ParsedEvent::Start(StartTag::Link { .. }) => InlineEvent::Start(InlineTag::Link),
        ParsedEvent::Start(StartTag::Image { .. }) => InlineEvent::Start(InlineTag::Image),
        ParsedEvent::Start(_) => InlineEvent::Start(InlineTag::Other),
        ParsedEvent::End(EndTag::Emphasis) => InlineEvent::End(InlineTag::Emphasis),
        ParsedEvent::End(EndTag::Strong) => InlineEvent::End(InlineTag::Strong),
        ParsedEvent::End(EndTag::Link) => InlineEvent::End(InlineTag::Link),
        ParsedEvent::End(EndTag::Image) => InlineEvent::End(InlineTag::Image),
        ParsedEvent::End(_) => InlineEvent::End(InlineTag::Other),
        _ => InlineEvent::Leaf,
    }
}

pub open spec fn inline_events_of(evs: Seq<(ParsedEvent, usize, usize)>) -> Seq<(InlineEvent, usize, usize)> {
    evs.map_values(|e: (ParsedEvent, usize, usize)| (inline_event_of(e.0), e.1, e.2))
}

fn inline_event(e: &ParsedEvent) -> (r: InlineEvent)
    ensures
        r == inline_event_of(*e),
{
    match e {
        ParsedEvent::Start(StartTag::Emphasis) => InlineEvent::Start(InlineTag::Emphasis),
        ParsedEvent::Start(StartTag::Strong) => InlineEvent::Start(InlineTag::Strong),
        ParsedEvent::Start(StartTag::Link { .. }) => InlineEvent::Start(InlineTag::Link),
        ParsedEvent::Start(StartTag::Image { .. }) => InlineEvent::Start(InlineTag::Image),
        ParsedEvent::Start(_) => InlineEvent::Start(InlineTag::Other),
        ParsedEvent::End(EndTag::Emphasis) => InlineEvent::End(InlineTag::Emphasis),
        ParsedEvent::End(EndTag::Strong) => InlineEvent::End(InlineTag::Strong),
        ParsedEvent::End(EndTag::Link) => InlineEvent::End(InlineTag::Link),
        ParsedEvent::End(EndTag::Image) => InlineEvent::End(InlineTag::Image),
        ParsedEvent::End(_) => InlineEvent::End(InlineTag::Other),
        _ => InlineEvent::Leaf,
    }
}

/// Reads parsed events with their ranges as the outer-run check reads
/// them.
pub fn inline_events(evs: &Vec<(ParsedEvent, usize, usize)>) -> (r: Vec<(InlineEvent, usize, usize)>)
    ensures
        r@ == inline_events_of(evs@),
{
    let mut out: Vec<(InlineEvent, usize, usize)> = Vec::new();
    let mut i: usize = 0;
    while i < evs.len()
        invariant
            i <= evs@.len(),
            out@ == inline_events_of(evs@.take(i as int)),
        decreases evs@.len() - i,
    {
        out.push((inline_event(&evs[i].0), evs[i].1, evs[i].2));
        assert(inline_events_of(evs@.take(i + 1)) =~= inline_events_of(evs@.take(i as int)).push(
            (inline_event_of(evs@[i as int].0), evs@[i as int].1, evs@[i as int].2),
        ));
        i = i + 1;
    }
    assert(evs@.take(evs@.len() as int) =~= evs@);
    out
}

/// A flank's characters; none when there is no flank.
pub open spec fn flank_chars(f: Option<&str>) -> Seq<char> {
    match f {
        Some(s) => s@,
        None => Seq::empty(),
    }
}

/// The bytes re-parsed for a wrapped run between its flanks.
pub open spec fn flanked_input(wrapped: Seq<char>, left: Option<&str>, right: Option<&str>) -> Seq<char> {
    flank_chars(left) + wrapped + flank_chars(right)
}

/// Whether pulldown, given `wrapped` between the flank characters `left`
/// and `right` (none where absent), parses it as one top-level run of
/// `kind`: the run opens right after `left` and closes right before
/// `right` (see `parses_with_outer_run_at`).
pub fn parses_as_single_run(wrapped: &str, kind: RunKind, left: Option<&str>, right: Option<&str>) -> (r: bool)
    ensures
        r == run_scan(
            inline_events_of(cmark_at(flanked_input(wrapped@, left, right))),
            utf8_of(flank_chars(left)).len() as usize,
            if utf8_of(flank_chars(left)).len() + utf8_of(wrapped@).len() > usize::MAX {
                usize::MAX
            } else {
                (utf8_of(flank_chars(left)).len() + utf8_of(wrapped@).len()) as usize
            },
            run_tag(kind),
        ).matched,
{
    let l: &str = match left {
        Some(x) => x,
        None => "",
    };
    let rt: &str = match right {
        Some(x) => x,
        None => "",
    };
    proof {
        reveal_strlit("");
    }
    let mut input = String::new();
    input.push_str(l);
    input.push_str(wrapped);
    input.push_str(rt);
    assert(input@ =~= flanked_input(wrapped@, left, right));
    let evs = parse_events_at(input.as_str());
    let ie = inline_events(&evs);
    parses_with_outer_run_at(ie.as_slice(), kind, l.as_bytes().len(), wrapped.as_bytes().len())
}

/// Whether an opening tag is the one a run of `kind` opens with.
pub open spec fn opens_run(e: ParsedEvent, kind: RunKind) -> bool {
    match kind {
        RunKind::Emphasis => e == ParsedEvent::Start(StartTag::Emphasis),
        RunKind::Strong => e == ParsedEvent::Start(StartTag::Strong),
    }
}

/// Whether a closing tag is the one a run of `kind` closes with.
pub open spec fn closes_run(e: ParsedEvent, kind: RunKind) -> bool {
    match kind {
        RunKind::Emphasis => e == ParsedEvent::End(EndTag::Emphasis),
        RunKind::Strong => e == ParsedEvent::End(EndTag::Strong),
    }
}

/// The first index from `i` on that is not a paragraph opening.
pub open spec fn skip_paragraph_starts(evs: Seq<ParsedEvent>, i: int) -> int
    decreases evs.len() - i,
{
    if i < 0 || i >= evs.len() {
        evs.len() as int
    } else if evs[i] matches ParsedEvent::Start(StartTag::Paragraph) {
        skip_paragraph_starts(evs, i + 1)
    } else {
        i
    }
}

/// Where the run opened before `i` closes: the first closing tag of the
/// run's kind met with nothing nested open (`depth` counts openings
/// since, saturating), if any.
pub open spec fn run_close(evs: Seq<ParsedEvent>, kind: RunKind, i: int, depth: u32) -> Option<int>
    decreases evs.len() - i,
{
    if i < 0 || i >= evs.len() {
        None
    } else {
        match evs[i] {
            ParsedEvent::Start(_) => run_close(evs, kind, i + 1, inc_sat(depth)),
            ParsedEvent::End(_) => if depth == 0 && closes_run(evs[i], kind) {
                Some(i)
            } else {
                run_close(evs, kind, i + 1, if depth == 0 { 0 } else { (depth - 1) as u32 })
            },
            _ => run_close(evs, kind, i + 1, depth),
        }
    }
}

/// Every event from `i` on closes a paragraph.
pub open spec fn only_paragraph_ends(evs: Seq<ParsedEvent>, i: int) -> bool {
    forall|m: int| i <= m < evs.len() ==> evs[m] == ParsedEvent::End(EndTag::Paragraph)
}

/// The events hold one run of `kind` and nothing else beside the
/// paragraph that holds it.
pub open spec fn single_run(evs: Seq<ParsedEvent>, kind: RunKind) -> bool {
    let k = skip_paragraph_starts(evs, 0);
    &&& k < evs.len()
    &&& opens_run(evs[k], kind)
    &&& match run_close(evs, kind, k + 1, 0) {
        Some(j) => only_paragraph_ends(evs, j + 1),
        None => false,
    }
}

fn is_open_of(e: &ParsedEvent, kind: RunKind) -> (r: bool)
    ensures
        r == opens_run(*e, kind),
{
    match (e, kind) {
        (ParsedEvent::Start(StartTag::Emphasis), RunKind::Emphasis) => true,
        (ParsedEvent::Start(StartTag::Strong), RunKind::Strong) => true,
        _ => false,
    }
}

fn is_close_of(e: &ParsedEvent, kind: RunKind) -> (r: bool)
    ensures
        r == closes_run(*e, kind),
{
    match (e, kind) {
        (ParsedEvent::End(EndTag::Emphasis), RunKind::Emphasis) => true,
        (ParsedEvent::End(EndTag::Strong), RunKind::Strong) => true,
        _ => false,
    }
}

fn find_run_close(evs: &Vec<ParsedEvent>, kind: RunKind, from: usize) -> (r: Option<usize>)
    requires
        from <= evs@.len(),
    ensures
        match run_close(evs@, kind, from as int, 0) {
            Some(j) => r == Some(j as usize) && from <= j < evs@.len(),
            None => r is None,
        },
{
    let n = evs.len();
    let mut depth: u32 = 0;
    let mut i: usize = from;
    while i < n
        invariant
            n == evs@.len(),
            from <= i <= n,
            run_close(evs@, kind, from as int, 0) == run_close(evs@, kind, i as int, depth),
        decreases n - i,
    {
        proof {
            lemma_run_close_range(evs@, kind, i as int, depth);
        }
        match &evs[i] {
            ParsedEvent::Start(_) => {
                depth = if depth < u32::MAX { depth + 1 } else { depth };
            },
            ParsedEvent::End(_) => {
                if depth == 0 && is_close_of(&evs[i], kind) {
                    return Some(i);
                }
                depth = if depth == 0 { 0 } else { depth - 1 };
            },
            _ => {},
        }
        i = i + 1;
        proof {
            lemma_run_close_range(evs@, kind, i as int, depth);
        }
    }
    None
}

proof fn lemma_run_close_range(evs: Seq<ParsedEvent>, kind: RunKind, i: int, depth: u32)
    requires
        0 <= i,
    ensures
        run_close(evs, kind, i, depth) matches Some(q) ==> i <= q < evs.len(),
    decreases evs.len() - i,
{
    if i < evs.len() {
        lemma_run_close_range(evs, kind, i + 1, inc_sat(depth));
        lemma_run_close_range(evs, kind, i + 1, if depth == 0 { 0 } else { (depth - 1) as u32 });
        lemma_run_close_range(evs, kind, i + 1, depth);
    }
}

/// Whether `evs` hold one run of `kind` and nothing else beside the
/// paragraph that holds it.
pub fn is_single_run(evs: &Vec<ParsedEvent>, kind: RunKind) -> (r: bool)
    ensures
        r == single_run(evs@, kind),
{
    let n = evs.len();
    let mut k: usize = 0;
    while k < n && matches!(evs[k], ParsedEvent::Start(StartTag::Paragraph))
        invariant
            k <= n == evs@.len(),
            skip_paragraph_starts(evs@, 0) == skip_paragraph_starts(evs@, k as int),
        decreases n - k,
    {
        k = k + 1;
    }
    if k >= n || !is_open_of(&evs[k], kind) {
        return false;
    }
    let j = match find_run_close(evs, kind, k + 1) {
        Some(j) => j,
        None => {
            return false;
        },
    };
    let mut m: usize = j + 1;
    while m < n
        invariant
            j < n == evs@.len(),
            j + 1 <= m <= n,
            k < n,
            k == skip_paragraph_starts(evs@, 0),
            opens_run(evs@[k as int], kind),
            run_close(evs@, kind, k + 1, 0) == Some(j as int),
            forall|q: int| j + 1 <= q < m ==> evs@[q] == ParsedEvent::End(EndTag::Paragraph),
        decreases n - m,
    {
        if !matches!(evs[m], ParsedEvent::End(EndTag::Paragraph)) {
            assert(evs@[m as int] != ParsedEvent::End(EndTag::Paragraph));
            return false;
        }
        m = m + 1;
    }
    true
}

/// Whether pulldown parses `wrapped` on its own as one run of `kind` and
/// nothing else beside the paragraph that holds it.
pub fn parses_as_single_run_isolated(wrapped: &str, kind: RunKind) -> (r: bool)
    ensures
        r == single_run(cmark(wrapped@), kind),
{
    let evs = parse_events(wrapped);
    is_single_run(&evs, kind)
}
} // verus!
