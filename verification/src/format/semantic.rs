//! Semantic equivalence of two Markdown sources, judged on their
//! pulldown-cmark event streams.
//!
//! Both sides are parsed and their event streams compared modulo
//! whitespace inside non-verbatim text: each run of `Text` / `SoftBreak`
//! events in one inline context folds into one `Text` event with its
//! whitespace collapsed. Text inside code blocks, inline code, HTML and
//! math passes through byte for byte (line endings made LF); structural
//! events are compared as they are.

use vstd::prelude::*;
use pulldown_cmark::{Alignment, CodeBlockKind, Event, Options, Parser, Tag, TagEnd};
use crate::blocks::table::TableAlign;
use crate::format::endings::normalize_line_endings_lf;
use crate::format::doc::lf_only;
use crate::math::pretty::{is_unicode_whitespace, is_unicode_ws};
use crate::text::{chars_of, str_eq};

verus! {

/// The pulldown-cmark extensions the comparison parses with.
#[derive(Copy, Clone, Debug, PartialEq, Eq, Structural)]
pub struct ParseFlags {
    pub strikethrough: bool,
    pub footnotes: bool,
    pub tables: bool,
    pub tasklists: bool,
}

/// Strikethrough, footnotes, tables and task lists: the extensions the
/// formatter's own parse turns on.
pub fn options() -> (r: ParseFlags)
    ensures
        r.strikethrough && r.footnotes && r.tables && r.tasklists,
        r == fmt_flags(),
{
    ParseFlags { strikethrough: true, footnotes: true, tables: true, tasklists: true }
}

/// An opening tag, with the fields that matter for equivalence.
#[derive(Clone, Debug)]
pub enum StartTag {
    Paragraph,
    Heading(u32),
    BlockQuote,
    CodeBlock { fenced: bool, info: String },
    HtmlBlock,
    List(Option<u64>),
    Item,
    FootnoteDefinition(String),
    DefinitionList,
    DefinitionListTitle,
    DefinitionListDefinition,
    Table(Vec<TableAlign>),
    TableHead,
    TableRow,
    TableCell,
    Emphasis,
    Strong,
    Strikethrough,
    Superscript,
    Subscript,
    Link { dest: String, title: String, id: String },
    Image { dest: String, title: String, id: String },
    MetadataBlock,
}

/// A closing tag.
#[derive(Copy, Clone, Debug, PartialEq, Eq, Structural)]
pub enum EndTag {
    Paragraph,
    Heading(u32),
    BlockQuote,
    CodeBlock,
    HtmlBlock,
    List(bool),
    Item,
    FootnoteDefinition,
    DefinitionList,
    DefinitionListTitle,
    DefinitionListDefinition,
    Table,
    TableHead,
    TableRow,
    TableCell,
    Emphasis,
    Strong,
    Strikethrough,
    Superscript,
    Subscript,
    Link,
    Image,
    MetadataBlock,
}

/// One parser event, in plain values.
#[derive(Clone, Debug)]
pub enum ParsedEvent {
    Start(StartTag),
    End(EndTag),
    Text(String),
    Code(String),
    InlineMath(String),
    DisplayMath(String),
    Html(String),
    InlineHtml(String),
    FootnoteReference(String),
    SoftBreak,
    HardBreak,
    Rule,
    TaskListMarker(bool),
}

/// One event of the canonical stream.
#[derive(Clone, Debug)]
pub enum CanonicalEvent {
    Start(StartTag),
    End(EndTag),
    Text(String),
    VerbatimText(String),
    Code(String),
    InlineMath(String),
    DisplayMath(String),
    Html(String),
    InlineHtml(String),
    FootnoteReference(String),
    HardBreak,
    Rule,
    TaskListMarker(bool),
}

/// An opening tag with its text payloads taken as characters.
pub enum StartView {
    Paragraph,
    Heading(u32),
    BlockQuote,
    CodeBlock { fenced: bool, info: Seq<char> },
    HtmlBlock,
    List(Option<u64>),
    Item,
    FootnoteDefinition(Seq<char>),
    DefinitionList,
    DefinitionListTitle,
    DefinitionListDefinition,
    Table(Seq<TableAlign>),
    TableHead,
    TableRow,
    TableCell,
    Emphasis,
    Strong,
    Strikethrough,
    Superscript,
    Subscript,
    Link { dest: Seq<char>, title: Seq<char>, id: Seq<char> },
    Image { dest: Seq<char>, title: Seq<char>, id: Seq<char> },
    MetadataBlock,
}

pub open spec fn start_view(t: StartTag) -> StartView {
    match t {
        StartTag::Paragraph => StartView::Paragraph,
        StartTag::Heading(l) => StartView::Heading(l),
        StartTag::BlockQuote => StartView::BlockQuote,
        StartTag::CodeBlock { fenced, info } => StartView::CodeBlock { fenced, info: info@ },
        StartTag::HtmlBlock => StartView::HtmlBlock,
        StartTag::List(s) => StartView::List(s),
        StartTag::Item => StartView::Item,
        StartTag::FootnoteDefinition(l) => StartView::FootnoteDefinition(l@),
        StartTag::DefinitionList => StartView::DefinitionList,
        StartTag::DefinitionListTitle => StartView::DefinitionListTitle,
        StartTag::DefinitionListDefinition => StartView::DefinitionListDefinition,
        StartTag::Table(a) => StartView::Table(a@),
        StartTag::TableHead => StartView::TableHead,
        StartTag::TableRow => StartView::TableRow,
        StartTag::TableCell => StartView::TableCell,
        StartTag::Emphasis => StartView::Emphasis,
        StartTag::Strong => StartView::Strong,
        StartTag::Strikethrough => StartView::Strikethrough,
        StartTag::Superscript => StartView::Superscript,
        StartTag::Subscript => StartView::Subscript,
        StartTag::Link { dest, title, id } => StartView::Link { dest: dest@, title: title@, id: id@ },
        StartTag::Image { dest, title, id } => StartView::Image { dest: dest@, title: title@, id: id@ },
        StartTag::MetadataBlock => StartView::MetadataBlock,
    }
}

/// A canonical event with its text payloads taken as characters.
pub enum CanonItem {
    Start(StartView),
    End(EndTag),
    Text(Seq<char>),
    VerbatimText(Seq<char>),
    Code(Seq<char>),
    InlineMath(Seq<char>),
    DisplayMath(Seq<char>),
    Html(Seq<char>),
    InlineHtml(Seq<char>),
    FootnoteReference(Seq<char>),
    HardBreak,
    Rule,
    TaskListMarker(bool),
}

pub open spec fn canon_item(c: CanonicalEvent) -> CanonItem {
    match c {
        CanonicalEvent::Start(t) => CanonItem::Start(start_view(t)),
        CanonicalEvent::End(t) => CanonItem::End(t),
        CanonicalEvent::Text(s) => CanonItem::Text(s@),
        CanonicalEvent::VerbatimText(s) => CanonItem::VerbatimText(s@),
        CanonicalEvent::Code(s) => CanonItem::Code(s@),
        CanonicalEvent::InlineMath(s) => CanonItem::InlineMath(s@),
        CanonicalEvent::DisplayMath(s) => CanonItem::DisplayMath(s@),
        CanonicalEvent::Html(s) => CanonItem::Html(s@),
        CanonicalEvent::InlineHtml(s) => CanonItem::InlineHtml(s@),
        CanonicalEvent::FootnoteReference(s) => CanonItem::FootnoteReference(s@),
        CanonicalEvent::HardBreak => CanonItem::HardBreak,
        CanonicalEvent::Rule => CanonItem::Rule,
        CanonicalEvent::TaskListMarker(b) => CanonItem::TaskListMarker(b),
    }
}

pub open spec fn canon_items(cs: Seq<CanonicalEvent>) -> Seq<CanonItem> {
    cs.map_values(|c: CanonicalEvent| canon_item(c))
}

// ============================================================
// Whitespace collapse
// ============================================================

/// `s` from `i` on with each whitespace run that follows earlier
/// content made one space, and leading and trailing runs dropped;
/// `in_ws` says a run is open, `started` that content came before.
pub open spec fn collapse_from(s: Seq<char>, i: int, in_ws: bool, started: bool) -> Seq<char>
    decreases s.len() - i,
{
    if i < 0 || i >= s.len() {
        Seq::empty()
    } else if is_unicode_ws(s[i]) {
        collapse_from(s, i + 1, true, started)
    } else {
        (if in_ws && started {
            seq![' ']
        } else {
            Seq::empty()
        }) + seq![s[i]] + collapse_from(s, i + 1, false, true)
    }
}

/// Whitespace runs made single spaces, the edges trimmed.
pub open spec fn collapsed(s: Seq<char>) -> Seq<char> {
    collapse_from(s, 0, false, false)
}

/// Collapses each run of whitespace to one space and trims both ends.
pub fn collapse_whitespace(s: &str) -> (r: String)
    ensures
        r@ == collapsed(s@),
{
    let cs = chars_of(s);
    collapse_chars(&cs)
}

fn collapse_chars(cs: &Vec<char>) -> (r: String)
    ensures
        r@ == collapsed(cs@),
{
    let mut out = String::new();
    let mut in_ws = false;
    let mut started = false;
    let mut i: usize = 0;
    while i < cs.len()
        invariant
            i <= cs@.len(),
            started == (out@.len() > 0),
            out@ + collapse_from(cs@, i as int, in_ws, started) == collapsed(cs@),
        decreases cs@.len() - i,
    {
        let c = cs[i];
        let ghost before = out@;
        let ghost was_ws = in_ws;
        let ghost was_started = started;
        if is_unicode_whitespace(c) {
            in_ws = true;
        } else {
            if in_ws && started {
                out.push(' ');
            }
            in_ws = false;
            out.push(c);
            started = true;
            proof {
                let pre = if was_ws && was_started {
                    seq![' ']
                } else {
                    Seq::<char>::empty()
                };
                assert(out@ =~= before + pre + seq![c]);
                assert(out@ + collapse_from(cs@, i + 1, false, true) =~= before + (pre + seq![c] + collapse_from(
                    cs@,
                    i + 1,
                    false,
                    true,
                )));
            }
        }
        i = i + 1;
    }
    proof {
        assert(out@ + Seq::<char>::empty() =~= out@);
    }
    out
}

// ============================================================
// The canonical stream
// ============================================================

pub open spec fn inc_sat(x: u32) -> u32 {
    if x == u32::MAX {
        x
    } else {
        (x + 1) as u32
    }
}

pub open spec fn dec_sat(x: u32) -> u32 {
    if x == 0 {
        0
    } else {
        (x - 1) as u32
    }
}

/// The pending text run, folded into one `Text` item unless it
/// collapses to nothing.
pub open spec fn flushed(out: Seq<CanonItem>, pending: Option<Seq<char>>) -> Seq<CanonItem> {
    match pending {
        Some(buf) => if collapsed(buf).len() > 0 {
            out.push(CanonItem::Text(collapsed(buf)))
        } else {
            out
        },
        None => out,
    }
}

pub open spec fn pending_text(pending: Option<Seq<char>>) -> Seq<char> {
    match pending {
        Some(b) => b,
        None => Seq::empty(),
    }
}

/// A soft break adds one space to a non-empty run that does not already
/// end in one.
pub open spec fn after_soft_break(pending: Option<Seq<char>>) -> Seq<char> {
    let buf = pending_text(pending);
    if buf.len() > 0 && buf.last() != ' ' {
        buf.push(' ')
    } else {
        buf
    }
}

/// The state of the fold: the items so far, the code-block depth, and
/// the pending text run.
pub open spec fn canon_step(
    st: (Seq<CanonItem>, u32, Option<Seq<char>>),
    ev: ParsedEvent,
) -> (Seq<CanonItem>, u32, Option<Seq<char>>) {
    let out = st.0;
    let depth = st.1;
    let pending = st.2;
    match ev {
        ParsedEvent::Start(t) => (
            flushed(out, pending).push(CanonItem::Start(start_view(t))),
            if t is CodeBlock {
                inc_sat(depth)
            } else {
                depth
            },
            None,
        ),
        ParsedEvent::End(t) => (
            flushed(out, pending).push(CanonItem::End(t)),
            if t is CodeBlock {
                dec_sat(depth)
            } else {
                depth
            },
            None,
        ),
        ParsedEvent::Text(s) => if depth > 0 {
            (flushed(out, pending).push(CanonItem::VerbatimText(lf_only(s@))), depth, None)
        } else {
            (out, depth, Some(pending_text(pending) + s@))
        },
        ParsedEvent::SoftBreak => (out, depth, Some(after_soft_break(pending))),
        ParsedEvent::HardBreak => (flushed(out, pending).push(CanonItem::HardBreak), depth, None),
        ParsedEvent::Code(s) => (flushed(out, pending).push(CanonItem::Code(lf_only(s@))), depth, None),
        ParsedEvent::InlineMath(s) => (flushed(out, pending).push(CanonItem::InlineMath(lf_only(s@))), depth, None),
        ParsedEvent::DisplayMath(s) => (flushed(out, pending).push(CanonItem::DisplayMath(lf_only(s@))), depth, None),
        ParsedEvent::Html(s) => (flushed(out, pending).push(CanonItem::Html(lf_only(s@))), depth, None),
        ParsedEvent::InlineHtml(s) => (flushed(out, pending).push(CanonItem::InlineHtml(lf_only(s@))), depth, None),
        ParsedEvent::FootnoteReference(s) => (flushed(out, pending).push(CanonItem::FootnoteReference(s@)), depth, None),
        ParsedEvent::Rule => (flushed(out, pending).push(CanonItem::Rule), depth, None),
        ParsedEvent::TaskListMarker(b) => (flushed(out, pending).push(CanonItem::TaskListMarker(b)), depth, None),
    }
}

/// The fold over `evs`.
pub open spec fn canon_scan(evs: Seq<ParsedEvent>) -> (Seq<CanonItem>, u32, Option<Seq<char>>)
    decreases evs.len(),
{
    if evs.len() == 0 {
        (Seq::empty(), 0, None)
    } else {
        canon_step(canon_scan(evs.drop_last()), evs.last())
    }
}

/// The canonical stream of an event stream: the fold, with the last
/// pending run flushed.
pub open spec fn canonical_of(evs: Seq<ParsedEvent>) -> Seq<CanonItem> {
    let st = canon_scan(evs);
    flushed(st.0, st.2)
}

/// The fold in progress.
pub struct Canonicalizer {
    out: Vec<CanonicalEvent>,
    depth: u32,
    pending: Option<Vec<char>>,
}

impl Canonicalizer {
    pub closed spec fn state(&self) -> (Seq<CanonItem>, u32, Option<Seq<char>>) {
        (
            canon_items(self.out@),
            self.depth,
            match self.pending {
                Some(v) => Some(v@),
                None => None,
            },
        )
    }

    /// Nothing folded yet.
    pub fn new() -> (r: Self)
        ensures
            r.state() == canon_scan(Seq::empty()),
    {
        let r = Canonicalizer { out: Vec::new(), depth: 0, pending: None };
        assert(canon_items(r.out@) =~= Seq::<CanonItem>::empty());
        r
    }

    fn flush(&mut self)
        ensures
            canon_items(final(self).out@) == flushed(canon_items(old(self).out@), old(self).state().2),
            final(self).depth == old(self).depth,
            final(self).pending is None,
    {
        let mut taken: Option<Vec<char>> = None;
        std::mem::swap(&mut taken, &mut self.pending);
        match taken {
            Some(buf) => {
                let c = collapse_chars(&buf);
                if !c.as_str().is_empty() {
                    let ghost before = self.out@;
                    self.out.push(CanonicalEvent::Text(c));
                    assert(canon_items(self.out@) =~= canon_items(before).push(CanonItem::Text(c@)));
                }
            },
            None => {},
        }
    }

    fn push_item(&mut self, e: CanonicalEvent)
        ensures
            canon_items(final(self).out@) == canon_items(old(self).out@).push(canon_item(e)),
            final(self).depth == old(self).depth,
            final(self).pending == old(self).pending,
    {
        let ghost before = self.out@;
        self.out.push(e);
        assert(canon_items(self.out@) =~= canon_items(before).push(canon_item(e)));
    }

    /// Folds one more event in.
    pub fn step(&mut self, ev: ParsedEvent)
        ensures
            final(self).state() == canon_step(old(self).state(), ev),
    {
        match ev {
            ParsedEvent::Start(t) => {
                let code = match &t {
                    StartTag::CodeBlock { .. } => true,
                    _ => false,
                };
                if code {
                    self.depth = self.depth.saturating_add(1);
                }
                self.flush();
                self.push_item(CanonicalEvent::Start(t));
            },
            ParsedEvent::End(t) => {
                if t == EndTag::CodeBlock {
                    self.depth = self.depth.saturating_sub(1);
                }
                self.flush();
                self.push_item(CanonicalEvent::End(t));
            },
            ParsedEvent::Text(s) => {
                if self.depth > 0 {
                    self.flush();
                    let mut v = s;
                    normalize_line_endings_lf(&mut v);
                    self.push_item(CanonicalEvent::VerbatimText(v));
                } else {
                    let cs = chars_of(s.as_str());
                    let mut buf = match self.pending.take() {
                        Some(b) => b,
                        None => Vec::new(),
                    };
                    let ghost b0 = buf@;
                    let mut k: usize = 0;
                    while k < cs.len()
                        invariant
                            k <= cs@.len(),
                            buf@ == b0 + cs@.take(k as int),
                        decreases cs@.len() - k,
                    {
                        buf.push(cs[k]);
                        assert(cs@.take(k + 1) =~= cs@.take(k as int).push(cs@[k as int]));
                        k = k + 1;
                    }
                    assert(cs@.take(cs@.len() as int) =~= cs@);
                    self.pending = Some(buf);
                }
            },
            ParsedEvent::SoftBreak => {
                let mut buf = match self.pending.take() {
                    Some(b) => b,
                    None => Vec::new(),
                };
                let n = buf.len();
                if n > 0 && buf[n - 1] != ' ' {
                    buf.push(' ');
                }
                self.pending = Some(buf);
            },
            ParsedEvent::HardBreak => {
                self.flush();
                self.push_item(CanonicalEvent::HardBreak);
            },
            ParsedEvent::Code(s) => {
                self.flush();
                let mut v = s;
                normalize_line_endings_lf(&mut v);
                self.push_item(CanonicalEvent::Code(v));
            },
            ParsedEvent::InlineMath(s) => {
                self.flush();
                let mut v = s;
                normalize_line_endings_lf(&mut v);
                self.push_item(CanonicalEvent::InlineMath(v));
            },
            ParsedEvent::DisplayMath(s) => {
                self.flush();
                let mut v = s;
                normalize_line_endings_lf(&mut v);
                self.push_item(CanonicalEvent::DisplayMath(v));
            },
            ParsedEvent::Html(s) => {
                self.flush();
                let mut v = s;
                normalize_line_endings_lf(&mut v);
                self.push_item(CanonicalEvent::Html(v));
            },
            ParsedEvent::InlineHtml(s) => {
                self.flush();
                let mut v = s;
                normalize_line_endings_lf(&mut v);
                self.push_item(CanonicalEvent::InlineHtml(v));
            },
            ParsedEvent::FootnoteReference(s) => {
                self.flush();
                self.push_item(CanonicalEvent::FootnoteReference(s));
            },
            ParsedEvent::Rule => {
                self.flush();
                self.push_item(CanonicalEvent::Rule);
            },
            ParsedEvent::TaskListMarker(b) => {
                self.flush();
                self.push_item(CanonicalEvent::TaskListMarker(b));
            },
        }
    }

    /// The canonical stream: the last pending run flushed.
    pub fn finish(self) -> (r: Vec<CanonicalEvent>)
        ensures
            canon_items(r@) == flushed(self.state().0, self.state().2),
    {
        let mut me = self;
        me.flush();
        me.out
    }
}

/// The canonical stream of `events`.
pub fn canonicalize(events: Vec<ParsedEvent>) -> (r: Vec<CanonicalEvent>)
    ensures
        canon_items(r@) == canonical_of(events@),
{
    let mut events = events;
    let ghost evs = events@;
    let mut c = Canonicalizer::new();
    let n = events.len();
    let mut i: usize = 0;
    while i < n
        invariant
            n == events@.len(),
            n == evs.len(),
            i <= n,
            forall|j: int| i <= j < n ==> #[trigger] events@[j] == evs[j],
            c.state() == canon_scan(evs.take(i as int)),
        decreases n - i,
    {
        let mut ev = ParsedEvent::Rule;
        std::mem::swap(&mut ev, &mut events[i]);
        assert(evs.take(i + 1).drop_last() =~= evs.take(i as int));
        c.step(ev);
        i = i + 1;
    }
    assert(evs.take(n as int) =~= evs);
    c.finish()
}


// ============================================================
// Comparing canonical streams
// ============================================================

fn aligns_eq(a: &Vec<TableAlign>, b: &Vec<TableAlign>) -> (r: bool)
    ensures
        r == (a@ == b@),
{
    if a.len() != b.len() {
        return false;
    }
    let mut i: usize = 0;
    while i < a.len()
        invariant
            a@.len() == b@.len(),
            i <= a@.len(),
            forall|j: int| 0 <= j < i ==> a@[j] == b@[j],
        decreases a@.len() - i,
    {
        if a[i] != b[i] {
            return false;
        }
        i = i + 1;
    }
    assert(a@ =~= b@);
    true
}

fn start_eq(a: &StartTag, b: &StartTag) -> (r: bool)
    ensures
        r == (start_view(*a) == start_view(*b)),
{
    match (a, b) {
        (StartTag::Paragraph, StartTag::Paragraph) => true,
        (StartTag::Heading(x), StartTag::Heading(y)) => *x == *y,
        (StartTag::BlockQuote, StartTag::BlockQuote) => true,
        (
            StartTag::CodeBlock { fenced: f1, info: i1 },
            StartTag::CodeBlock { fenced: f2, info: i2 },
        ) => *f1 == *f2 && str_eq(i1.as_str(), i2.as_str()),
        (StartTag::HtmlBlock, StartTag::HtmlBlock) => true,
        (StartTag::List(x), StartTag::List(y)) => match (x, y) {
            (Some(p), Some(q)) => *p == *q,
            (None, None) => true,
            _ => false,
        },
        (StartTag::Item, StartTag::Item) => true,
        (StartTag::FootnoteDefinition(x), StartTag::FootnoteDefinition(y)) => str_eq(
            x.as_str(),
            y.as_str(),
        ),
        (StartTag::DefinitionList, StartTag::DefinitionList) => true,
        (StartTag::DefinitionListTitle, StartTag::DefinitionListTitle) => true,
        (StartTag::DefinitionListDefinition, StartTag::DefinitionListDefinition) => true,
        (StartTag::Table(x), StartTag::Table(y)) => aligns_eq(x, y),
        (StartTag::TableHead, StartTag::TableHead) => true,
        (StartTag::TableRow, StartTag::TableRow) => true,
        (StartTag::TableCell, StartTag::TableCell) => true,
        (StartTag::Emphasis, StartTag::Emphasis) => true,
        (StartTag::Strong, StartTag::Strong) => true,
        (StartTag::Strikethrough, StartTag::Strikethrough) => true,
        (StartTag::Superscript, StartTag::Superscript) => true,
        (StartTag::Subscript, StartTag::Subscript) => true,
        (
            StartTag::Link { dest: d1, title: t1, id: i1 },
            StartTag::Link { dest: d2, title: t2, id: i2 },
        ) => str_eq(d1.as_str(), d2.as_str()) && str_eq(t1.as_str(), t2.as_str()) && str_eq(
            i1.as_str(),
            i2.as_str(),
        ),
        (
            StartTag::Image { dest: d1, title: t1, id: i1 },
            StartTag::Image { dest: d2, title: t2, id: i2 },
        ) => str_eq(d1.as_str(), d2.as_str()) && str_eq(t1.as_str(), t2.as_str()) && str_eq(
            i1.as_str(),
            i2.as_str(),
        ),
        (StartTag::MetadataBlock, StartTag::MetadataBlock) => true,
        _ => false,
    }
}

fn event_eq(a: &CanonicalEvent, b: &CanonicalEvent) -> (r: bool)
    ensures
        r == (canon_item(*a) == canon_item(*b)),
{
    match (a, b) {
        (CanonicalEvent::Start(x), CanonicalEvent::Start(y)) => start_eq(x, y),
        (CanonicalEvent::End(x), CanonicalEvent::End(y)) => *x == *y,
        (CanonicalEvent::Text(x), CanonicalEvent::Text(y)) => str_eq(x.as_str(), y.as_str()),
        (CanonicalEvent::VerbatimText(x), CanonicalEvent::VerbatimText(y)) => str_eq(
            x.as_str(),
            y.as_str(),
        ),
        (CanonicalEvent::Code(x), CanonicalEvent::Code(y)) => str_eq(x.as_str(), y.as_str()),
        (CanonicalEvent::InlineMath(x), CanonicalEvent::InlineMath(y)) => str_eq(
            x.as_str(),
            y.as_str(),
        ),
        (CanonicalEvent::DisplayMath(x), CanonicalEvent::DisplayMath(y)) => str_eq(
            x.as_str(),
            y.as_str(),
        ),
        (CanonicalEvent::Html(x), CanonicalEvent::Html(y)) => str_eq(x.as_str(), y.as_str()),
        (CanonicalEvent::InlineHtml(x), CanonicalEvent::InlineHtml(y)) => str_eq(
            x.as_str(),
            y.as_str(),
        ),
        (CanonicalEvent::FootnoteReference(x), CanonicalEvent::FootnoteReference(y)) => str_eq(
            x.as_str(),
            y.as_str(),
        ),
        (CanonicalEvent::HardBreak, CanonicalEvent::HardBreak) => true,
        (CanonicalEvent::Rule, CanonicalEvent::Rule) => true,
        (CanonicalEvent::TaskListMarker(x), CanonicalEvent::TaskListMarker(y)) => *x == *y,
        _ => false,
    }
}

/// Whether two canonical streams are equal, event by event.
pub fn canonical_eq(a: &Vec<CanonicalEvent>, b: &Vec<CanonicalEvent>) -> (r: bool)
    ensures
        r == (canon_items(a@) == canon_items(b@)),
{
    if a.len() != b.len() {
        assert(canon_items(a@).len() != canon_items(b@).len());
        return false;
    }
    let mut i: usize = 0;
    while i < a.len()
        invariant
            a@.len() == b@.len(),
            i <= a@.len(),
            forall|j: int| 0 <= j < i ==> canon_item(a@[j]) == canon_item(b@[j]),
        decreases a@.len() - i,
    {
        if !event_eq(&a[i], &b[i]) {
            assert(canon_items(a@)[i as int] != canon_items(b@)[i as int]);
            return false;
        }
        i = i + 1;
    }
    assert(canon_items(a@) =~= canon_items(b@));
    true
}

/// Whether two event streams fold to the same canonical stream.
pub fn events_equivalent(a: Vec<ParsedEvent>, b: Vec<ParsedEvent>) -> (r: bool)
    ensures
        r == (canonical_of(a@) == canonical_of(b@)),
{
    let ca = canonicalize(a);
    let cb = canonicalize(b);
    canonical_eq(&ca, &cb)
}


// ============================================================
// Parsing with pulldown-cmark
// ============================================================

#[verifier::external_type_specification]
#[verifier::external_body]
pub struct ExEvent<'a>(Event<'a>);

#[verifier::external_type_specification]
#[verifier::external_body]
pub struct ExTag<'a>(Tag<'a>);

#[verifier::external_type_specification]
#[verifier::external_body]
pub struct ExTagEnd(TagEnd);

#[verifier::external_type_specification]
#[verifier::external_body]
pub struct ExAlignment(Alignment);

/// An event with its text payload owned and its tag still the parser's.
pub enum RawEvent<'r, 'a> {
    Start(&'r Tag<'a>),
    End(TagEnd),
    Text(String),
    Code(String),
    InlineMath(String),
    DisplayMath(String),
    Html(String),
    InlineHtml(String),
    FootnoteReference(String),
    SoftBreak,
    HardBreak,
    Rule,
    TaskListMarker(bool),
}

/// The events pulldown-cmark's `Parser::new_ext` yields for `source`
/// with the extensions `flags` turns on, each converted to a
/// `ParsedEvent`.
pub uninterp spec fn cmark_events(source: Seq<char>, flags: ParseFlags) -> Seq<ParsedEvent>;

/// The same events with the byte range of the source each one covers
/// (`Parser::into_offset_iter`).
pub uninterp spec fn cmark_events_at(source: Seq<char>, flags: ParseFlags) -> Seq<(ParsedEvent, usize, usize)>;

/// One parser event in plain values; `None` where its tag matched none
/// of the conversions.
fn parsed_event(ev: &Event<'_>) -> (r: Option<ParsedEvent>) {
    parsed_of(raw_event(ev))
}

/// One parser event with its byte range, in plain values.
fn parsed_event_at(ev: &Event<'_>, lo: usize, hi: usize) -> (r: Option<(ParsedEvent, usize, usize)>)
    ensures
        r matches Some(t) ==> t.1 == lo && t.2 == hi,
{
    match parsed_event(ev) {
        Some(p) => Some((p, lo, hi)),
        None => None,
    }
}

/// Runs `pulldown_cmark::Parser::new_ext` over `source` with the
/// extensions `flags` turns on and converts each event it yields
/// (`Iterator::collect` into `Option<Vec<_>>`). Trusted: the result is
/// the named parse `cmark_events`, a function of the source and the
/// flags alone; which events the parser yields is not restated. Every
/// event converts: `raw_event` has an arm for each `Event` variant, the
/// four tag conversions together have one for each `Tag` variant (both
/// `CodeBlockKind`s), and the two end conversions one for each `TagEnd`
/// variant, so the collected result is always `Some`.
#[verifier::external_body]
fn parse_converted(source: &str, flags: ParseFlags) -> (r: Option<Vec<ParsedEvent>>)
    ensures
        r is Some,
        r.unwrap()@ == cmark_events(source@, flags),
{
    let mut o = Options::empty();
    o.set(Options::ENABLE_STRIKETHROUGH, flags.strikethrough);
    o.set(Options::ENABLE_FOOTNOTES, flags.footnotes);
    o.set(Options::ENABLE_TABLES, flags.tables);
    o.set(Options::ENABLE_TASKLISTS, flags.tasklists);
    Parser::new_ext(source, o).map(|e| parsed_event(&e)).collect()
}

/// As `parse_converted`, with each event's byte range
/// (`Parser::into_offset_iter`). Trusted: the result is the named parse
/// `cmark_events_at`; every event converts, as for `parse_converted`.
#[verifier::external_body]
fn parse_converted_at(source: &str, flags: ParseFlags) -> (r: Option<Vec<(ParsedEvent, usize, usize)>>)
    ensures
        r is Some,
        r.unwrap()@ == cmark_events_at(source@, flags),
{
    let mut o = Options::empty();
    o.set(Options::ENABLE_STRIKETHROUGH, flags.strikethrough);
    o.set(Options::ENABLE_FOOTNOTES, flags.footnotes);
    o.set(Options::ENABLE_TABLES, flags.tables);
    o.set(Options::ENABLE_TASKLISTS, flags.tasklists);
    Parser::new_ext(source, o).into_offset_iter().map(|(e, r)| parsed_event_at(&e, r.start, r.end)).collect()
}

/// Tells the variants of a `pulldown_cmark::Event` apart, copying a text
/// payload into a `String` (`CowStr::to_string`). Which variant an
/// event is cannot be stated of the opaque event.
#[verifier::external_body]
fn raw_event<'r, 'a>(ev: &'r Event<'a>) -> RawEvent<'r, 'a> {
    match ev {
        Event::Start(t) => RawEvent::Start(t),
        Event::End(t) => RawEvent::End(*t),
        Event::Text(s) => RawEvent::Text(s.to_string()),
        Event::Code(s) => RawEvent::Code(s.to_string()),
        Event::InlineMath(s) => RawEvent::InlineMath(s.to_string()),
        Event::DisplayMath(s) => RawEvent::DisplayMath(s.to_string()),
        Event::Html(s) => RawEvent::Html(s.to_string()),
        Event::InlineHtml(s) => RawEvent::InlineHtml(s.to_string()),
        Event::FootnoteReference(s) => RawEvent::FootnoteReference(s.to_string()),
        Event::SoftBreak => RawEvent::SoftBreak,
        Event::HardBreak => RawEvent::HardBreak,
        Event::Rule => RawEvent::Rule,
        Event::TaskListMarker(b) => RawEvent::TaskListMarker(*b),
    }
}

/// The block-level `pulldown_cmark::Tag` variants without children
/// lists or tables, as a `StartTag`; `None` for the other variants.
/// The heading level is `HeadingLevel`'s discriminant (1 to 6).
#[verifier::external_body]
fn start_block(t: &Tag<'_>) -> Option<StartTag> {
    match t {
        Tag::Paragraph => Some(StartTag::Paragraph),
        Tag::Heading { level, .. } => Some(StartTag::Heading(*level as u32)),
        Tag::BlockQuote(_) => Some(StartTag::BlockQuote),
        Tag::CodeBlock(CodeBlockKind::Fenced(i)) => Some(StartTag::CodeBlock { fenced: true, info: i.to_string() }),
        Tag::CodeBlock(CodeBlockKind::Indented) => Some(StartTag::CodeBlock { fenced: false, info: String::new() }),
        Tag::HtmlBlock => Some(StartTag::HtmlBlock),
        Tag::List(s) => Some(StartTag::List(*s)),
        Tag::Item => Some(StartTag::Item),
        Tag::MetadataBlock(_) => Some(StartTag::MetadataBlock),
        _ => None,
    }
}

/// The footnote, definition-list and table-part `pulldown_cmark::Tag`
/// variants as a `StartTag`; `None` for the other variants.
#[verifier::external_body]
fn start_container(t: &Tag<'_>) -> Option<StartTag> {
    match t {
        Tag::FootnoteDefinition(l) => Some(StartTag::FootnoteDefinition(l.to_string())),
        Tag::DefinitionList => Some(StartTag::DefinitionList),
        Tag::DefinitionListTitle => Some(StartTag::DefinitionListTitle),
        Tag::DefinitionListDefinition => Some(StartTag::DefinitionListDefinition),
        Tag::TableHead => Some(StartTag::TableHead),
        Tag::TableRow => Some(StartTag::TableRow),
        Tag::TableCell => Some(StartTag::TableCell),
        _ => None,
    }
}

/// The span-level `pulldown_cmark::Tag` variants as a `StartTag`, a
/// link's or image's destination, title and id copied; `None` for the
/// other variants.
#[verifier::external_body]
fn start_inline(t: &Tag<'_>) -> Option<StartTag> {
    match t {
        Tag::Emphasis => Some(StartTag::Emphasis),
        Tag::Strong => Some(StartTag::Strong),
        Tag::Strikethrough => Some(StartTag::Strikethrough),
        Tag::Superscript => Some(StartTag::Superscript),
        Tag::Subscript => Some(StartTag::Subscript),
        Tag::Link { dest_url: d, title: t, id: i, .. } => Some(StartTag::Link { dest: d.to_string(), title: t.to_string(), id: i.to_string() }),
        Tag::Image { dest_url: d, title: t, id: i, .. } => Some(StartTag::Image { dest: d.to_string(), title: t.to_string(), id: i.to_string() }),
        _ => None,
    }
}

/// A `pulldown_cmark::Tag::Table`'s column alignments; `None` for the
/// other variants.
#[verifier::external_body]
fn table_alignments<'r, 'a>(t: &'r Tag<'a>) -> Option<&'r Vec<Alignment>> {
    match t {
        Tag::Table(a) => Some(a),
        _ => None,
    }
}

/// A `pulldown_cmark::Alignment` as a `TableAlign`, variant for variant.
#[verifier::external_body]
fn table_align(a: &Alignment) -> TableAlign {
    match a {
        Alignment::None => TableAlign::NoAlign,
        Alignment::Left => TableAlign::Left,
        Alignment::Center => TableAlign::Center,
        Alignment::Right => TableAlign::Right,
    }
}

/// The block-level `pulldown_cmark::TagEnd` variants as an `EndTag`;
/// `None` for the other variants.
#[verifier::external_body]
fn end_block(t: TagEnd) -> Option<EndTag> {
    match t {
        TagEnd::Paragraph => Some(EndTag::Paragraph),
        TagEnd::Heading(l) => Some(EndTag::Heading(l as u32)),
        TagEnd::BlockQuote(_) => Some(EndTag::BlockQuote),
        TagEnd::CodeBlock => Some(EndTag::CodeBlock),
        TagEnd::HtmlBlock => Some(EndTag::HtmlBlock),
        TagEnd::List(b) => Some(EndTag::List(b)),
        TagEnd::Item => Some(EndTag::Item),
        TagEnd::FootnoteDefinition => Some(EndTag::FootnoteDefinition),
        TagEnd::DefinitionList => Some(EndTag::DefinitionList),
        TagEnd::DefinitionListTitle => Some(EndTag::DefinitionListTitle),
        TagEnd::DefinitionListDefinition => Some(EndTag::DefinitionListDefinition),
        TagEnd::MetadataBlock(_) => Some(EndTag::MetadataBlock),
        _ => None,
    }
}

/// The table-part and span-level `pulldown_cmark::TagEnd` variants as an
/// `EndTag`; `None` for the other variants.
#[verifier::external_body]
fn end_inline(t: TagEnd) -> Option<EndTag> {
    match t {
        TagEnd::Table => Some(EndTag::Table),
        TagEnd::TableHead => Some(EndTag::TableHead),
        TagEnd::TableRow => Some(EndTag::TableRow),
        TagEnd::TableCell => Some(EndTag::TableCell),
        TagEnd::Emphasis => Some(EndTag::Emphasis),
        TagEnd::Strong => Some(EndTag::Strong),
        TagEnd::Strikethrough => Some(EndTag::Strikethrough),
        TagEnd::Superscript => Some(EndTag::Superscript),
        TagEnd::Subscript => Some(EndTag::Subscript),
        TagEnd::Link => Some(EndTag::Link),
        TagEnd::Image => Some(EndTag::Image),
        _ => None,
    }
}

fn start_of(t: &Tag<'_>) -> (r: Option<StartTag>) {
    match start_block(t) {
        Some(s) => Some(s),
        None => match start_container(t) {
            Some(s) => Some(s),
            None => match table_alignments(t) {
                Some(a) => {
                    let mut out: Vec<TableAlign> = Vec::new();
                    let mut i: usize = 0;
                    while i < a.len()
                        invariant
                            i <= a@.len(),
                        decreases a@.len() - i,
                    {
                        out.push(table_align(&a[i]));
                        i = i + 1;
                    }
                    Some(StartTag::Table(out))
                },
                None => start_inline(t),
            },
        },
    }
}

fn end_of(t: TagEnd) -> (r: Option<EndTag>) {
    match end_block(t) {
        Some(e) => Some(e),
        None => end_inline(t),
    }
}

/// The parsed event that a raw event without a tag carries over to.
pub open spec fn untagged_parsed(ev: RawEvent<'_, '_>) -> ParsedEvent {
    match ev {
        RawEvent::Text(s) => ParsedEvent::Text(s),
        RawEvent::Code(s) => ParsedEvent::Code(s),
        RawEvent::InlineMath(s) => ParsedEvent::InlineMath(s),
        RawEvent::DisplayMath(s) => ParsedEvent::DisplayMath(s),
        RawEvent::Html(s) => ParsedEvent::Html(s),
        RawEvent::InlineHtml(s) => ParsedEvent::InlineHtml(s),
        RawEvent::FootnoteReference(s) => ParsedEvent::FootnoteReference(s),
        RawEvent::SoftBreak => ParsedEvent::SoftBreak,
        RawEvent::HardBreak => ParsedEvent::HardBreak,
        RawEvent::Rule => ParsedEvent::Rule,
        RawEvent::TaskListMarker(b) => ParsedEvent::TaskListMarker(b),
        _ => ParsedEvent::Rule,
    }
}

/// The parsed event for a raw one; `None` only where a tag matched none
/// of the conversions.
fn parsed_of(ev: RawEvent<'_, '_>) -> (r: Option<ParsedEvent>)
    ensures
        !(ev is Start) && !(ev is End) ==> r == Some(untagged_parsed(ev)),
        ev is Start ==> (r is None || r matches Some(ParsedEvent::Start(_))),
        ev is End ==> (r is None || r matches Some(ParsedEvent::End(_))),
{
    match ev {
        RawEvent::Start(t) => match start_of(t) {
            Some(s) => Some(ParsedEvent::Start(s)),
            None => None,
        },
        RawEvent::End(t) => match end_of(t) {
            Some(e) => Some(ParsedEvent::End(e)),
            None => None,
        },
        RawEvent::Text(s) => Some(ParsedEvent::Text(s)),
        RawEvent::Code(s) => Some(ParsedEvent::Code(s)),
        RawEvent::InlineMath(s) => Some(ParsedEvent::InlineMath(s)),
        RawEvent::DisplayMath(s) => Some(ParsedEvent::DisplayMath(s)),
        RawEvent::Html(s) => Some(ParsedEvent::Html(s)),
        RawEvent::InlineHtml(s) => Some(ParsedEvent::InlineHtml(s)),
        RawEvent::FootnoteReference(s) => Some(ParsedEvent::FootnoteReference(s)),
        RawEvent::SoftBreak => Some(ParsedEvent::SoftBreak),
        RawEvent::HardBreak => Some(ParsedEvent::HardBreak),
        RawEvent::Rule => Some(ParsedEvent::Rule),
        RawEvent::TaskListMarker(b) => Some(ParsedEvent::TaskListMarker(b)),
    }
}

/// The four extensions of `options()`.
pub open spec fn fmt_flags() -> ParseFlags {
    ParseFlags { strikethrough: true, footnotes: true, tables: true, tasklists: true }
}

/// The named parse of `source` with the extensions of `options()`.
pub open spec fn cmark(source: Seq<char>) -> Seq<ParsedEvent> {
    cmark_events(source, fmt_flags())
}

/// The named parse of `source`, with byte ranges.
pub open spec fn cmark_at(source: Seq<char>) -> Seq<(ParsedEvent, usize, usize)> {
    cmark_events_at(source, fmt_flags())
}

/// Two sources mean the same: their event streams fold to the same
/// canonical stream.
pub open spec fn equivalent_sources(a: Seq<char>, b: Seq<char>) -> bool {
    canonical_of(cmark(a)) == canonical_of(cmark(b))
}

/// The events pulldown-cmark yields for `source`, with the extensions of
/// `options()`, in plain values.
pub fn parse_events(source: &str) -> (r: Vec<ParsedEvent>)
    ensures
        r@ == cmark(source@),
{
    match parse_converted(source, options()) {
        Some(v) => v,
        None => Vec::new(),
    }
}

/// The events of `parse_events` with the byte range each covers.
pub fn parse_events_at(source: &str) -> (r: Vec<(ParsedEvent, usize, usize)>)
    ensures
        r@ == cmark_at(source@),
{
    match parse_converted_at(source, options()) {
        Some(v) => v,
        None => Vec::new(),
    }
}

/// The canonical stream of `source`'s events.
pub fn canonical_events(source: &str) -> (r: Vec<CanonicalEvent>)
    ensures
        canon_items(r@) == canonical_of(cmark(source@)),
        text_folded(canon_items(r@)),
{
    let evs = parse_events(source);
    let ghost e = evs@;
    let v = canonicalize(evs);
    proof {
        law_canonical_text_folded(e);
    }
    v
}

/// Whether `formatted` means what `source` means: both parse, with the
/// extensions of `options()`, to the same canonical stream.
pub fn semantically_equivalent(source: &str, formatted: &str) -> (r: bool)
    ensures
        r == equivalent_sources(source@, formatted@),
{
    events_equivalent(parse_events(source), parse_events(formatted))
}

/// Law: every source means what it means.
pub proof fn law_equivalence_reflexive(a: Seq<char>)
    ensures
        equivalent_sources(a, a),
{
}

/// Law: meaning the same is symmetric.
pub proof fn law_equivalence_symmetric(a: Seq<char>, b: Seq<char>)
    ensures
        equivalent_sources(a, b) == equivalent_sources(b, a),
{
}

/// Law: meaning the same is transitive.
pub proof fn law_equivalence_transitive(a: Seq<char>, b: Seq<char>, c: Seq<char>)
    requires
        equivalent_sources(a, b),
        equivalent_sources(b, c),
    ensures
        equivalent_sources(a, c),
{
}

// ============================================================
// Reporting the first divergence
// ============================================================

/// The longest text payload a report shows.
pub const CLIP_CHARS: usize = 60;

/// `s` cut to `CLIP_CHARS` characters and marked with an ellipsis, when
/// it is longer.
pub open spec fn clipped(s: Seq<char>) -> Seq<char> {
    if s.len() <= CLIP_CHARS {
        s
    } else {
        s.take(CLIP_CHARS as int).push('\u{2026}')
    }
}

fn clip(s: &String) -> (r: String)
    ensures
        r@ == clipped(s@),
{
    let cs = chars_of(s.as_str());
    if cs.len() <= CLIP_CHARS {
        return s.clone();
    }
    let mut out = String::new();
    let mut i: usize = 0;
    while i < CLIP_CHARS
        invariant
            i <= CLIP_CHARS < cs@.len(),
            out@ == cs@.take(i as int),
        decreases CLIP_CHARS - i,
    {
        out.push(cs[i]);
        assert(cs@.take(i + 1) =~= cs@.take(i as int).push(cs@[i as int]));
        i = i + 1;
    }
    out.push('\u{2026}');
    out
}

/// The event as a report shows it: text, verbatim text, code and HTML
/// payloads clipped.
pub open spec fn short_item(c: CanonItem) -> CanonItem {
    match c {
        CanonItem::Text(s) => CanonItem::Text(clipped(s)),
        CanonItem::VerbatimText(s) => CanonItem::VerbatimText(clipped(s)),
        CanonItem::Code(s) => CanonItem::Code(clipped(s)),
        CanonItem::Html(s) => CanonItem::Html(clipped(s)),
        CanonItem::InlineHtml(s) => CanonItem::InlineHtml(clipped(s)),
        other => other,
    }
}

fn short(ev: &CanonicalEvent) -> (r: CanonicalEvent)
    ensures
        canon_item(r) == short_item(canon_item(*ev)),
{
    match ev {
        CanonicalEvent::Text(s) => CanonicalEvent::Text(clip(s)),
        CanonicalEvent::VerbatimText(s) => CanonicalEvent::VerbatimText(clip(s)),
        CanonicalEvent::Code(s) => CanonicalEvent::Code(clip(s)),
        CanonicalEvent::Html(s) => CanonicalEvent::Html(clip(s)),
        CanonicalEvent::InlineHtml(s) => CanonicalEvent::InlineHtml(clip(s)),
        CanonicalEvent::Start(t) => CanonicalEvent::Start(start_clone(t)),
        CanonicalEvent::End(t) => CanonicalEvent::End(*t),
        CanonicalEvent::InlineMath(s) => CanonicalEvent::InlineMath(s.clone()),
        CanonicalEvent::DisplayMath(s) => CanonicalEvent::DisplayMath(s.clone()),
        CanonicalEvent::FootnoteReference(s) => CanonicalEvent::FootnoteReference(s.clone()),
        CanonicalEvent::HardBreak => CanonicalEvent::HardBreak,
        CanonicalEvent::Rule => CanonicalEvent::Rule,
        CanonicalEvent::TaskListMarker(b) => CanonicalEvent::TaskListMarker(*b),
    }
}

fn start_clone(t: &StartTag) -> (r: StartTag)
    ensures
        start_view(r) == start_view(*t),
{
    match t {
        StartTag::Paragraph => StartTag::Paragraph,
        StartTag::Heading(l) => StartTag::Heading(*l),
        StartTag::BlockQuote => StartTag::BlockQuote,
        StartTag::CodeBlock { fenced, info } => StartTag::CodeBlock { fenced: *fenced, info: info.clone() },
        StartTag::HtmlBlock => StartTag::HtmlBlock,
        StartTag::List(x) => StartTag::List(*x),
        StartTag::Item => StartTag::Item,
        StartTag::FootnoteDefinition(l) => StartTag::FootnoteDefinition(l.clone()),
        StartTag::DefinitionList => StartTag::DefinitionList,
        StartTag::DefinitionListTitle => StartTag::DefinitionListTitle,
        StartTag::DefinitionListDefinition => StartTag::DefinitionListDefinition,
        StartTag::Table(a) => {
            let mut out: Vec<TableAlign> = Vec::new();
            let mut i: usize = 0;
            while i < a.len()
                invariant
                    i <= a@.len(),
                    out@ == a@.take(i as int),
                decreases a@.len() - i,
            {
                out.push(a[i]);
                assert(a@.take(i + 1) =~= a@.take(i as int).push(a@[i as int]));
                i = i + 1;
            }
            assert(a@.take(a@.len() as int) =~= a@);
            StartTag::Table(out)
        },
        StartTag::TableHead => StartTag::TableHead,
        StartTag::TableRow => StartTag::TableRow,
        StartTag::TableCell => StartTag::TableCell,
        StartTag::Emphasis => StartTag::Emphasis,
        StartTag::Strong => StartTag::Strong,
        StartTag::Strikethrough => StartTag::Strikethrough,
        StartTag::Superscript => StartTag::Superscript,
        StartTag::Subscript => StartTag::Subscript,
        StartTag::Link { dest, title, id } => StartTag::Link {
            dest: dest.clone(),
            title: title.clone(),
            id: id.clone(),
        },
        StartTag::Image { dest, title, id } => StartTag::Image {
            dest: dest.clone(),
            title: title.clone(),
            id: id.clone(),
        },
        StartTag::MetadataBlock => StartTag::MetadataBlock,
    }
}

/// The first index at which two canonical streams differ, if they
/// differ within their common length.
pub open spec fn first_mismatch(a: Seq<CanonItem>, b: Seq<CanonItem>, i: int) -> bool {
    &&& 0 <= i < a.len()
    &&& i < b.len()
    &&& a[i] != b[i]
    &&& forall|j: int| 0 <= j < i ==> a[j] == b[j]
}

/// Where two canonical streams part: the index of the first differing
/// pair within their common length, or that length when one stream is a
/// proper prefix of the other; `None` when they are equal.
pub fn divergence_index(a: &Vec<CanonicalEvent>, b: &Vec<CanonicalEvent>) -> (r: Option<usize>)
    ensures
        r is None <==> canon_items(a@) == canon_items(b@),
        r matches Some(i) ==> (first_mismatch(canon_items(a@), canon_items(b@), i as int) || (
        i == (if a@.len() < b@.len() { a@.len() } else { b@.len() }) && a@.len() != b@.len()
            && forall|j: int| 0 <= j < i ==> canon_item(a@[j]) == canon_item(b@[j]))),
{
    let n = if a.len() < b.len() {
        a.len()
    } else {
        b.len()
    };
    let mut i: usize = 0;
    while i < n
        invariant
            n == (if a@.len() < b@.len() { a@.len() } else { b@.len() }),
            i <= n,
            forall|j: int| 0 <= j < i ==> canon_item(a@[j]) == canon_item(b@[j]),
        decreases n - i,
    {
        if !event_eq(&a[i], &b[i]) {
            assert(canon_items(a@)[i as int] != canon_items(b@)[i as int]);
            return Some(i);
        }
        i = i + 1;
    }
    if a.len() == b.len() {
        assert(canon_items(a@) =~= canon_items(b@));
        None
    } else {
        assert(canon_items(a@).len() != canon_items(b@).len());
        Some(n)
    }
}

/// The name of an opening tag's variant.
pub open spec fn start_name(t: StartView) -> Seq<char> {
    match t {
        StartView::Paragraph => "Paragraph"@,
        StartView::Heading(_) => "Heading"@,
        StartView::BlockQuote => "BlockQuote"@,
        StartView::CodeBlock { .. } => "CodeBlock"@,
        StartView::HtmlBlock => "HtmlBlock"@,
        StartView::List(_) => "List"@,
        StartView::Item => "Item"@,
        StartView::FootnoteDefinition(_) => "FootnoteDefinition"@,
        StartView::DefinitionList => "DefinitionList"@,
        StartView::DefinitionListTitle => "DefinitionListTitle"@,
        StartView::DefinitionListDefinition => "DefinitionListDefinition"@,
        StartView::Table(_) => "Table"@,
        StartView::TableHead => "TableHead"@,
        StartView::TableRow => "TableRow"@,
        StartView::TableCell => "TableCell"@,
        StartView::Emphasis => "Emphasis"@,
        StartView::Strong => "Strong"@,
        StartView::Strikethrough => "Strikethrough"@,
        StartView::Superscript => "Superscript"@,
        StartView::Subscript => "Subscript"@,
        StartView::Link { .. } => "Link"@,
        StartView::Image { .. } => "Image"@,
        StartView::MetadataBlock => "MetadataBlock"@,
    }
}

/// The name of a closing tag's variant.
pub open spec fn end_name(t: EndTag) -> Seq<char> {
    match t {
        EndTag::Paragraph => "Paragraph"@,
        EndTag::Heading(_) => "Heading"@,
        EndTag::BlockQuote => "BlockQuote"@,
        EndTag::CodeBlock => "CodeBlock"@,
        EndTag::HtmlBlock => "HtmlBlock"@,
        EndTag::List(_) => "List"@,
        EndTag::Item => "Item"@,
        EndTag::FootnoteDefinition => "FootnoteDefinition"@,
        EndTag::DefinitionList => "DefinitionList"@,
        EndTag::DefinitionListTitle => "DefinitionListTitle"@,
        EndTag::DefinitionListDefinition => "DefinitionListDefinition"@,
        EndTag::Table => "Table"@,
        EndTag::TableHead => "TableHead"@,
        EndTag::TableRow => "TableRow"@,
        EndTag::TableCell => "TableCell"@,
        EndTag::Emphasis => "Emphasis"@,
        EndTag::Strong => "Strong"@,
        EndTag::Strikethrough => "Strikethrough"@,
        EndTag::Superscript => "Superscript"@,
        EndTag::Subscript => "Subscript"@,
        EndTag::Link => "Link"@,
        EndTag::Image => "Image"@,
        EndTag::MetadataBlock => "MetadataBlock"@,
    }
}

/// The digits of `n` in decimal.
pub open spec fn decimal_chars(n: nat) -> Seq<char>
    decreases n,
{
    if n < 10 {
        seq![digit_char(n)]
    } else {
        decimal_chars(n / 10).push(digit_char(n % 10))
    }
}

pub open spec fn digit_char(d: nat) -> char {
    if d == 0 { '0' } else if d == 1 { '1' } else if d == 2 { '2' } else if d == 3 { '3' } else if d == 4 { '4' }
    else if d == 5 { '5' } else if d == 6 { '6' } else if d == 7 { '7' } else if d == 8 { '8' } else { '9' }
}

/// A canonical event as a report shows it: its variant, then its tag's
/// variant or its text in quotes.
pub open spec fn describe_item(c: CanonItem) -> Seq<char> {
    match c {
        CanonItem::Start(t) => "Start("@ + start_name(t) + ")"@,
        CanonItem::End(t) => "End("@ + end_name(t) + ")"@,
        CanonItem::Text(x) => "Text(\""@ + x + "\")"@,
        CanonItem::VerbatimText(x) => "VerbatimText(\""@ + x + "\")"@,
        CanonItem::Code(x) => "Code(\""@ + x + "\")"@,
        CanonItem::InlineMath(x) => "InlineMath(\""@ + x + "\")"@,
        CanonItem::DisplayMath(x) => "DisplayMath(\""@ + x + "\")"@,
        CanonItem::Html(x) => "Html(\""@ + x + "\")"@,
        CanonItem::InlineHtml(x) => "InlineHtml(\""@ + x + "\")"@,
        CanonItem::FootnoteReference(x) => "FootnoteReference(\""@ + x + "\")"@,
        CanonItem::HardBreak => "HardBreak"@,
        CanonItem::Rule => "Rule"@,
        CanonItem::TaskListMarker(b) => if b {
            "TaskListMarker(true)"@
        } else {
            "TaskListMarker(false)"@
        },
    }
}

fn push_start_name(out: &mut String, t: &StartTag)
    ensures
        final(out)@ == old(out)@ + start_name(start_view(*t)),
{
    match t {
        StartTag::Paragraph => out.push_str("Paragraph"),
        StartTag::Heading(_) => out.push_str("Heading"),
        StartTag::BlockQuote => out.push_str("BlockQuote"),
        StartTag::CodeBlock { .. } => out.push_str("CodeBlock"),
        StartTag::HtmlBlock => out.push_str("HtmlBlock"),
        StartTag::List(_) => out.push_str("List"),
        StartTag::Item => out.push_str("Item"),
        StartTag::FootnoteDefinition(_) => out.push_str("FootnoteDefinition"),
        StartTag::DefinitionList => out.push_str("DefinitionList"),
        StartTag::DefinitionListTitle => out.push_str("DefinitionListTitle"),
        StartTag::DefinitionListDefinition => out.push_str("DefinitionListDefinition"),
        StartTag::Table(_) => out.push_str("Table"),
        StartTag::TableHead => out.push_str("TableHead"),
        StartTag::TableRow => out.push_str("TableRow"),
        StartTag::TableCell => out.push_str("TableCell"),
        StartTag::Emphasis => out.push_str("Emphasis"),
        StartTag::Strong => out.push_str("Strong"),
        StartTag::Strikethrough => out.push_str("Strikethrough"),
        StartTag::Superscript => out.push_str("Superscript"),
        StartTag::Subscript => out.push_str("Subscript"),
        StartTag::Link { .. } => out.push_str("Link"),
        StartTag::Image { .. } => out.push_str("Image"),
        StartTag::MetadataBlock => out.push_str("MetadataBlock"),
    }
}

fn push_end_name(out: &mut String, t: EndTag)
    ensures
        final(out)@ == old(out)@ + end_name(t),
{
    match t {
        EndTag::Paragraph => out.push_str("Paragraph"),
        EndTag::Heading(_) => out.push_str("Heading"),
        EndTag::BlockQuote => out.push_str("BlockQuote"),
        EndTag::CodeBlock => out.push_str("CodeBlock"),
        EndTag::HtmlBlock => out.push_str("HtmlBlock"),
        EndTag::List(_) => out.push_str("List"),
        EndTag::Item => out.push_str("Item"),
        EndTag::FootnoteDefinition => out.push_str("FootnoteDefinition"),
        EndTag::DefinitionList => out.push_str("DefinitionList"),
        EndTag::DefinitionListTitle => out.push_str("DefinitionListTitle"),
        EndTag::DefinitionListDefinition => out.push_str("DefinitionListDefinition"),
        EndTag::Table => out.push_str("Table"),
        EndTag::TableHead => out.push_str("TableHead"),
        EndTag::TableRow => out.push_str("TableRow"),
        EndTag::TableCell => out.push_str("TableCell"),
        EndTag::Emphasis => out.push_str("Emphasis"),
        EndTag::Strong => out.push_str("Strong"),
        EndTag::Strikethrough => out.push_str("Strikethrough"),
        EndTag::Superscript => out.push_str("Superscript"),
        EndTag::Subscript => out.push_str("Subscript"),
        EndTag::Link => out.push_str("Link"),
        EndTag::Image => out.push_str("Image"),
        EndTag::MetadataBlock => out.push_str("MetadataBlock"),
    }
}

fn digit_of(d: u64) -> (c: char)
    requires
        d < 10,
    ensures
        c == digit_char(d as nat),
{
    if d == 0 { '0' } else if d == 1 { '1' } else if d == 2 { '2' } else if d == 3 { '3' } else if d == 4 { '4' }
    else if d == 5 { '5' } else if d == 6 { '6' } else if d == 7 { '7' } else if d == 8 { '8' } else { '9' }
}

/// Appends `n` in decimal.
fn push_decimal(out: &mut String, n: u64)
    ensures
        final(out)@ == old(out)@ + decimal_chars(n as nat),
    decreases n,
{
    if n >= 10 {
        push_decimal(out, n / 10);
    }
    let ghost mid = out@;
    out.push(digit_of(n % 10));
    proof {
        if n >= 10 {
            assert(out@ =~= old(out)@ + decimal_chars(n as nat));
        } else {
            assert(out@ =~= old(out)@ + decimal_chars(n as nat));
        }
    }
}

/// Appends `ev` as a report shows it.
fn push_event(out: &mut String, ev: &CanonicalEvent)
    ensures
        final(out)@ == old(out)@ + describe_item(canon_item(*ev)),
{
    let ghost o = out@;
    match ev {
        CanonicalEvent::Start(t) => {
            out.push_str("Start(");
            push_start_name(out, t);
            out.push_str(")");
        },
        CanonicalEvent::End(t) => {
            out.push_str("End(");
            push_end_name(out, *t);
            out.push_str(")");
        },
        CanonicalEvent::Text(x) => {
            out.push_str("Text(\"");
            out.push_str(x.as_str());
            out.push_str("\")");
        },
        CanonicalEvent::VerbatimText(x) => {
            out.push_str("VerbatimText(\"");
            out.push_str(x.as_str());
            out.push_str("\")");
        },
        CanonicalEvent::Code(x) => {
            out.push_str("Code(\"");
            out.push_str(x.as_str());
            out.push_str("\")");
        },
        CanonicalEvent::InlineMath(x) => {
            out.push_str("InlineMath(\"");
            out.push_str(x.as_str());
            out.push_str("\")");
        },
        CanonicalEvent::DisplayMath(x) => {
            out.push_str("DisplayMath(\"");
            out.push_str(x.as_str());
            out.push_str("\")");
        },
        CanonicalEvent::Html(x) => {
            out.push_str("Html(\"");
            out.push_str(x.as_str());
            out.push_str("\")");
        },
        CanonicalEvent::InlineHtml(x) => {
            out.push_str("InlineHtml(\"");
            out.push_str(x.as_str());
            out.push_str("\")");
        },
        CanonicalEvent::FootnoteReference(x) => {
            out.push_str("FootnoteReference(\"");
            out.push_str(x.as_str());
            out.push_str("\")");
        },
        CanonicalEvent::HardBreak => out.push_str("HardBreak"),
        CanonicalEvent::Rule => out.push_str("Rule"),
        CanonicalEvent::TaskListMarker(b) => {
            if *b {
                out.push_str("TaskListMarker(true)");
            } else {
                out.push_str("TaskListMarker(false)");
            }
        },
    }
    assert(out@ =~= o + describe_item(canon_item(*ev)));
}

/// The report of a differing pair at index `i`.
pub open spec fn pair_report_text(i: nat, x: CanonItem, y: CanonItem) -> Seq<char> {
    "event "@ + decimal_chars(i) + ": source = "@ + describe_item(x) + "; formatted = "@ + describe_item(y)
}

/// The report of streams of lengths `la` and `lb`, the first extra event
/// `extra` on the side `label`.
pub open spec fn length_report_text(la: nat, lb: nat, label: Seq<char>, extra: CanonItem) -> Seq<char> {
    "stream length differs ("@ + decimal_chars(la) + " vs "@ + decimal_chars(lb) + "); first extra event on "@
        + label + ": "@ + describe_item(extra)
}

fn pair_report(i: usize, x: &CanonicalEvent, y: &CanonicalEvent) -> (r: String)
    ensures
        r@ == pair_report_text(i as nat, canon_item(*x), canon_item(*y)),
{
    let mut out = String::new();
    out.push_str("event ");
    push_decimal(&mut out, i as u64);
    out.push_str(": source = ");
    push_event(&mut out, x);
    out.push_str("; formatted = ");
    push_event(&mut out, y);
    assert(out@ =~= pair_report_text(i as nat, canon_item(*x), canon_item(*y)));
    out
}

fn length_report(la: usize, lb: usize, label: &str, extra: &CanonicalEvent) -> (r: String)
    ensures
        r@ == length_report_text(la as nat, lb as nat, label@, canon_item(*extra)),
{
    let mut out = String::new();
    out.push_str("stream length differs (");
    push_decimal(&mut out, la as u64);
    out.push_str(" vs ");
    push_decimal(&mut out, lb as u64);
    out.push_str("); first extra event on ");
    out.push_str(label);
    out.push_str(": ");
    push_event(&mut out, extra);
    assert(out@ =~= length_report_text(la as nat, lb as nat, label@, canon_item(*extra)));
    out
}

/// A short description of where two canonical streams first differ;
/// `None` when they are equal.
pub fn divergence_summary(a: &Vec<CanonicalEvent>, b: &Vec<CanonicalEvent>) -> (r: Option<String>)
    ensures
        r is None <==> canon_items(a@) == canon_items(b@),
        forall|i: int|
            first_mismatch(canon_items(a@), canon_items(b@), i) ==> (r matches Some(m) && m@ == pair_report_text(
                i as nat,
                short_item(canon_items(a@)[i]),
                short_item(canon_items(b@)[i]),
            )),
        a@.len() > b@.len() && (forall|j: int| 0 <= j < b@.len() ==> canon_items(a@)[j] == canon_items(b@)[j])
            ==> (r matches Some(m) && m@ == length_report_text(
            a@.len(),
            b@.len(),
            "source"@,
            short_item(canon_items(a@)[b@.len() as int]),
        )),
        a@.len() < b@.len() && (forall|j: int| 0 <= j < a@.len() ==> canon_items(a@)[j] == canon_items(b@)[j])
            ==> (r matches Some(m) && m@ == length_report_text(
            a@.len(),
            b@.len(),
            "formatted"@,
            short_item(canon_items(b@)[a@.len() as int]),
        )),
{
    match divergence_index(a, b) {
        None => None,
        Some(i) => {
            if i < a.len() && i < b.len() {
                Some(pair_report(i, &short(&a[i]), &short(&b[i])))
            } else if a.len() > b.len() {
                Some(length_report(a.len(), b.len(), "source", &short(&a[i])))
            } else {
                Some(length_report(a.len(), b.len(), "formatted", &short(&b[i])))
            }
        },
    }
}

/// If `formatted` does not mean what `source` means, a short description
/// of the first divergent event pair; `None` when the two agree.
pub fn first_divergence(source: &str, formatted: &str) -> (r: Option<String>)
    ensures
        r is None <==> equivalent_sources(source@, formatted@),
{
    let a = canonical_events(source);
    let b = canonical_events(formatted);
    divergence_summary(&a, &b)
}

// ============================================================
// Folded text
// ============================================================

/// No text item is empty and no two text items stand side by side: each
/// run of text and soft breaks became one item.
pub open spec fn text_folded(items: Seq<CanonItem>) -> bool {
    &&& forall|i: int| 0 <= i < items.len() ==> (#[trigger] items[i] matches CanonItem::Text(t) ==> t.len() > 0)
    &&& forall|i: int| 0 <= i < items.len() - 1 ==> !(#[trigger] items[i] is Text && items[i + 1] is Text)
}

proof fn lemma_scan_folded(evs: Seq<ParsedEvent>)
    ensures
        text_folded(canon_scan(evs).0),
        canon_scan(evs).0.len() > 0 ==> !(canon_scan(evs).0.last() is Text),
    decreases evs.len(),
{
    if evs.len() > 0 {
        lemma_scan_folded(evs.drop_last());
        let st = canon_scan(evs.drop_last());
        lemma_flushed_folded(st.0, st.2);
    }
}

proof fn lemma_flushed_folded(out: Seq<CanonItem>, pending: Option<Seq<char>>)
    requires
        text_folded(out),
        out.len() > 0 ==> !(out.last() is Text),
    ensures
        text_folded(flushed(out, pending)),
        forall|c: CanonItem| !(c is Text) ==> text_folded(#[trigger] flushed(out, pending).push(c)),
{
    let f = flushed(out, pending);
    assert(text_folded(f));
    assert forall|c: CanonItem| !(c is Text) implies text_folded(#[trigger] f.push(c)) by {
        let g = f.push(c);
        assert forall|i: int| 0 <= i < g.len() - 1 implies !(#[trigger] g[i] is Text && g[i + 1] is Text) by {
            if i == g.len() - 2 {
                assert(g[i + 1] == c);
            } else {
                assert(g[i] == f[i] && g[i + 1] == f[i + 1]);
            }
        }
    }
}

proof fn lemma_flushed_extends(out: Seq<CanonItem>, pending: Option<Seq<char>>)
    ensures
        flushed(out, pending).len() >= out.len(),
        flushed(out, pending).subrange(0, out.len() as int) == out,
{
    assert(flushed(out, pending).subrange(0, out.len() as int) =~= out);
}

proof fn lemma_scan_extends(a: Seq<ParsedEvent>, post: Seq<ParsedEvent>)
    ensures
        canon_scan(a + post).0.len() >= canon_scan(a).0.len(),
        canon_scan(a + post).0.subrange(0, canon_scan(a).0.len() as int) == canon_scan(a).0,
    decreases post.len(),
{
    if post.len() == 0 {
        assert(a + post =~= a);
        assert(canon_scan(a).0.subrange(0, canon_scan(a).0.len() as int) =~= canon_scan(a).0);
    } else {
        lemma_scan_extends(a, post.drop_last());
        assert((a + post).drop_last() =~= a + post.drop_last());
        let st = canon_scan(a + post.drop_last());
        lemma_flushed_extends(st.0, st.2);
        let n = canon_scan(a).0.len() as int;
        let next = canon_scan(a + post).0;
        assert(next.len() >= st.0.len());
        assert(next.subrange(0, st.0.len() as int) =~= st.0);
        assert(next.subrange(0, n) =~= st.0.subrange(0, n));
    }
}

/// The canonical stream keeps an opening tag where it stands: after
/// any events `pre`, an opening tag `t` yields the item
/// `Start(start_view(t))` at a fixed position, whatever follows.
proof fn lemma_start_item_at(pre: Seq<ParsedEvent>, t: StartTag, post: Seq<ParsedEvent>) -> (k: int)
    ensures
        0 <= k < canonical_of(pre + seq![ParsedEvent::Start(t)] + post).len(),
        canonical_of(pre + seq![ParsedEvent::Start(t)] + post)[k] == CanonItem::Start(start_view(t)),
        k == flushed(canon_scan(pre).0, canon_scan(pre).2).len(),
{
    let a = pre + seq![ParsedEvent::Start(t)];
    assert(a.drop_last() =~= pre);
    let st = canon_scan(pre);
    let k = flushed(st.0, st.2).len() as int;
    assert(canon_scan(a).0 == flushed(st.0, st.2).push(CanonItem::Start(start_view(t))));
    lemma_scan_extends(a, post);
    let full = canon_scan(a + post);
    lemma_flushed_extends(full.0, full.2);
    let c = canonical_of(a + post);
    assert(c.subrange(0, full.0.len() as int) == full.0);
    assert(c[k] == full.0[k]);
    assert(full.0[k] == canon_scan(a).0[k]);
    k
}

/// After any events `pre`, an event that the fold turns into exactly one
/// item, flushing pending text first, keeps that item at a fixed
/// position, whatever follows.
proof fn lemma_item_at(pre: Seq<ParsedEvent>, ev: ParsedEvent, item: CanonItem, post: Seq<ParsedEvent>) -> (k: int)
    requires
        canon_step(canon_scan(pre), ev).0 == flushed(canon_scan(pre).0, canon_scan(pre).2).push(item),
    ensures
        0 <= k < canonical_of(pre + seq![ev] + post).len(),
        canonical_of(pre + seq![ev] + post)[k] == item,
        k == flushed(canon_scan(pre).0, canon_scan(pre).2).len(),
{
    let a = pre + seq![ev];
    assert(a.drop_last() =~= pre);
    let st = canon_scan(pre);
    let k = flushed(st.0, st.2).len() as int;
    lemma_scan_extends(a, post);
    let full = canon_scan(a + post);
    lemma_flushed_extends(full.0, full.2);
    let c = canonical_of(a + post);
    assert(c.subrange(0, full.0.len() as int) == full.0);
    assert(c[k] == full.0[k]);
    assert(full.0[k] == canon_scan(a).0[k]);
    k
}

/// Inline code, math, raw HTML and footnote references keep their
/// content, line endings aside: two event streams that differ only in one
/// such event, of one kind but with contents that differ after `\r\n`
/// and `\r` are made `\n`, or in a footnote label or a task box's state,
/// have different canonical streams.
pub proof fn law_leaf_payload_matters(pre: Seq<ParsedEvent>, e1: ParsedEvent, e2: ParsedEvent, post: Seq<ParsedEvent>)
    ensures
        (e1 matches ParsedEvent::Code(x) && e2 matches ParsedEvent::Code(y) && lf_only(x@) != lf_only(y@))
            ==> canonical_of(pre + seq![e1] + post) != canonical_of(pre + seq![e2] + post),
        (e1 matches ParsedEvent::InlineMath(x) && e2 matches ParsedEvent::InlineMath(y) && lf_only(x@) != lf_only(y@))
            ==> canonical_of(pre + seq![e1] + post) != canonical_of(pre + seq![e2] + post),
        (e1 matches ParsedEvent::DisplayMath(x) && e2 matches ParsedEvent::DisplayMath(y) && lf_only(x@) != lf_only(
            y@,
        )) ==> canonical_of(pre + seq![e1] + post) != canonical_of(pre + seq![e2] + post),
        (e1 matches ParsedEvent::Html(x) && e2 matches ParsedEvent::Html(y) && lf_only(x@) != lf_only(y@))
            ==> canonical_of(pre + seq![e1] + post) != canonical_of(pre + seq![e2] + post),
        (e1 matches ParsedEvent::InlineHtml(x) && e2 matches ParsedEvent::InlineHtml(y) && lf_only(x@) != lf_only(y@))
            ==> canonical_of(pre + seq![e1] + post) != canonical_of(pre + seq![e2] + post),
        (e1 matches ParsedEvent::FootnoteReference(x) && e2 matches ParsedEvent::FootnoteReference(y) && x@ != y@)
            ==> canonical_of(pre + seq![e1] + post) != canonical_of(pre + seq![e2] + post),
        (e1 matches ParsedEvent::TaskListMarker(x) && e2 matches ParsedEvent::TaskListMarker(y) && x != y)
            ==> canonical_of(pre + seq![e1] + post) != canonical_of(pre + seq![e2] + post),
{
    match (e1, e2) {
        (ParsedEvent::Code(x), ParsedEvent::Code(y)) => {
            lemma_item_at(pre, e1, CanonItem::Code(lf_only(x@)), post);
            lemma_item_at(pre, e2, CanonItem::Code(lf_only(y@)), post);
        },
        (ParsedEvent::InlineMath(x), ParsedEvent::InlineMath(y)) => {
            lemma_item_at(pre, e1, CanonItem::InlineMath(lf_only(x@)), post);
            lemma_item_at(pre, e2, CanonItem::InlineMath(lf_only(y@)), post);
        },
        (ParsedEvent::DisplayMath(x), ParsedEvent::DisplayMath(y)) => {
            lemma_item_at(pre, e1, CanonItem::DisplayMath(lf_only(x@)), post);
            lemma_item_at(pre, e2, CanonItem::DisplayMath(lf_only(y@)), post);
        },
        (ParsedEvent::Html(x), ParsedEvent::Html(y)) => {
            lemma_item_at(pre, e1, CanonItem::Html(lf_only(x@)), post);
            lemma_item_at(pre, e2, CanonItem::Html(lf_only(y@)), post);
        },
        (ParsedEvent::InlineHtml(x), ParsedEvent::InlineHtml(y)) => {
            lemma_item_at(pre, e1, CanonItem::InlineHtml(lf_only(x@)), post);
            lemma_item_at(pre, e2, CanonItem::InlineHtml(lf_only(y@)), post);
        },
        (ParsedEvent::FootnoteReference(x), ParsedEvent::FootnoteReference(y)) => {
            lemma_item_at(pre, e1, CanonItem::FootnoteReference(x@), post);
            lemma_item_at(pre, e2, CanonItem::FootnoteReference(y@), post);
        },
        (ParsedEvent::TaskListMarker(x), ParsedEvent::TaskListMarker(y)) => {
            lemma_item_at(pre, e1, CanonItem::TaskListMarker(x), post);
            lemma_item_at(pre, e2, CanonItem::TaskListMarker(y), post);
        },
        _ => {},
    }
}

/// An ordered list's start number is part of its meaning: two event
/// streams that differ only in the number an ordered list starts at (or
/// in whether the list is ordered at all) have different canonical
/// streams, and the canonical item holds the number itself.
pub proof fn law_list_start_matters(pre: Seq<ParsedEvent>, a: Option<u64>, b: Option<u64>, post: Seq<ParsedEvent>)
    requires
        a != b,
    ensures
        canonical_of(pre + seq![ParsedEvent::Start(StartTag::List(a))] + post) != canonical_of(
            pre + seq![ParsedEvent::Start(StartTag::List(b))] + post,
        ),
        exists|k: int|
            0 <= k < canonical_of(pre + seq![ParsedEvent::Start(StartTag::List(a))] + post).len() && #[trigger] canonical_of(
                pre + seq![ParsedEvent::Start(StartTag::List(a))] + post,
            )[k] == CanonItem::Start(StartView::List(a)),
{
    let ka = lemma_start_item_at(pre, StartTag::List(a), post);
    let kb = lemma_start_item_at(pre, StartTag::List(b), post);
    assert(ka == kb);
}

/// The canonical stream of `pre`, an opening tag `t`, then `post`.
pub open spec fn canonical_around(pre: Seq<ParsedEvent>, t: StartTag, post: Seq<ParsedEvent>) -> Seq<CanonItem> {
    canonical_of(pre + seq![ParsedEvent::Start(t)] + post)
}

/// Every payload of an opening tag is part of the meaning: two event
/// streams that differ only in one opening tag, where the two tags are of
/// one kind but differ in a heading level, a code block's fencing or info
/// string, a list's start number, a footnote label, a table's column
/// alignments, or a link's or image's destination, title or reference
/// id, have different canonical streams.
pub proof fn law_start_tag_payload_matters(pre: Seq<ParsedEvent>, t1: StartTag, t2: StartTag, post: Seq<ParsedEvent>)
    ensures
        (t1 matches StartTag::Heading(x) && t2 matches StartTag::Heading(y) && x != y) ==> canonical_around(pre, t1, post)
            != canonical_around(pre, t2, post),
        (t1 matches StartTag::CodeBlock { fenced: f1, info: i1 } && t2 matches StartTag::CodeBlock {
            fenced: f2,
            info: i2,
        } && (f1 != f2 || i1@ != i2@)) ==> canonical_around(pre, t1, post) != canonical_around(pre, t2, post),
        (t1 matches StartTag::List(x) && t2 matches StartTag::List(y) && x != y) ==> canonical_around(pre, t1, post)
            != canonical_around(pre, t2, post),
        (t1 matches StartTag::FootnoteDefinition(x) && t2 matches StartTag::FootnoteDefinition(y) && x@ != y@)
            ==> canonical_around(pre, t1, post) != canonical_around(pre, t2, post),
        (t1 matches StartTag::Table(x) && t2 matches StartTag::Table(y) && x@ != y@) ==> canonical_around(pre, t1, post)
            != canonical_around(pre, t2, post),
        (t1 matches StartTag::Link { dest: d1, title: l1, id: i1 } && t2 matches StartTag::Link {
            dest: d2,
            title: l2,
            id: i2,
        } && (d1@ != d2@ || l1@ != l2@ || i1@ != i2@)) ==> canonical_around(pre, t1, post) != canonical_around(pre, t2, post),
        (t1 matches StartTag::Image { dest: d1, title: l1, id: i1 } && t2 matches StartTag::Image {
            dest: d2,
            title: l2,
            id: i2,
        } && (d1@ != d2@ || l1@ != l2@ || i1@ != i2@)) ==> canonical_around(pre, t1, post) != canonical_around(pre, t2, post),
{
    let k1 = lemma_start_item_at(pre, t1, post);
    let k2 = lemma_start_item_at(pre, t2, post);
    assert(k1 == k2);
}

/// Law: a canonical stream never holds an empty text item, nor two text
/// items side by side.
pub proof fn law_canonical_text_folded(evs: Seq<ParsedEvent>)
    ensures
        text_folded(canonical_of(evs)),
{
    lemma_scan_folded(evs);
    let st = canon_scan(evs);
    lemma_flushed_folded(st.0, st.2);
}

// ============================================================
// Rewraps keep the meaning
// ============================================================

/// The collapse of `t` from the state `(in_ws, started)`.
pub open spec fn collapse_seq(t: Seq<char>, in_ws: bool, started: bool) -> Seq<char>
    decreases t.len(),
{
    if t.len() == 0 {
        Seq::empty()
    } else if is_unicode_ws(t[0]) {
        collapse_seq(t.drop_first(), true, started)
    } else {
        (if in_ws && started {
            seq![' ']
        } else {
            Seq::empty()
        }) + seq![t[0]] + collapse_seq(t.drop_first(), false, true)
    }
}

proof fn lemma_collapse_from_suffix(s: Seq<char>, i: int, in_ws: bool, started: bool)
    requires
        0 <= i <= s.len(),
    ensures
        collapse_from(s, i, in_ws, started) == collapse_seq(s.skip(i), in_ws, started),
    decreases s.len() - i,
{
    if i < s.len() {
        assert(s.skip(i).drop_first() =~= s.skip(i + 1));
        assert(s.skip(i)[0] == s[i]);
        lemma_collapse_from_suffix(s, i + 1, true, started);
        lemma_collapse_from_suffix(s, i + 1, false, true);
    }
}

/// All of `w` is whitespace.
pub open spec fn all_ws(w: Seq<char>) -> bool {
    forall|k: int| 0 <= k < w.len() ==> is_unicode_ws(#[trigger] w[k])
}

proof fn lemma_ws_run(w: Seq<char>, y: Seq<char>, in_ws: bool, started: bool)
    requires
        w.len() > 0,
        all_ws(w),
    ensures
        collapse_seq(w + y, in_ws, started) == collapse_seq(y, true, started),
    decreases w.len(),
{
    assert((w + y)[0] == w[0]);
    assert((w + y).drop_first() =~= w.drop_first() + y);
    if w.len() > 1 {
        lemma_ws_run(w.drop_first(), y, true, started);
    } else {
        assert(w.drop_first() + y =~= y);
    }
}

proof fn lemma_ws_prefix(
    x: Seq<char>,
    w1: Seq<char>,
    w2: Seq<char>,
    y: Seq<char>,
    in_ws: bool,
    started: bool,
)
    requires
        w1.len() > 0,
        w2.len() > 0,
        all_ws(w1),
        all_ws(w2),
    ensures
        collapse_seq(x + w1 + y, in_ws, started) == collapse_seq(x + w2 + y, in_ws, started),
    decreases x.len(),
{
    if x.len() == 0 {
        assert(x + w1 + y =~= w1 + y);
        assert(x + w2 + y =~= w2 + y);
        lemma_ws_run(w1, y, in_ws, started);
        lemma_ws_run(w2, y, in_ws, started);
    } else {
        assert((x + w1 + y)[0] == x[0]);
        assert((x + w2 + y)[0] == x[0]);
        assert((x + w1 + y).drop_first() =~= x.drop_first() + w1 + y);
        assert((x + w2 + y).drop_first() =~= x.drop_first() + w2 + y);
        lemma_ws_prefix(x.drop_first(), w1, w2, y, true, started);
        lemma_ws_prefix(x.drop_first(), w1, w2, y, false, true);
    }
}

/// Law: which whitespace separates two pieces of prose, a space, a
/// newline or a longer run, does not change the collapsed text.
pub proof fn law_whitespace_run_irrelevant(x: Seq<char>, w1: Seq<char>, w2: Seq<char>, y: Seq<char>)
    requires
        w1.len() > 0,
        w2.len() > 0,
        all_ws(w1),
        all_ws(w2),
    ensures
        collapsed(x + w1 + y) == collapsed(x + w2 + y),
{
    lemma_collapse_from_suffix(x + w1 + y, 0, false, false);
    lemma_collapse_from_suffix(x + w2 + y, 0, false, false);
    assert((x + w1 + y).skip(0) =~= x + w1 + y);
    assert((x + w2 + y).skip(0) =~= x + w2 + y);
    lemma_ws_prefix(x, w1, w2, y, false, false);
}

/// The characters of `t` that are not whitespace, in order.
pub open spec fn ink(t: Seq<char>) -> Seq<char>
    decreases t.len(),
{
    if t.len() == 0 {
        Seq::empty()
    } else if is_unicode_ws(t[0]) {
        ink(t.drop_first())
    } else {
        seq![t[0]] + ink(t.drop_first())
    }
}

/// `t` is spaced as prose: its only whitespace is single spaces, each
/// with a non-whitespace character on both sides.
pub open spec fn single_spaced(t: Seq<char>) -> bool {
    forall|i: int|
        0 <= i < t.len() && is_unicode_ws(#[trigger] t[i]) ==> t[i] == ' ' && 0 < i && i + 1 < t.len()
            && !is_unicode_ws(t[i - 1]) && !is_unicode_ws(t[i + 1])
}

proof fn lemma_collapse_seq_shape(t: Seq<char>, in_ws: bool, started: bool)
    ensures
        ink(collapse_seq(t, in_ws, started)) == ink(t),
        forall|i: int|
            0 <= i < collapse_seq(t, in_ws, started).len() && is_unicode_ws(
                #[trigger] collapse_seq(t, in_ws, started)[i],
            ) ==> collapse_seq(t, in_ws, started)[i] == ' ' && i + 1 < collapse_seq(t, in_ws, started).len()
                && !is_unicode_ws(collapse_seq(t, in_ws, started)[i + 1]) && (0 < i ==> !is_unicode_ws(
                collapse_seq(t, in_ws, started)[i - 1],
            )),
        collapse_seq(t, in_ws, started).len() > 0 ==> !is_unicode_ws(collapse_seq(t, in_ws, started).last()),
        !started ==> (collapse_seq(t, in_ws, started).len() > 0 ==> !is_unicode_ws(collapse_seq(t, in_ws, started)[0])),
    decreases t.len(),
{
    if t.len() > 0 {
        let rest = t.drop_first();
        if is_unicode_ws(t[0]) {
            lemma_collapse_seq_shape(rest, true, started);
            assert(ink(t) == ink(rest));
        } else {
            lemma_collapse_seq_shape(rest, false, true);
            let r = collapse_seq(rest, false, true);
            let pfx: Seq<char> = if in_ws && started { seq![' '] } else { Seq::empty() };
            let out = collapse_seq(t, in_ws, started);
            assert(out == pfx + seq![t[0]] + r);
            assert(is_unicode_ws(' '));
            assert(ink(t) == seq![t[0]] + ink(rest));
            if in_ws && started {
                assert(ink(out) == ink(out.drop_first()));
                assert(out.drop_first() =~= seq![t[0]] + r);
                assert(ink(seq![t[0]] + r) == seq![t[0]] + ink((seq![t[0]] + r).drop_first()));
                assert((seq![t[0]] + r).drop_first() =~= r);
            } else {
                assert(out =~= seq![t[0]] + r);
                assert(out.drop_first() =~= r);
            }
            let p = pfx.len() as int;
            assert forall|i: int| 0 <= i < out.len() && is_unicode_ws(#[trigger] out[i]) implies out[i] == ' ' && i + 1
                < out.len() && !is_unicode_ws(out[i + 1]) && (0 < i ==> !is_unicode_ws(out[i - 1])) by {
                if i < p {
                    assert(out[i] == ' ');
                    assert(out[i + 1] == t[0]);
                } else if i == p {
                    assert(out[i] == t[0]);
                } else {
                    assert(out[i] == r[i - p - 1]);
                    if i - p - 1 == 0 {
                        assert(out[i - 1] == t[0]);
                        assert(out[i + 1] == r[1]);
                    } else {
                        assert(out[i - 1] == r[i - p - 2]);
                        assert(out[i + 1] == r[i - p]);
                    }
                }
            }
            if r.len() > 0 {
                assert(out.last() == r.last());
            } else {
                assert(out.last() == t[0]);
            }
        }
    }
}

/// Collapsing whitespace keeps every other character, in order, and
/// leaves prose single-spaced: no whitespace but single spaces between
/// non-whitespace characters, none at either end.
pub proof fn law_collapse_keeps_text(s: Seq<char>)
    ensures
        ink(collapsed(s)) == ink(s),
        single_spaced(collapsed(s)),
{
    lemma_collapse_from_suffix(s, 0, false, false);
    assert(s.skip(0) =~= s);
    lemma_collapse_seq_shape(s, false, false);
}

proof fn lemma_scan_append(a: Seq<ParsedEvent>, b: Seq<ParsedEvent>, post: Seq<ParsedEvent>)
    requires
        canon_scan(a) == canon_scan(b),
    ensures
        canon_scan(a + post) == canon_scan(b + post),
    decreases post.len(),
{
    if post.len() == 0 {
        assert(a + post =~= a);
        assert(b + post =~= b);
    } else {
        lemma_scan_append(a, b, post.drop_last());
        assert((a + post).drop_last() =~= a + post.drop_last());
        assert((b + post).drop_last() =~= b + post.drop_last());
        assert((a + post).last() == post.last());
        assert((b + post).last() == post.last());
    }
}

/// Law: outside code blocks, a soft break between two pieces of text
/// folds to the same canonical stream as one text event holding the two
/// pieces with a space between them, so where a paragraph's lines break
/// does not change its meaning.
pub proof fn law_soft_break_is_space(
    pre: Seq<ParsedEvent>,
    x: String,
    y: String,
    joined: String,
    post: Seq<ParsedEvent>,
)
    requires
        canon_scan(pre).1 == 0,
        x@.len() > 0,
        x@.last() != ' ',
        joined@ == x@ + seq![' '] + y@,
    ensures
        canonical_of(pre + seq![ParsedEvent::Text(x), ParsedEvent::SoftBreak, ParsedEvent::Text(y)] + post)
            == canonical_of(pre + seq![ParsedEvent::Text(joined)] + post),
{
    let a = pre + seq![ParsedEvent::Text(x), ParsedEvent::SoftBreak, ParsedEvent::Text(y)];
    let b = pre + seq![ParsedEvent::Text(joined)];
    let st = canon_scan(pre);
    let buf = pending_text(st.2);
    assert(a.drop_last().drop_last().drop_last() =~= pre);
    assert(b.drop_last() =~= pre);
    assert(a.last() == ParsedEvent::Text(y));
    assert(a.drop_last().last() == ParsedEvent::SoftBreak);
    assert(a.drop_last().drop_last().last() == ParsedEvent::Text(x));
    assert(b.last() == ParsedEvent::Text(joined));
    let s1 = canon_scan(a.drop_last().drop_last());
    assert(s1 == (st.0, st.1, Some(buf + x@)));
    assert((buf + x@).last() == x@.last());
    let s2 = canon_scan(a.drop_last());
    assert(s2 == (st.0, st.1, Some((buf + x@).push(' '))));
    assert((buf + x@).push(' ') + y@ =~= buf + joined@);
    assert(canon_scan(a) == canon_scan(b));
    lemma_scan_append(a, b, post);
}
} // verus!
