//! Bullet and ordered lists, with GFM task items.
//!
//! A list's tightness is derived from its items when the list is built:
//! a list is loose exactly when some item has a paragraph as a direct
//! child, and no constructor takes a tightness of its own. Items live in
//! the document tree; a list records, per item, the tree id of the item
//! node and the facts its emitter needs.

use std::borrow::Cow;
use std::ops::Range;
use vstd::prelude::*;
use crate::config::{list_marker_target, FmtOptions, OrderedListStyle};
use crate::math::pretty::{is_unicode_whitespace, trim_start_chars};
use crate::text::{chars_of, utf8_of};
pub use crate::blocks::node::NodeId;

verus! {

/// `CommonMark` list tightness.
#[derive(Copy, Clone, Debug, PartialEq, Eq, Structural)]
pub enum Tightness {
    /// No item has a paragraph as a direct child.
    Tight,
    /// Some item has a paragraph as a direct child.
    Loose,
}

/// Whether an item has a paragraph as a direct child.
pub open spec fn item_has_paragraph(k: ListItemKind) -> bool {
    match k {
        ListItemKind::Plain(p) => p.has_direct_paragraph,
        ListItemKind::Task(t) => t.has_direct_paragraph,
    }
}

/// The tightness the items determine.
pub open spec fn tightness_of(items: Seq<ListItemKind>) -> Tightness {
    if exists|i: int| 0 <= i < items.len() && item_has_paragraph(#[trigger] items[i]) {
        Tightness::Loose
    } else {
        Tightness::Tight
    }
}

impl Tightness {
    /// Tight exactly when no item has a direct paragraph child.
    pub fn from_items(items: &[ListItemKind]) -> (r: Self)
        ensures
            r == tightness_of(items@),
    {
        let mut i: usize = 0;
        while i < items.len()
            invariant
                i <= items@.len(),
                forall|k: int| 0 <= k < i ==> !item_has_paragraph(#[trigger] items@[k]),
            decreases items@.len() - i,
        {
            if items[i].body_has_direct_paragraph() {
                return Tightness::Loose;
            }
            i = i + 1;
        }
        Tightness::Tight
    }
}

/// The punctuation after an ordered marker's digits.
#[derive(Copy, Clone, Debug, PartialEq, Eq, Structural)]
pub enum OrderedDelim {
    Period,
    Paren,
}

pub open spec fn delim_char(d: OrderedDelim) -> char {
    match d {
        OrderedDelim::Period => '.',
        OrderedDelim::Paren => ')',
    }
}

impl OrderedDelim {
    pub fn as_char(self) -> (r: char)
        ensures
            r == delim_char(self),
    {
        match self {
            OrderedDelim::Period => '.',
            OrderedDelim::Paren => ')',
        }
    }
}

/// The marker of a list, as parsed.
#[derive(Copy, Clone, Debug, PartialEq, Eq, Structural)]
pub enum ListMarker {
    Dash,
    Asterisk,
    Plus,
    Ordered { start: u32, delim: OrderedDelim },
}

/// A space or a tab.
pub open spec fn is_sp_tab(c: u8) -> bool {
    c == 0x20u8 || c == 0x09u8
}

/// An ASCII digit.
pub open spec fn is_ascii_digit_byte(c: u8) -> bool {
    0x30u8 <= c <= 0x39u8
}

/// The first position at or after `i` whose byte fails `p`.
pub open spec fn skip_sp_tab(b: Seq<u8>, i: int) -> int
    decreases b.len() - i,
{
    if 0 <= i < b.len() && is_sp_tab(b[i]) {
        skip_sp_tab(b, i + 1)
    } else {
        i
    }
}

pub open spec fn skip_digits(b: Seq<u8>, i: int) -> int
    decreases b.len() - i,
{
    if 0 <= i < b.len() && is_ascii_digit_byte(b[i]) {
        skip_digits(b, i + 1)
    } else {
        i
    }
}

/// The punctuation after the first item's marker digits in `b`, if any.
pub open spec fn delim_after_digits(b: Seq<u8>) -> Option<OrderedDelim> {
    let i = skip_digits(b, skip_sp_tab(b, 0));
    if i < b.len() && b[i] == 0x2Eu8 {
        Some(OrderedDelim::Period)
    } else if i < b.len() && b[i] == 0x29u8 {
        Some(OrderedDelim::Paren)
    } else {
        None
    }
}

/// Reads `.` or `)` after the leading spaces and digits of `range` in
/// `source`; `None` when neither follows or the range is not in bounds.
pub fn scan_ordered_delim(source: &str, range: Range<usize>) -> (r: Option<OrderedDelim>)
    ensures
        ({
            let all = utf8_of(source@);
            if range.start <= range.end <= all.len() {
                r == delim_after_digits(all.subrange(range.start as int, range.end as int))
            } else {
                r is None
            }
        }),
{
    let all = source.as_bytes();
    if !(range.start <= range.end && range.end <= all.len()) {
        return None;
    }
    let ghost b = all@.subrange(range.start as int, range.end as int);
    let lo = range.start;
    let hi = range.end;
    let mut i = lo;
    while i < hi && (all[i] == 0x20u8 || all[i] == 0x09u8)
        invariant
            lo <= i <= hi <= all@.len(),
            b == all@.subrange(lo as int, hi as int),
            skip_sp_tab(b, i - lo) == skip_sp_tab(b, 0),
        decreases hi - i,
    {
        i = i + 1;
    }
    let ghost i0 = i;
    while i < hi && 0x30u8 <= all[i] && all[i] <= 0x39u8
        invariant
            lo <= i0 <= i <= hi <= all@.len(),
            b == all@.subrange(lo as int, hi as int),
            skip_sp_tab(b, 0) == i0 - lo,
            skip_digits(b, i - lo) == skip_digits(b, i0 - lo),
        decreases hi - i,
    {
        i = i + 1;
    }
    if i < hi && all[i] == 0x2Eu8 {
        Some(OrderedDelim::Period)
    } else if i < hi && all[i] == 0x29u8 {
        Some(OrderedDelim::Paren)
    } else {
        None
    }
}

/// The marker a list's parsed facts describe.
pub open spec fn marker_of_legacy(ordered: bool, start: u64, marker_byte: u8, delim: Option<OrderedDelim>) -> Option<ListMarker> {
    if ordered {
        if start > u32::MAX {
            None
        } else {
            Some(
                ListMarker::Ordered {
                    start: start as u32,
                    delim: match delim {
                        Some(d) => d,
                        None => OrderedDelim::Period,
                    },
                },
            )
        }
    } else if marker_byte == 0x2Du8 {
        Some(ListMarker::Dash)
    } else if marker_byte == 0x2Au8 {
        Some(ListMarker::Asterisk)
    } else if marker_byte == 0x2Bu8 {
        Some(ListMarker::Plus)
    } else {
        None
    }
}

impl ListMarker {
    /// Lifts the parser's `(ordered, start, marker byte)` facts into a
    /// marker; an ordered marker reads its punctuation from the source
    /// of the first item (`.` when none is found). `None` for a start
    /// beyond `u32` or a bullet byte that is not `-`, `*` or `+`.
    pub fn from_legacy(ordered: bool, start: u64, marker_byte: u8, source: &str, raw_range: Range<usize>) -> (r: Option<Self>)
        ensures
            ({
                let all = utf8_of(source@);
                let delim = if raw_range.start <= raw_range.end <= all.len() {
                    delim_after_digits(all.subrange(raw_range.start as int, raw_range.end as int))
                } else {
                    None
                };
                r == marker_of_legacy(ordered, start, marker_byte, delim)
            }),
    {
        if ordered {
            if start > 0xFFFF_FFFFu64 {
                return None;
            }
            let delim = match scan_ordered_delim(source, raw_range) {
                Some(d) => d,
                None => OrderedDelim::Period,
            };
            Some(ListMarker::Ordered { start: start as u32, delim })
        } else {
            match marker_byte {
                0x2Du8 => Some(ListMarker::Dash),
                0x2Au8 => Some(ListMarker::Asterisk),
                0x2Bu8 => Some(ListMarker::Plus),
                _ => None,
            }
        }
    }
}

/// A plain list item.
#[derive(Copy, Clone, Debug, PartialEq, Eq, Structural)]
pub struct ListItem {
    pub item_id: NodeId,
    pub indent: u8,
    pub has_direct_paragraph: bool,
}

impl ListItem {
    pub fn new(item_id: NodeId, indent: u8, has_direct_paragraph: bool) -> (r: Self)
        ensures
            r == (ListItem { item_id, indent, has_direct_paragraph }),
    {
        ListItem { item_id, indent, has_direct_paragraph }
    }

    pub fn item_id(self) -> (r: NodeId)
        ensures
            r == self.item_id,
    {
        self.item_id
    }

    pub fn indent(self) -> (r: u8)
        ensures
            r == self.indent,
    {
        self.indent
    }

    pub fn has_direct_paragraph(self) -> (r: bool)
        ensures
            r == self.has_direct_paragraph,
    {
        self.has_direct_paragraph
    }
}

/// A GFM task item: `checked` is the `[x]` / `[ ]` marker, `body_empty`
/// says that nothing follows the marker.
#[derive(Copy, Clone, Debug, PartialEq, Eq, Structural)]
pub struct TaskItem {
    pub item_id: NodeId,
    pub indent: u8,
    pub has_direct_paragraph: bool,
    pub checked: bool,
    pub body_empty: bool,
}

impl TaskItem {
    pub fn new(item_id: NodeId, indent: u8, has_direct_paragraph: bool, checked: bool, body_empty: bool) -> (r: Self)
        ensures
            r == (TaskItem { item_id, indent, has_direct_paragraph, checked, body_empty }),
    {
        TaskItem { item_id, indent, has_direct_paragraph, checked, body_empty }
    }

    pub fn item_id(self) -> (r: NodeId)
        ensures
            r == self.item_id,
    {
        self.item_id
    }

    pub fn indent(self) -> (r: u8)
        ensures
            r == self.indent,
    {
        self.indent
    }

    pub fn has_direct_paragraph(self) -> (r: bool)
        ensures
            r == self.has_direct_paragraph,
    {
        self.has_direct_paragraph
    }

    pub fn checked(self) -> (r: bool)
        ensures
            r == self.checked,
    {
        self.checked
    }

    pub fn body_empty(self) -> (r: bool)
        ensures
            r == self.body_empty,
    {
        self.body_empty
    }
}

/// One item of a list.
#[derive(Copy, Clone, Debug, PartialEq, Eq, Structural)]
pub enum ListItemKind {
    Plain(ListItem),
    Task(TaskItem),
}

pub open spec fn item_node(k: ListItemKind) -> NodeId {
    match k {
        ListItemKind::Plain(p) => p.item_id,
        ListItemKind::Task(t) => t.item_id,
    }
}

impl ListItemKind {
    pub fn item_id(self) -> (r: NodeId)
        ensures
            r == item_node(self),
    {
        match self {
            ListItemKind::Plain(p) => p.item_id(),
            ListItemKind::Task(t) => t.item_id(),
        }
    }

    pub fn body_has_direct_paragraph(&self) -> (r: bool)
        ensures
            r == item_has_paragraph(*self),
    {
        match self {
            ListItemKind::Plain(p) => p.has_direct_paragraph(),
            ListItemKind::Task(t) => t.has_direct_paragraph(),
        }
    }
}

/// Why a list could not be built.
#[derive(Copy, Clone, Debug, PartialEq, Eq, Structural)]
pub enum ListBlockError {
    /// A list with no items.
    Empty,
    /// An ordered list whose start does not fit in `u32`.
    OrderedStartTooLarge { start: u64 },
}

/// A list: its marker, its items, and the tightness they determine.
#[derive(Clone, Debug)]
pub struct ListBlock {
    marker: ListMarker,
    tightness: Tightness,
    items: Vec<ListItemKind>,
}

/// A bullet marker.
pub open spec fn is_bullet_marker(m: ListMarker) -> bool {
    m is Dash || m is Asterisk || m is Plus
}

/// The byte a bullet marker is written with.
pub open spec fn bullet_byte(m: ListMarker) -> u8 {
    match m {
        ListMarker::Dash => 0x2Du8,
        ListMarker::Asterisk => 0x2Au8,
        ListMarker::Plus => 0x2Bu8,
        ListMarker::Ordered { .. } => 0x2Du8,
    }
}

/// The bullet that avoids `avoid`: the configured one, else the source
/// one, else the first of `-`, `*`, `+` that differs.
pub open spec fn bullet_avoiding(candidate: u8, source: u8, avoid: Option<u8>) -> u8 {
    if avoid != Some(candidate) {
        candidate
    } else if avoid != Some(source) {
        source
    } else if avoid != Some(0x2Du8) {
        0x2Du8
    } else {
        0x2Au8
    }
}

impl ListBlock {
    /// The list's items are never empty and its tightness is the one
    /// they determine.
    pub closed spec fn well_formed(self) -> bool {
        &&& self.items@.len() > 0
        &&& self.tightness == tightness_of(self.items@)
    }

    pub closed spec fn spec_marker(self) -> ListMarker {
        self.marker
    }

    pub closed spec fn spec_tightness(self) -> Tightness {
        self.tightness
    }

    pub closed spec fn spec_items(self) -> Seq<ListItemKind> {
        self.items@
    }

    /// Builds a list from its marker and items; `Empty` when there are
    /// no items.
    pub fn try_new(marker: ListMarker, items: Vec<ListItemKind>) -> (r: Result<Self, ListBlockError>)
        ensures
            items@.len() == 0 <==> r is Err,
            r matches Err(e) ==> e == ListBlockError::Empty,
            r matches Ok(l) ==> l.well_formed() && l.spec_marker() == marker && l.spec_items() == items@
                && l.spec_tightness() == tightness_of(items@),
    {
        if items.len() == 0 {
            return Err(ListBlockError::Empty);
        }
        let tightness = Tightness::from_items(items.as_slice());
        Ok(ListBlock { marker, tightness, items })
    }

    pub fn marker(&self) -> (r: ListMarker)
        ensures
            r == self.spec_marker(),
    {
        self.marker
    }

    pub fn tightness(&self) -> (r: Tightness)
        ensures
            r == self.spec_tightness(),
            self.well_formed() ==> r == tightness_of(self.spec_items()),
    {
        self.tightness
    }

    /// Whether the marker is a bullet (`-`, `*` or `+`).
    pub fn is_unordered(&self) -> (r: bool)
        ensures
            r == is_bullet_marker(self.spec_marker()),
    {
        match self.marker {
            ListMarker::Dash | ListMarker::Asterisk | ListMarker::Plus => true,
            ListMarker::Ordered { .. } => false,
        }
    }

    /// The bullet byte the source used.
    pub fn source_bullet_byte(&self) -> (r: u8)
        requires
            is_bullet_marker(self.spec_marker()),
        ensures
            r == bullet_byte(self.spec_marker()),
    {
        match self.marker {
            ListMarker::Dash => 0x2Du8,
            ListMarker::Asterisk => 0x2Au8,
            ListMarker::Plus => 0x2Bu8,
            ListMarker::Ordered { .. } => 0x2Du8,
        }
    }

    /// The bullet to emit so that this list does not merge with the
    /// adjacent list before it, which was emitted with `avoid`: the
    /// configured bullet, else the source bullet, else any bullet that
    /// differs.
    pub fn resolve_unordered_bullet(&self, opts: &FmtOptions, avoid: Option<u8>) -> (r: u8)
        requires
            is_bullet_marker(self.spec_marker()),
        ensures
            r == bullet_avoiding(
                match list_marker_target(opts.list_marker) {
                    Some(b) => b,
                    None => bullet_byte(self.spec_marker()),
                },
                bullet_byte(self.spec_marker()),
                avoid,
            ),
            avoid != Some(r),
    {
        let source_byte = self.source_bullet_byte();
        let candidate = opts.resolve_list_marker(source_byte);
        if avoid != Some(candidate) {
            return candidate;
        }
        if avoid != Some(source_byte) {
            return source_byte;
        }
        if avoid != Some(0x2Du8) {
            return 0x2Du8;
        }
        0x2Au8
    }

    pub fn items(&self) -> (r: &[ListItemKind])
        ensures
            r@ == self.spec_items(),
    {
        self.items.as_slice()
    }

    /// The first item whose tree id is `node_id`.
    pub fn item_for(&self, node_id: NodeId) -> (r: Option<&ListItemKind>)
        ensures
            r is None <==> forall|i: int| 0 <= i < self.spec_items().len() ==> item_node(#[trigger] self.spec_items()[i]) != node_id,
            r matches Some(k) ==> exists|i: int|
                0 <= i < self.spec_items().len() && *k == #[trigger] self.spec_items()[i] && item_node(*k) == node_id
                    && forall|j: int| 0 <= j < i ==> item_node(#[trigger] self.spec_items()[j]) != node_id,
    {
        let mut i: usize = 0;
        while i < self.items.len()
            invariant
                i <= self.items@.len(),
                forall|j: int| 0 <= j < i ==> item_node(#[trigger] self.items@[j]) != node_id,
            decreases self.items@.len() - i,
        {
            if self.items[i].item_id() == node_id {
                let k = &self.items[i];
                assert(*k == self.spec_items()[i as int] && item_node(*k) == node_id);
                assert(forall|j: int| 0 <= j < i ==> item_node(#[trigger] self.spec_items()[j]) != node_id);
                return Some(k);
            }
            i = i + 1;
        }
        None
    }

    /// The marker text for item `idx`, whose source text is `item_raw`:
    /// an ordered marker numbers from the list's start (or keeps the
    /// item's source number under `Preserve`) and keeps the item's
    /// source punctuation; a bullet uses `unordered_bullet` when the
    /// caller resolved one, else the configured bullet. A space follows.
    pub fn marker_for_index(&self, opts: &FmtOptions, idx: usize, item_raw: &str, unordered_bullet: Option<u8>) -> (r: String)
        ensures
            r@ == marker_text(self.spec_marker(), *opts, idx as int, item_raw@, unordered_bullet),
    {
        match self.marker {
            ListMarker::Ordered { start, delim } => {
                let counted = (start as u64).saturating_add(idx as u64);
                let n = match opts.ordered_list() {
                    OrderedListStyle::Consistent => counted,
                    OrderedListStyle::Preserve => match source_ordered_marker_number(item_raw) {
                        Some(v) => v,
                        None => counted,
                    },
                };
                let punct = match source_ordered_punct(item_raw) {
                    Some(c) => c,
                    None => delim.as_char(),
                };
                let mut out = String::new();
                push_decimal(&mut out, n);
                out.push(punct);
                out.push(' ');
                out
            },
            ListMarker::Dash | ListMarker::Asterisk | ListMarker::Plus => {
                let b = match unordered_bullet {
                    Some(b) => b,
                    None => opts.resolve_list_marker(self.source_bullet_byte()),
                };
                let mut out = String::new();
                out.push(b as char);
                out.push(' ');
                out
            },
        }
    }
}

/// The decimal digits of `n`.
pub open spec fn decimal_chars(n: nat) -> Seq<char>
    decreases n,
{
    if n < 10 {
        seq![(0x30 + n) as char]
    } else {
        decimal_chars(n / 10) + seq![(0x30 + n % 10) as char]
    }
}

/// Appends the decimal digits of `n`.
pub fn push_decimal(out: &mut String, n: u64)
    ensures
        final(out)@ == old(out)@ + decimal_chars(n as nat),
    decreases n,
{
    if n >= 10 {
        push_decimal(out, n / 10);
    }
    let d = (n % 10) as u8;
    let c = (0x30u8 + d) as char;
    out.push(c);
    proof {
        assert(c == (0x30 + n % 10) as char);
    }
}

/// An ASCII digit character.
pub open spec fn is_digit_char(c: char) -> bool {
    '0' <= c <= '9'
}

/// The leading run of ASCII digits of `s`.
pub open spec fn digit_prefix(s: Seq<char>) -> Seq<char>
    decreases s.len(),
{
    if s.len() > 0 && is_digit_char(s[0]) {
        seq![s[0]] + digit_prefix(s.drop_first())
    } else {
        Seq::empty()
    }
}

/// The value of a run of decimal digits.
pub open spec fn digits_value(d: Seq<char>) -> nat
    decreases d.len(),
{
    if d.len() == 0 {
        0
    } else {
        digits_value(d.drop_last()) * 10 + (d.last() as nat - 0x30) as nat
    }
}

/// The number an ordered item's source text starts with, after leading
/// whitespace; `None` when there are no digits or the value exceeds
/// `u64`.
pub open spec fn source_number(raw: Seq<char>) -> Option<nat> {
    let d = digit_prefix(trim_start_chars(raw));
    if d.len() == 0 || digits_value(d) > u64::MAX {
        None
    } else {
        Some(digits_value(d))
    }
}

/// The first character after the leading digits of the trimmed source
/// text, when it is `.` or `)`.
pub open spec fn source_punct(raw: Seq<char>) -> Option<char> {
    let t = trim_start_chars(raw);
    let n = digit_prefix(t).len();
    if n < t.len() && (t[n as int] == '.' || t[n as int] == ')') {
        Some(t[n as int])
    } else {
        None
    }
}

/// The marker text of item `idx`; see [`ListBlock::marker_for_index`].
pub open spec fn marker_text(m: ListMarker, opts: FmtOptions, idx: int, raw: Seq<char>, unordered_bullet: Option<u8>) -> Seq<char> {
    match m {
        ListMarker::Ordered { start, delim } => {
            let counted: nat = if start + idx > u64::MAX {
                u64::MAX as nat
            } else {
                (start + idx) as nat
            };
            let n = match opts.ordered_list {
                OrderedListStyle::Consistent => counted,
                OrderedListStyle::Preserve => match source_number(raw) {
                    Some(v) => v,
                    None => counted,
                },
            };
            let p = match source_punct(raw) {
                Some(c) => c,
                None => delim_char(delim),
            };
            decimal_chars(n) + seq![p, ' ']
        },
        _ => {
            let b = match unordered_bullet {
                Some(b) => b,
                None => match list_marker_target(opts.list_marker) {
                    Some(t) => t,
                    None => bullet_byte(m),
                },
            };
            seq![b as char, ' ']
        },
    }
}

/// The position of the first non-whitespace character of `cs`.
fn trim_start_index(cs: &Vec<char>) -> (r: usize)
    ensures
        r <= cs@.len(),
        cs@.subrange(r as int, cs@.len() as int) == trim_start_chars(cs@),
{
    let n = cs.len();
    let mut lo: usize = 0;
    assert(cs@.subrange(0, n as int) =~= cs@);
    while lo < n && is_unicode_whitespace(cs[lo])
        invariant
            n == cs@.len(),
            lo <= n,
            trim_start_chars(cs@) == trim_start_chars(cs@.subrange(lo as int, n as int)),
        decreases n - lo,
    {
        assert(cs@.subrange(lo as int, n as int).drop_first() =~= cs@.subrange(lo + 1, n as int));
        lo = lo + 1;
    }
    lo
}

/// The number an ordered item's source text starts with.
pub fn source_ordered_marker_number(raw: &str) -> (r: Option<u64>)
    ensures
        match r {
            Some(v) => source_number(raw@) == Some(v as nat),
            None => source_number(raw@) is None,
        },
{
    let cs = chars_of(raw);
    let lo = trim_start_index(&cs);
    let ghost t = cs@.subrange(lo as int, cs@.len() as int);
    let mut i = lo;
    let mut v: u64 = 0;
    let mut overflow = false;
    while i < cs.len() && '0' <= cs[i] && cs[i] <= '9'
        invariant
            lo <= i <= cs@.len(),
            t == cs@.subrange(lo as int, cs@.len() as int),
            forall|k: int| lo <= k < i ==> is_digit_char(#[trigger] cs@[k]),
            !overflow ==> v == digits_value(cs@.subrange(lo as int, i as int)),
            overflow ==> digits_value(cs@.subrange(lo as int, i as int)) > u64::MAX,
        decreases cs@.len() - i,
    {
        let d = (cs[i] as u32 - 0x30) as u64;
        proof {
            assert(cs@.subrange(lo as int, i + 1).drop_last() =~= cs@.subrange(lo as int, i as int));
        }
        if !overflow {
            if v > (u64::MAX - d) / 10 {
                overflow = true;
                assert(v * 10 + d > u64::MAX) by (nonlinear_arith)
                    requires
                        v > (u64::MAX - d) / 10,
                        d <= 9,
                ;
            } else {
                assert(v * 10 + d <= u64::MAX) by (nonlinear_arith)
                    requires
                        v <= (u64::MAX - d) / 10,
                        d <= 9,
                ;
                v = v * 10 + d;
            }
        } else {
            let ghost prev = digits_value(cs@.subrange(lo as int, i as int));
            assert(prev * 10 + d >= prev) by (nonlinear_arith)
                requires
                    d >= 0,
                    prev >= 0,
            ;
        }
        i = i + 1;
    }
    proof {
        lemma_digit_prefix(t, (i - lo) as int);
        assert(cs@.subrange(lo as int, i as int) =~= t.take(i - lo));
    }
    if i == lo || overflow {
        return None;
    }
    Some(v)
}

/// The digit prefix of `t` is its first `n` characters when those are
/// digits and the next one is not.
proof fn lemma_digit_prefix(t: Seq<char>, n: int)
    requires
        0 <= n <= t.len(),
        forall|k: int| 0 <= k < n ==> is_digit_char(#[trigger] t[k]),
        n == t.len() || !is_digit_char(t[n]),
    ensures
        digit_prefix(t) == t.take(n),
    decreases n,
{
    if n > 0 {
        assert forall|k: int| 0 <= k < n - 1 implies is_digit_char(#[trigger] t.drop_first()[k]) by {
            assert(t.drop_first()[k] == t[k + 1]);
        }
        lemma_digit_prefix(t.drop_first(), n - 1);
        assert(seq![t[0]] + t.drop_first().take(n - 1) =~= t.take(n));
    } else {
        assert(t.take(0) =~= Seq::<char>::empty());
    }
}

/// The punctuation after an ordered item's source digits, when it is
/// `.` or `)`.
pub fn source_ordered_punct(raw: &str) -> (r: Option<char>)
    ensures
        r == source_punct(raw@),
{
    let cs = chars_of(raw);
    let lo = trim_start_index(&cs);
    let ghost t = cs@.subrange(lo as int, cs@.len() as int);
    let mut i = lo;
    while i < cs.len() && '0' <= cs[i] && cs[i] <= '9'
        invariant
            lo <= i <= cs@.len(),
            t == cs@.subrange(lo as int, cs@.len() as int),
            forall|k: int| lo <= k < i ==> is_digit_char(#[trigger] cs@[k]),
        decreases cs@.len() - i,
    {
        i = i + 1;
    }
    proof {
        assert forall|k: int| 0 <= k < i - lo implies is_digit_char(#[trigger] t[k]) by {
            assert(t[k] == cs@[lo + k]);
        }
        lemma_digit_prefix(t, (i - lo) as int);
    }
    if i < cs.len() && (cs[i] == '.' || cs[i] == ')') {
        Some(cs[i])
    } else {
        None
    }
}

/// The indent of a list item: the count of leading spaces and tabs on
/// the first line of `raw_range` that holds something other than
/// spaces, tabs and carriage returns, capped at 255; 0 when there is no
/// such line or the range is not in bounds.
pub open spec fn indent_from(b: Seq<u8>, i: int) -> nat
    decreases b.len() - i,
{
    let e = line_end(b, i);
    if exists|k: int| i <= k < e && !is_line_blank_byte(#[trigger] b[k]) {
        let c = skip_sp_tab(b.subrange(i, e), 0);
        if c > 255 {
            255
        } else {
            c as nat
        }
    } else if e >= b.len() || i < 0 || e < i {
        0
    } else {
        indent_from(b, e + 1)
    }
}

/// A space, tab or carriage return.
pub open spec fn is_line_blank_byte(c: u8) -> bool {
    c == 0x20u8 || c == 0x09u8 || c == 0x0Du8
}

/// The position of the newline that ends the line from `i`, or the end.
pub open spec fn line_end(b: Seq<u8>, i: int) -> int
    decreases b.len() - i,
{
    if 0 <= i < b.len() && b[i] != 0x0Au8 {
        line_end(b, i + 1)
    } else {
        i
    }
}

#[verifier::loop_isolation(false)]
pub fn item_indent(source: &str, raw_range: Range<usize>) -> (r: u8)
    ensures
        ({
            let all = utf8_of(source@);
            if raw_range.start <= raw_range.end <= all.len() {
                r == indent_from(all.subrange(raw_range.start as int, raw_range.end as int), 0)
            } else {
                r == 0
            }
        }),
{
    let all = source.as_bytes();
    if !(raw_range.start <= raw_range.end && raw_range.end <= all.len()) {
        return 0;
    }
    let lo = raw_range.start;
    let hi = raw_range.end;
    let ghost b = all@.subrange(lo as int, hi as int);
    let mut i = lo;
    loop
        invariant
            lo <= i <= hi <= all@.len(),
            b == all@.subrange(lo as int, hi as int),
            indent_from(b, i - lo) == indent_from(b, 0),
        decreases hi - i,
    {
        let line_start = i;
        let mut nonblank = false;
        while i < hi && all[i] != 0x0Au8
            invariant
                lo <= line_start <= i <= hi <= all@.len(),
                b == all@.subrange(lo as int, hi as int),
                line_end(b, i - lo) == line_end(b, line_start - lo),
                nonblank <==> exists|k: int| line_start - lo <= k < i - lo && !is_line_blank_byte(#[trigger] b[k]),
            decreases hi - i,
        {
            let c = all[i];
            if !(c == 0x20u8 || c == 0x09u8 || c == 0x0Du8) {
                nonblank = true;
                assert(!is_line_blank_byte(b[i - lo]));
            }
            i = i + 1;
        }
        let ghost s = line_start - lo;
        let ghost e = i - lo;
        if nonblank {
            let mut j = line_start;
            let mut count: usize = 0;
            while j < i && (all[j] == 0x20u8 || all[j] == 0x09u8)
                invariant
                    line_start <= j <= i <= hi <= all@.len(),
                    b == all@.subrange(lo as int, hi as int),
                    count == j - line_start,
                    skip_sp_tab(b.subrange(s, e), count as int) == skip_sp_tab(b.subrange(s, e), 0),
                decreases i - j,
            {
                j = j + 1;
                count = count + 1;
            }
            if count > 255 {
                return 255;
            }
            return count as u8;
        }
        if i >= hi {
            return 0;
        }
        i = i + 1;
    }
}

/// `n` spaces: the indent of a list item's continuation lines.
pub fn indent_cow(n: usize) -> (r: Cow<'static, str>)
    ensures
        r@ == Seq::new(n as nat, |_i: int| ' '),
{
    let mut s = String::new();
    let mut k: usize = 0;
    while k < n
        invariant
            k <= n,
            s@ == Seq::new(k as nat, |_i: int| ' '),
        decreases n - k,
    {
        s.push(' ');
        assert(s@ =~= Seq::new((k + 1) as nat, |_i: int| ' '));
        k = k + 1;
    }
    Cow::Owned(s)
}

} // verus!
