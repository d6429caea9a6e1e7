//! Inline text runs.
//!
//! A run is the stretch of text, soft breaks and hard breaks between
//! two structural inline events. Its pieces are joined into one buffer
//! (each break a `\n`), bytes that came from a source `\X` escape are
//! marked as forced escapes, the escape policy runs over the whole
//! buffer (flanking is decided run-wide), and the result is split back
//! at the breaks.

use std::borrow::Cow;
use vstd::prelude::*;
use vstd::utf8::*;
use crate::format::doc::{text, Doc};
use crate::escape::{
    any_byte_needs_escape, escape_buffer, escape_flags, needs_escape, EscapeScope,
};
use crate::text::{
    cow_str, insert_backslashes, lemma_ascii_boundaries, lemma_utf8_of_concat,
    lemma_utf8_of_ascii_byte, str_get, utf8_of,
};

verus! {

/// One input piece of a run.
#[derive(Debug)]
pub enum RunInput<'a> {
    /// Decoded text; `source` is the raw source slice it came from, when
    /// there is one.
    Text { payload: Cow<'a, str>, source: Option<&'a str> },
    SoftBreak,
    HardBreak,
}

/// One emission-ready piece of a run.
#[derive(Clone, Debug)]
pub enum RunPart {
    Text(String),
    SoftBreak,
    /// A hard break in a paragraph: `\` then a newline.
    HardLineBreak,
    /// A hard break in a heading: `<br/>`.
    HardBreakTag,
}

/// A run: escape-applied, split at its breaks.
#[derive(Clone, Debug)]
pub struct InlineRun {
    pub parts: Vec<RunPart>,
}

#[derive(Copy, Clone, Debug, PartialEq, Eq, Structural)]
pub enum BreakKind {
    Soft,
    Hard,
}

/// A part, with its text as bytes.
pub enum PartView {
    Text(Seq<u8>),
    SoftBreak,
    HardLineBreak,
    HardBreakTag,
}

pub open spec fn part_view(p: RunPart) -> PartView {
    match p {
        RunPart::Text(s) => PartView::Text(utf8_of(s@)),
        RunPart::SoftBreak => PartView::SoftBreak,
        RunPart::HardLineBreak => PartView::HardLineBreak,
        RunPart::HardBreakTag => PartView::HardBreakTag,
    }
}

pub open spec fn break_view(k: BreakKind, heading: bool) -> PartView {
    match k {
        BreakKind::Soft => PartView::SoftBreak,
        BreakKind::Hard => if heading {
            PartView::HardBreakTag
        } else {
            PartView::HardLineBreak
        },
    }
}

// ----------------------------------------------------------------------
// Forced escapes from source
// ----------------------------------------------------------------------

/// Walks `source` against `payload`: a `\X` in the source that yields
/// `X` in the payload marks that payload byte; equal bytes advance
/// together; the first other mismatch stops the walk.
pub open spec fn forced_walk(s: Seq<u8>, p: Seq<u8>, si: int, pi: int, acc: Seq<bool>) -> Seq<bool>
    decreases s.len() - si,
{
    if si < 0 || pi < 0 || si >= s.len() || pi >= p.len() {
        acc
    } else if s[si] == 0x5C && si + 1 < s.len() && p[pi] == s[si + 1] {
        forced_walk(s, p, si + 2, pi + 1, acc.update(pi, true))
    } else if s[si] == p[pi] {
        forced_walk(s, p, si + 1, pi + 1, acc)
    } else {
        acc
    }
}

/// The forced-escape map of a payload derived from `source`.
pub open spec fn forced_map(source: Seq<u8>, payload: Seq<u8>) -> Seq<bool> {
    forced_walk(source, payload, 0, 0, Seq::new(payload.len(), |i: int| false))
}

/// The source has a backslash escape the payload lost.
pub open spec fn has_source_escape(payload: Seq<u8>, source: Seq<u8>) -> bool {
    source.len() > payload.len() && source.contains(0x5Cu8)
}

/// The forced map of a text input: derived from its source when the
/// source holds an escape, all false otherwise.
pub open spec fn chunk_forced(payload: Seq<u8>, source: Option<Seq<u8>>) -> Seq<bool> {
    match source {
        Some(src) => if has_source_escape(payload, src) {
            forced_map(src, payload)
        } else {
            Seq::new(payload.len(), |i: int| false)
        },
        None => Seq::new(payload.len(), |i: int| false),
    }
}

fn all_false(n: usize) -> (v: Vec<bool>)
    ensures
        v@ == Seq::new(n as nat, |i: int| false),
{
    let mut v: Vec<bool> = Vec::new();
    let mut k: usize = 0;
    while k < n
        invariant
            k <= n,
            v@ == Seq::new(k as nat, |i: int| false),
        decreases n - k,
    {
        v.push(false);
        k = k + 1;
        proof {
            assert(v@ =~= Seq::new(k as nat, |i: int| false));
        }
    }
    v
}

/// Marks the payload bytes that came from a `\X` escape in `source`.
pub fn forced_escapes_from_source(payload: &str, source: &str) -> (forced: Vec<bool>)
    ensures
        forced@ == forced_map(utf8_of(source@), utf8_of(payload@)),
{
    let p = payload.as_bytes();
    let s = source.as_bytes();
    let mut forced = all_false(p.len());
    let mut si: usize = 0;
    let mut pi: usize = 0;
    let mut stopped = false;
    while !stopped && si < s.len() && pi < p.len()
        invariant
            s@ == utf8_of(source@),
            p@ == utf8_of(payload@),
            forced@.len() == p@.len(),
            !stopped ==> forced_walk(s@, p@, si as int, pi as int, forced@) == forced_map(s@, p@),
            stopped ==> forced@ == forced_map(s@, p@),
        decreases s@.len() - si, (if stopped { 0int } else { 1int }),
    {
        if s[si] == 0x5C && si + 1 < s.len() && p[pi] == s[si + 1] {
            forced.set(pi, true);
            si = si + 2;
            pi = pi + 1;
        } else if s[si] == p[pi] {
            si = si + 1;
            pi = pi + 1;
        } else {
            stopped = true;
        }
    }
    forced
}

fn contains_backslash(s: &str) -> (r: bool)
    ensures
        r == utf8_of(s@).contains(0x5Cu8),
{
    let b = s.as_bytes();
    let mut k: usize = 0;
    while k < b.len()
        invariant
            k <= b@.len(),
            b@ == utf8_of(s@),
            forall|m: int| 0 <= m < k ==> b@[m] != 0x5C,
        decreases b@.len() - k,
    {
        if b[k] == 0x5C {
            proof {
                assert(b@[k as int] == 0x5Cu8);
            }
            return true;
        }
        k = k + 1;
    }
    false
}

fn payload_has_source_escape(payload: &str, source: &str) -> (r: bool)
    ensures
        r == has_source_escape(utf8_of(payload@), utf8_of(source@)),
{
    source.as_bytes().len() > payload.as_bytes().len() && contains_backslash(source)
}

fn forced_for(payload: &str, source: Option<&str>) -> (f: Vec<bool>)
    ensures
        f@ == chunk_forced(utf8_of(payload@), match source {
            Some(s) => Some(utf8_of(s@)),
            None => None,
        }),
{
    match source {
        Some(src) => if payload_has_source_escape(payload, src) {
            forced_escapes_from_source(payload, src)
        } else {
            all_false(payload.as_bytes().len())
        },
        None => all_false(payload.as_bytes().len()),
    }
}

// ----------------------------------------------------------------------
// Joined buffer
// ----------------------------------------------------------------------

pub open spec fn source_bytes<'a>(source: Option<&'a str>) -> Option<Seq<u8>> {
    match source {
        Some(s) => Some(utf8_of(s@)),
        None => None,
    }
}

/// The joined buffer of inputs `0..k`: text bytes, `\n` per break.
pub open spec fn joined<'a>(inputs: Seq<RunInput<'a>>) -> Seq<u8>
    decreases inputs.len(),
{
    if inputs.len() == 0 {
        Seq::empty()
    } else {
        joined(inputs.drop_last()) + match inputs.last() {
            RunInput::Text { payload, .. } => utf8_of(payload@),
            _ => seq![0x0Au8],
        }
    }
}

/// The joined forced map.
pub open spec fn joined_forced<'a>(inputs: Seq<RunInput<'a>>) -> Seq<bool>
    decreases inputs.len(),
{
    if inputs.len() == 0 {
        Seq::empty()
    } else {
        joined_forced(inputs.drop_last()) + match inputs.last() {
            RunInput::Text { payload, source } => chunk_forced(utf8_of(payload@), source_bytes(source)),
            _ => seq![false],
        }
    }
}

/// One tag per `\n` of the joined buffer: `None` for a newline inside a
/// text, the break's kind for a break.
pub open spec fn joined_tags<'a>(inputs: Seq<RunInput<'a>>) -> Seq<Option<BreakKind>>
    decreases inputs.len(),
{
    if inputs.len() == 0 {
        Seq::empty()
    } else {
        joined_tags(inputs.drop_last()) + match inputs.last() {
            RunInput::Text { payload, .. } => Seq::new(
                crate::blocks::line_start::count_byte(utf8_of(payload@), 0x0A),
                |i: int| None,
            ),
            RunInput::SoftBreak => seq![Some(BreakKind::Soft)],
            RunInput::HardBreak => seq![Some(BreakKind::Hard)],
        }
    }
}

// ----------------------------------------------------------------------
// Splitting at breaks
// ----------------------------------------------------------------------

pub open spec fn text_if_nonempty(b: Seq<u8>) -> Seq<PartView> {
    if b.len() > 0 {
        seq![PartView::Text(b)]
    } else {
        Seq::empty()
    }
}

/// The parts of the escaped buffer `e`: it is split at each newline
/// whose tag is a break (the `t`-th newline has tag `tags[t]`); empty
/// texts are dropped.
pub open spec fn split_run(e: Seq<u8>, tags: Seq<Option<BreakKind>>, i: int, t: int, start: int, heading: bool) -> Seq<PartView>
    decreases e.len() - i,
{
    if i < 0 || i >= e.len() {
        text_if_nonempty(e.subrange(start, e.len() as int))
    } else if e[i] != 0x0A {
        split_run(e, tags, i + 1, t, start, heading)
    } else if 0 <= t < tags.len() && tags[t] is Some {
        text_if_nonempty(e.subrange(start, i)) + seq![break_view(tags[t]->0, heading)] + split_run(
            e,
            tags,
            i + 1,
            t + 1,
            i + 1,
            heading,
        )
    } else {
        split_run(e, tags, i + 1, t + 1, start, heading)
    }
}

/// The escaped buffer of a run: the policy's escapes plus the forced
/// ones, or nothing when a forced escape would split a character.
pub open spec fn escaped_run(buf: Seq<u8>, forced: Seq<bool>, scope: EscapeScope) -> Seq<u8> {
    if valid_utf8(insert_backslashes(buf, escape_flags(buf, forced, scope))) {
        insert_backslashes(buf, escape_flags(buf, forced, scope))
    } else {
        Seq::empty()
    }
}

/// The parts a run of several inputs produces.
pub open spec fn run_parts<'a>(inputs: Seq<RunInput<'a>>, scope: EscapeScope) -> Seq<PartView> {
    split_run(
        escaped_run(joined(inputs), joined_forced(inputs), scope),
        joined_tags(inputs),
        0,
        0,
        0,
        scope.in_heading,
    )
}

/// The single part a lone text input produces.
pub open spec fn singleton_text(payload: Seq<u8>, source: Option<Seq<u8>>, scope: EscapeScope) -> Seq<u8> {
    escaped_run(payload, chunk_forced(payload, source), scope)
}

fn hard_break_part(scope: EscapeScope) -> (r: RunPart)
    ensures
        part_view(r) == break_view(BreakKind::Hard, scope.in_heading),
{
    if scope.in_heading {
        RunPart::HardBreakTag
    } else {
        RunPart::HardLineBreak
    }
}

fn break_part(k: BreakKind, scope: EscapeScope) -> (r: RunPart)
    ensures
        part_view(r) == break_view(k, scope.in_heading),
{
    match k {
        BreakKind::Soft => RunPart::SoftBreak,
        BreakKind::Hard => hard_break_part(scope),
    }
}

/// Escapes a lone text input.
fn escape_singleton(payload: &str, source: Option<&str>, scope: EscapeScope) -> (r: String)
    ensures
        utf8_of(r@) == singleton_text(utf8_of(payload@), source_bytes(source), scope),
{
    let forced = forced_for(payload, source);
    let ghost b = utf8_of(payload@);
    let uses_source = match source {
        Some(src) => payload_has_source_escape(payload, src),
        None => false,
    };
    if !uses_source && !any_byte_needs_escape(payload, scope) {
        proof {
            let f = escape_flags(b, forced@, scope);
            assert forall|i: int| 0 <= i < b.len() implies !#[trigger] f[i] by {
                assert(!needs_escape(b, i, scope));
            }
            crate::text::lemma_insert_none(b, f);
            crate::text::lemma_utf8_of_valid(payload@);
        }
        return payload.to_owned();
    }
    proof {
        crate::text::lemma_utf8_of_valid(payload@);
    }
    let r = escape_buffer(payload, forced.as_slice(), scope);
    proof {
        if !valid_utf8(insert_backslashes(b, escape_flags(b, forced@, scope))) {
            assert(utf8_of(r@) =~= Seq::<u8>::empty());
        }
    }
    r
}

fn push_break_tags(tags: &mut Vec<Option<BreakKind>>, payload: &str)
    ensures
        final(tags)@ == old(tags)@ + Seq::new(
            crate::blocks::line_start::count_byte(utf8_of(payload@), 0x0A),
            |i: int| None::<BreakKind>,
        ),
{
    let b = payload.as_bytes();
    let ghost start = tags@;
    let mut k: usize = 0;
    proof {
        assert(b@.take(0) =~= Seq::<u8>::empty());
        assert(start + Seq::new(0, |i: int| None::<BreakKind>) =~= start);
    }
    while k < b.len()
        invariant
            k <= b@.len(),
            b@ == utf8_of(payload@),
            tags@ == start + Seq::new(
                crate::blocks::line_start::count_byte(b@.take(k as int), 0x0A),
                |i: int| None::<BreakKind>,
            ),
        decreases b@.len() - k,
    {
        proof {
            assert(b@.take(k + 1).drop_last() =~= b@.take(k as int));
        }
        if b[k] == 0x0A {
            tags.push(None);
        }
        proof {
            assert(tags@ =~= start + Seq::new(
                crate::blocks::line_start::count_byte(b@.take(k + 1), 0x0A),
                |i: int| None::<BreakKind>,
            ));
        }
        k = k + 1;
    }
    proof {
        assert(b@.take(b@.len() as int) =~= b@);
    }
}

impl InlineRun {
    /// Builds the run for `inputs` under `scope`. No inputs give no
    /// parts; a lone input gives one part (its escaped text, or its
    /// break); several inputs are joined, escaped together and split
    /// back at their breaks. A hard break becomes `<br/>` inside a
    /// heading and `\` + newline elsewhere.
    pub fn new(inputs: Vec<RunInput<'_>>, scope: EscapeScope) -> (r: Self)
        ensures
            inputs@.len() == 0 ==> r.parts@.len() == 0,
            inputs@.len() == 1 ==> r.parts@.len() == 1 && part_view(r.parts@[0]) == match inputs@[0] {
                RunInput::Text { payload, source } => PartView::Text(
                    singleton_text(utf8_of(payload@), source_bytes(source), scope),
                ),
                RunInput::SoftBreak => PartView::SoftBreak,
                RunInput::HardBreak => break_view(BreakKind::Hard, scope.in_heading),
            },
            inputs@.len() > 1 ==> r.parts@.map_values(|p: RunPart| part_view(p)) == run_parts(inputs@, scope),
    {
        let n = inputs.len();
        if n == 0 {
            return InlineRun { parts: Vec::new() };
        }
        if n == 1 {
            let part = match &inputs[0] {
                RunInput::Text { payload, source } => RunPart::Text(
                    escape_singleton(cow_str(payload), *source, scope),
                ),
                RunInput::SoftBreak => RunPart::SoftBreak,
                RunInput::HardBreak => hard_break_part(scope),
            };
            let mut parts: Vec<RunPart> = Vec::new();
            parts.push(part);
            return InlineRun { parts };
        }
        let mut buf = String::new();
        let mut forced: Vec<bool> = Vec::new();
        let mut tags: Vec<Option<BreakKind>> = Vec::new();
        let mut k: usize = 0;
        proof {
            assert(inputs@.take(0) =~= Seq::<RunInput>::empty());
            assert(utf8_of(buf@) =~= Seq::<u8>::empty());
        }
        while k < n
            invariant
                n == inputs@.len(),
                k <= n,
                utf8_of(buf@) == joined(inputs@.take(k as int)),
                forced@ == joined_forced(inputs@.take(k as int)),
                tags@ == joined_tags(inputs@.take(k as int)),
            decreases n - k,
        {
            proof {
                assert(inputs@.take(k + 1).drop_last() =~= inputs@.take(k as int));
                assert(inputs@.take(k + 1).last() == inputs@[k as int]);
            }
            match &inputs[k] {
                RunInput::Text { payload, source } => {
                    let text = cow_str(payload);
                    let chunk = forced_for(text, *source);
                    push_break_tags(&mut tags, text);
                    proof {
                        lemma_utf8_of_concat(buf@, text@);
                    }
                    buf.push_str(text);
                    let mut chunk = chunk;
                    forced.append(&mut chunk);
                    proof {
                        assert(utf8_of(buf@) == joined(inputs@.take(k as int)) + utf8_of(text@));
                        assert(joined(inputs@.take(k + 1)) == joined(inputs@.take(k as int)) + utf8_of(text@));
                    }
                },
                RunInput::SoftBreak => {
                    tags.push(Some(BreakKind::Soft));
                    proof {
                        lemma_utf8_of_concat(buf@, seq!['\n']);
                        lemma_utf8_of_ascii_byte(0x0A);
                        assert(seq![0x0Au8 as char] == seq!['\n']);
                    }
                    let ghost b0 = buf@;
                    buf.push('\n');
                    forced.push(false);
                    proof {
                        assert(buf@ =~= b0 + seq!['\n']);
                    }
                },
                RunInput::HardBreak => {
                    tags.push(Some(BreakKind::Hard));
                    proof {
                        lemma_utf8_of_concat(buf@, seq!['\n']);
                        lemma_utf8_of_ascii_byte(0x0A);
                        assert(seq![0x0Au8 as char] == seq!['\n']);
                    }
                    let ghost b0 = buf@;
                    buf.push('\n');
                    forced.push(false);
                    proof {
                        assert(buf@ =~= b0 + seq!['\n']);
                    }
                },
            }
            k = k + 1;
        }
        proof {
            assert(inputs@.take(n as int) =~= inputs@);
        }
        let escaped = escape_buffer(buf.as_str(), forced.as_slice(), scope);
        let e = escaped.as_str().as_bytes();
        let ghost ev = e@;
        let ghost heading = scope.in_heading;
        proof {
            crate::text::lemma_utf8_of_valid(escaped@);
            if valid_utf8(insert_backslashes(utf8_of(buf@), escape_flags(utf8_of(buf@), forced@, scope))) {
            } else {
                assert(ev =~= Seq::<u8>::empty());
            }
            assert(ev == escaped_run(joined(inputs@), joined_forced(inputs@), scope));
        }
        let mut parts: Vec<RunPart> = Vec::new();
        let mut i: usize = 0;
        let mut t: usize = 0;
        let mut start: usize = 0;
        while i < e.len()
            invariant
                ev == e@,
                ev == utf8_of(escaped@),
                valid_utf8(ev),
                start <= i <= ev.len(),
                t <= i,
                start == 0 || ev[start - 1] == 0x0A,
                heading == scope.in_heading,
                parts@.map_values(|p: RunPart| part_view(p)) + split_run(ev, tags@, i as int, t as int, start as int, heading)
                    == split_run(ev, tags@, 0, 0, 0, heading),
            decreases ev.len() - i,
        {
            if e[i] == 0x0A {
                let tag = if t < tags.len() {
                    tags[t]
                } else {
                    None
                };
                match tag {
                    Some(kind) => {
                        let ghost before = parts@.map_values(|p: RunPart| part_view(p));
                        proof {
                            if start > 0 {
                                lemma_ascii_boundaries(ev, start - 1);
                            } else {
                                is_char_boundary_start_end_of_seq(ev);
                            }
                            lemma_ascii_boundaries(ev, i as int);
                        }
                        let seg = str_get(escaped.as_str(), start, i).unwrap();
                        if seg.as_bytes().len() > 0 {
                            parts.push(RunPart::Text(seg.to_owned()));
                        }
                        parts.push(break_part(kind, scope));
                        proof {
                            let tv = text_if_nonempty(ev.subrange(start as int, i as int));
                            assert(parts@.map_values(|p: RunPart| part_view(p)) =~= before + tv + seq![
                                break_view(kind, heading),
                            ]);
                            let rest = split_run(ev, tags@, i + 1, t + 1, i + 1, heading);
                            assert(before + (tv + seq![break_view(kind, heading)] + rest) =~= (before + tv
                                + seq![break_view(kind, heading)]) + rest);
                        }
                        start = i + 1;
                    },
                    None => {},
                }
                t = t + 1;
            }
            i = i + 1;
        }
        proof {
            if start > 0 {
                lemma_ascii_boundaries(ev, start - 1);
            } else {
                is_char_boundary_start_end_of_seq(ev);
            }
            is_char_boundary_start_end_of_seq(ev);
        }
        let ghost before = parts@.map_values(|p: RunPart| part_view(p));
        let seg = str_get(escaped.as_str(), start, e.len()).unwrap();
        if seg.as_bytes().len() > 0 {
            parts.push(RunPart::Text(seg.to_owned()));
        }
        proof {
            let tv = text_if_nonempty(ev.subrange(start as int, ev.len() as int));
            assert(parts@.map_values(|p: RunPart| part_view(p)) =~= before + tv);
        }
        InlineRun { parts }
    }

    /// The parts.
    pub fn parts(&self) -> (r: &[RunPart])
        ensures
            r@ == self.parts@,
    {
        self.parts.as_slice()
    }

    /// Whether the run has no parts.
    pub fn is_empty(&self) -> (r: bool)
        ensures
            r == (self.parts@.len() == 0),
    {
        self.parts.len() == 0
    }
}

/// The layout a part emits.
pub open spec fn part_doc<'b>(p: RunPart, d: Doc<'b>) -> bool {
    match p {
        RunPart::Text(s) => d matches Doc::Text(c) && c@ == crate::format::doc::lf_from(s@, 0),
        RunPart::SoftBreak => d is Line,
        RunPart::HardLineBreak => d matches Doc::Concat(v) && v@.len() == 2 && (v@[0] matches Doc::Text(c)
            && c@ == seq!['\\']) && v@[1] is HardLine,
        RunPart::HardBreakTag => d matches Doc::Text(c) && c@ == "<br/>"@,
    }
}

impl InlineRun {
    /// The run as a layout: texts, soft breaks, `\` + hard break in a
    /// paragraph, `<br/>` in a heading.
    pub fn pretty<'b>(&self) -> (d: Doc<'b>)
        ensures
            d matches Doc::Concat(v) && v@.len() == self.parts@.len() && forall|k: int|
                0 <= k < v@.len() ==> part_doc(self.parts@[k], #[trigger] v@[k]),
    {
        let mut out: Vec<Doc<'b>> = Vec::new();
        let mut k: usize = 0;
        while k < self.parts.len()
            invariant
                k <= self.parts@.len(),
                out@.len() == k,
                forall|j: int| 0 <= j < k ==> part_doc(self.parts@[j], #[trigger] out@[j]),
            decreases self.parts@.len() - k,
        {
            let d = match &self.parts[k] {
                RunPart::Text(s) => {
                    let c = s.clone();
                    assert(c@ == s@);
                    let d = text(c);
                    assert(part_doc(self.parts@[k as int], d));
                    d
                },
                RunPart::SoftBreak => Doc::Line,
                RunPart::HardLineBreak => {
                    let mut v: Vec<Doc<'b>> = Vec::new();
                    let bs = "\\";
                    proof {
                        reveal_strlit("\\");
                        assert(bs@ =~= seq!['\\']);
                    }
                    v.push(Doc::Text(Cow::Borrowed(bs)));
                    v.push(Doc::HardLine);
                    assert(v@.len() == 2);
                    assert(v@[0] matches Doc::Text(c) && c@ == seq!['\\']);
                    let d = Doc::Concat(v);
                    assert(part_doc(self.parts@[k as int], d));
                    d
                },
                RunPart::HardBreakTag => {
                    let d = Doc::Text(Cow::Borrowed("<br/>"));
                    assert(part_doc(self.parts@[k as int], d));
                    d
                },
            };
            proof {
                assert(part_doc(self.parts@[k as int], d));
            }
            out.push(d);
            k = k + 1;
        }
        Doc::Concat(out)
    }
}

} // verus!
