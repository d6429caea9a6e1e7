//! Pieces of the paragraph walker: the line-context state that picks an
//! escape set for each text fragment, the ambient strings the emphasis
//! safety check sees around a run, and trimming of edge breaks.

use vstd::prelude::*;
use crate::blocks::line_start::LineContext;
use crate::format::doc::{render, rendered, Doc, RenderOptions};
use crate::format::emit_safety::{wrap_chars, RunKind};
use crate::inline::emphasis::EmphasisDelim;
use crate::inline::run::RunPart;

verus! {

/// Where the walker stands in a paragraph body.
#[derive(Copy, Clone, Debug, PartialEq, Eq, Structural)]
pub struct ParagraphSafetyState {
    /// At the start of the body or just after a hard line: the next
    /// fragment may begin any block.
    pub at_line_start: bool,
    /// Just after a break of either kind.
    pub after_break: bool,
    /// The line that the latest break ended carried text.
    pub prev_line_had_text: bool,
    /// The current line has carried text.
    pub this_line_has_text: bool,
}

impl ParagraphSafetyState {
    pub fn initial() -> (r: Self)
        ensures
            r == (ParagraphSafetyState {
                at_line_start: true,
                after_break: true,
                prev_line_had_text: false,
                this_line_has_text: false,
            }),
    {
        ParagraphSafetyState {
            at_line_start: true,
            after_break: true,
            prev_line_had_text: false,
            this_line_has_text: false,
        }
    }

    /// After emitting content other than a break.
    pub fn note_content(&mut self)
        ensures
            *final(self) == (ParagraphSafetyState {
                at_line_start: false,
                after_break: false,
                prev_line_had_text: old(self).prev_line_had_text,
                this_line_has_text: true,
            }),
    {
        self.at_line_start = false;
        self.after_break = false;
        self.this_line_has_text = true;
    }

    /// After emitting a hard line.
    pub fn note_hard_line(&mut self)
        ensures
            *final(self) == (ParagraphSafetyState {
                at_line_start: true,
                after_break: true,
                prev_line_had_text: old(self).this_line_has_text,
                this_line_has_text: false,
            }),
    {
        self.at_line_start = true;
        self.after_break = true;
        self.prev_line_had_text = self.this_line_has_text;
        self.this_line_has_text = false;
    }

    /// After emitting a soft break.
    pub fn note_soft_break(&mut self)
        ensures
            *final(self) == (ParagraphSafetyState {
                at_line_start: false,
                after_break: true,
                prev_line_had_text: old(self).this_line_has_text,
                this_line_has_text: false,
            }),
    {
        self.at_line_start = false;
        self.after_break = true;
        self.prev_line_had_text = self.this_line_has_text;
        self.this_line_has_text = false;
    }
}

/// What the safety check sees to the left of a run's body: the parent's
/// ambient text, the siblings already rendered, and the run's opening
/// delimiter.
pub fn extend_ambient(parent_ambient: &str, rendered_left: &str, kind: RunKind, delim: EmphasisDelim) -> (r: String)
    ensures
        r@ == parent_ambient@ + rendered_left@ + wrap_chars(kind, delim),
{
    let open = kind.wrap_str(delim);
    let mut out = String::new();
    out.push_str(parent_ambient);
    out.push_str(rendered_left);
    out.push_str(open);
    out
}

/// What the safety check sees to the right of a run's body: the run's
/// closing delimiter, then the parent's right-hand ambient text.
pub fn prepend_close(parent_ambient_right: &str, kind: RunKind, delim: EmphasisDelim) -> (r: String)
    ensures
        r@ == wrap_chars(kind, delim) + parent_ambient_right@,
{
    let close = kind.wrap_str(delim);
    let mut out = String::new();
    out.push_str(close);
    out.push_str(parent_ambient_right);
    out
}

/// The text that precedes a candidate emission: the parent's ambient
/// text and the siblings already rendered.
pub fn concat_ambient(parent_ambient: &str, rendered_left: &str) -> (r: String)
    ensures
        r@ == parent_ambient@ + rendered_left@,
{
    let mut out = String::new();
    out.push_str(parent_ambient);
    out.push_str(rendered_left);
    out
}

/// A part that ends the current line.
pub open spec fn ends_line(p: RunPart) -> bool {
    p is SoftBreak || p is HardLineBreak || p is HardBreakTag
}

/// The line context of the text fragment at `i`: the line ends if a
/// break follows it, continues if text follows it, and otherwise
/// continues exactly when another inline sibling follows the run.
pub fn next_line_context(parts: &[RunPart], i: usize, has_next_sibling: bool) -> (r: LineContext)
    ensures
        r == (if i + 1 < parts@.len() {
            if ends_line(parts@[i + 1]) {
                LineContext::EndOfLine
            } else {
                LineContext::MoreContent
            }
        } else if has_next_sibling {
            LineContext::MoreContent
        } else {
            LineContext::EndOfLine
        }),
{
    let j = i.saturating_add(1);
    if j < parts.len() {
        match &parts[j] {
            RunPart::SoftBreak | RunPart::HardLineBreak | RunPart::HardBreakTag => LineContext::EndOfLine,
            RunPart::Text(_) => LineContext::MoreContent,
        }
    } else if has_next_sibling {
        LineContext::MoreContent
    } else {
        LineContext::EndOfLine
    }
}

/// A soft or hard line break.
pub open spec fn is_break_doc<'a>(d: Doc<'a>) -> bool {
    d is Line || d is HardLine
}

/// The count of leading break docs.
pub open spec fn lead_breaks<'a>(ds: Seq<Doc<'a>>) -> nat
    decreases ds.len(),
{
    if ds.len() > 0 && is_break_doc(ds[0]) {
        1 + lead_breaks(ds.drop_first())
    } else {
        0
    }
}

/// The count of trailing break docs.
pub open spec fn trail_breaks<'a>(ds: Seq<Doc<'a>>) -> nat
    decreases ds.len(),
{
    if ds.len() > 0 && is_break_doc(ds.last()) {
        1 + trail_breaks(ds.drop_last())
    } else {
        0
    }
}

fn is_break_at<'a>(parts: &Vec<Doc<'a>>, i: usize) -> (r: bool)
    requires
        i < parts@.len(),
    ensures
        r == is_break_doc(parts@[i as int]),
{
    match &parts[i] {
        Doc::Line | Doc::HardLine => true,
        _ => false,
    }
}

/// Drops the leading and trailing line breaks of a paragraph body.
pub fn trim_edge_breaks<'a>(parts: &mut Vec<Doc<'a>>)
    ensures
        ({
            let o = old(parts)@;
            let inner = o.subrange(lead_breaks(o) as int, o.len() as int);
            final(parts)@ == inner.subrange(0, inner.len() - trail_breaks(inner))
        }),
{
    let ghost o = parts@;
    let ghost lead = lead_breaks(o);
    proof {
        lemma_lead_breaks_le(o);
        assert(o.subrange(0, o.len() as int) =~= o);
    }
    while parts.len() > 0 && is_break_at(parts, 0)
        invariant
            lead == lead_breaks(o),
            lead <= o.len(),
            parts@.len() <= o.len(),
            parts@ == o.subrange(o.len() - parts@.len(), o.len() as int),
            o.len() - parts@.len() <= lead,
            lead_breaks(o) == (o.len() - parts@.len()) + lead_breaks(parts@),
        decreases parts@.len(),
    {
        let ghost before = parts@;
        parts.remove(0);
        proof {
            assert(parts@ =~= before.drop_first());
        }
    }
    let ghost inner = parts@;
    proof {
        assert(lead_breaks(inner) == 0);
        assert(inner =~= o.subrange(lead as int, o.len() as int));
        lemma_trail_breaks_le(inner);
        assert(inner.subrange(0, inner.len() as int) =~= inner);
    }
    while parts.len() > 0 && is_break_at(parts, parts.len() - 1)
        invariant
            parts@.len() <= inner.len(),
            parts@ == inner.subrange(0, parts@.len() as int),
            trail_breaks(inner) == (inner.len() - parts@.len()) + trail_breaks(parts@),
        decreases parts@.len(),
    {
        let ghost before = parts@;
        parts.pop();
        proof {
            assert(parts@ =~= before.drop_last());
        }
    }
}

proof fn lemma_lead_breaks_le<'a>(ds: Seq<Doc<'a>>)
    ensures
        lead_breaks(ds) <= ds.len(),
    decreases ds.len(),
{
    if ds.len() > 0 && is_break_doc(ds[0]) {
        lemma_lead_breaks_le(ds.drop_first());
    }
}

proof fn lemma_trail_breaks_le<'a>(ds: Seq<Doc<'a>>)
    ensures
        trail_breaks(ds) <= ds.len(),
    decreases ds.len(),
{
    if ds.len() > 0 && is_break_doc(ds.last()) {
        lemma_trail_breaks_le(ds.drop_last());
    }
}

/// The rendered text of `parts[..n]`, each part rendered on its own.
pub open spec fn rendered_parts<'a>(parts: Seq<Doc<'a>>, n: int) -> Seq<char>
    decreases n,
{
    if n <= 0 {
        Seq::empty()
    } else {
        rendered_parts(parts, n - 1) + rendered(parts[n - 1])
    }
}

/// Every part rendered on its own, concatenated: the text to the left of
/// an emphasis site.
pub fn rendered_so_far<'a>(parts: &[Doc<'a>]) -> (r: String)
    ensures
        r@ == rendered_parts(parts@, parts@.len() as int),
{
    let mut out = String::new();
    let mut i: usize = 0;
    while i < parts.len()
        invariant
            i <= parts@.len(),
            out@ == rendered_parts(parts@, i as int),
        decreases parts@.len() - i,
    {
        let s = render(&parts[i], &RenderOptions);
        out.push_str(s.as_str());
        i = i + 1;
    }
    out
}

} // verus!
