//! Links and images.
//!
//! A run keeps the `CommonMark` form the source used: inline links stay
//! inline, full references stay full, collapsed and shortcut references
//! stay so as long as their rendered text still names the same label;
//! otherwise they are written as full references, so that the output
//! still resolves.

use vstd::prelude::*;
use crate::math::pretty::{is_unicode_whitespace, is_unicode_ws, trim_chars};
use crate::text::chars_of;

verus! {

/// The reference forms of a link.
#[derive(Copy, Clone, Debug, PartialEq, Eq, Structural)]
pub enum LinkSourceKind {
    ReferenceFull,
    ReferenceCollapsed,
    ReferenceShortcut,
}

/// A reference label, as the source wrote it.
#[derive(Clone, Debug)]
pub struct ResolvedRef {
    pub label: String,
}

impl ResolvedRef {
    pub fn label(&self) -> (r: &str)
        ensures
            r@ == self.label@,
    {
        self.label.as_str()
    }
}

/// The form a link was written in.
#[derive(Clone, Debug)]
pub enum LinkSource {
    Inline,
    ReferenceFull(ResolvedRef),
    ReferenceCollapsed(ResolvedRef),
    ReferenceShortcut(ResolvedRef),
}

/// The label of a reference form.
pub open spec fn source_label(s: LinkSource) -> Option<Seq<char>> {
    match s {
        LinkSource::Inline => None,
        LinkSource::ReferenceFull(r) => Some(r.label@),
        LinkSource::ReferenceCollapsed(r) => Some(r.label@),
        LinkSource::ReferenceShortcut(r) => Some(r.label@),
    }
}

impl LinkSource {
    /// The reference form, `None` for an inline link.
    pub fn kind(&self) -> (r: Option<LinkSourceKind>)
        ensures
            r == match *self {
                LinkSource::Inline => None,
                LinkSource::ReferenceFull(_) => Some(LinkSourceKind::ReferenceFull),
                LinkSource::ReferenceCollapsed(_) => Some(LinkSourceKind::ReferenceCollapsed),
                LinkSource::ReferenceShortcut(_) => Some(LinkSourceKind::ReferenceShortcut),
            },
    {
        match self {
            LinkSource::Inline => None,
            LinkSource::ReferenceFull(_) => Some(LinkSourceKind::ReferenceFull),
            LinkSource::ReferenceCollapsed(_) => Some(LinkSourceKind::ReferenceCollapsed),
            LinkSource::ReferenceShortcut(_) => Some(LinkSourceKind::ReferenceShortcut),
        }
    }

    /// The reference, `None` for an inline link.
    pub fn resolved(&self) -> (r: Option<&ResolvedRef>)
        ensures
            match r {
                Some(x) => source_label(*self) == Some(x.label@),
                None => source_label(*self) is None,
            },
    {
        match self {
            LinkSource::Inline => None,
            LinkSource::ReferenceFull(r) => Some(r),
            LinkSource::ReferenceCollapsed(r) => Some(r),
            LinkSource::ReferenceShortcut(r) => Some(r),
        }
    }
}

/// The form to write a link in.
#[derive(Debug)]
pub enum EmitLinkStyle<'a> {
    Inline,
    ReferenceFull { label: &'a str },
    ReferenceCollapsed,
    ReferenceShortcut,
}

/// A link.
#[derive(Clone, Debug)]
pub struct LinkRun {
    pub dest: String,
    pub title: String,
    pub source: LinkSource,
}

/// An image; written like a link.
#[derive(Clone, Debug)]
pub struct ImageRun {
    pub dest: String,
    pub title: String,
    pub source: LinkSource,
}

/// The reference form `kind` with `label`.
pub open spec fn reference_source_matches(s: LinkSource, kind: LinkSourceKind, label: Seq<char>) -> bool {
    match kind {
        LinkSourceKind::ReferenceFull => s matches LinkSource::ReferenceFull(r) && r.label@ == label,
        LinkSourceKind::ReferenceCollapsed => s matches LinkSource::ReferenceCollapsed(r) && r.label@ == label,
        LinkSourceKind::ReferenceShortcut => s matches LinkSource::ReferenceShortcut(r) && r.label@ == label,
    }
}

fn reference_source(kind: LinkSourceKind, label: String) -> (r: LinkSource)
    ensures
        reference_source_matches(r, kind, label@),
{
    let resolved = ResolvedRef { label };
    match kind {
        LinkSourceKind::ReferenceFull => LinkSource::ReferenceFull(resolved),
        LinkSourceKind::ReferenceCollapsed => LinkSource::ReferenceCollapsed(resolved),
        LinkSourceKind::ReferenceShortcut => LinkSource::ReferenceShortcut(resolved),
    }
}

impl LinkRun {
    pub fn from_pulldown_inline(dest: String, title: String) -> (r: Self)
        ensures
            r.dest@ == dest@,
            r.title@ == title@,
            r.source is Inline,
    {
        LinkRun { dest, title, source: LinkSource::Inline }
    }

    /// A reference link with its label as written; whether the label
    /// resolves is checked once the document's definitions are known.
    pub fn from_pulldown_reference(kind: LinkSourceKind, dest: String, title: String, label: String) -> (r: Self)
        ensures
            r.dest@ == dest@,
            r.title@ == title@,
            reference_source_matches(r.source, kind, label@),
    {
        LinkRun { dest, title, source: reference_source(kind, label) }
    }

    pub fn reference_label(&self) -> (r: Option<&str>)
        ensures
            match r {
                Some(l) => source_label(self.source) == Some(l@),
                None => source_label(self.source) is None,
            },
    {
        match self.source.resolved() {
            Some(r) => Some(r.label()),
            None => None,
        }
    }

    pub fn label(&self) -> (r: Option<&str>)
        ensures
            match r {
                Some(l) => source_label(self.source) == Some(l@),
                None => source_label(self.source) is None,
            },
    {
        self.reference_label()
    }

    pub fn dest(&self) -> (r: &str)
        ensures
            r@ == self.dest@,
    {
        self.dest.as_str()
    }

    pub fn title(&self) -> (r: &str)
        ensures
            r@ == self.title@,
    {
        self.title.as_str()
    }

    pub fn source(&self) -> (r: &LinkSource)
        ensures
            *r == self.source,
    {
        &self.source
    }

    /// The form to write this link in, given its rendered text.
    pub fn emit_style<'s>(&'s self, body_text: &str) -> (r: EmitLinkStyle<'s>)
        ensures
            style_ok(r, self.source, body_text@),
    {
        decide_style(&self.source, body_text)
    }
}

impl ImageRun {
    pub fn from_pulldown_inline(dest: String, title: String) -> (r: Self)
        ensures
            r.dest@ == dest@,
            r.title@ == title@,
            r.source is Inline,
    {
        ImageRun { dest, title, source: LinkSource::Inline }
    }

    pub fn from_pulldown_reference(kind: LinkSourceKind, dest: String, title: String, label: String) -> (r: Self)
        ensures
            r.dest@ == dest@,
            r.title@ == title@,
            reference_source_matches(r.source, kind, label@),
    {
        ImageRun { dest, title, source: reference_source(kind, label) }
    }

    pub fn dest(&self) -> (r: &str)
        ensures
            r@ == self.dest@,
    {
        self.dest.as_str()
    }

    pub fn title(&self) -> (r: &str)
        ensures
            r@ == self.title@,
    {
        self.title.as_str()
    }

    pub fn reference_label(&self) -> (r: Option<&str>)
        ensures
            match r {
                Some(l) => source_label(self.source) == Some(l@),
                None => source_label(self.source) is None,
            },
    {
        match self.source.resolved() {
            Some(r) => Some(r.label()),
            None => None,
        }
    }

    /// The form to write this image in, given its rendered text.
    pub fn emit_style<'s>(&'s self, body_text: &str) -> (r: EmitLinkStyle<'s>)
        ensures
            style_ok(r, self.source, body_text@),
    {
        decide_style(&self.source, body_text)
    }
}

/// The style chosen for a source form and rendered text: each form is
/// kept, except that a collapsed or shortcut reference whose text no
/// longer normalises to its label is written in full.
pub open spec fn style_ok<'s>(r: EmitLinkStyle<'s>, source: LinkSource, body: Seq<char>) -> bool {
    match source {
        LinkSource::Inline => r is Inline,
        LinkSource::ReferenceFull(x) => r matches EmitLinkStyle::ReferenceFull { label } && label@ == x.label@,
        LinkSource::ReferenceCollapsed(x) => if normalised_label(body) == normalised_label(x.label@) {
            r is ReferenceCollapsed
        } else {
            r matches EmitLinkStyle::ReferenceFull { label } && label@ == x.label@
        },
        LinkSource::ReferenceShortcut(x) => if normalised_label(body) == normalised_label(x.label@) {
            r is ReferenceShortcut
        } else {
            r matches EmitLinkStyle::ReferenceFull { label } && label@ == x.label@
        },
    }
}

/// Chooses the form to write a link in from its source form and its
/// rendered text.
pub fn decide_style<'s>(source: &'s LinkSource, body_text: &str) -> (r: EmitLinkStyle<'s>)
    ensures
        style_ok(r, *source, body_text@),
{
    match source {
        LinkSource::Inline => EmitLinkStyle::Inline,
        LinkSource::ReferenceFull(r) => EmitLinkStyle::ReferenceFull { label: r.label() },
        LinkSource::ReferenceCollapsed(r) => {
            if labels_match(body_text, r.label()) {
                EmitLinkStyle::ReferenceCollapsed
            } else {
                EmitLinkStyle::ReferenceFull { label: r.label() }
            }
        },
        LinkSource::ReferenceShortcut(r) => {
            if labels_match(body_text, r.label()) {
                EmitLinkStyle::ReferenceShortcut
            } else {
                EmitLinkStyle::ReferenceFull { label: r.label() }
            }
        },
    }
}

/// Whether two labels normalise alike.
pub fn labels_match(a: &str, b: &str) -> (r: bool)
    ensures
        r == (normalised_label(a@) == normalised_label(b@)),
{
    let na = cm_normalise_label(a);
    let nb = cm_normalise_label(b);
    crate::text::str_eq(na.as_str(), nb.as_str())
}

/// What `char::to_lowercase` yields for `c`.
pub uninterp spec fn lowercase_of(c: char) -> Seq<char>;

/// Calls `char::to_lowercase`.
///
/// Trusted: the result is the standard library's Unicode lowercase
/// mapping of `c`, one or more characters; the case tables are not
/// restated here.
#[verifier::external_body]
fn char_lowercase(c: char) -> (r: String)
    ensures
        r@ == lowercase_of(c),
{
    c.to_lowercase().collect::<String>()
}

/// Label normalisation from position `i` of the trimmed label: a run of
/// whitespace becomes one space, every other character is lowercased.
pub open spec fn normalise_from(cs: Seq<char>, i: int, prev_ws: bool) -> Seq<char>
    decreases cs.len() - i,
{
    if i < 0 || i >= cs.len() {
        Seq::empty()
    } else if is_unicode_ws(cs[i]) {
        (if prev_ws {
            Seq::empty()
        } else {
            seq![' ']
        }) + normalise_from(cs, i + 1, true)
    } else {
        lowercase_of(cs[i]) + normalise_from(cs, i + 1, false)
    }
}

/// `CommonMark` label normalisation: surrounding whitespace dropped,
/// inner whitespace runs collapsed to one space, Unicode lowercase.
pub open spec fn normalised_label(s: Seq<char>) -> Seq<char> {
    normalise_from(trim_chars(s), 0, false)
}

/// Normalises a link label as `CommonMark` compares them.
pub fn cm_normalise_label(s: &str) -> (r: String)
    ensures
        r@ == normalised_label(s@),
{
    let mut trimmed = String::new();
    crate::math::pretty::push_trimmed(&mut trimmed, s);
    assert(trimmed@ =~= trim_chars(s@));
    let cs = chars_of(trimmed.as_str());
    let ghost t = cs@;
    let mut out = String::new();
    let mut prev_was_ws = false;
    let mut i: usize = 0;
    while i < cs.len()
        invariant
            t == cs@,
            t == trim_chars(s@),
            i <= t.len(),
            out@ + normalise_from(t, i as int, prev_was_ws) == normalise_from(t, 0, false),
        decreases t.len() - i,
    {
        let ch = cs[i];
        let ghost before = out@;
        if is_unicode_whitespace(ch) {
            if !prev_was_ws {
                out.push(' ');
                prev_was_ws = true;
                assert(before + normalise_from(t, i as int, false) == out@ + normalise_from(t, i + 1, true));
            } else {
                assert(before + normalise_from(t, i as int, true) =~= out@ + normalise_from(t, i + 1, true));
            }
        } else {
            let low = char_lowercase(ch);
            out.push_str(low.as_str());
            let ghost p = prev_was_ws;
            prev_was_ws = false;
            assert(before + normalise_from(t, i as int, p) =~= out@ + normalise_from(t, i + 1, false));
        }
        i = i + 1;
    }
    assert(out@ + normalise_from(t, i as int, prev_was_ws) =~= out@);
    out
}

} // verus!
