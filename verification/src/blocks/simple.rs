//! Block values that carry little or no state: paragraphs, thematic
//! breaks, block quotes, footnote definitions, definition lists and
//! HTML blocks. Their structural emit keeps the source bytes; the
//! values exist for lint rules and the canonicalise pass.

use vstd::prelude::*;
use crate::config::ThematicStyle;
use crate::format::doc::{concat_docs, hard_line, lf_from, text, Doc};
use crate::math::pretty::leaf_text;

verus! {

/// A paragraph; the wrap pass owns its line breaks.
#[derive(Copy, Clone, Debug, PartialEq, Eq, Default, Structural)]
pub struct Paragraph;

impl Paragraph {
    pub fn new() -> (r: Self)
        ensures
            r == Paragraph,
    {
        Paragraph
    }
}

/// A definition list (`Term` then `: definition`).
#[derive(Copy, Clone, Debug, PartialEq, Eq, Default, Structural)]
pub struct DefinitionList;

impl DefinitionList {
    pub fn new() -> (r: Self)
        ensures
            r == DefinitionList,
    {
        DefinitionList
    }
}

/// A block quote: emitted as `> ` before every inner line.
#[derive(Copy, Clone, Debug, PartialEq, Eq, Default, Structural)]
pub struct BlockQuote;

impl BlockQuote {
    pub fn new() -> (r: Self)
        ensures
            r == BlockQuote,
    {
        BlockQuote
    }
}

/// A thematic break and the style the source wrote it in.
#[derive(Copy, Clone, Debug, PartialEq, Eq, Structural)]
pub struct ThematicBreak {
    pub style: ThematicStyle,
}

impl ThematicBreak {
    pub fn new(style: ThematicStyle) -> (r: Self)
        ensures
            r.style == style,
    {
        ThematicBreak { style }
    }

    pub fn style(self) -> (r: ThematicStyle)
        ensures
            r == self.style,
    {
        self.style
    }
}

/// A footnote definition `[^label]: ...`, with the label as written.
#[derive(Clone, Debug, PartialEq, Eq)]
pub struct FootnoteDef {
    pub label: String,
}

impl FootnoteDef {
    pub fn new(label: String) -> (r: Self)
        ensures
            r.label@ == label@,
    {
        FootnoteDef { label }
    }

    pub fn label(&self) -> (r: &str)
        ensures
            r@ == self.label@,
    {
        self.label.as_str()
    }
}

/// `s` without its trailing newlines.
pub open spec fn trim_trailing_lf(s: Seq<char>) -> Seq<char>
    decreases s.len(),
{
    if s.len() > 0 && s.last() == '\n' {
        trim_trailing_lf(s.drop_last())
    } else {
        s
    }
}

/// An HTML block; the body is kept verbatim, container prefixes
/// stripped.
#[derive(Clone, Debug, PartialEq, Eq)]
pub struct HtmlBlock {
    pub body: String,
}

impl HtmlBlock {
    pub fn new(body: String) -> (r: Self)
        ensures
            r.body@ == body@,
    {
        HtmlBlock { body }
    }

    pub fn body(&self) -> (r: &str)
        ensures
            r@ == self.body@,
    {
        self.body.as_str()
    }

    /// The body without its trailing newlines, then exactly one hard
    /// line; an empty body is the hard line alone, so that neighbouring
    /// blocks stay apart.
    pub fn pretty<'b>(&self) -> (d: Doc<'b>)
        ensures
            trim_trailing_lf(self.body@).len() == 0 ==> d is HardLine,
            trim_trailing_lf(self.body@).len() > 0 ==> (d matches Doc::Concat(v) && v@.len() == 2 && leaf_text(v@[0])
                == Some(lf_from(trim_trailing_lf(self.body@), 0)) && v@[1] is HardLine),
    {
        let cs = crate::text::chars_of(self.body.as_str());
        let mut n = cs.len();
        assert(cs@.take(n as int) =~= cs@);
        while n > 0 && cs[n - 1] == '\n'
            invariant
                n <= cs@.len(),
                cs@ == self.body@,
                trim_trailing_lf(self.body@) == trim_trailing_lf(cs@.take(n as int)),
            decreases n,
        {
            proof {
                assert(cs@.take(n as int).drop_last() =~= cs@.take(n - 1));
            }
            n = n - 1;
        }
        if n == 0 {
            assert(cs@.take(0) =~= Seq::<char>::empty());
            return hard_line();
        }
        let mut trimmed = String::new();
        let mut k: usize = 0;
        while k < n
            invariant
                n <= cs@.len(),
                k <= n,
                trimmed@ == cs@.take(k as int),
            decreases n - k,
        {
            trimmed.push(cs[k]);
            proof {
                assert(cs@.take(k + 1) =~= cs@.take(k as int).push(cs@[k as int]));
            }
            k = k + 1;
        }
        proof {
            assert(trim_trailing_lf(cs@.take(n as int)) == cs@.take(n as int));
        }
        let t = text(trimmed);
        let h = hard_line();
        let d = concat_docs([t, h]);
        proof {
            let v = seq![t, h];
            assert(leaf_text(v[0]) == Some(lf_from(trim_trailing_lf(self.body@), 0)));
        }
        d
    }
}

} // verus!
