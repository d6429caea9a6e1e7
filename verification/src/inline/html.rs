//! Inline HTML spans.
//!
//! The parser has already classified the bytes as inline HTML; the
//! constructor stores them, with one fix-up: a comment that the source
//! put on its own line behind four or more columns of indent keeps that
//! indent, or it would re-parse as an HTML block and split the
//! surrounding paragraph.

use std::borrow::Cow;
use vstd::prelude::*;
use crate::format::canonicalise::is_hspace;
use crate::format::doc::{lf_from, text, unbreakable, Doc};
use crate::math::pretty::leaf_text;
use crate::text::{cow_str, utf8_of};

verus! {

/// The source puts `start` at the end of a line lead of at least four
/// spaces or tabs that follows a newline.
pub open spec fn own_line_indent(b: Seq<u8>, start: int) -> bool {
    0 < start <= b.len() && exists|p: int|
        0 <= p < start && b[p] == 0x0Au8 && start - (p + 1) >= 4 && forall|m: int| p < m < start ==> #[trigger] is_hspace(b[m])
}

/// Whether the span starting at `start` in `source` is alone on its
/// line behind at least four columns of indent.
pub fn comment_indented_on_own_line(source: &str, start: usize) -> (r: bool)
    ensures
        r == own_line_indent(utf8_of(source@), start as int),
{
    let b = source.as_bytes();
    if start == 0 || start > b.len() {
        return false;
    }
    let mut k = start;
    while k > 0 && (b[k - 1] == 0x20u8 || b[k - 1] == 0x09u8)
        invariant
            b@ == utf8_of(source@),
            0 < start <= b@.len(),
            k <= start,
            forall|m: int| k <= m < start ==> #[trigger] is_hspace(b@[m]),
        decreases k,
    {
        k = k - 1;
    }
    if k == 0 || b[k - 1] != 0x0Au8 {
        proof {
            if own_line_indent(b@, start as int) {
                let p = choose|p: int|
                    0 <= p < start && b@[p] == 0x0Au8 && start - (p + 1) >= 4 && forall|m: int| p < m < start ==> #[trigger] is_hspace(b@[m]);
                if p < k - 1 {
                    assert(is_hspace(b@[k - 1]));
                } else if p > k - 1 {
                    assert(is_hspace(b@[p]));
                }
            }
        }
        return false;
    }
    proof {
        if start - k >= 4 {
            let p = k - 1;
            assert(0 <= p < start && b@[p] == 0x0Au8 && start - (p + 1) >= 4 && forall|m: int| p < m < start ==> #[trigger] is_hspace(b@[m]));
        }
        if !(start - k >= 4) && own_line_indent(b@, start as int) {
            let p = choose|p: int|
                0 <= p < start && b@[p] == 0x0Au8 && start - (p + 1) >= 4 && forall|m: int| p < m < start ==> #[trigger] is_hspace(b@[m]);
            if p > k - 1 {
                assert(is_hspace(b@[p]));
            } else if p < k - 1 {
                assert(is_hspace(b@[k - 1]));
            }
        }
    }
    start - k >= 4
}

/// `s` begins with `<!--`.
pub open spec fn is_comment_open(s: Seq<char>) -> bool {
    s.len() >= 4 && s[0] == '<' && s[1] == '!' && s[2] == '-' && s[3] == '-'
}

/// One inline HTML span, ready to emit.
#[derive(Debug)]
pub struct InlineHtmlSpan<'a> {
    pub bytes: Cow<'a, str>,
}

impl<'a> InlineHtmlSpan<'a> {
    /// Stores `raw`, which starts at byte `src_start` of `source`; a
    /// comment alone on an indented line gains four spaces of indent.
    pub fn from_parser(raw: Cow<'a, str>, src_start: usize, source: &str) -> (r: Self)
        ensures
            r.bytes@ == (if is_comment_open(raw@) && own_line_indent(utf8_of(source@), src_start as int) {
                "    "@ + raw@
            } else {
                raw@
            }),
    {
        let cs = crate::text::chars_of(cow_str(&raw));
        let is_comment = cs.len() >= 4 && cs[0] == '<' && cs[1] == '!' && cs[2] == '-' && cs[3] == '-';
        if is_comment && comment_indented_on_own_line(source, src_start) {
            let mut joined = String::new();
            joined.push_str("    ");
            joined.push_str(cow_str(&raw));
            return InlineHtmlSpan { bytes: Cow::Owned(joined) };
        }
        InlineHtmlSpan { bytes: raw }
    }

    pub fn as_str(&self) -> (r: &str)
        ensures
            r@ == self.bytes@,
    {
        cow_str(&self.bytes)
    }

    /// The span as one unbreakable token.
    pub fn pretty<'b>(&self) -> (d: Doc<'b>)
        ensures
            d matches Doc::Atomic(inner) && leaf_text(*inner) == Some(lf_from(self.bytes@, 0)),
    {
        let mut s = String::new();
        s.push_str(cow_str(&self.bytes));
        unbreakable(text(s))
    }
}

} // verus!
