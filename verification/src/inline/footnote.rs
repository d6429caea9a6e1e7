//! Footnote references (`[^label]`).

use vstd::prelude::*;
use crate::format::doc::{lf_from, text, Doc};
use crate::math::pretty::leaf_text;

verus! {

/// A footnote reference `[^label]`, with the label as written.
#[derive(Clone, Debug, PartialEq, Eq)]
pub struct FootnoteReference {
    pub label: String,
}

impl FootnoteReference {
    pub fn new(label: String) -> (r: Self)
        ensures
            r.label@ == label@,
    {
        FootnoteReference { label }
    }

    pub fn label(&self) -> (r: &str)
        ensures
            r@ == self.label@,
    {
        self.label.as_str()
    }

    /// `[^label]` as text.
    pub fn pretty<'b>(&self) -> (d: Doc<'b>)
        ensures
            leaf_text(d) == Some(lf_from("[^"@ + self.label@ + "]"@, 0)),
    {
        let mut s = String::new();
        s.push_str("[^");
        s.push_str(self.label.as_str());
        s.push_str("]");
        text(s)
    }
}

} // verus!
