//! Autolinks (`<url>`).

use vstd::prelude::*;
use crate::format::doc::{lf_from, text, unbreakable, Doc};
use crate::math::pretty::leaf_text;

verus! {

/// A `CommonMark` autolink `<url>`; URI and email autolinks are emitted
/// alike, so only the URL is kept.
#[derive(Clone, Debug)]
pub struct AutolinkRun {
    pub url: String,
}

impl AutolinkRun {
    pub fn new(url: String) -> (r: Self)
        ensures
            r.url@ == url@,
    {
        AutolinkRun { url }
    }

    pub fn url(&self) -> (r: &str)
        ensures
            r@ == self.url@,
    {
        self.url.as_str()
    }

    /// `<url>` as one unbreakable token.
    pub fn pretty<'b>(&self) -> (d: Doc<'b>)
        ensures
            d matches Doc::Atomic(inner) && leaf_text(*inner) == Some(lf_from("<"@ + self.url@ + ">"@, 0)),
    {
        let mut s = String::new();
        s.push_str("<");
        s.push_str(self.url.as_str());
        s.push_str(">");
        unbreakable(text(s))
    }
}

} // verus!
