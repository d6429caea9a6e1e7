//! Rendering a Markdown document to HTML through the parser the formatter
//! uses, after the source's canonicalisation.

use vstd::prelude::*;
use pulldown_cmark::{html, Options, Parser};
use crate::format::doc::lf_only;
use crate::format::endings::normalize_line_endings_lf;
use crate::format::semantic::{fmt_flags, options, ParseFlags};
use crate::text::chars_of;

verus! {

/// Every NUL character replaced by U+FFFD.
pub open spec fn replace_nul(s: Seq<char>) -> Seq<char> {
    s.map_values(|c: char| if c == '\0' { '\u{FFFD}' } else { c })
}

/// The text the parser sees for `source`: line endings made LF (`\r\n`
/// and a lone `\r` become `\n`) and every NUL replaced by U+FFFD.
pub open spec fn canonical_source(source: Seq<char>) -> Seq<char> {
    lf_only(replace_nul(source))
}

/// The HTML that pulldown-cmark's `html::push_html` writes for the events
/// of `Parser::new_ext` over `source` with the extensions `flags` turns on.
pub uninterp spec fn cmark_html(source: Seq<char>, flags: ParseFlags) -> Seq<char>;

/// `source` canonicalised as the parser sees it.
pub fn canonical_text(source: &str) -> (r: String)
    ensures
        r@ == canonical_source(source@),
{
    let cs = chars_of(source);
    let ghost s = cs@;
    let mut out = String::new();
    let mut i: usize = 0;
    while i < cs.len()
        invariant
            i <= cs@.len(),
            s == cs@,
            s == source@,
            out@ == replace_nul(s.take(i as int)),
        decreases cs@.len() - i,
    {
        let c = cs[i];
        out.push(if c == '\0' { '\u{FFFD}' } else { c });
        proof {
            assert(replace_nul(s.take(i + 1)) =~= replace_nul(s.take(i as int)).push(
                if c == '\0' { '\u{FFFD}' } else { c },
            ));
        }
        i = i + 1;
    }
    assert(s.take(s.len() as int) =~= s);
    normalize_line_endings_lf(&mut out);
    out
}

/// Runs `pulldown_cmark::Parser::new_ext` over `source` with the
/// extensions `flags` turns on and writes the events out as HTML with
/// `pulldown_cmark::html::push_html`. Trusted: the result is the named
/// rendering `cmark_html`, a function of the source and the flags alone.
#[verifier::external_body]
fn push_html_of(source: &str, flags: ParseFlags) -> (r: String)
    ensures
        r@ == cmark_html(source@, flags),
{
    let mut o = Options::empty();
    o.set(Options::ENABLE_STRIKETHROUGH, flags.strikethrough);
    o.set(Options::ENABLE_FOOTNOTES, flags.footnotes);
    o.set(Options::ENABLE_TABLES, flags.tables);
    o.set(Options::ENABLE_TASKLISTS, flags.tasklists);
    let mut out = String::new();
    html::push_html(&mut out, Parser::new_ext(source, o));
    out
}

/// Renders Markdown to HTML with the parser options the formatter uses,
/// after canonicalising the source (`\r\n` and `\r` to `\n`, NUL to
/// U+FFFD) as the formatter's own parse does.
pub fn render_html(source: &str) -> (r: String)
    ensures
        r@ == cmark_html(canonical_source(source@), fmt_flags()),
{
    let canonical = canonical_text(source);
    push_html_of(canonical.as_str(), options())
}

} // verus!
