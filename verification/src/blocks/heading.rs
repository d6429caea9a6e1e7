//! ATX and setext headings.
//!
//! [`HeadingLevel`] only holds 1 through 6; [`Heading::try_new`] also
//! refuses a setext heading above level 2, since setext underlines
//! exist only for `===` (level 1) and `---` (level 2).

use std::ops::Range;
use vstd::prelude::*;
use vstd::utf8::*;
use crate::text::{lemma_ascii_boundaries, str_get, utf8_of};

verus! {

// ----------------------------------------------------------------------
// Setext source shape
// ----------------------------------------------------------------------

/// Space, tab, line feed or carriage return.
pub open spec fn insignificant(c: u8) -> bool {
    c == 0x20 || c == 0x09 || c == 0x0A || c == 0x0D
}

/// The first byte of `b` that is not a space, tab or line break.
#[verifier::opaque]
pub open spec fn first_significant(b: Seq<u8>) -> Option<u8> {
    if exists|k: int| 0 <= k < b.len() && !insignificant(#[trigger] b[k]) {
        let k = choose|k: int| 0 <= k < b.len() && !insignificant(#[trigger] b[k]) && forall|m: int|
            0 <= m < k ==> insignificant(#[trigger] b[m]);
        Some(b[k])
    } else {
        None
    }
}

/// First byte of `s` after skipping spaces, tabs and line breaks;
/// `None` when `s` is whitespace only.
pub fn first_significant_byte(s: &str) -> (r: Option<u8>)
    ensures
        r == first_significant(utf8_of(s@)),
{
    reveal(first_significant);
    let b = s.as_bytes();
    let mut k: usize = 0;
    while k < b.len()
        invariant
            b@ == utf8_of(s@),
            k <= b@.len(),
            forall|m: int| 0 <= m < k ==> insignificant(#[trigger] b@[m]),
        decreases b@.len() - k,
    {
        let c = b[k];
        if !(c == 0x20 || c == 0x09 || c == 0x0A || c == 0x0D) {
            proof {
                reveal(first_significant);
                let w = choose|w: int| 0 <= w < b@.len() && !insignificant(#[trigger] b@[w]) && forall|m: int|
                    0 <= m < w ==> insignificant(#[trigger] b@[m]);
                assert(w == k) by {
                    if w < k {
                        assert(insignificant(b@[w]));
                    } else if w > k {
                        assert(insignificant(b@[k as int]));
                    }
                }
            }
            return Some(c);
        }
        k = k + 1;
    }
    proof {
        reveal(first_significant);
    }
    None
}

/// Length of `b` without its trailing line feeds.
pub open spec fn trimmed_len(b: Seq<u8>) -> int
    decreases b.len(),
{
    if b.len() > 0 && b.last() == 0x0A {
        trimmed_len(b.drop_last())
    } else {
        b.len() as int
    }
}

/// Position of the last line feed before `e`, if any.
pub open spec fn last_nl_before(b: Seq<u8>, e: int) -> Option<int>
    decreases e,
{
    if e <= 0 || e > b.len() {
        None
    } else if b[e - 1] == 0x0A {
        Some(e - 1)
    } else {
        last_nl_before(b, e - 1)
    }
}

/// The body and underline of a setext heading's source: trailing line
/// feeds dropped, then split at the last remaining line feed.
pub open spec fn setext_parts(b: Seq<u8>) -> Option<(Seq<u8>, Seq<u8>)> {
    let e = trimmed_len(b);
    match last_nl_before(b, e) {
        Some(p) => Some((b.subrange(0, p), b.subrange(p + 1, e))),
        None => None,
    }
}

proof fn lemma_trimmed_len_bounds(b: Seq<u8>)
    ensures
        0 <= trimmed_len(b) <= b.len(),
        forall|k: int| trimmed_len(b) <= k < b.len() ==> b[k] == 0x0A,
    decreases b.len(),
{
    if b.len() > 0 && b.last() == 0x0A {
        lemma_trimmed_len_bounds(b.drop_last());
        assert forall|k: int| trimmed_len(b) <= k < b.len() implies b[k] == 0x0A by {
            if k < b.len() - 1 {
                assert(b.drop_last()[k] == b[k]);
            }
        }
    }
}

proof fn lemma_last_nl(b: Seq<u8>, e: int)
    requires
        0 <= e <= b.len(),
    ensures
        last_nl_before(b, e) matches Some(p) ==> 0 <= p < e && b[p] == 0x0A,
    decreases e,
{
    if e > 0 && b[e - 1] != 0x0A {
        lemma_last_nl(b, e - 1);
    }
}

/// Splits a setext heading's source into body and underline.
pub fn split_setext_source(raw: &str) -> (r: Option<(&str, &str)>)
    ensures
        match r {
            Some((body, under)) => setext_parts(utf8_of(raw@)) == Some((utf8_of(body@), utf8_of(under@))),
            None => setext_parts(utf8_of(raw@)) is None,
        },
{
    let b = raw.as_bytes();
    let mut e = b.len();
    proof {
        assert(b@.subrange(0, e as int) =~= b@);
    }
    while e > 0 && b[e - 1] == 0x0A
        invariant
            b@ == utf8_of(raw@),
            e <= b@.len(),
            trimmed_len(b@) == trimmed_len(b@.subrange(0, e as int)),
        decreases e,
    {
        proof {
            assert(b@.subrange(0, e as int).drop_last() =~= b@.subrange(0, e - 1));
        }
        e = e - 1;
    }
    proof {
        assert(trimmed_len(b@.subrange(0, e as int)) == e);
    }
    let mut p = e;
    while p > 0 && b[p - 1] != 0x0A
        invariant
            b@ == utf8_of(raw@),
            p <= e <= b@.len(),
            last_nl_before(b@, e as int) == last_nl_before(b@, p as int),
        decreases p,
    {
        p = p - 1;
    }
    if p == 0 {
        return None;
    }
    let nl = p - 1;
    proof {
        encode_utf8_valid_utf8(raw@);
        lemma_ascii_boundaries(b@, nl as int);
        if e < b.len() {
            lemma_trimmed_len_bounds(b@);
            lemma_ascii_boundaries(b@, e as int);
        } else {
            is_char_boundary_start_end_of_seq(b@);
        }
        is_char_boundary_start_end_of_seq(b@);
    }
    let body = str_get(raw, 0, nl);
    let under = str_get(raw, nl + 1, e);
    match (body, under) {
        (Some(x), Some(y)) => Some((x, y)),
        _ => None,
    }
}

/// A CM block leader that would re-parse a single-line body as a
/// different block.
pub open spec fn block_leader(c: u8) -> bool {
    c == 0x23 || c == 0x3E || c == 0x2D || c == 0x2B || c == 0x2A || c == 0x3D || c == 0x7E || c
        == 0x60 || c == 0x3C || c == 0x09 || (0x30 <= c <= 0x39)
}

/// Setext is safe for a body with a significant byte that is either
/// multi-line or does not start with a block leader.
pub open spec fn setext_safe(b: Seq<u8>) -> bool {
    match first_significant(b) {
        None => false,
        Some(c) => b.contains(0x0Au8) || !block_leader(c),
    }
}

/// Whether a setext heading with body `body_source` re-parses as itself.
pub fn setext_body_safe(body_source: &str) -> (r: bool)
    ensures
        r == setext_safe(utf8_of(body_source@)),
{
    let first = match first_significant_byte(body_source) {
        Some(c) => c,
        None => return false,
    };
    let b = body_source.as_bytes();
    let mut k: usize = 0;
    while k < b.len()
        invariant
            b@ == utf8_of(body_source@),
            k <= b@.len(),
            first_significant(b@) == Some(first),
            forall|m: int| 0 <= m < k ==> b@[m] != 0x0A,
        decreases b@.len() - k,
    {
        if b[k] == 0x0A {
            proof {
                assert(b@[k as int] == 0x0Au8);
                assert(b@.contains(0x0Au8));
                assert(setext_safe(b@));
            }
            return true;
        }
        k = k + 1;
    }
    !(first == 0x23 || first == 0x3E || first == 0x2D || first == 0x2B || first == 0x2A || first
        == 0x3D || first == 0x7E || first == 0x60 || first == 0x3C || first == 0x09 || (0x30 <= first
        && first <= 0x39))
}

// ----------------------------------------------------------------------
// Attribute trailers
// ----------------------------------------------------------------------

/// `{ #id .class key=val }` trailer data.
#[derive(Clone, Debug, PartialEq, Eq)]
pub struct HeadingAttrs {
    /// The first `#id`.
    pub id: Option<String>,
    /// `.class` tokens in source order.
    pub classes: Vec<String>,
    /// `key=value` pairs in source order; `None` for a bare key.
    pub attrs: Vec<(String, Option<String>)>,
    /// The verbatim `{...}` trailer from the source.
    pub source_trailer: String,
}

/// `char::is_ascii_whitespace` or a double quote.
pub open spec fn quote_trigger(c: char) -> bool {
    c == ' ' || c == '\t' || c == '\n' || c == '\r' || c == '\x0C' || c == '"'
}

pub open spec fn needs_quotes(v: Seq<char>) -> bool {
    exists|k: int| 0 <= k < v.len() && quote_trigger(#[trigger] v[k])
}

/// Each `"` written as `\"`.
pub open spec fn escape_quotes(v: Seq<char>) -> Seq<char>
    decreases v.len(),
{
    if v.len() == 0 {
        Seq::empty()
    } else {
        escape_quotes(v.drop_last()) + (if v.last() == '"' {
            seq!['\\', '"']
        } else {
            seq![v.last()]
        })
    }
}

/// The canonical token of a `key=value` pair.
pub open spec fn attr_token(k: Seq<char>, v: Option<Seq<char>>) -> Seq<char> {
    match v {
        None => k,
        Some(v) => if needs_quotes(v) {
            k + seq!['=', '"'] + escape_quotes(v) + seq!['"']
        } else {
            k + seq!['='] + v
        },
    }
}

/// Tokens joined by single spaces.
pub open spec fn join_sp(ts: Seq<Seq<char>>) -> Seq<char>
    decreases ts.len(),
{
    if ts.len() == 0 {
        Seq::empty()
    } else if ts.len() == 1 {
        ts[0]
    } else {
        join_sp(ts.drop_last()) + seq![' '] + ts.last()
    }
}

/// The canonical tokens: `#id`, then `.class` in order, then the pairs.
pub open spec fn trailer_tokens(a: HeadingAttrs) -> Seq<Seq<char>> {
    (match a.id {
        Some(id) => seq![seq!['#'] + id@],
        None => Seq::empty(),
    }) + a.classes@.map_values(|c: String| seq!['.'] + c@) + a.attrs@.map_values(
        |p: (String, Option<String>)|
            attr_token(
                p.0@,
                match p.1 {
                    Some(v) => Some(v@),
                    None => None,
                },
            ),
    )
}

fn push_all(out: &mut String, s: &str)
    ensures
        final(out)@ == old(out)@ + s@,
{
    out.push_str(s);
}

/// Appends `v` with each `"` escaped.
fn push_escaped_quotes(out: &mut String, v: &str)
    ensures
        final(out)@ == old(out)@ + escape_quotes(v@),
{
    let cs = crate::text::chars_of(v);
    let ghost start = out@;
    let mut k: usize = 0;
    proof {
        assert(cs@.take(0) =~= Seq::<char>::empty());
        assert(escape_quotes(Seq::<char>::empty()) =~= Seq::<char>::empty());
        assert(start + Seq::<char>::empty() =~= start);
    }
    while k < cs.len()
        invariant
            k <= cs@.len(),
            cs@ == v@,
            out@ == start + escape_quotes(cs@.take(k as int)),
        decreases cs@.len() - k,
    {
        let c = cs[k];
        proof {
            assert(cs@.take(k + 1).drop_last() =~= cs@.take(k as int));
            assert(cs@.take(k + 1).last() == c);
        }
        if c == '"' {
            out.push('\\');
            out.push('"');
            proof {
                assert(out@ =~= start + escape_quotes(cs@.take(k + 1)));
            }
        } else {
            out.push(c);
            proof {
                assert(out@ =~= start + escape_quotes(cs@.take(k + 1)));
            }
        }
        k = k + 1;
    }
    proof {
        assert(cs@.take(cs@.len() as int) =~= cs@);
    }
}

fn has_quote_trigger(v: &str) -> (r: bool)
    ensures
        r == needs_quotes(v@),
{
    let cs = crate::text::chars_of(v);
    let mut k: usize = 0;
    while k < cs.len()
        invariant
            k <= cs@.len(),
            cs@ == v@,
            forall|m: int| 0 <= m < k ==> !quote_trigger(#[trigger] cs@[m]),
        decreases cs@.len() - k,
    {
        let c = cs[k];
        if c == ' ' || c == '\t' || c == '\n' || c == '\r' || c == '\x0C' || c == '"' {
            proof {
                assert(quote_trigger(cs@[k as int]));
            }
            return true;
        }
        k = k + 1;
    }
    false
}

/// Joins `tokens` with single spaces.
fn join_tokens(out: &mut String, tokens: &Vec<String>)
    ensures
        final(out)@ == old(out)@ + join_sp(tokens@.map_values(|t: String| t@)),
{
    let ghost start = out@;
    let ghost all = tokens@.map_values(|t: String| t@);
    let mut k: usize = 0;
    proof {
        assert(all.take(0) =~= Seq::<Seq<char>>::empty());
        assert(start + Seq::<char>::empty() =~= start);
    }
    while k < tokens.len()
        invariant
            k <= tokens@.len(),
            all == tokens@.map_values(|t: String| t@),
            out@ == start + join_sp(all.take(k as int)),
        decreases tokens@.len() - k,
    {
        proof {
            assert(all.take(k + 1).drop_last() =~= all.take(k as int));
            assert(all.take(k + 1).last() == tokens@[k as int]@);
        }
        if k > 0 {
            out.push(' ');
        }
        out.push_str(tokens[k].as_str());
        proof {
            if k == 0 {
                assert(all.take(1).len() == 1);
                assert(out@ =~= start + join_sp(all.take(1)));
            } else {
                assert(out@ =~= start + join_sp(all.take(k + 1)));
            }
        }
        k = k + 1;
    }
    proof {
        assert(all.take(tokens@.len() as int) =~= all);
    }
}

impl HeadingAttrs {
    /// The trailer in canonical order: `#id`, classes, then pairs;
    /// values with whitespace or quotes are double-quoted with `\"`.
    pub fn canonical_trailer(&self) -> (r: String)
        ensures
            r@ == seq!['{'] + join_sp(trailer_tokens(*self)) + seq!['}'],
    {
        let mut tokens: Vec<String> = Vec::new();
        match &self.id {
            Some(id) => {
                let mut t = String::new();
                t.push('#');
                push_all(&mut t, id.as_str());
                tokens.push(t);
            },
            None => {},
        }
        let ghost n0 = tokens@.len();
        let mut k: usize = 0;
        while k < self.classes.len()
            invariant
                k <= self.classes@.len(),
                tokens@.len() == n0 + k,
                n0 <= 1,
                forall|m: int| 0 <= m < n0 ==> (#[trigger] tokens@[m])@ == seq!['#'] + self.id->0@,
                n0 == (if self.id is Some { 1int } else { 0 }),
                forall|m: int| 0 <= m < k ==> (#[trigger] tokens@[n0 + m])@ == seq!['.'] + self.classes@[m]@,
            decreases self.classes@.len() - k,
        {
            let mut t = String::new();
            t.push('.');
            push_all(&mut t, self.classes[k].as_str());
            tokens.push(t);
            k = k + 1;
        }
        let ghost n1 = tokens@.len();
        let mut j: usize = 0;
        while j < self.attrs.len()
            invariant
                j <= self.attrs@.len(),
                n1 == n0 + self.classes@.len(),
                tokens@.len() == n1 + j,
                n0 == (if self.id is Some { 1int } else { 0 }),
                forall|m: int| 0 <= m < n0 ==> (#[trigger] tokens@[m])@ == seq!['#'] + self.id->0@,
                forall|m: int| 0 <= m < self.classes@.len() ==> (#[trigger] tokens@[n0 + m])@ == seq!['.'] + self.classes@[m]@,
                forall|m: int| 0 <= m < j ==> (#[trigger] tokens@[n1 + m])@ == attr_token(self.attrs@[m].0@, match self.attrs@[m].1 {
                    Some(v) => Some(v@),
                    None => None,
                }),
            decreases self.attrs@.len() - j,
        {
            let pair = &self.attrs[j];
            let mut t = String::new();
            push_all(&mut t, pair.0.as_str());
            match &pair.1 {
                Some(v) => {
                    if has_quote_trigger(v.as_str()) {
                        t.push('=');
                        t.push('"');
                        push_escaped_quotes(&mut t, v.as_str());
                        t.push('"');
                    } else {
                        t.push('=');
                        push_all(&mut t, v.as_str());
                    }
                },
                None => {},
            }
            proof {
                assert(t@ =~= attr_token(pair.0@, match pair.1 {
                    Some(v) => Some(v@),
                    None => None,
                }));
            }
            tokens.push(t);
            j = j + 1;
        }
        proof {
            let ts = trailer_tokens(*self);
            let idp: Seq<Seq<char>> = if self.id is Some {
                seq![seq!['#'] + self.id->0@]
            } else {
                Seq::empty()
            };
            let cp = self.classes@.map_values(|c: String| seq!['.'] + c@);
            let ap = self.attrs@.map_values(
                |p: (String, Option<String>)|
                    attr_token(
                        p.0@,
                        match p.1 {
                            Some(v) => Some(v@),
                            None => None,
                        },
                    ),
            );
            assert(ts == idp + cp + ap);
            let tv = tokens@.map_values(|t: String| t@);
            assert(tv.len() == ts.len());
            assert forall|m: int| 0 <= m < ts.len() implies tv[m] == ts[m] by {
                if m < n0 {
                    assert(tv[m] == tokens@[m]@);
                } else if m < n1 {
                    assert(tokens@[n0 + (m - n0)]@ == seq!['.'] + self.classes@[m - n0]@);
                } else {
                    assert(tokens@[n1 + (m - n1)]@ == ap[m - n1]);
                }
            }
            assert(tv =~= ts);
        }
        let mut out = String::new();
        out.push('{');
        join_tokens(&mut out, &tokens);
        out.push('}');
        out
    }
}

/// Horizontal whitespace or a line break.
pub open spec fn trailing_space(c: u8) -> bool {
    c == 0x20 || c == 0x09 || c == 0x0A || c == 0x0D
}

/// Locates the `{...}` trailer at the end of `raw`: trailing whitespace
/// skipped, then a `}` matched backwards (nesting counted) to its `{`.
/// The range includes both braces.
pub fn find_attr_trailer_range(raw: &str) -> (r: Option<Range<usize>>)
    ensures
        r matches Some(rg) ==> rg.start < rg.end <= utf8_of(raw@).len() && utf8_of(raw@)[rg.start as int] == 0x7B
            && utf8_of(raw@)[rg.end - 1] == 0x7D && forall|k: int| rg.end <= k < utf8_of(raw@).len() ==> trailing_space(
            #[trigger] utf8_of(raw@)[k]),
        r is None ==> (forall|k: int| 0 <= k < utf8_of(raw@).len() ==> trailing_space(#[trigger] utf8_of(raw@)[k]))
            || exists|k: int| 0 <= k < utf8_of(raw@).len() && !trailing_space(#[trigger] utf8_of(raw@)[k])
            && forall|m: int| k < m < utf8_of(raw@).len() ==> trailing_space(#[trigger] utf8_of(raw@)[m]),
{
    let b = raw.as_bytes();
    let mut end = b.len();
    while end > 0 && (b[end - 1] == 0x20 || b[end - 1] == 0x09 || b[end - 1] == 0x0A || b[end - 1] == 0x0D)
        invariant
            b@ == utf8_of(raw@),
            end <= b@.len(),
            forall|k: int| end <= k < b@.len() ==> trailing_space(#[trigger] b@[k]),
        decreases end,
    {
        end = end - 1;
    }
    if end == 0 {
        return None;
    }
    if b[end - 1] != 0x7D {
        proof {
            assert(!trailing_space(b@[end - 1]));
        }
        return None;
    }
    let close = end - 1;
    let mut depth: usize = 1;
    let mut i = close;
    while i > 0
        invariant
            b@ == utf8_of(raw@),
            i <= close < end <= b@.len(),
            b@[end - 1] == 0x7D,
            forall|k: int| end <= k < b@.len() ==> trailing_space(#[trigger] b@[k]),
            depth >= 1,
            depth <= close - i + 1,
        decreases i,
    {
        i = i - 1;
        if b[i] == 0x7D {
            depth = depth + 1;
        } else if b[i] == 0x7B {
            depth = depth - 1;
            if depth == 0 {
                return Some(Range { start: i, end: end });
            }
        }
    }
    proof {
        assert(!trailing_space(b@[end - 1]));
    }
    None
}

// ----------------------------------------------------------------------
// Levels and headings
// ----------------------------------------------------------------------

#[derive(Copy, Clone, Debug, PartialEq, Eq)]
pub enum HeadingError {
    InvalidLevel(u8),
    SetextLevelTooHigh { level: u8 },
}

/// A heading level, always in 1 through 6.
#[derive(Copy, Clone, Debug, PartialEq, Eq)]
pub struct HeadingLevel(u8);

impl HeadingLevel {
    /// The level's number.
    pub closed spec fn value(self) -> u8 {
        self.0
    }

    #[verifier::type_invariant]
    spec fn in_range(self) -> bool {
        1 <= self.0 <= 6
    }

    /// `Ok` exactly for 1 through 6.
    pub fn try_new(n: u8) -> (r: Result<Self, HeadingError>)
        ensures
            1 <= n <= 6 ==> (r matches Ok(l) && l.value() == n),
            !(1 <= n <= 6) ==> r == Err::<Self, HeadingError>(HeadingError::InvalidLevel(n)),
    {
        if 1 <= n && n <= 6 {
            Ok(HeadingLevel(n))
        } else {
            Err(HeadingError::InvalidLevel(n))
        }
    }

    pub fn as_u8(self) -> (r: u8)
        ensures
            r == self.value(),
            1 <= r <= 6,
    {
        proof {
            use_type_invariant(&self);
        }
        self.0
    }
}

/// Source form: `# Foo` or `Foo` underlined.
#[derive(Copy, Clone, Debug, PartialEq, Eq, Structural)]
pub enum HeadingStyle {
    Atx,
    Setext,
}

/// A well-formed heading: level 1 through 6, and level at most 2 when
/// setext.
#[derive(Debug, PartialEq, Eq)]
pub struct Heading {
    level: HeadingLevel,
    style: HeadingStyle,
    attrs: Option<HeadingAttrs>,
}

impl Heading {
    #[verifier::type_invariant]
    spec fn well_formed(self) -> bool {
        self.style == HeadingStyle::Setext ==> self.level.value() <= 2
    }

    pub closed spec fn level_spec(self) -> HeadingLevel {
        self.level
    }

    pub closed spec fn style_spec(self) -> HeadingStyle {
        self.style
    }

    pub closed spec fn attrs_spec(self) -> Option<HeadingAttrs> {
        self.attrs
    }

    /// Refuses setext above level 2.
    pub fn try_new(level: HeadingLevel, style: HeadingStyle) -> (r: Result<Self, HeadingError>)
        ensures
            (style == HeadingStyle::Setext && level.value() > 2) ==> r == Err::<Self, HeadingError>(
                HeadingError::SetextLevelTooHigh { level: level.value() },
            ),
            !(style == HeadingStyle::Setext && level.value() > 2) ==> (r matches Ok(h) && h.level_spec()
                == level && h.style_spec() == style && h.attrs_spec() is None),
    {
        let n = level.as_u8();
        match style {
            HeadingStyle::Setext => {
                if n > 2 {
                    return Err(HeadingError::SetextLevelTooHigh { level: n });
                }
            },
            HeadingStyle::Atx => {},
        }
        Ok(Heading { level, style, attrs: None })
    }

    /// Attaches an attribute trailer.
    pub fn with_attrs(self, attrs: Option<HeadingAttrs>) -> (r: Self)
        ensures
            r.level_spec() == self.level_spec(),
            r.style_spec() == self.style_spec(),
            r.attrs_spec() == attrs,
    {
        proof {
            use_type_invariant(&self);
        }
        Heading { level: self.level, style: self.style, attrs }
    }

    /// The level; it is 1 to 6, and 1 or 2 for a setext heading.
    pub fn level(&self) -> (r: HeadingLevel)
        ensures
            r == self.level_spec(),
            1 <= r.value() <= 6,
            self.style_spec() == HeadingStyle::Setext ==> r.value() <= 2,
    {
        proof {
            use_type_invariant(self);
            use_type_invariant(&self.level);
        }
        self.level
    }

    pub fn style(&self) -> (r: HeadingStyle)
        ensures
            r == self.style_spec(),
    {
        self.style
    }
}

} // verus!
