//! Math delimiters, environment names, recognised regions and their
//! errors.

use std::borrow::Cow;
use std::ops::Range;
use vstd::prelude::*;
use vstd::utf8::*;
use crate::text::{
    lemma_utf8_of_concat, slice_ok, str_eq, str_get, str_slice_or_empty, utf8_of,
};

verus! {

/// One of the four primitive math delimiter families.
#[derive(Copy, Clone, Debug, PartialEq, Eq, Structural)]
pub enum AnyDelim {
    /// `\(` / `\)`
    Paren,
    /// `\[` / `\]`
    Bracket,
    /// `$` / `$`
    Dollar,
    /// `$$` / `$$`
    Dollar2,
}

/// The opening token of a delimiter family, as bytes.
pub open spec fn open_bytes(d: AnyDelim) -> Seq<u8> {
    match d {
        AnyDelim::Paren => seq![0x5Cu8, 0x28u8],
        AnyDelim::Bracket => seq![0x5Cu8, 0x5Bu8],
        AnyDelim::Dollar => seq![0x24u8],
        AnyDelim::Dollar2 => seq![0x24u8, 0x24u8],
    }
}

/// The closing token of a delimiter family, as bytes.
pub open spec fn close_bytes(d: AnyDelim) -> Seq<u8> {
    match d {
        AnyDelim::Paren => seq![0x5Cu8, 0x29u8],
        AnyDelim::Bracket => seq![0x5Cu8, 0x5Du8],
        AnyDelim::Dollar => seq![0x24u8],
        AnyDelim::Dollar2 => seq![0x24u8, 0x24u8],
    }
}

impl AnyDelim {
    /// Display families: `\[..\]` and `$$..$$`.
    pub fn is_display(self) -> (r: bool)
        ensures
            r == (self == AnyDelim::Bracket || self == AnyDelim::Dollar2),
    {
        match self {
            AnyDelim::Bracket | AnyDelim::Dollar2 => true,
            AnyDelim::Paren | AnyDelim::Dollar => false,
        }
    }

    /// The opening token.
    pub fn open(self) -> (r: &'static str)
        ensures
            utf8_of(r@) == open_bytes(self),
    {
        match self {
            AnyDelim::Paren => {
                let s = "\\(";
                proof {
                    reveal_strlit("\\(");
                    lemma_ascii_lit2(s@);
                }
                s
            },
            AnyDelim::Bracket => {
                let s = "\\[";
                proof {
                    reveal_strlit("\\[");
                    lemma_ascii_lit2(s@);
                }
                s
            },
            AnyDelim::Dollar => {
                let s = "$";
                proof {
                    reveal_strlit("$");
                    lemma_ascii_lit1(s@);
                }
                s
            },
            AnyDelim::Dollar2 => {
                let s = "$$";
                proof {
                    reveal_strlit("$$");
                    lemma_ascii_lit2(s@);
                }
                s
            },
        }
    }

    /// The closing token.
    pub fn close(self) -> (r: &'static str)
        ensures
            utf8_of(r@) == close_bytes(self),
    {
        match self {
            AnyDelim::Paren => {
                let s = "\\)";
                proof {
                    reveal_strlit("\\)");
                    lemma_ascii_lit2(s@);
                }
                s
            },
            AnyDelim::Bracket => {
                let s = "\\]";
                proof {
                    reveal_strlit("\\]");
                    lemma_ascii_lit2(s@);
                }
                s
            },
            AnyDelim::Dollar => {
                let s = "$";
                proof {
                    reveal_strlit("$");
                    lemma_ascii_lit1(s@);
                }
                s
            },
            AnyDelim::Dollar2 => {
                let s = "$$";
                proof {
                    reveal_strlit("$$");
                    lemma_ascii_lit2(s@);
                }
                s
            },
        }
    }
}

proof fn lemma_ascii_char(c: char)
    requires
        (c as u32) < 0x80,
    ensures
        utf8_of(seq![c]) == seq![(c as u32) as u8],
{
    let v = c as u32;
    assert(seq![c].drop_first() =~= Seq::<char>::empty());
    assert(utf8_of(Seq::<char>::empty()) =~= Seq::<u8>::empty());
    assert((v & 0x7F) as u8 == v as u8) by (bit_vector)
        requires
            v < 0x80,
    ;
    assert(encode_scalar(v) =~= seq![v as u8]);
    assert(seq![v as u8] + Seq::<u8>::empty() =~= seq![v as u8]);
}

proof fn lemma_ascii_lit1(s: Seq<char>)
    requires
        s.len() == 1,
        (s[0] as u32) < 0x80,
    ensures
        utf8_of(s) == seq![(s[0] as u32) as u8],
{
    assert(s =~= seq![s[0]]);
    lemma_ascii_char(s[0]);
}

proof fn lemma_ascii_lit2(s: Seq<char>)
    requires
        s.len() == 2,
        (s[0] as u32) < 0x80,
        (s[1] as u32) < 0x80,
    ensures
        utf8_of(s) == seq![(s[0] as u32) as u8, (s[1] as u32) as u8],
{
    lemma_ascii_char(s[0]);
    lemma_ascii_char(s[1]);
    assert(s =~= seq![s[0]] + seq![s[1]]);
    lemma_utf8_of_concat(seq![s[0]], seq![s[1]]);
    assert(seq![(s[0] as u32) as u8] + seq![(s[1] as u32) as u8] =~= seq![(s[0] as u32) as u8, (s[1] as u32) as u8]);
}

/// Inline delimiter pair.
#[derive(Copy, Clone, Debug, PartialEq, Eq, Structural)]
pub enum InlineDelim {
    /// `\(` / `\)`
    Paren,
    /// `$` / `$`
    Dollar,
}

impl InlineDelim {
    /// The delimiter family this pair belongs to.
    pub fn family(self) -> (r: AnyDelim)
        ensures
            r == inline_family(self),
    {
        match self {
            InlineDelim::Paren => AnyDelim::Paren,
            InlineDelim::Dollar => AnyDelim::Dollar,
        }
    }

    pub fn open(self) -> (r: &'static str)
        ensures
            utf8_of(r@) == open_bytes(inline_family(self)),
    {
        self.family().open()
    }

    pub fn close(self) -> (r: &'static str)
        ensures
            utf8_of(r@) == close_bytes(inline_family(self)),
    {
        self.family().close()
    }
}

pub open spec fn inline_family(d: InlineDelim) -> AnyDelim {
    match d {
        InlineDelim::Paren => AnyDelim::Paren,
        InlineDelim::Dollar => AnyDelim::Dollar,
    }
}

/// Display delimiter pair.
#[derive(Copy, Clone, Debug, PartialEq, Eq, Structural)]
pub enum DisplayDelim {
    /// `\[` / `\]`
    Bracket,
    /// `$$` / `$$`
    Dollar2,
}

pub open spec fn display_family(d: DisplayDelim) -> AnyDelim {
    match d {
        DisplayDelim::Bracket => AnyDelim::Bracket,
        DisplayDelim::Dollar2 => AnyDelim::Dollar2,
    }
}

impl DisplayDelim {
    /// The delimiter family this pair belongs to.
    pub fn family(self) -> (r: AnyDelim)
        ensures
            r == display_family(self),
    {
        match self {
            DisplayDelim::Bracket => AnyDelim::Bracket,
            DisplayDelim::Dollar2 => AnyDelim::Dollar2,
        }
    }

    pub fn open(self) -> (r: &'static str)
        ensures
            utf8_of(r@) == open_bytes(display_family(self)),
    {
        self.family().open()
    }

    pub fn close(self) -> (r: &'static str)
        ensures
            utf8_of(r@) == close_bytes(display_family(self)),
    {
        self.family().close()
    }
}

// ----------------------------------------------------------------------
// Environments
// ----------------------------------------------------------------------

/// The standard `amsmath` environments the pretty-printer understands.
#[derive(Copy, Clone, Debug, PartialEq, Eq, Structural)]
pub enum KnownEnv {
    Align,
    AlignStar,
    Aligned,
    Equation,
    EquationStar,
    Gather,
    GatherStar,
    Matrix,
    Pmatrix,
    Bmatrix,
    Vmatrix,
    Smallmatrix,
    Cases,
    Array,
    Split,
    Multline,
    MultlineStar,
}

/// The name of a known environment as written between `\begin{..}`.
pub open spec fn env_name(k: KnownEnv) -> Seq<char> {
    match k {
        KnownEnv::Align => "align"@,
        KnownEnv::AlignStar => "align*"@,
        KnownEnv::Aligned => "aligned"@,
        KnownEnv::Equation => "equation"@,
        KnownEnv::EquationStar => "equation*"@,
        KnownEnv::Gather => "gather"@,
        KnownEnv::GatherStar => "gather*"@,
        KnownEnv::Matrix => "matrix"@,
        KnownEnv::Pmatrix => "pmatrix"@,
        KnownEnv::Bmatrix => "bmatrix"@,
        KnownEnv::Vmatrix => "vmatrix"@,
        KnownEnv::Smallmatrix => "smallmatrix"@,
        KnownEnv::Cases => "cases"@,
        KnownEnv::Array => "array"@,
        KnownEnv::Split => "split"@,
        KnownEnv::Multline => "multline"@,
        KnownEnv::MultlineStar => "multline*"@,
    }
}

/// The known environment a name denotes, if any.
pub open spec fn env_of_name(n: Seq<char>) -> Option<KnownEnv> {
    if n == "align"@ {
        Some(KnownEnv::Align)
    } else if n == "align*"@ {
        Some(KnownEnv::AlignStar)
    } else if n == "aligned"@ {
        Some(KnownEnv::Aligned)
    } else if n == "equation"@ {
        Some(KnownEnv::Equation)
    } else if n == "equation*"@ {
        Some(KnownEnv::EquationStar)
    } else if n == "gather"@ {
        Some(KnownEnv::Gather)
    } else if n == "gather*"@ {
        Some(KnownEnv::GatherStar)
    } else if n == "matrix"@ {
        Some(KnownEnv::Matrix)
    } else if n == "pmatrix"@ {
        Some(KnownEnv::Pmatrix)
    } else if n == "bmatrix"@ {
        Some(KnownEnv::Bmatrix)
    } else if n == "vmatrix"@ {
        Some(KnownEnv::Vmatrix)
    } else if n == "smallmatrix"@ {
        Some(KnownEnv::Smallmatrix)
    } else if n == "cases"@ {
        Some(KnownEnv::Cases)
    } else if n == "array"@ {
        Some(KnownEnv::Array)
    } else if n == "split"@ {
        Some(KnownEnv::Split)
    } else if n == "multline"@ {
        Some(KnownEnv::Multline)
    } else if n == "multline*"@ {
        Some(KnownEnv::MultlineStar)
    } else {
        None
    }
}

/// Environments whose rows use `&` column separators.
pub open spec fn env_aligning(k: KnownEnv) -> bool {
    !(k == KnownEnv::Equation || k == KnownEnv::EquationStar || k == KnownEnv::Gather || k
        == KnownEnv::GatherStar || k == KnownEnv::Multline || k == KnownEnv::MultlineStar)
}

impl KnownEnv {
    /// Resolves an environment name; `None` outside the standard set.
    pub fn from_name(name: &str) -> (r: Option<KnownEnv>)
        ensures
            r == env_of_name(name@),
    {
        if str_eq(name, "align") {
            Some(KnownEnv::Align)
        } else if str_eq(name, "align*") {
            Some(KnownEnv::AlignStar)
        } else if str_eq(name, "aligned") {
            Some(KnownEnv::Aligned)
        } else if str_eq(name, "equation") {
            Some(KnownEnv::Equation)
        } else if str_eq(name, "equation*") {
            Some(KnownEnv::EquationStar)
        } else if str_eq(name, "gather") {
            Some(KnownEnv::Gather)
        } else if str_eq(name, "gather*") {
            Some(KnownEnv::GatherStar)
        } else if str_eq(name, "matrix") {
            Some(KnownEnv::Matrix)
        } else if str_eq(name, "pmatrix") {
            Some(KnownEnv::Pmatrix)
        } else if str_eq(name, "bmatrix") {
            Some(KnownEnv::Bmatrix)
        } else if str_eq(name, "vmatrix") {
            Some(KnownEnv::Vmatrix)
        } else if str_eq(name, "smallmatrix") {
            Some(KnownEnv::Smallmatrix)
        } else if str_eq(name, "cases") {
            Some(KnownEnv::Cases)
        } else if str_eq(name, "array") {
            Some(KnownEnv::Array)
        } else if str_eq(name, "split") {
            Some(KnownEnv::Split)
        } else if str_eq(name, "multline") {
            Some(KnownEnv::Multline)
        } else if str_eq(name, "multline*") {
            Some(KnownEnv::MultlineStar)
        } else {
            None
        }
    }

    /// The canonical name.
    pub fn name(self) -> (r: &'static str)
        ensures
            r@ == env_name(self),
    {
        match self {
            KnownEnv::Align => "align",
            KnownEnv::AlignStar => "align*",
            KnownEnv::Aligned => "aligned",
            KnownEnv::Equation => "equation",
            KnownEnv::EquationStar => "equation*",
            KnownEnv::Gather => "gather",
            KnownEnv::GatherStar => "gather*",
            KnownEnv::Matrix => "matrix",
            KnownEnv::Pmatrix => "pmatrix",
            KnownEnv::Bmatrix => "bmatrix",
            KnownEnv::Vmatrix => "vmatrix",
            KnownEnv::Smallmatrix => "smallmatrix",
            KnownEnv::Cases => "cases",
            KnownEnv::Array => "array",
            KnownEnv::Split => "split",
            KnownEnv::Multline => "multline",
            KnownEnv::MultlineStar => "multline*",
        }
    }

    /// Whether rows are organised in `&`-separated columns.
    pub fn is_aligning(self) -> (r: bool)
        ensures
            r == env_aligning(self),
    {
        match self {
            KnownEnv::Equation | KnownEnv::EquationStar | KnownEnv::Gather | KnownEnv::GatherStar
            | KnownEnv::Multline | KnownEnv::MultlineStar => false,
            _ => true,
        }
    }
}

/// Every known environment's name resolves back to it.
pub proof fn law_env_name_round_trips(k: KnownEnv)
    ensures
        env_of_name(env_name(k)) == Some(k),
{
    reveal_strlit("align");
    reveal_strlit("align*");
    reveal_strlit("aligned");
    reveal_strlit("equation");
    reveal_strlit("equation*");
    reveal_strlit("gather");
    reveal_strlit("gather*");
    reveal_strlit("matrix");
    reveal_strlit("pmatrix");
    reveal_strlit("bmatrix");
    reveal_strlit("vmatrix");
    reveal_strlit("smallmatrix");
    reveal_strlit("cases");
    reveal_strlit("array");
    reveal_strlit("split");
    reveal_strlit("multline");
    reveal_strlit("multline*");
    // Names of one length differ in their first character, but for
    // `align` and `array`, which differ in their second.
    assert("align"@.len() == 5 && "align"@[0] == 'a');
    assert("align*"@.len() == 6 && "align*"@[0] == 'a');
    assert("aligned"@.len() == 7 && "aligned"@[0] == 'a');
    assert("equation"@.len() == 8 && "equation"@[0] == 'e');
    assert("equation*"@.len() == 9 && "equation*"@[0] == 'e');
    assert("gather"@.len() == 6 && "gather"@[0] == 'g');
    assert("gather*"@.len() == 7 && "gather*"@[0] == 'g');
    assert("matrix"@.len() == 6 && "matrix"@[0] == 'm');
    assert("pmatrix"@.len() == 7 && "pmatrix"@[0] == 'p');
    assert("bmatrix"@.len() == 7 && "bmatrix"@[0] == 'b');
    assert("vmatrix"@.len() == 7 && "vmatrix"@[0] == 'v');
    assert("smallmatrix"@.len() == 11 && "smallmatrix"@[0] == 's');
    assert("cases"@.len() == 5 && "cases"@[0] == 'c');
    assert("array"@.len() == 5 && "array"@[0] == 'a');
    assert("split"@.len() == 5 && "split"@[0] == 's');
    assert("multline"@.len() == 8 && "multline"@[0] == 'm');
    assert("multline*"@.len() == 9 && "multline*"@[0] == 'm');
    assert("align"@[1] != "array"@[1]);
}

/// A known environment, or the byte range of an unrecognised name.
#[derive(Clone, Debug, PartialEq, Eq)]
pub enum EnvKind {
    Known(KnownEnv),
    Custom(Range<usize>),
}

impl EnvKind {
    /// Custom environments are never aligned.
    pub fn is_aligning(&self) -> (r: bool)
        ensures
            r == match self {
                EnvKind::Known(k) => env_aligning(*k),
                EnvKind::Custom(_) => false,
            },
    {
        match self {
            EnvKind::Known(k) => k.is_aligning(),
            EnvKind::Custom(_) => false,
        }
    }

    /// The environment name: the canonical name, or the source bytes of
    /// a custom name (empty when the range does not slice `source`).
    pub fn name<'a>(&self, source: &'a str) -> (r: &'a str)
        ensures
            match self {
                EnvKind::Known(k) => r@ == env_name(*k),
                EnvKind::Custom(range) => if slice_ok(source@, range.start as int, range.end as int) {
                    utf8_of(r@) == utf8_of(source@).subrange(range.start as int, range.end as int)
                } else {
                    r@.len() == 0
                },
            },
    {
        match self {
            EnvKind::Known(k) => k.name(),
            EnvKind::Custom(range) => str_slice_or_empty(source, range.start, range.end),
        }
    }
}

// ----------------------------------------------------------------------
// Spans and bodies
// ----------------------------------------------------------------------

/// Math-body content: the bytes between the delimiters, with the
/// container-prefix runs in `transparent` (blockquote markers, list
/// continuation indent) treated as absent.
#[derive(Clone, Debug, PartialEq, Eq)]
pub struct MathBody {
    pub range: Range<usize>,
    pub transparent: Vec<Range<usize>>,
}

/// `source.get(a..b).unwrap_or("")` as bytes.
pub open spec fn piece(s: Seq<char>, a: int, b: int) -> Seq<u8> {
    if slice_ok(s, a, b) {
        utf8_of(s).subrange(a, b)
    } else {
        Seq::empty()
    }
}

pub open spec fn max_int(a: int, b: int) -> int {
    if a >= b {
        a
    } else {
        b
    }
}

pub open spec fn min_int(a: int, b: int) -> int {
    if a <= b {
        a
    } else {
        b
    }
}

/// The body bytes from `cursor` to `hi`, skipping each run (clipped to
/// `[lo, hi)`) in turn.
pub open spec fn stripped(s: Seq<char>, cursor: int, lo: int, hi: int, runs: Seq<Range<usize>>) -> Seq<
    u8,
>
    decreases runs.len(),
{
    if runs.len() == 0 {
        if cursor < hi {
            piece(s, cursor, hi)
        } else {
            Seq::empty()
        }
    } else {
        let rs = max_int(runs[0].start as int, lo);
        let re = min_int(runs[0].end as int, hi);
        if rs >= re {
            stripped(s, cursor, lo, hi, runs.drop_first())
        } else {
            (if cursor < rs {
                piece(s, cursor, rs)
            } else {
                Seq::empty()
            }) + stripped(s, re, lo, hi, runs.drop_first())
        }
    }
}

/// The clean body of `b` within source `s`, as bytes.
pub open spec fn body_bytes(b: MathBody, s: Seq<char>) -> Seq<u8> {
    if b.transparent@.len() == 0 {
        piece(s, b.range.start as int, b.range.end as int)
    } else {
        stripped(s, b.range.start as int, b.range.start as int, b.range.end as int, b.transparent@)
    }
}

fn push_piece(out: &mut String, s: &str, a: usize, b: usize)
    ensures
        utf8_of(final(out)@) == utf8_of(old(out)@) + piece(s@, a as int, b as int),
{
    match str_get(s, a, b) {
        Some(t) => {
            proof {
                lemma_utf8_of_concat(out@, t@);
            }
            out.push_str(t);
        },
        None => {
            proof {
                assert(utf8_of(out@) + Seq::<u8>::empty() =~= utf8_of(out@));
            }
        },
    }
}

impl MathBody {
    pub fn new(range: Range<usize>, transparent: Vec<Range<usize>>) -> (r: Self)
        ensures
            r.range == range,
            r.transparent@ == transparent@,
    {
        MathBody { range, transparent }
    }

    /// The outer body range (between the delimiters).
    pub fn range(&self) -> (r: Range<usize>)
        ensures
            r == self.range,
    {
        Range { start: self.range.start, end: self.range.end }
    }

    /// Whether any container-prefix run is recorded.
    pub fn has_transparent_runs(&self) -> (r: bool)
        ensures
            r == (self.transparent@.len() > 0),
    {
        self.transparent.len() > 0
    }

    /// The clean body; borrows `source` when no runs are recorded.
    pub fn as_str<'s>(&self, source: &'s str) -> (r: Cow<'s, str>)
        ensures
            utf8_of(r@) == body_bytes(*self, source@),
            r is Borrowed <==> self.transparent@.len() == 0,
    {
        if self.transparent.len() == 0 {
            return Cow::Borrowed(str_slice_or_empty(source, self.range.start, self.range.end));
        }
        let lo = self.range.start;
        let hi = self.range.end;
        let mut out = String::new();
        let mut cursor = lo;
        let mut k: usize = 0;
        proof {
            assert(utf8_of(out@) =~= Seq::<u8>::empty());
            assert(self.transparent@.skip(0) =~= self.transparent@);
            assert(Seq::<u8>::empty() + body_bytes(*self, source@) =~= body_bytes(*self, source@));
        }
        while k < self.transparent.len()
            invariant
                k <= self.transparent@.len(),
                lo == self.range.start,
                hi == self.range.end,
                self.transparent@.len() > 0,
                utf8_of(out@) + stripped(source@, cursor as int, lo as int, hi as int, self.transparent@.skip(k as int))
                    == body_bytes(*self, source@),
            decreases self.transparent@.len() - k,
        {
            let ghost rest = self.transparent@.skip(k as int);
            proof {
                assert(rest.drop_first() =~= self.transparent@.skip(k + 1));
                assert(rest[0] == self.transparent@[k as int]);
            }
            let run = &self.transparent[k];
            let rs = if run.start >= lo {
                run.start
            } else {
                lo
            };
            let re = if run.end <= hi {
                run.end
            } else {
                hi
            };
            if rs < re {
                let ghost before = utf8_of(out@);
                if cursor < rs {
                    push_piece(&mut out, source, cursor, rs);
                }
                proof {
                    let p = if cursor < rs { piece(source@, cursor as int, rs as int) } else { Seq::empty() };
                    assert(utf8_of(out@) == before + p) by {
                        if cursor >= rs {
                            assert(before + Seq::<u8>::empty() =~= before);
                        }
                    }
                    assert(before + (p + stripped(source@, re as int, lo as int, hi as int, rest.drop_first()))
                        =~= (before + p) + stripped(source@, re as int, lo as int, hi as int, rest.drop_first()));
                }
                cursor = re;
            }
            k = k + 1;
        }
        proof {
            assert(self.transparent@.skip(k as int) =~= Seq::<Range<usize>>::empty());
        }
        let ghost before = utf8_of(out@);
        if cursor < hi {
            push_piece(&mut out, source, cursor, hi);
        } else {
            proof {
                assert(before + Seq::<u8>::empty() =~= before);
            }
        }
        Cow::Owned(out)
    }

    /// Maps an offset in the clean body back to a source offset.
    pub fn clean_offset_to_source(&self, clean_off: usize) -> (r: usize)
        ensures
            r == clean_to_source(self.range.start as int, self.range.end as int, self.transparent@,
                clean_off as int),
    {
        if self.transparent.len() == 0 {
            return sat_add(self.range.start, clean_off);
        }
        let lo = self.range.start;
        let hi = self.range.end;
        let mut consumed: usize = 0;
        let mut cursor = lo;
        let mut k: usize = 0;
        proof {
            assert(self.transparent@.skip(0) =~= self.transparent@);
        }
        while k < self.transparent.len()
            invariant
                k <= self.transparent@.len(),
                lo == self.range.start,
                hi == self.range.end,
                self.transparent@.len() > 0,
                clean_walk(cursor as int, consumed as int, lo as int, hi as int,
                    self.transparent@.skip(k as int), clean_off as int) == clean_to_source(
                    lo as int, hi as int, self.transparent@, clean_off as int),
            decreases self.transparent@.len() - k,
        {
            let ghost rest = self.transparent@.skip(k as int);
            proof {
                assert(rest.drop_first() =~= self.transparent@.skip(k + 1));
                assert(rest[0] == self.transparent@[k as int]);
            }
            let run = &self.transparent[k];
            let rs = if run.start >= lo {
                run.start
            } else {
                lo
            };
            let re = if run.end <= hi {
                run.end
            } else {
                hi
            };
            if rs < re {
                let slice_len = sat_sub(rs, cursor);
                if clean_off < sat_add(consumed, slice_len) {
                    return sat_add(cursor, sat_sub(clean_off, consumed));
                }
                consumed = sat_add(consumed, slice_len);
                cursor = re;
            }
            k = k + 1;
        }
        proof {
            assert(self.transparent@.skip(k as int) =~= Seq::<Range<usize>>::empty());
        }
        sat_add(cursor, sat_sub(clean_off, consumed))
    }
}

pub open spec fn sat_add_spec(a: int, b: int) -> int {
    if a + b > usize::MAX {
        usize::MAX as int
    } else {
        a + b
    }
}

pub open spec fn sat_sub_spec(a: int, b: int) -> int {
    if a >= b {
        a - b
    } else {
        0
    }
}

/// `usize::saturating_add`.
pub fn sat_add(a: usize, b: usize) -> (r: usize)
    ensures
        r == sat_add_spec(a as int, b as int),
{
    if a > usize::MAX - b {
        usize::MAX
    } else {
        a + b
    }
}

/// `usize::saturating_sub`.
pub fn sat_sub(a: usize, b: usize) -> (r: usize)
    ensures
        r == sat_sub_spec(a as int, b as int),
{
    if a >= b {
        a - b
    } else {
        0
    }
}

/// Walks the runs as `clean_offset_to_source` does, with `consumed`
/// clean bytes already accounted for up to `cursor`.
pub open spec fn clean_walk(cursor: int, consumed: int, lo: int, hi: int, runs: Seq<Range<usize>>, off: int) -> int
    decreases runs.len(),
{
    if runs.len() == 0 {
        sat_add_spec(cursor, sat_sub_spec(off, consumed))
    } else {
        let rs = max_int(runs[0].start as int, lo);
        let re = min_int(runs[0].end as int, hi);
        if rs >= re {
            clean_walk(cursor, consumed, lo, hi, runs.drop_first(), off)
        } else {
            let slice_len = sat_sub_spec(rs, cursor);
            if off < sat_add_spec(consumed, slice_len) {
                sat_add_spec(cursor, sat_sub_spec(off, consumed))
            } else {
                clean_walk(re, sat_add_spec(consumed, slice_len), lo, hi, runs.drop_first(), off)
            }
        }
    }
}

pub open spec fn clean_to_source(lo: int, hi: int, runs: Seq<Range<usize>>, off: int) -> int {
    if runs.len() == 0 {
        sat_add_spec(lo, off)
    } else {
        clean_walk(lo, 0, lo, hi, runs, off)
    }
}

/// Per-region classification: the delimiter family or environment, and
/// the body.
#[derive(Clone, Debug, PartialEq, Eq)]
pub enum MathSpan {
    Inline { delim: InlineDelim, body: MathBody },
    Display { delim: DisplayDelim, body: MathBody },
    Environment { env: EnvKind, body: MathBody },
}

pub open spec fn span_body(s: MathSpan) -> MathBody {
    match s {
        MathSpan::Inline { body, .. } => body,
        MathSpan::Display { body, .. } => body,
        MathSpan::Environment { body, .. } => body,
    }
}

impl MathSpan {
    /// The body of this span.
    pub fn body(&self) -> (r: &MathBody)
        ensures
            *r == span_body(*self),
    {
        match self {
            MathSpan::Inline { body, .. } => body,
            MathSpan::Display { body, .. } => body,
            MathSpan::Environment { body, .. } => body,
        }
    }
}

/// One recognised math region: `range` covers both delimiters and the
/// body.
#[derive(Clone, Debug)]
pub struct MathRegion {
    pub range: Range<usize>,
    pub span: MathSpan,
}

/// A shape the recogniser could not accept; scanning continues.
#[derive(Clone, Debug)]
pub enum MathError {
    /// An opening delimiter with no matching close; `range` is the token.
    UnbalancedDelim { delim: AnyDelim, range: Range<usize> },
    /// `\begin{name}` with no matching `\end{name}`; `range` covers the
    /// `\begin{name}` token.
    UnbalancedEnv { name: String, range: Range<usize> },
    /// Braces inside a recognised body do not balance; `offset` is the
    /// offending byte (absolute), `region` the region's range.
    UnbalancedBraces { offset: usize, region: Range<usize> },
}

} // verus!
