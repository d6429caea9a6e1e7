//! Math-region overlay for the formatter: the four delimiter pairs
//! only, regions reported by their outer range and unclosed openers
//! reported for the lint rule.

use std::ops::Range;
use vstd::prelude::*;
use crate::math::scan::{
    error_fits, error_ok, has_at, in_range, math_scan, region_ok, region_shape,
    scan_math_regions, skip_end, skip_pred, skipped_ranges, ErrorShape, MathConfig as RegionConfig, RegionShape,
};
use crate::math::span::{close_bytes, open_bytes, AnyDelim, MathError};
use crate::text::utf8_of;

verus! {

/// The four TeX delimiter pairs.
#[derive(Copy, Clone, Debug, PartialEq, Eq, Structural)]
pub enum MathDelim {
    /// `\[ .. \]`
    BackslashBracket,
    /// `\( .. \)`
    BackslashParen,
    /// `$$ .. $$`
    DoubleDollar,
    /// `$ .. $`
    SingleDollar,
}

pub open spec fn family(d: MathDelim) -> AnyDelim {
    match d {
        MathDelim::BackslashBracket => AnyDelim::Bracket,
        MathDelim::BackslashParen => AnyDelim::Paren,
        MathDelim::DoubleDollar => AnyDelim::Dollar2,
        MathDelim::SingleDollar => AnyDelim::Dollar,
    }
}

impl MathDelim {
    /// `\[ .. \]` and `$$ .. $$` introduce display math.
    pub fn is_display(self) -> (r: bool)
        ensures
            r == (self == MathDelim::BackslashBracket || self == MathDelim::DoubleDollar),
    {
        match self {
            MathDelim::BackslashBracket | MathDelim::DoubleDollar => true,
            MathDelim::BackslashParen | MathDelim::SingleDollar => false,
        }
    }

    fn to_family(self) -> (r: AnyDelim)
        ensures
            r == family(self),
    {
        match self {
            MathDelim::BackslashBracket => AnyDelim::Bracket,
            MathDelim::BackslashParen => AnyDelim::Paren,
            MathDelim::DoubleDollar => AnyDelim::Dollar2,
            MathDelim::SingleDollar => AnyDelim::Dollar,
        }
    }

    /// The opening token.
    pub fn open(self) -> (r: &'static str)
        ensures
            utf8_of(r@) == open_bytes(family(self)),
    {
        self.to_family().open()
    }

    /// The closing token.
    pub fn close(self) -> (r: &'static str)
        ensures
            utf8_of(r@) == close_bytes(family(self)),
    {
        self.to_family().close()
    }
}

fn from_family(d: AnyDelim) -> (r: MathDelim)
    ensures
        family(r) == d,
{
    match d {
        AnyDelim::Bracket => MathDelim::BackslashBracket,
        AnyDelim::Paren => MathDelim::BackslashParen,
        AnyDelim::Dollar2 => MathDelim::DoubleDollar,
        AnyDelim::Dollar => MathDelim::SingleDollar,
    }
}

/// One math region; `range` covers both delimiters and the body.
#[derive(Clone, Debug)]
pub struct MathRegion {
    pub range: Range<usize>,
}

/// An opening delimiter with no close before the end of the document
/// or the next exclusion zone; `range` is the opening token.
#[derive(Clone, Debug)]
pub struct UnclosedOpen {
    pub range: Range<usize>,
    pub delim: MathDelim,
}

/// Which delimiter pairs to recognise; the dollar forms are opt-in.
#[derive(Copy, Clone, Debug, PartialEq, Eq, Structural)]
pub struct MathConfig {
    pub backslash_bracket: bool,
    pub backslash_paren: bool,
    pub double_dollar: bool,
    pub single_dollar: bool,
}

impl Default for MathConfig {
    fn default() -> (r: Self)
        ensures
            r.backslash_bracket && r.backslash_paren && !r.double_dollar && !r.single_dollar,
    {
        MathConfig { backslash_bracket: true, backslash_paren: true, double_dollar: false, single_dollar: false }
    }
}

/// Some delimiter pair opens at `lo` and closes just before `hi`.
pub open spec fn delimited_region(b: Seq<u8>, lo: int, hi: int) -> bool {
    exists|d: AnyDelim|
        #![trigger open_bytes(d)]
        has_at(b, lo, open_bytes(d)) && lo + open_bytes(d).len() + close_bytes(d).len() <= hi && has_at(
            b,
            hi - close_bytes(d).len(),
            close_bytes(d),
        )
}

/// The region scanner's configuration for the formatter's overlay: the
/// same delimiter pairs, environments off.
pub open spec fn region_config(cfg: MathConfig) -> RegionConfig {
    RegionConfig {
        backslash_bracket: cfg.backslash_bracket,
        backslash_paren: cfg.backslash_paren,
        double_dollar: cfg.double_dollar,
        single_dollar: cfg.single_dollar,
        environments: false,
    }
}

pub open spec fn shape_range(sh: RegionShape) -> Range<usize> {
    match sh {
        RegionShape::Delimited(r, _, _) => r,
        RegionShape::Env(r, _, _) => r,
    }
}

/// The unclosed openers among the scan's errors, in order.
pub open spec fn unclosed_shapes(es: Seq<ErrorShape>) -> Seq<(Range<usize>, AnyDelim)>
    decreases es.len(),
{
    if es.len() == 0 {
        seq![]
    } else {
        let rest = unclosed_shapes(es.drop_last());
        match es.last() {
            ErrorShape::Delim(d, r) => rest.push((r, d)),
            _ => rest,
        }
    }
}

/// The overlay's scan: the region scanner over the code spans, code
/// blocks and HTML blocks, with environments off.
pub open spec fn overlay_scan(
    source: Seq<char>,
    inline_codes: Seq<Range<usize>>,
    code_blocks: Seq<Range<usize>>,
    html_blocks: Seq<Range<usize>>,
    cfg: MathConfig,
) -> (Seq<RegionShape>, Seq<ErrorShape>) {
    let rs = skipped_ranges(inline_codes, code_blocks, html_blocks, Seq::empty());
    math_scan(utf8_of(source), source, skip_pred(rs), skip_end(rs), region_config(cfg), 0)
}

/// Scans `source` for math regions outside the given code spans, code
/// blocks and HTML blocks: the ranges of the regions of
/// [`overlay_scan`], and its unclosed openers. Regions are in source
/// order and never overlap; each is delimited by an opening and a
/// closing token of one pair. Unclosed openers are reported with their
/// token's range.
pub fn scan_math(
    source: &str,
    inline_codes: &[Range<usize>],
    code_blocks: &[Range<usize>],
    html_blocks: &[Range<usize>],
    cfg: MathConfig,
) -> (out: (Vec<MathRegion>, Vec<UnclosedOpen>))
    ensures
        ({
            let sc = overlay_scan(source@, inline_codes@, code_blocks@, html_blocks@, cfg);
            &&& out.0@.len() == sc.0.len()
            &&& forall|k: int| 0 <= k < out.0@.len() ==> #[trigger] out.0@[k].range == shape_range(sc.0[k])
            &&& out.1@.len() == unclosed_shapes(sc.1).len()
            &&& forall|k: int| 0 <= k < out.1@.len() ==> (#[trigger] out.1@[k].range, family(out.1@[k].delim))
                == unclosed_shapes(sc.1)[k]
        }),
        forall|j: int, k: int| 0 <= j < k < out.0@.len() ==> #[trigger] out.0@[j].range.end <= #[trigger] out.0@[k].range.start,
        forall|k: int| 0 <= k < out.0@.len() ==> #[trigger] out.0@[k].range.start < out.0@[k].range.end
            <= utf8_of(source@).len(),
        forall|k: int| 0 <= k < out.0@.len() ==> delimited_region(utf8_of(source@),
            #[trigger] out.0@[k].range.start as int, out.0@[k].range.end as int),
        forall|k: int, j: int| 0 <= k < out.0@.len() && 0 <= j < inline_codes@.len() ==> !#[trigger] in_range(
            inline_codes@[j], #[trigger] out.0@[k].range.start as int),
        forall|k: int, j: int| 0 <= k < out.0@.len() && 0 <= j < code_blocks@.len() ==> !#[trigger] in_range(
            code_blocks@[j], #[trigger] out.0@[k].range.start as int),
        forall|k: int, j: int| 0 <= k < out.0@.len() && 0 <= j < html_blocks@.len() ==> !#[trigger] in_range(
            html_blocks@[j], #[trigger] out.0@[k].range.start as int),
        forall|k: int| 0 <= k < out.1@.len() ==> has_at(utf8_of(source@), #[trigger] out.1@[k].range.start as int,
            open_bytes(family(out.1@[k].delim))) && out.1@[k].range.end == out.1@[k].range.start + open_bytes(
            family(out.1@[k].delim)).len(),
{
    let rcfg = RegionConfig {
        backslash_bracket: cfg.backslash_bracket,
        backslash_paren: cfg.backslash_paren,
        double_dollar: cfg.double_dollar,
        single_dollar: cfg.single_dollar,
        environments: false,
    };
    let none: Vec<Range<usize>> = Vec::new();
    let (regions, errors) = scan_math_regions(source, inline_codes, code_blocks, html_blocks, none.as_slice(), rcfg);
    let ghost b = utf8_of(source@);
    let ghost sc = overlay_scan(source@, inline_codes@, code_blocks@, html_blocks@, cfg);
    proof {
        assert(none@ =~= Seq::<Range<usize>>::empty());
        assert(rcfg == region_config(cfg));
    }
    let mut out_regions: Vec<MathRegion> = Vec::new();
    let mut k: usize = 0;
    while k < regions.len()
        invariant
            k <= regions@.len(),
            out_regions@.len() == k,
            forall|m: int| 0 <= m < k ==> #[trigger] out_regions@[m].range == regions@[m].range,
            regions@.len() == sc.0.len(),
            forall|m: int| 0 <= m < regions@.len() ==> region_shape(#[trigger] regions@[m]) == sc.0[m],
        decreases regions@.len() - k,
    {
        out_regions.push(MathRegion { range: Range { start: regions[k].range.start, end: regions[k].range.end } });
        k = k + 1;
    }
    let mut unclosed: Vec<UnclosedOpen> = Vec::new();
    let mut e: usize = 0;
    while e < errors.len()
        invariant
            e <= errors@.len(),
            forall|m: int| 0 <= m < errors@.len() ==> error_ok(b, #[trigger] errors@[m]),
            errors@.len() == sc.1.len(),
            forall|m: int| 0 <= m < errors@.len() ==> error_fits(#[trigger] errors@[m], sc.1[m], source@),
            unclosed@.len() == unclosed_shapes(sc.1.take(e as int)).len(),
            forall|m: int| 0 <= m < unclosed@.len() ==> (#[trigger] unclosed@[m].range, family(unclosed@[m].delim))
                == unclosed_shapes(sc.1.take(e as int))[m],
            forall|m: int| 0 <= m < unclosed@.len() ==> has_at(b, #[trigger] unclosed@[m].range.start as int,
                open_bytes(family(unclosed@[m].delim))) && unclosed@[m].range.end == unclosed@[m].range.start
                + open_bytes(family(unclosed@[m].delim)).len(),
        decreases errors@.len() - e,
    {
        proof {
            assert(sc.1.take(e + 1).drop_last() =~= sc.1.take(e as int));
            assert(sc.1.take(e + 1).last() == sc.1[e as int]);
            assert(error_fits(errors@[e as int], sc.1[e as int], source@));
        }
        match &errors[e] {
            MathError::UnbalancedDelim { delim, range } => {
                let d = from_family(*delim);
                unclosed.push(UnclosedOpen { range: Range { start: range.start, end: range.end }, delim: d });
            },
            _ => {},
        }
        e = e + 1;
    }
    proof {
        assert(sc.1.take(errors@.len() as int) =~= sc.1);
        assert forall|m: int| 0 <= m < out_regions@.len() implies delimited_region(b,
            #[trigger] out_regions@[m].range.start as int, out_regions@[m].range.end as int) by {
            assert(region_ok(b, regions@[m]));
            assert(!(regions@[m].span is Environment));
            match regions@[m].span {
                crate::math::span::MathSpan::Inline { delim, body } => {
                    let d = crate::math::span::inline_family(delim);
                    assert(open_bytes(d) == open_bytes(d));
                },
                crate::math::span::MathSpan::Display { delim, body } => {
                    let d = crate::math::span::display_family(delim);
                    assert(open_bytes(d) == open_bytes(d));
                },
                _ => {},
            }
        }
        assert forall|j: int, kk: int| 0 <= j < kk < out_regions@.len() implies #[trigger] out_regions@[j].range.end
            <= #[trigger] out_regions@[kk].range.start by {
            assert(regions@[j].range.end <= regions@[kk].range.start);
        }
        assert forall|m: int| 0 <= m < out_regions@.len() implies #[trigger] out_regions@[m].range.start
            < out_regions@[m].range.end <= b.len() by {
            assert(region_ok(b, regions@[m]));
        }
        assert forall|m: int, j: int| 0 <= m < out_regions@.len() && 0 <= j < inline_codes@.len() implies !#[trigger] in_range(
            inline_codes@[j], #[trigger] out_regions@[m].range.start as int) by {
            assert(!in_range(inline_codes@[j], regions@[m].range.start as int));
        }
        assert forall|m: int, j: int| 0 <= m < out_regions@.len() && 0 <= j < code_blocks@.len() implies !#[trigger] in_range(
            code_blocks@[j], #[trigger] out_regions@[m].range.start as int) by {
            assert(!in_range(code_blocks@[j], regions@[m].range.start as int));
        }
        assert forall|m: int, j: int| 0 <= m < out_regions@.len() && 0 <= j < html_blocks@.len() implies !#[trigger] in_range(
            html_blocks@[j], #[trigger] out_regions@[m].range.start as int) by {
            assert(!in_range(html_blocks@[j], regions@[m].range.start as int));
        }
    }
    (out_regions, unclosed)
}

} // verus!
