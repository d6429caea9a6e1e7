//! Structural math recogniser.
//!
//! Walks the source left to right. Exclusion zones (code spans, code
//! blocks, HTML blocks, inline HTML) are skipped whole, so a `$` inside
//! a code span can never anchor a region. Delimited pairs match the
//! first close (`\[ .. \]`, `\( .. \)`, `$$ .. $$`, `$ .. $`); LaTeX
//! environments count nested `\begin{name}` of the same name. Unmatched
//! openers and brace-imbalanced bodies become [`MathError`] values and
//! the scan continues.

use std::ops::Range;
use vstd::prelude::*;
use vstd::utf8::*;
use crate::math::pretty::{body_braces_balanced, brace_scan};
use crate::math::span::{
    close_bytes, open_bytes, AnyDelim, DisplayDelim, EnvKind, InlineDelim, KnownEnv, MathBody,
    MathError, MathRegion, MathSpan, display_family, env_of_name, inline_family, sat_add_spec, span_body,
};
use crate::text::{slice_ok, str_get, utf8_of};

verus! {

/// Which delimiter pairs to recognise. `\[ \]`, `\( \)` and environments
/// are on by default; the dollar forms collide with currency and are
/// opt-in.
#[derive(Copy, Clone, Debug, PartialEq, Eq, Structural)]
pub struct MathConfig {
    pub backslash_bracket: bool,
    pub backslash_paren: bool,
    pub double_dollar: bool,
    pub single_dollar: bool,
    pub environments: bool,
}

impl Default for MathConfig {
    fn default() -> (r: Self)
        ensures
            r.backslash_bracket && r.backslash_paren && !r.double_dollar && !r.single_dollar
                && r.environments,
    {
        MathConfig {
            backslash_bracket: true,
            backslash_paren: true,
            double_dollar: false,
            single_dollar: false,
            environments: true,
        }
    }
}

// ----------------------------------------------------------------------
// Exclusion zones
// ----------------------------------------------------------------------

pub open spec fn in_range(r: Range<usize>, i: int) -> bool {
    r.start <= i < r.end
}

/// Sorted by start, and each zone ends strictly before the next starts.
pub open spec fn zones_separated(z: Seq<Range<usize>>) -> bool {
    &&& forall|k: int| 0 <= k < z.len() ==> #[trigger] z[k].start <= z[k].end
    &&& forall|j: int, k: int| 0 <= j < k < z.len() ==> #[trigger] z[j].end < #[trigger] z[k].start
}

/// `inner` lies inside some zone of `z` (empty ranges trivially).
pub open spec fn covered(z: Seq<Range<usize>>, inner: Range<usize>) -> bool {
    inner.start >= inner.end || exists|m: int|
        0 <= m < z.len() && #[trigger] z[m].start <= inner.start && inner.end <= z[m].end
}

/// Position `i` lies in some zone.
pub open spec fn in_zones(z: Seq<Range<usize>>, i: int) -> bool {
    exists|m: int| 0 <= m < z.len() && #[trigger] in_range(z[m], i)
}

pub open spec fn sorted_by_start(z: Seq<Range<usize>>) -> bool {
    forall|j: int, k: int| 0 <= j < k < z.len() ==> #[trigger] z[j].start <= #[trigger] z[k].start
}

/// Every range a math region must not start in or run through.
pub open spec fn skipped_ranges(
    inline_codes: Seq<Range<usize>>,
    code_blocks: Seq<Range<usize>>,
    html_blocks: Seq<Range<usize>>,
    inline_html: Seq<Range<usize>>,
) -> Seq<Range<usize>> {
    inline_codes + code_blocks + html_blocks + inline_html
}

fn sort_by_start(input: Vec<Range<usize>>) -> (out: Vec<Range<usize>>)
    ensures
        sorted_by_start(out@),
        forall|j: int| 0 <= j < input@.len() ==> #[trigger] out@.contains(input@[j]),
        forall|j: int| 0 <= j < out@.len() ==> #[trigger] input@.contains(out@[j]),
{
    let mut out: Vec<Range<usize>> = Vec::new();
    let mut k: usize = 0;
    while k < input.len()
        invariant
            k <= input@.len(),
            sorted_by_start(out@),
            forall|j: int| 0 <= j < k ==> #[trigger] out@.contains(input@[j]),
            forall|j: int| 0 <= j < out@.len() ==> #[trigger] input@.take(k as int).contains(out@[j]),
        decreases input@.len() - k,
    {
        let r = Range { start: input[k].start, end: input[k].end };
        let mut p: usize = 0;
        while p < out.len() && out[p].start <= r.start
            invariant
                p <= out@.len(),
                sorted_by_start(out@),
                forall|q: int| 0 <= q < p ==> #[trigger] out@[q].start <= r.start,
            decreases out@.len() - p,
        {
            p = p + 1;
        }
        let ghost old_out = out@;
        out.insert(p, r);
        proof {
            old_out.insert_ensures(p as int, r);
            assert(out@ == old_out.insert(p as int, r));
            assert forall|j: int| 0 <= j < k + 1 implies #[trigger] out@.contains(input@[j]) by {
                if j == k {
                    assert(out@[p as int] == r);
                    assert(r == input@[j]);
                } else {
                    assert(old_out.contains(input@[j]));
                    let m = choose|m: int| 0 <= m < old_out.len() && old_out[m] == input@[j];
                    if m < p {
                        assert(out@[m] == old_out[m]);
                    } else {
                        assert(out@[m + 1] == old_out[m]);
                    }
                }
            }
            assert forall|j: int| 0 <= j < out@.len() implies #[trigger] input@.take(k + 1).contains(out@[j]) by {
                if j == p {
                    assert(input@.take(k + 1)[k as int] == r);
                } else {
                    let q = if j < p { j } else { j - 1 };
                    assert(out@[j] == old_out[q]);
                    assert(input@.take(k as int).contains(old_out[q]));
                    let m = choose|m: int| 0 <= m < k && input@.take(k as int)[m] == old_out[q];
                    assert(input@.take(k + 1)[m] == old_out[q]);
                }
            }
            assert forall|a: int, b: int| 0 <= a < b < out@.len() implies #[trigger] out@[a].start
                <= #[trigger] out@[b].start by {
                if b < p {
                } else if b == p {
                    assert(out@[a] == old_out[a]);
                } else if a < p {
                    assert(out@[b] == old_out[b - 1]);
                    assert(out@[a] == old_out[a]);
                } else if a == p {
                    assert(out@[b] == old_out[b - 1]);
                    if p < old_out.len() {
                        assert(!(old_out[p as int].start <= r.start) || p == old_out.len());
                    }
                } else {
                    assert(out@[b] == old_out[b - 1]);
                    assert(out@[a] == old_out[a - 1]);
                }
            }
        }
        k = k + 1;
    }
    assert(input@.take(input@.len() as int) =~= input@);
    out
}

fn append_ranges(dst: &mut Vec<Range<usize>>, src: &[Range<usize>])
    ensures
        final(dst)@.len() == old(dst)@.len() + src@.len(),
        forall|j: int| 0 <= j < old(dst)@.len() ==> #[trigger] final(dst)@[j] == old(dst)@[j],
        forall|j: int| 0 <= j < src@.len() ==> final(dst)@[old(dst)@.len() + j] == #[trigger] src@[j],
{
    let ghost start = dst@;
    let mut k: usize = 0;
    while k < src.len()
        invariant
            k <= src@.len(),
            dst@.len() == start.len() + k,
            forall|j: int| 0 <= j < start.len() ==> #[trigger] dst@[j] == start[j],
            forall|j: int| 0 <= j < k ==> dst@[start.len() + j] == #[trigger] src@[j],
        decreases src@.len() - k,
    {
        dst.push(Range { start: src[k].start, end: src[k].end });
        k = k + 1;
    }
}

/// Sorted, merged zones where a math region can neither start nor
/// extend through: every input range lies inside one of them.
pub fn build_exclusions(
    inline_codes: &[Range<usize>],
    code_blocks: &[Range<usize>],
    html_blocks: &[Range<usize>],
    inline_html: &[Range<usize>],
) -> (merged: Vec<Range<usize>>)
    ensures
        zones_separated(merged@),
        forall|j: int| 0 <= j < inline_codes@.len() ==> covered(merged@, #[trigger] inline_codes@[j]),
        forall|j: int| 0 <= j < code_blocks@.len() ==> covered(merged@, #[trigger] code_blocks@[j]),
        forall|j: int| 0 <= j < html_blocks@.len() ==> covered(merged@, #[trigger] html_blocks@[j]),
        forall|j: int| 0 <= j < inline_html@.len() ==> covered(merged@, #[trigger] inline_html@[j]),
        forall|p: int| #[trigger] in_zones(merged@, p) == in_zones(
            skipped_ranges(inline_codes@, code_blocks@, html_blocks@, inline_html@),
            p,
        ),
{
    let mut all: Vec<Range<usize>> = Vec::new();
    append_ranges(&mut all, inline_codes);
    let ghost a1 = all@;
    append_ranges(&mut all, code_blocks);
    let ghost a2 = all@;
    append_ranges(&mut all, html_blocks);
    let ghost a3 = all@;
    append_ranges(&mut all, inline_html);
    let ghost a4 = all@;
    let sorted = sort_by_start(all);
    let mut merged: Vec<Range<usize>> = Vec::new();
    let mut k: usize = 0;
    while k < sorted.len()
        invariant
            k <= sorted@.len(),
            sorted_by_start(sorted@),
            zones_separated(merged@),
            k > 0 ==> merged@.len() > 0,
            k == 0 ==> merged@.len() == 0,
            k > 0 ==> merged@.last().start <= sorted@[k - 1].start,
            forall|j: int| 0 <= j < k ==> covered(merged@, #[trigger] sorted@[j]),
            forall|m: int, p: int| 0 <= m < merged@.len() && #[trigger] in_range(merged@[m], p) ==> exists|j: int|
                0 <= j < k && #[trigger] in_range(sorted@[j], p),
        decreases sorted@.len() - k,
    {
        let r = Range { start: sorted[k].start, end: sorted[k].end };
        let n = merged.len();
        let ghost before = merged@;
        proof {
            if k > 0 {
                assert(sorted@[k - 1].start <= sorted@[k as int].start);
            }
        }
        if r.start >= r.end {
            if n > 0 && merged[n - 1].end >= r.start {
                // an empty range inside or touching the last zone
            } else {
                let e = if r.end > r.start { r.end } else { r.start };
                merged.push(Range { start: r.start, end: e });
                proof {
                    assert forall|a: int, b: int| 0 <= a < b < merged@.len() implies #[trigger] merged@[a].end
                        < #[trigger] merged@[b].start by {
                        if b == merged@.len() - 1 && a < b {
                            if a < n - 1 {
                                assert(before[a].end < before[n - 1].start);
                            }
                        }
                    }
                    assert forall|j: int| 0 <= j < k + 1 implies covered(merged@, #[trigger] sorted@[j]) by {
                        if j < k {
                            if sorted@[j].start < sorted@[j].end {
                                let m = choose|m: int| 0 <= m < before.len() && #[trigger] before[m].start
                                    <= sorted@[j].start && sorted@[j].end <= before[m].end;
                                assert(merged@[m] == before[m]);
                            }
                        }
                    }
                }
            }
        } else if n > 0 && merged[n - 1].end >= r.start {
            let last_start = merged[n - 1].start;
            let last_end = merged[n - 1].end;
            if r.end > last_end {
                merged.set(n - 1, Range { start: last_start, end: r.end });
            }
            proof {
                assert forall|m: int, p: int| 0 <= m < merged@.len() && #[trigger] in_range(merged@[m], p) implies exists|j: int|
                    0 <= j < k + 1 && #[trigger] in_range(sorted@[j], p) by {
                    if m == n - 1 && p >= last_end {
                        assert(in_range(sorted@[k as int], p));
                    } else {
                        assert(in_range(before[m], p));
                    }
                }
                assert forall|a: int, b: int| 0 <= a < b < merged@.len() implies #[trigger] merged@[a].end
                    < #[trigger] merged@[b].start by {
                    assert(before[a].end < before[b].start);
                }
                assert forall|j: int| 0 <= j < k + 1 implies covered(merged@, #[trigger] sorted@[j]) by {
                    if j < k {
                        if sorted@[j].start < sorted@[j].end {
                            let m = choose|m: int| 0 <= m < before.len() && #[trigger] before[m].start
                                <= sorted@[j].start && sorted@[j].end <= before[m].end;
                            assert(merged@[m].start == before[m].start);
                            assert(merged@[m].end >= before[m].end);
                        }
                    } else {
                        assert(merged@[n - 1].start <= sorted@[j].start);
                        assert(sorted@[j].end <= merged@[n - 1].end);
                    }
                }
            }
        } else {
            merged.push(r);
            proof {
                assert forall|a: int, b: int| 0 <= a < b < merged@.len() implies #[trigger] merged@[a].end
                    < #[trigger] merged@[b].start by {
                    if b == merged@.len() - 1 && a < b {
                        if a < n - 1 {
                            assert(before[a].end < before[n - 1].start);
                        }
                    }
                }
                assert forall|j: int| 0 <= j < k + 1 implies covered(merged@, #[trigger] sorted@[j]) by {
                    if j < k {
                        if sorted@[j].start < sorted@[j].end {
                            let m = choose|m: int| 0 <= m < before.len() && #[trigger] before[m].start
                                <= sorted@[j].start && sorted@[j].end <= before[m].end;
                            assert(merged@[m] == before[m]);
                        }
                    } else {
                        assert(merged@[n as int] == sorted@[j]);
                    }
                }
            }
        }
        k = k + 1;
    }
    proof {
        let all_in = skipped_ranges(inline_codes@, code_blocks@, html_blocks@, inline_html@);
        assert(a4 =~= all_in);
        assert forall|p: int| #[trigger] in_zones(merged@, p) == in_zones(all_in, p) by {
            if in_zones(merged@, p) {
                let m = choose|m: int| 0 <= m < merged@.len() && #[trigger] in_range(merged@[m], p);
                let j = choose|j: int| 0 <= j < sorted@.len() && #[trigger] in_range(sorted@[j], p);
                assert(a4.contains(sorted@[j]));
                let q = choose|q: int| 0 <= q < a4.len() && a4[q] == sorted@[j];
                assert(in_range(all_in[q], p));
            }
            if in_zones(all_in, p) {
                let q = choose|q: int| 0 <= q < all_in.len() && #[trigger] in_range(all_in[q], p);
                assert(sorted@.contains(a4[q]));
                let j = choose|j: int| 0 <= j < sorted@.len() && sorted@[j] == a4[q];
                assert(covered(merged@, sorted@[j]));
                let m = choose|m: int| 0 <= m < merged@.len() && #[trigger] merged@[m].start <= sorted@[j].start
                    && sorted@[j].end <= merged@[m].end;
                assert(in_range(merged@[m], p));
            }
        }
        assert forall|j: int| 0 <= j < a4.len() implies covered(merged@, #[trigger] a4[j]) by {
            assert(sorted@.contains(a4[j]));
            let m = choose|m: int| 0 <= m < sorted@.len() && sorted@[m] == a4[j];
            assert(covered(merged@, sorted@[m]));
        }
        assert forall|j: int| 0 <= j < inline_codes@.len() implies covered(merged@, #[trigger] inline_codes@[j]) by {
            assert(a4[j] == a1[j]);
            assert(covered(merged@, a4[j]));
        }
        assert forall|j: int| 0 <= j < code_blocks@.len() implies covered(merged@, #[trigger] code_blocks@[j]) by {
            assert(a4[a1.len() + j] == a2[a1.len() + j]);
            assert(covered(merged@, a4[a1.len() + j]));
        }
        assert forall|j: int| 0 <= j < html_blocks@.len() implies covered(merged@, #[trigger] html_blocks@[j]) by {
            assert(a4[a2.len() + j] == a3[a2.len() + j]);
            assert(covered(merged@, a4[a2.len() + j]));
        }
        assert forall|j: int| 0 <= j < inline_html@.len() implies covered(merged@, #[trigger] inline_html@[j]) by {
            assert(covered(merged@, a4[a3.len() + j]));
        }
    }
    merged
}

/// The end of the zone of `z` that holds `p`; `p` itself when no zone
/// does.
pub open spec fn zone_end_of(z: Seq<Range<usize>>, p: int) -> int {
    if in_zones(z, p) {
        z[choose|m: int| 0 <= m < z.len() && #[trigger] in_range(z[m], p)].end as int
    } else {
        p
    }
}

/// The first position from `p` on that no range of `rs` covers, when
/// some range covers `p`; `p` itself otherwise.
pub open spec fn free_from(rs: Seq<Range<usize>>, p: int) -> int {
    if in_zones(rs, p) {
        choose|e: int| p < e && !in_zones(rs, e) && forall|q: int| p <= q < e ==> #[trigger] in_zones(rs, q)
    } else {
        p
    }
}

proof fn lemma_one_zone(z: Seq<Range<usize>>, p: int, m1: int, m2: int)
    requires
        zones_separated(z),
        0 <= m1 < z.len(),
        0 <= m2 < z.len(),
        in_range(z[m1], p),
        in_range(z[m2], p),
    ensures
        m1 == m2,
{
    if m1 < m2 {
        assert(z[m1].end < z[m2].start);
    } else if m2 < m1 {
        assert(z[m2].end < z[m1].start);
    }
}

/// Merged, separated zones that cover exactly the positions of `rs` end
/// where the run of covered positions ends.
proof fn lemma_zone_end_is_free_from(z: Seq<Range<usize>>, rs: Seq<Range<usize>>, p: int)
    requires
        zones_separated(z),
        forall|q: int| #[trigger] in_zones(z, q) == in_zones(rs, q),
    ensures
        zone_end_of(z, p) == free_from(rs, p),
        in_zones(z, p) ==> zone_end_of(z, p) > p,
{
    if in_zones(z, p) {
        let m = choose|m: int| 0 <= m < z.len() && #[trigger] in_range(z[m], p);
        let e = z[m].end as int;
        assert(!in_zones(z, e)) by {
            if in_zones(z, e) {
                let m2 = choose|m2: int| 0 <= m2 < z.len() && #[trigger] in_range(z[m2], e);
                if m2 < m {
                    assert(z[m2].end < z[m].start);
                } else if m < m2 {
                    assert(z[m].end < z[m2].start);
                }
            }
        }
        assert forall|q: int| p <= q < e implies #[trigger] in_zones(rs, q) by {
            assert(in_range(z[m], q));
            assert(in_zones(z, q));
        }
        assert(in_zones(rs, p));
        let e2 = free_from(rs, p);
        assert(p < e2 && !in_zones(rs, e2) && forall|q: int| p <= q < e2 ==> #[trigger] in_zones(rs, q));
        if e2 < e {
            assert(in_zones(rs, e2));
        }
        if e < e2 {
            assert(in_zones(rs, e));
        }
    }
}

/// The end of the zone containing `i`, if any.
fn excluded_end(z: &Vec<Range<usize>>, i: usize) -> (r: Option<usize>)
    requires
        zones_separated(z@),
    ensures
        r is None <==> !in_zones(z@, i as int),
        r matches Some(e) ==> exists|m: int| 0 <= m < z@.len() && #[trigger] in_range(z@[m], i as int)
            && z@[m].end == e,
        r matches Some(e) ==> e > i && e == zone_end_of(z@, i as int),
{
    let mut k: usize = 0;
    while k < z.len()
        invariant
            k <= z@.len(),
            zones_separated(z@),
            forall|m: int| 0 <= m < k ==> !#[trigger] in_range(z@[m], i as int),
        decreases z@.len() - k,
    {
        if z[k].start <= i && i < z[k].end {
            assert(in_range(z@[k as int], i as int));
            proof {
                let m = choose|m: int| 0 <= m < z@.len() && #[trigger] in_range(z@[m], i as int);
                lemma_one_zone(z@, i as int, m, k as int);
            }
            return Some(z[k].end);
        }
        k = k + 1;
    }
    None
}

// ----------------------------------------------------------------------
// Token matching
// ----------------------------------------------------------------------

/// The run of backslashes ending just before `i` has even length.
pub open spec fn backslashes_even(b: Seq<u8>, i: int) -> bool
    decreases i,
{
    if i <= 0 || i > b.len() || b[i - 1] != 0x5C {
        true
    } else {
        !backslashes_even(b, i - 1)
    }
}

fn preceding_backslashes_even(b: &[u8], i: usize) -> (r: bool)
    requires
        i <= b@.len(),
    ensures
        r == backslashes_even(b@, i as int),
{
    let mut j = i;
    let mut even = true;
    while j > 0 && b[j - 1] == 0x5C
        invariant
            j <= i <= b@.len(),
            backslashes_even(b@, i as int) == (if even {
                backslashes_even(b@, j as int)
            } else {
                !backslashes_even(b@, j as int)
            }),
        decreases j,
    {
        even = !even;
        j = j - 1;
    }
    even
}

/// `b[i..]` starts with `pat`.
pub open spec fn has_at(b: Seq<u8>, i: int, pat: Seq<u8>) -> bool {
    0 <= i && i + pat.len() <= b.len() && b.subrange(i, i + pat.len()) == pat
}

fn bytes_at(b: &[u8], i: usize, pat: &Vec<u8>) -> (r: bool)
    ensures
        r == has_at(b@, i as int, pat@),
{
    let n = b.len();
    if i > n || pat.len() > n - i {
        return false;
    }
    let mut k: usize = 0;
    while k < pat.len()
        invariant
            k <= pat@.len(),
            n == b@.len(),
            i + pat@.len() <= b@.len(),
            forall|m: int| 0 <= m < k ==> b@.subrange(i as int, i + pat@.len())[m] == #[trigger] pat@[m],
        decreases pat@.len() - k,
    {
        if b[i + k] != pat[k] {
            proof {
                assert(b@.subrange(i as int, i + pat@.len())[k as int] != pat@[k as int]);
            }
            return false;
        }
        k = k + 1;
    }
    proof {
        assert(b@.subrange(i as int, i + pat@.len()) =~= pat@);
    }
    true
}

pub open spec fn begin_kw() -> Seq<u8> {
    seq![0x62u8, 0x65u8, 0x67u8, 0x69u8, 0x6Eu8]
}

pub open spec fn end_kw() -> Seq<u8> {
    seq![0x65u8, 0x6Eu8, 0x64u8]
}

/// An unescaped `\keyword` at `i`; the position after the keyword.
pub open spec fn kw_at(b: Seq<u8>, i: int, kw: Seq<u8>) -> bool {
    0 <= i < b.len() && b[i] == 0x5C && backslashes_even(b, i) && has_at(b, i + 1, kw)
}

fn match_kw(b: &[u8], i: usize, kw: &Vec<u8>) -> (r: Option<usize>)
    ensures
        r is Some <==> kw_at(b@, i as int, kw@),
        r matches Some(p) ==> p == i + 1 + kw@.len(),
{
    if i >= b.len() || b[i] != 0x5C {
        return None;
    }
    if !preceding_backslashes_even(b, i) {
        return None;
    }
    if !bytes_at(b, i + 1, kw) {
        return None;
    }
    Some(i + 1 + kw.len())
}

fn is_alpha(c: u8) -> (r: bool)
    ensures
        r == crate::escape::is_ascii_alpha(c),
{
    (0x41 <= c && c <= 0x5A) || (0x61 <= c && c <= 0x7A)
}

/// The end of the run of ASCII letters from `j`.
pub open spec fn alpha_end(b: Seq<u8>, j: int) -> int
    decreases b.len() - j,
{
    if 0 <= j < b.len() && crate::escape::is_ascii_alpha(b[j]) {
        alpha_end(b, j + 1)
    } else {
        j
    }
}

/// `{name}` at `after` with `name` matching `[A-Za-z]+\*?`: the name's
/// range and the position after `}`.
pub open spec fn env_name_at(b: Seq<u8>, after: int) -> Option<(int, int, int)> {
    if after < 0 || after >= b.len() || b[after] != 0x7B {
        None
    } else {
        let s = after + 1;
        let j0 = alpha_end(b, s);
        let j = if j0 < b.len() && b[j0] == 0x2A {
            j0 + 1
        } else {
            j0
        };
        if j == s || j >= b.len() || b[j] != 0x7D {
            None
        } else {
            Some((s, j, j + 1))
        }
    }
}

/// `\begin{name}` at `i`.
pub open spec fn begin_at(b: Seq<u8>, i: int) -> Option<(int, int, int)> {
    if kw_at(b, i, begin_kw()) {
        env_name_at(b, i + 6)
    } else {
        None
    }
}

/// `\end{name}` at `j`.
pub open spec fn end_at(b: Seq<u8>, j: int) -> Option<(int, int, int)> {
    if kw_at(b, j, end_kw()) {
        env_name_at(b, j + 4)
    } else {
        None
    }
}

pub open spec fn triple_of(r: Option<(usize, usize, usize)>) -> Option<(int, int, int)> {
    match r {
        Some((a, b, c)) => Some((a as int, b as int, c as int)),
        None => None,
    }
}

/// `{name}` at `after` with `name` matching `[A-Za-z]+\*?`: the name's
/// range and the position after `}`.
fn parse_env_name(b: &[u8], after: usize) -> (r: Option<(usize, usize, usize)>)
    requires
        after <= b@.len(),
    ensures
        r matches Some((s, e, next)) ==> after + 1 == s && s < e && e < b@.len() && next == e + 1
            && b@[after as int] == 0x7B && b@[e as int] == 0x7D,
        triple_of(r) == env_name_at(b@, after as int),
{
    if after >= b.len() || b[after] != 0x7B {
        return None;
    }
    let name_start = after + 1;
    let mut j = name_start;
    while j < b.len() && is_alpha(b[j])
        invariant
            name_start <= j <= b@.len(),
            alpha_end(b@, j as int) == alpha_end(b@, name_start as int),
        decreases b@.len() - j,
    {
        j = j + 1;
    }
    if j < b.len() && b[j] == 0x2A {
        j = j + 1;
    }
    if j == name_start {
        return None;
    }
    if j >= b.len() || b[j] != 0x7D {
        return None;
    }
    Some((name_start, j, j + 1))
}

fn kw_begin() -> (v: Vec<u8>)
    ensures
        v@ == begin_kw(),
{
    let v = vec![0x62u8, 0x65u8, 0x67u8, 0x69u8, 0x6Eu8];
    proof {
        assert(v@ =~= begin_kw());
    }
    v
}

fn kw_end() -> (v: Vec<u8>)
    ensures
        v@ == end_kw(),
{
    let v = vec![0x65u8, 0x6Eu8, 0x64u8];
    proof {
        assert(v@ =~= end_kw());
    }
    v
}

/// `\begin{name}` at `i`: the name's range and the position after `}`.
fn match_begin(b: &[u8], i: usize) -> (r: Option<(usize, usize, usize)>)
    ensures
        r matches Some((s, e, next)) ==> kw_at(b@, i as int, begin_kw()) && s == i + 7 && s < e
            && next == e + 1 && next <= b@.len(),
        triple_of(r) == begin_at(b@, i as int),
{
    let kw = kw_begin();
    match match_kw(b, i, &kw) {
        Some(after) => parse_env_name(b, after),
        None => None,
    }
}

/// `\end{name}` at `j`.
fn match_end(b: &[u8], j: usize) -> (r: Option<(usize, usize, usize)>)
    ensures
        r matches Some((s, e, next)) ==> kw_at(b@, j as int, end_kw()) && s == j + 5 && s < e
            && next == e + 1 && next <= b@.len(),
        triple_of(r) == end_at(b@, j as int),
{
    let kw = kw_end();
    match match_kw(b, j, &kw) {
        Some(after) => parse_env_name(b, after),
        None => None,
    }
}

/// Byte-wise equality of two sub-slices.
fn same_bytes(b: &[u8], s1: usize, e1: usize, s2: usize, e2: usize) -> (r: bool)
    requires
        s1 <= e1 <= b@.len(),
        s2 <= e2 <= b@.len(),
    ensures
        r == (b@.subrange(s1 as int, e1 as int) == b@.subrange(s2 as int, e2 as int)),
{
    if e1 - s1 != e2 - s2 {
        proof {
            assert(b@.subrange(s1 as int, e1 as int).len() != b@.subrange(s2 as int, e2 as int).len());
        }
        return false;
    }
    let mut k: usize = 0;
    while k < e1 - s1
        invariant
            s1 <= e1 <= b@.len(),
            s2 <= e2 <= b@.len(),
            e1 - s1 == e2 - s2,
            k <= e1 - s1,
            forall|m: int| 0 <= m < k ==> #[trigger] b@.subrange(s1 as int, e1 as int)[m] == b@.subrange(s2 as int, e2 as int)[m],
        decreases e1 - s1 - k,
    {
        if b[s1 + k] != b[s2 + k] {
            proof {
                assert(b@.subrange(s1 as int, e1 as int)[k as int] != b@.subrange(s2 as int, e2 as int)[k as int]);
            }
            return false;
        }
        k = k + 1;
    }
    proof {
        assert(b@.subrange(s1 as int, e1 as int) =~= b@.subrange(s2 as int, e2 as int));
    }
    true
}

/// The matching `\end{name}` for an environment whose name is
/// `b[ns..ne]`, scanning from `j` with `depth` environments of that name
/// open: the position of its `\` and the position after its `}`.
/// Skipped zones (per `inz`, ending per `zend`) are stepped over whole; a
/// nested `\begin` of the same name opens one more level.
pub open spec fn env_close_from(
    b: Seq<u8>,
    inz: spec_fn(int) -> bool,
    zend: spec_fn(int) -> int,
    ns: int,
    ne: int,
    j: int,
    depth: u32,
) -> Option<(int, int)>
    decreases b.len() - j,
{
    if j < 0 || j >= b.len() {
        None
    } else if inz(j) {
        let e = zend(j);
        if e <= j {
            None
        } else {
            env_close_from(b, inz, zend, ns, ne, if e < b.len() { e } else { b.len() as int }, depth)
        }
    } else {
        match end_at(b, j) {
            Some((s, e, after)) => if after <= j || after > b.len() {
                None
            } else if b.subrange(s, e) == b.subrange(ns, ne) {
                let d2: u32 = if depth > 0 {
                    (depth - 1) as u32
                } else {
                    0
                };
                if d2 == 0 {
                    Some((j, after))
                } else {
                    env_close_from(b, inz, zend, ns, ne, after, d2)
                }
            } else {
                env_close_from(b, inz, zend, ns, ne, after, depth)
            },
            None => match begin_at(b, j) {
                Some((s, e, after)) => if after <= j || after > b.len() {
                    None
                } else {
                    let d2: u32 = if b.subrange(s, e) == b.subrange(ns, ne) && depth < u32::MAX {
                        (depth + 1) as u32
                    } else {
                        depth
                    };
                    env_close_from(b, inz, zend, ns, ne, after, d2)
                },
                None => env_close_from(b, inz, zend, ns, ne, j + 1, depth),
            },
        }
    }
}

pub open spec fn pair_of(r: Option<(usize, usize)>) -> Option<(int, int)> {
    match r {
        Some((a, b)) => Some((a as int, b as int)),
        None => None,
    }
}

/// The matching `\end{name}` for an environment opened before `from`:
/// the position of its `\` and the position after its `}`.
fn find_end_env(b: &[u8], from: usize, ns: usize, ne: usize, z: &Vec<Range<usize>>) -> (r: Option<(usize, usize)>)
    requires
        zones_separated(z@),
        ns <= ne <= b@.len(),
        from <= b@.len(),
    ensures
        r matches Some((es, ea)) ==> from <= es && es + 6 <= ea && ea <= b@.len() && kw_at(b@, es as int, end_kw()),
        pair_of(r) == env_close_from(b@, zones_pred(z@), zones_end(z@), ns as int, ne as int, from as int, 1),
{
    let ghost inz = zones_pred(z@);
    let ghost zend = zones_end(z@);
    let mut depth: u32 = 1;
    let mut j = from;
    while j < b.len()
        invariant
            from <= j,
            zones_separated(z@),
            ns <= ne <= b@.len(),
            inz == zones_pred(z@),
            zend == zones_end(z@),
            env_close_from(b@, inz, zend, ns as int, ne as int, j as int, depth) == env_close_from(
                b@,
                inz,
                zend,
                ns as int,
                ne as int,
                from as int,
                1,
            ),
        decreases b@.len() - j,
    {
        match excluded_end(z, j) {
            Some(e) => {
                assert(inz(j as int));
                assert(zend(j as int) == e);
                j = if e < b.len() {
                    e
                } else {
                    b.len()
                };
                continue;
            },
            None => {},
        }
        assert(!inz(j as int));
        match match_end(b, j) {
            Some((s, e, after)) => {
                if same_bytes(b, s, e, ns, ne) {
                    if depth > 0 {
                        depth = depth - 1;
                    }
                    if depth == 0 {
                        return Some((j, after));
                    }
                }
                j = after;
                continue;
            },
            None => {},
        }
        match match_begin(b, j) {
            Some((s, e, after)) => {
                if same_bytes(b, s, e, ns, ne) && depth < u32::MAX {
                    depth = depth + 1;
                }
                j = after;
                continue;
            },
            None => {},
        }
        j = j + 1;
    }
    None
}

/// The opener a configuration recognises at `i`, and its length.
pub open spec fn open_at(b: Seq<u8>, i: int, cfg: MathConfig) -> Option<AnyDelim> {
    if !(0 <= i < b.len()) {
        None
    } else if b[i] == 0x5C {
        if !backslashes_even(b, i) || i + 1 >= b.len() {
            None
        } else if b[i + 1] == 0x5B && cfg.backslash_bracket {
            Some(AnyDelim::Bracket)
        } else if b[i + 1] == 0x28 && cfg.backslash_paren {
            Some(AnyDelim::Paren)
        } else {
            None
        }
    } else if b[i] == 0x24 {
        if cfg.double_dollar && i + 1 < b.len() && b[i + 1] == 0x24 {
            Some(AnyDelim::Dollar2)
        } else if cfg.single_dollar {
            Some(AnyDelim::Dollar)
        } else {
            None
        }
    } else {
        None
    }
}

fn match_open(b: &[u8], i: usize, cfg: MathConfig) -> (r: Option<(AnyDelim, usize)>)
    ensures
        r is Some <==> open_at(b@, i as int, cfg) is Some,
        r matches Some((d, n)) ==> open_at(b@, i as int, cfg) == Some(d) && n == open_bytes(d).len()
            && has_at(b@, i as int, open_bytes(d)),
{
    if i >= b.len() {
        return None;
    }
    let c = b[i];
    if c == 0x5C {
        if !preceding_backslashes_even(b, i) {
            return None;
        }
        if i + 1 >= b.len() {
            return None;
        }
        let next = b[i + 1];
        if next == 0x5B && cfg.backslash_bracket {
            proof {
                assert(b@.subrange(i as int, i + 2) =~= open_bytes(AnyDelim::Bracket));
            }
            Some((AnyDelim::Bracket, 2))
        } else if next == 0x28 && cfg.backslash_paren {
            proof {
                assert(b@.subrange(i as int, i + 2) =~= open_bytes(AnyDelim::Paren));
            }
            Some((AnyDelim::Paren, 2))
        } else {
            None
        }
    } else if c == 0x24 {
        if cfg.double_dollar && i + 1 < b.len() && b[i + 1] == 0x24 {
            proof {
                assert(b@.subrange(i as int, i + 2) =~= open_bytes(AnyDelim::Dollar2));
            }
            Some((AnyDelim::Dollar2, 2))
        } else if cfg.single_dollar {
            proof {
                assert(b@.subrange(i as int, i + 1) =~= open_bytes(AnyDelim::Dollar));
            }
            Some((AnyDelim::Dollar, 1))
        } else {
            None
        }
    } else {
        None
    }
}

/// The last byte of the close token of `delim`.
fn close_target_byte(delim: AnyDelim) -> (r: u8)
    ensures
        r == close_bytes(delim).last(),
{
    match delim {
        AnyDelim::Bracket => 0x5Du8,
        AnyDelim::Paren => 0x29u8,
        AnyDelim::Dollar2 | AnyDelim::Dollar => 0x24u8,
    }
}

/// Position membership in the zones of `z`, as a predicate.
pub open spec fn zones_pred(z: Seq<Range<usize>>) -> spec_fn(int) -> bool {
    |p: int| in_zones(z, p)
}

/// Zone ends of `z`, as a function.
pub open spec fn zones_end(z: Seq<Range<usize>>) -> spec_fn(int) -> int {
    |p: int| zone_end_of(z, p)
}

/// A close token for `d` at `j`: an unescaped `\]` or `\)`, or `$$`, or
/// `$`.
pub open spec fn close_at(b: Seq<u8>, j: int, d: AnyDelim) -> bool {
    match d {
        AnyDelim::Bracket | AnyDelim::Paren => 0 <= j && j + 1 < b.len() && b[j] == 0x5C && b[j + 1]
            == close_bytes(d).last() && backslashes_even(b, j),
        AnyDelim::Dollar2 => 0 <= j && j + 1 < b.len() && b[j] == 0x24 && b[j + 1] == 0x24,
        AnyDelim::Dollar => 0 <= j < b.len() && b[j] == 0x24,
    }
}

/// The first close token for `d` from `j` on, unless a skipped position
/// (per `inz`) comes first.
pub open spec fn close_from(b: Seq<u8>, inz: spec_fn(int) -> bool, d: AnyDelim, j: int) -> Option<int>
    decreases b.len() - j,
{
    if j < 0 || j >= b.len() {
        None
    } else if inz(j) {
        None
    } else if close_at(b, j, d) {
        Some(j)
    } else {
        close_from(b, inz, d, j + 1)
    }
}

/// The first close token for `d` at or after `from`, unless an
/// exclusion zone comes first.
fn find_close(b: &[u8], from: usize, d: AnyDelim, z: &Vec<Range<usize>>) -> (r: Option<usize>)
    requires
        zones_separated(z@),
    ensures
        r matches Some(j) ==> from <= j && has_at(b@, j as int, close_bytes(d)),
        match r {
            Some(j) => close_from(b@, zones_pred(z@), d, from as int) == Some(j as int),
            None => close_from(b@, zones_pred(z@), d, from as int) is None,
        },
{
    let mut j = from;
    while j < b.len()
        invariant
            from <= j,
            zones_separated(z@),
            close_from(b@, zones_pred(z@), d, j as int) == close_from(b@, zones_pred(z@), d, from as int),
        decreases b@.len() - j,
    {
        if excluded_end(z, j).is_some() {
            assert(zones_pred(z@)(j as int));
            return None;
        }
        assert(!zones_pred(z@)(j as int));
        match d {
            AnyDelim::Bracket | AnyDelim::Paren => {
                let target = close_target_byte(d);
                if b[j] == 0x5C && j + 1 < b.len() && b[j + 1] == target
                    && preceding_backslashes_even(b, j) {
                    proof {
                        assert(b@.subrange(j as int, j + 2) =~= close_bytes(d));
                    }
                    return Some(j);
                }
            },
            AnyDelim::Dollar2 => {
                if b[j] == 0x24 && j + 1 < b.len() && b[j + 1] == 0x24 {
                    proof {
                        assert(b@.subrange(j as int, j + 2) =~= close_bytes(d));
                    }
                    return Some(j);
                }
            },
            AnyDelim::Dollar => {
                if b[j] == 0x24 {
                    proof {
                        assert(b@.subrange(j as int, j + 1) =~= close_bytes(d));
                    }
                    return Some(j);
                }
            },
        }
        j = j + 1;
    }
    None
}

// ----------------------------------------------------------------------
// The scan
// ----------------------------------------------------------------------

/// The span's body range, delimiters included in `range`, match the
/// source bytes.
pub open spec fn region_ok(b: Seq<u8>, r: MathRegion) -> bool {
    let lo = r.range.start as int;
    let hi = r.range.end as int;
    lo < hi <= b.len() && match r.span {
        MathSpan::Inline { delim, body } => delimited(b, lo, hi, inline_family(delim), body),
        MathSpan::Display { delim, body } => delimited(b, lo, hi, display_family(delim), body),
        MathSpan::Environment { env, body } => {
            &&& kw_at(b, lo, begin_kw())
            &&& lo + 7 < body.range.start <= body.range.end < hi
            &&& kw_at(b, body.range.end as int, end_kw())
            &&& env_closes(b, lo, body.range.end as int, hi)
            &&& body.transparent@.len() == 0
        },
    }
}

/// The `\end{name}` at `es` closes the `\begin{name}` at `lo`: the same
/// name, and the region ends right after its `}`.
pub open spec fn env_closes(b: Seq<u8>, lo: int, es: int, hi: int) -> bool {
    match (begin_at(b, lo), end_at(b, es)) {
        (Some((ns, ne, _)), Some((s, e, after))) => b.subrange(s, e) == b.subrange(ns, ne) && after == hi,
        _ => false,
    }
}

proof fn lemma_env_close_matches(
    b: Seq<u8>,
    inz: spec_fn(int) -> bool,
    zend: spec_fn(int) -> int,
    ns: int,
    ne: int,
    j: int,
    depth: u32,
    es: int,
    ea: int,
)
    requires
        env_close_from(b, inz, zend, ns, ne, j, depth) == Some((es, ea)),
    ensures
        end_at(b, es) matches Some((s, e, after)) && b.subrange(s, e) == b.subrange(ns, ne) && after == ea,
    decreases b.len() - j,
{
    if j < 0 || j >= b.len() {
    } else if inz(j) {
        let e = zend(j);
        if e > j {
            lemma_env_close_matches(b, inz, zend, ns, ne, if e < b.len() { e } else { b.len() as int }, depth, es, ea);
        }
    } else {
        match end_at(b, j) {
            Some((s2, e2, after)) => if after <= j || after > b.len() {
            } else if b.subrange(s2, e2) == b.subrange(ns, ne) {
                let d2: u32 = if depth > 0 { (depth - 1) as u32 } else { 0 };
                if d2 != 0 {
                    lemma_env_close_matches(b, inz, zend, ns, ne, after, d2, es, ea);
                }
            } else {
                lemma_env_close_matches(b, inz, zend, ns, ne, after, depth, es, ea);
            },
            None => match begin_at(b, j) {
                Some((s2, e2, after)) => if after <= j || after > b.len() {
                } else {
                    let d2: u32 = if b.subrange(s2, e2) == b.subrange(ns, ne) && depth < u32::MAX {
                        (depth + 1) as u32
                    } else {
                        depth
                    };
                    lemma_env_close_matches(b, inz, zend, ns, ne, after, d2, es, ea);
                },
                None => lemma_env_close_matches(b, inz, zend, ns, ne, j + 1, depth, es, ea),
            },
        }
    }
}

pub open spec fn delimited(b: Seq<u8>, lo: int, hi: int, d: AnyDelim, body: MathBody) -> bool {
    &&& has_at(b, lo, open_bytes(d))
    &&& body.range.start == lo + open_bytes(d).len()
    &&& body.range.start <= body.range.end
    &&& body.range.end + close_bytes(d).len() == hi
    &&& has_at(b, body.range.end as int, close_bytes(d))
    &&& body.transparent@.len() == 0
}

/// What each reported error points at.
pub open spec fn error_ok(b: Seq<u8>, e: MathError) -> bool {
    match e {
        MathError::UnbalancedDelim { delim, range } => has_at(b, range.start as int, open_bytes(delim))
            && range.end == range.start + open_bytes(delim).len(),
        MathError::UnbalancedEnv { range, .. } => kw_at(b, range.start as int, begin_kw()) && range.start
            < range.end <= b.len(),
        MathError::UnbalancedBraces { region, .. } => region.start < region.end <= b.len(),
    }
}

/// Regions in source order, none overlapping the next.
pub open spec fn regions_ordered(rs: Seq<MathRegion>) -> bool {
    forall|j: int, k: int| 0 <= j < k < rs.len() ==> #[trigger] rs[j].range.end <= #[trigger] rs[k].range.start
}

/// A recognised region, as the scan finds it: its range, its body's
/// range, and its delimiter pair or environment.
pub enum RegionShape {
    Delimited(Range<usize>, Range<usize>, AnyDelim),
    Env(Range<usize>, Range<usize>, EnvKind),
}

/// A reported error, as the scan finds it. An unclosed environment
/// carries the range of its name in the source.
pub enum ErrorShape {
    Delim(AnyDelim, Range<usize>),
    Env(Range<usize>, Range<usize>),
    Braces(usize, Range<usize>),
}

pub open spec fn region_shape(r: MathRegion) -> RegionShape {
    match r.span {
        MathSpan::Inline { delim, body } => RegionShape::Delimited(r.range, body.range, inline_family(delim)),
        MathSpan::Display { delim, body } => RegionShape::Delimited(r.range, body.range, display_family(delim)),
        MathSpan::Environment { env, body } => RegionShape::Env(r.range, body.range, env),
    }
}

/// The characters of `s` between byte offsets `a` and `b`, or nothing
/// when that is not a slice of `s`.
pub open spec fn name_chars(s: Seq<char>, a: int, b: int) -> Seq<char> {
    if slice_ok(s, a, b) {
        decode_utf8(utf8_of(s).subrange(a, b))
    } else {
        Seq::empty()
    }
}

/// `e` is the error `sh` describes.
pub open spec fn error_fits(e: MathError, sh: ErrorShape, s: Seq<char>) -> bool {
    match (e, sh) {
        (MathError::UnbalancedDelim { delim, range }, ErrorShape::Delim(d, r)) => delim == d && range == r,
        (MathError::UnbalancedEnv { name, range }, ErrorShape::Env(r, n)) => range == r && name@ == name_chars(
            s,
            n.start as int,
            n.end as int,
        ),
        (MathError::UnbalancedBraces { offset, region }, ErrorShape::Braces(o, r)) => offset == o && region == r,
        _ => false,
    }
}

/// The environment a name `s[ns..ne]` names.
pub open spec fn env_kind_at(s: Seq<char>, ns: int, ne: int) -> EnvKind {
    if slice_ok(s, ns, ne) {
        match env_of_name(name_chars(s, ns, ne)) {
            Some(k) => EnvKind::Known(k),
            None => EnvKind::Custom(Range { start: ns as usize, end: ne as usize }),
        }
    } else {
        EnvKind::Custom(Range { start: ns as usize, end: ne as usize })
    }
}

/// The brace error of the region `lo..hi` whose body is `bs..be`: the
/// first offending byte, when the body's braces do not balance.
pub open spec fn brace_error_at(s: Seq<char>, lo: int, hi: int, bs: int, be: int) -> Seq<ErrorShape> {
    if slice_ok(s, bs, be) {
        match brace_scan(utf8_of(s).subrange(bs, be), 0, 0) {
            Err(off) => seq![ErrorShape::Braces(sat_add_spec(bs, off) as usize, Range { start: lo as usize, end: hi as usize })],
            Ok(_) => seq![],
        }
    } else {
        seq![]
    }
}

fn record_brace_errors(source: &str, lo: usize, hi: usize, bs: usize, be: usize, errors: &mut Vec<MathError>)
    requires
        lo < hi <= utf8_of(source@).len(),
    ensures
        final(errors)@.len() >= old(errors)@.len(),
        forall|k: int| 0 <= k < old(errors)@.len() ==> #[trigger] final(errors)@[k] == old(errors)@[k],
        forall|k: int| old(errors)@.len() <= k < final(errors)@.len() ==> #[trigger] final(errors)@[k] is UnbalancedBraces
            && error_ok(utf8_of(source@), final(errors)@[k]),
        final(errors)@.len() == old(errors)@.len() + brace_error_at(source@, lo as int, hi as int, bs as int, be as int).len(),
        forall|k: int| 0 <= k < brace_error_at(source@, lo as int, hi as int, bs as int, be as int).len() ==> error_fits(
            #[trigger] final(errors)@[old(errors)@.len() + k],
            brace_error_at(source@, lo as int, hi as int, bs as int, be as int)[k],
            source@,
        ),
{
    match str_get(source, bs, be) {
        Some(slice) => match body_braces_balanced(slice) {
            Err(off) => {
                errors.push(MathError::UnbalancedBraces {
                    offset: crate::math::span::sat_add(bs, off),
                    region: Range { start: lo, end: hi },
                });
            },
            Ok(()) => {},
        },
        None => {},
    }
}

/// Skipped positions of the input ranges, as a predicate.
pub open spec fn skip_pred(rs: Seq<Range<usize>>) -> spec_fn(int) -> bool {
    |p: int| in_zones(rs, p)
}

/// Where the run of skipped positions from a position ends.
pub open spec fn skip_end(rs: Seq<Range<usize>>) -> spec_fn(int) -> int {
    |p: int| free_from(rs, p)
}

/// The regions and errors of a left-to-right scan of `b` (the bytes of
/// `s`) from `i`. A skipped position jumps to the end of its run. Else,
/// when environments are on, `\begin{name}` opens a region that ends
/// after its matching `\end{name}`, or an error when there is none.
/// Else an opener the configuration recognises opens a region that ends
/// after the first close token of its pair, or an error when a skipped
/// zone or the end of the text comes first. Every region's body is
/// checked for balanced braces.
#[verifier::opaque]
pub open spec fn math_scan(
    b: Seq<u8>,
    s: Seq<char>,
    inz: spec_fn(int) -> bool,
    zend: spec_fn(int) -> int,
    cfg: MathConfig,
    i: int,
) -> (Seq<RegionShape>, Seq<ErrorShape>)
    decreases b.len() - i,
{
    if i < 0 || i >= b.len() {
        (seq![], seq![])
    } else if inz(i) {
        let e = zend(i);
        if e <= i {
            (seq![], seq![])
        } else {
            math_scan(b, s, inz, zend, cfg, if e < b.len() { e } else { b.len() as int })
        }
    } else {
        let env = if cfg.environments {
            begin_at(b, i)
        } else {
            None
        };
        match env {
            Some((ns, ne, after)) => if after <= i || after > b.len() {
                (seq![], seq![])
            } else {
                match env_close_from(b, inz, zend, ns, ne, after, 1) {
                    Some((es, ea)) => if ea <= i || ea > b.len() {
                        (seq![], seq![])
                    } else {
                        let rest = math_scan(b, s, inz, zend, cfg, ea);
                        (
                            seq![RegionShape::Env(Range { start: i as usize, end: ea as usize }, Range { start: after as usize, end: es as usize }, env_kind_at(s, ns, ne))] + rest.0,
                            brace_error_at(s, i, ea, after, es) + rest.1,
                        )
                    },
                    None => {
                        let rest = math_scan(b, s, inz, zend, cfg, after);
                        (rest.0, seq![ErrorShape::Env(Range { start: i as usize, end: after as usize }, Range { start: ns as usize, end: ne as usize })] + rest.1)
                    },
                }
            },
            None => match open_at(b, i, cfg) {
                None => math_scan(b, s, inz, zend, cfg, i + 1),
                Some(d) => {
                    let cs = i + open_bytes(d).len();
                    if cs > b.len() {
                        (seq![], seq![])
                    } else {
                        match close_from(b, inz, d, cs) {
                            Some(c) => {
                                let re = c + close_bytes(d).len();
                                if re <= i || re > b.len() {
                                    (seq![], seq![])
                                } else {
                                    let rest = math_scan(b, s, inz, zend, cfg, re);
                                    (
                                        seq![RegionShape::Delimited(Range { start: i as usize, end: re as usize }, Range { start: cs as usize, end: c as usize }, d)] + rest.0,
                                        brace_error_at(s, i, re, cs, c) + rest.1,
                                    )
                                }
                            },
                            None => {
                                let rest = math_scan(b, s, inz, zend, cfg, cs);
                                (rest.0, seq![ErrorShape::Delim(d, Range { start: i as usize, end: cs as usize })] + rest.1)
                            },
                        }
                    }
                },
            },
        }
    }
}

proof fn lemma_scan_end(b: Seq<u8>, s: Seq<char>, inz: spec_fn(int) -> bool, zend: spec_fn(int) -> int, cfg: MathConfig, i: int)
    requires
        i >= b.len(),
    ensures
        math_scan(b, s, inz, zend, cfg, i) == (Seq::<RegionShape>::empty(), Seq::<ErrorShape>::empty()),
{
    reveal(math_scan);
}

proof fn lemma_scan_zone(b: Seq<u8>, s: Seq<char>, inz: spec_fn(int) -> bool, zend: spec_fn(int) -> int, cfg: MathConfig, i: int)
    requires
        0 <= i < b.len(),
        inz(i),
        zend(i) > i,
    ensures
        math_scan(b, s, inz, zend, cfg, i) == math_scan(b, s, inz, zend, cfg, if zend(i) < b.len() {
            zend(i)
        } else {
            b.len() as int
        }),
{
    reveal(math_scan);
}

proof fn lemma_scan_env_found(
    b: Seq<u8>,
    s: Seq<char>,
    inz: spec_fn(int) -> bool,
    zend: spec_fn(int) -> int,
    cfg: MathConfig,
    i: int,
    ns: int,
    ne: int,
    after: int,
    es: int,
    ea: int,
)
    requires
        0 <= i < after <= b.len(),
        i < ea <= b.len(),
        !inz(i),
        cfg.environments,
        begin_at(b, i) == Some((ns, ne, after)),
        env_close_from(b, inz, zend, ns, ne, after, 1) == Some((es, ea)),
    ensures
        math_scan(b, s, inz, zend, cfg, i) == (
            seq![RegionShape::Env(Range { start: i as usize, end: ea as usize }, Range { start: after as usize, end: es as usize }, env_kind_at(s, ns, ne))]
                + math_scan(b, s, inz, zend, cfg, ea).0,
            brace_error_at(s, i, ea, after, es) + math_scan(b, s, inz, zend, cfg, ea).1,
        ),
{
    reveal(math_scan);
}

proof fn lemma_scan_env_missing(
    b: Seq<u8>,
    s: Seq<char>,
    inz: spec_fn(int) -> bool,
    zend: spec_fn(int) -> int,
    cfg: MathConfig,
    i: int,
    ns: int,
    ne: int,
    after: int,
)
    requires
        0 <= i < after <= b.len(),
        !inz(i),
        cfg.environments,
        begin_at(b, i) == Some((ns, ne, after)),
        env_close_from(b, inz, zend, ns, ne, after, 1) is None,
    ensures
        math_scan(b, s, inz, zend, cfg, i) == (
            math_scan(b, s, inz, zend, cfg, after).0,
            seq![ErrorShape::Env(Range { start: i as usize, end: after as usize }, Range { start: ns as usize, end: ne as usize })]
                + math_scan(b, s, inz, zend, cfg, after).1,
        ),
{
    reveal(math_scan);
}

proof fn lemma_scan_no_open(b: Seq<u8>, s: Seq<char>, inz: spec_fn(int) -> bool, zend: spec_fn(int) -> int, cfg: MathConfig, i: int)
    requires
        0 <= i < b.len(),
        !inz(i),
        !cfg.environments || begin_at(b, i) is None,
        open_at(b, i, cfg) is None,
    ensures
        math_scan(b, s, inz, zend, cfg, i) == math_scan(b, s, inz, zend, cfg, i + 1),
{
    reveal(math_scan);
}

proof fn lemma_scan_delim_found(
    b: Seq<u8>,
    s: Seq<char>,
    inz: spec_fn(int) -> bool,
    zend: spec_fn(int) -> int,
    cfg: MathConfig,
    i: int,
    d: AnyDelim,
    c: int,
)
    requires
        0 <= i < b.len(),
        i + open_bytes(d).len() <= b.len(),
        i < c + close_bytes(d).len() <= b.len(),
        !inz(i),
        !cfg.environments || begin_at(b, i) is None,
        open_at(b, i, cfg) == Some(d),
        close_from(b, inz, d, i + open_bytes(d).len()) == Some(c),
    ensures
        math_scan(b, s, inz, zend, cfg, i) == (
            seq![RegionShape::Delimited(Range { start: i as usize, end: (c + close_bytes(d).len()) as usize }, Range { start: (i + open_bytes(d).len()) as usize, end: c as usize }, d)]
                + math_scan(b, s, inz, zend, cfg, c + close_bytes(d).len()).0,
            brace_error_at(s, i, c + close_bytes(d).len(), i + open_bytes(d).len(), c) + math_scan(
                b,
                s,
                inz,
                zend,
                cfg,
                c + close_bytes(d).len(),
            ).1,
        ),
{
    reveal(math_scan);
}

proof fn lemma_scan_delim_missing(
    b: Seq<u8>,
    s: Seq<char>,
    inz: spec_fn(int) -> bool,
    zend: spec_fn(int) -> int,
    cfg: MathConfig,
    i: int,
    d: AnyDelim,
)
    requires
        0 <= i < b.len(),
        i + open_bytes(d).len() <= b.len(),
        !inz(i),
        !cfg.environments || begin_at(b, i) is None,
        open_at(b, i, cfg) == Some(d),
        close_from(b, inz, d, i + open_bytes(d).len()) is None,
    ensures
        math_scan(b, s, inz, zend, cfg, i) == (
            math_scan(b, s, inz, zend, cfg, i + open_bytes(d).len()).0,
            seq![ErrorShape::Delim(d, Range { start: i as usize, end: (i + open_bytes(d).len()) as usize })]
                + math_scan(b, s, inz, zend, cfg, i + open_bytes(d).len()).1,
        ),
{
    reveal(math_scan);
}

/// What holds of a scan stopped at `i`: the regions and errors found so
/// far are the first ones of the whole scan, described by `done_r` and
/// `done_e`, and each is well placed.
spec fn scan_inv(
    b: Seq<u8>,
    s: Seq<char>,
    z: Seq<Range<usize>>,
    cfg: MathConfig,
    full: (Seq<RegionShape>, Seq<ErrorShape>),
    regions: Seq<MathRegion>,
    errors: Seq<MathError>,
    done_r: Seq<RegionShape>,
    done_e: Seq<ErrorShape>,
    i: int,
) -> bool {
    &&& b == utf8_of(s)
    &&& zones_separated(z)
    &&& full == math_scan(b, s, zones_pred(z), zones_end(z), cfg, 0)
    &&& regions_ordered(regions)
    &&& forall|k: int| 0 <= k < regions.len() ==> region_ok(b, #[trigger] regions[k])
    &&& forall|k: int| 0 <= k < regions.len() ==> #[trigger] regions[k].range.end <= i
    &&& forall|k: int| 0 <= k < regions.len() ==> !in_zones(z, #[trigger] regions[k].range.start as int)
    &&& forall|k: int| 0 <= k < errors.len() ==> error_ok(b, #[trigger] errors[k])
    &&& !cfg.environments ==> forall|k: int| 0 <= k < regions.len() ==> !(#[trigger] regions[k].span is Environment)
    &&& !cfg.environments ==> forall|k: int| 0 <= k < errors.len() ==> !(#[trigger] errors[k] is UnbalancedEnv)
    &&& regions.len() == done_r.len()
    &&& forall|k: int| 0 <= k < regions.len() ==> region_shape(#[trigger] regions[k]) == done_r[k]
    &&& forall|k: int| 0 <= k < regions.len() ==> span_body(#[trigger] regions[k].span).transparent@.len() == 0
    &&& errors.len() == done_e.len()
    &&& forall|k: int| 0 <= k < errors.len() ==> error_fits(#[trigger] errors[k], done_e[k], s)
    &&& done_r + math_scan(b, s, zones_pred(z), zones_end(z), cfg, i).0 == full.0
    &&& done_e + math_scan(b, s, zones_pred(z), zones_end(z), cfg, i).1 == full.1
}

/// One step at a `\begin{name}` at `i`: a region up to the matching
/// `\end{name}`, or an error for an unclosed environment.
#[verifier::rlimit(30)]
fn scan_env_step(
    source: &str,
    b: &[u8],
    z: &Vec<Range<usize>>,
    cfg: MathConfig,
    i: usize,
    ns: usize,
    ne: usize,
    after: usize,
    regions: &mut Vec<MathRegion>,
    errors: &mut Vec<MathError>,
    Ghost(full): Ghost<(Seq<RegionShape>, Seq<ErrorShape>)>,
    Ghost(done_r): Ghost<Seq<RegionShape>>,
    Ghost(done_e): Ghost<Seq<ErrorShape>>,
) -> (r: (usize, Ghost<Seq<RegionShape>>, Ghost<Seq<ErrorShape>>))
    requires
        b@ == utf8_of(source@),
        i < b@.len(),
        scan_inv(b@, source@, z@, cfg, full, old(regions)@, old(errors)@, done_r, done_e, i as int),
        cfg.environments,
        !in_zones(z@, i as int),
        begin_at(b@, i as int) == Some((ns as int, ne as int, after as int)),
        kw_at(b@, i as int, begin_kw()) && ns == i + 7 && ns < ne && after == ne + 1 && after <= b@.len(),
    ensures
        i < r.0 <= b@.len(),
        scan_inv(b@, source@, z@, cfg, full, final(regions)@, final(errors)@, r.1@, r.2@, r.0 as int),
{
    let ghost inz = zones_pred(z@);
    let ghost zend = zones_end(z@);
    let ghost here = math_scan(b@, source@, inz, zend, cfg, i as int);
    match find_end_env(b, after, ns, ne, z) {
        Some((es, ea)) => {
            let env_kind = match str_get(source, ns, ne) {
                Some(name) => {
                    proof {
                        encode_utf8_decode_utf8(name@);
                    }
                    match KnownEnv::from_name(name) {
                        Some(k) => EnvKind::Known(k),
                        None => EnvKind::Custom(Range { start: ns, end: ne }),
                    }
                },
                None => EnvKind::Custom(Range { start: ns, end: ne }),
            };
            assert(env_kind == env_kind_at(source@, ns as int, ne as int));
            let ghost errs_before = errors@;
            let ghost regs_before = regions@;
            record_brace_errors(source, i, ea, after, es, errors);
            let region = MathRegion {
                range: Range { start: i, end: ea },
                span: MathSpan::Environment {
                    env: env_kind,
                    body: MathBody::new(Range { start: after, end: es }, Vec::new()),
                },
            };
            let ghost be = brace_error_at(source@, i as int, ea as int, after as int, es as int);
            proof {
                lemma_env_close_matches(b@, inz, zend, ns as int, ne as int, after as int, 1, es as int, ea as int);
                assert(region_ok(b@, region));
                let rest = math_scan(b@, source@, inz, zend, cfg, ea as int);
                lemma_scan_env_found(b@, source@, inz, zend, cfg, i as int, ns as int, ne as int, after as int, es as int, ea as int);
                assert(here.0 == seq![region_shape(region)] + rest.0);
                assert(here.1 == be + rest.1);
                assert((done_r.push(region_shape(region))) + rest.0 =~= done_r + here.0);
                assert((done_e + be) + rest.1 =~= done_e + here.1);
                assert forall|k: int| 0 <= k < errors@.len() implies error_fits(#[trigger] errors@[k], (done_e + be)[k], source@) by {
                    if k < errs_before.len() {
                        assert(errors@[k] == errs_before[k]);
                    } else {
                        assert(errors@[errs_before.len() + (k - errs_before.len())] == errors@[k]);
                    }
                }
            }
            regions.push(region);
            proof {
                assert forall|j: int, k: int| 0 <= j < k < regions@.len() implies #[trigger] regions@[j].range.end
                    <= #[trigger] regions@[k].range.start by {
                    if k == regions@.len() - 1 {
                        assert(regions@[j] == regs_before[j]);
                    }
                }
            }
            (ea, Ghost(done_r.push(region_shape(region))), Ghost(done_e + be))
        },
        None => {
            let name = match str_get(source, ns, ne) {
                Some(n) => {
                    proof {
                        encode_utf8_decode_utf8(n@);
                    }
                    n.to_owned()
                },
                None => String::new(),
            };
            let err = MathError::UnbalancedEnv { name, range: Range { start: i, end: after } };
            let ghost sh = ErrorShape::Env(Range { start: i, end: after }, Range { start: ns, end: ne });
            proof {
                assert(error_fits(err, sh, source@));
                let rest = math_scan(b@, source@, inz, zend, cfg, after as int);
                lemma_scan_env_missing(b@, source@, inz, zend, cfg, i as int, ns as int, ne as int, after as int);
                assert(here.0 == rest.0);
                assert(here.1 == seq![sh] + rest.1);
                assert(done_e.push(sh) + rest.1 =~= done_e + here.1);
                assert(done_r + rest.0 == done_r + here.0);
            }
            errors.push(err);
            (after, Ghost(done_r), Ghost(done_e.push(sh)))
        },
    }
}

/// One step at an opener `d` at `i`: a region up to the first close
/// token of its pair, or an error for an unclosed opener.
#[verifier::rlimit(30)]
fn scan_delim_step(
    source: &str,
    b: &[u8],
    z: &Vec<Range<usize>>,
    cfg: MathConfig,
    i: usize,
    d: AnyDelim,
    open_len: usize,
    regions: &mut Vec<MathRegion>,
    errors: &mut Vec<MathError>,
    Ghost(full): Ghost<(Seq<RegionShape>, Seq<ErrorShape>)>,
    Ghost(done_r): Ghost<Seq<RegionShape>>,
    Ghost(done_e): Ghost<Seq<ErrorShape>>,
) -> (r: (usize, Ghost<Seq<RegionShape>>, Ghost<Seq<ErrorShape>>))
    requires
        b@ == utf8_of(source@),
        i < b@.len(),
        scan_inv(b@, source@, z@, cfg, full, old(regions)@, old(errors)@, done_r, done_e, i as int),
        !in_zones(z@, i as int),
        !cfg.environments || begin_at(b@, i as int) is None,
        open_at(b@, i as int, cfg) == Some(d),
        open_len == open_bytes(d).len(),
        has_at(b@, i as int, open_bytes(d)),
    ensures
        i < r.0 <= b@.len(),
        scan_inv(b@, source@, z@, cfg, full, final(regions)@, final(errors)@, r.1@, r.2@, r.0 as int),
{
    let ghost inz = zones_pred(z@);
    let ghost zend = zones_end(z@);
    let ghost here = math_scan(b@, source@, inz, zend, cfg, i as int);
    let n = b.len();
    assert(i + open_len <= n);
    let content_start = i + open_len;
    match find_close(b, content_start, d, z) {
        Some(close_start) => {
            let close_len: usize = match d {
                AnyDelim::Dollar => 1,
                _ => 2,
            };
            assert(close_len == close_bytes(d).len());
            assert(close_start + close_bytes(d).len() <= b@.len());
            let region_end = close_start + close_len;
            let body = MathBody::new(Range { start: content_start, end: close_start }, Vec::new());
            let span = match d {
                AnyDelim::Paren => MathSpan::Inline { delim: InlineDelim::Paren, body },
                AnyDelim::Dollar => MathSpan::Inline { delim: InlineDelim::Dollar, body },
                AnyDelim::Bracket => MathSpan::Display { delim: DisplayDelim::Bracket, body },
                AnyDelim::Dollar2 => MathSpan::Display { delim: DisplayDelim::Dollar2, body },
            };
            let ghost errs_before = errors@;
            let ghost regs_before = regions@;
            record_brace_errors(source, i, region_end, content_start, close_start, errors);
            let region = MathRegion { range: Range { start: i, end: region_end }, span };
            let ghost be = brace_error_at(source@, i as int, region_end as int, content_start as int, close_start as int);
            proof {
                assert(region_ok(b@, region));
                let rest = math_scan(b@, source@, inz, zend, cfg, region_end as int);
                lemma_scan_delim_found(b@, source@, inz, zend, cfg, i as int, d, close_start as int);
                assert(here.0 == seq![region_shape(region)] + rest.0);
                assert(here.1 == be + rest.1);
                assert((done_r.push(region_shape(region))) + rest.0 =~= done_r + here.0);
                assert((done_e + be) + rest.1 =~= done_e + here.1);
                assert forall|k: int| 0 <= k < errors@.len() implies error_fits(#[trigger] errors@[k], (done_e + be)[k], source@) by {
                    if k < errs_before.len() {
                        assert(errors@[k] == errs_before[k]);
                    } else {
                        assert(errors@[errs_before.len() + (k - errs_before.len())] == errors@[k]);
                    }
                }
            }
            regions.push(region);
            proof {
                assert forall|j: int, k: int| 0 <= j < k < regions@.len() implies #[trigger] regions@[j].range.end
                    <= #[trigger] regions@[k].range.start by {
                    if k == regions@.len() - 1 {
                        assert(regions@[j] == regs_before[j]);
                    }
                }
            }
            (region_end, Ghost(done_r.push(region_shape(region))), Ghost(done_e + be))
        },
        None => {
            let err = MathError::UnbalancedDelim { delim: d, range: Range { start: i, end: content_start } };
            let ghost sh = ErrorShape::Delim(d, Range { start: i, end: content_start });
            proof {
                let rest = math_scan(b@, source@, inz, zend, cfg, content_start as int);
                lemma_scan_delim_missing(b@, source@, inz, zend, cfg, i as int, d);
                assert(here.0 == rest.0);
                assert(here.1 == seq![sh] + rest.1);
                assert(done_e.push(sh) + rest.1 =~= done_e + here.1);
                assert(done_r + rest.0 == done_r + here.0);
            }
            errors.push(err);
            (content_start, Ghost(done_r), Ghost(done_e.push(sh)))
        },
    }
}

/// Scans `source` for math regions, skipping the given code spans, code
/// blocks, HTML blocks and inline HTML. The regions and errors are
/// exactly those of [`math_scan`] from the start of the text, where a
/// skipped position jumps to the end of its run of skipped positions.
/// Regions come back in source order and never overlap; each one's
/// delimiters or `\begin` / `\end` tokens are where its span says, and
/// none starts inside a skipped zone.
#[verifier::rlimit(30)]
pub fn scan_math_regions(
    source: &str,
    inline_codes: &[Range<usize>],
    code_blocks: &[Range<usize>],
    html_blocks: &[Range<usize>],
    inline_html: &[Range<usize>],
    cfg: MathConfig,
) -> (out: (Vec<MathRegion>, Vec<MathError>))
    ensures
        ({
            let rs = skipped_ranges(inline_codes@, code_blocks@, html_blocks@, inline_html@);
            let sc = math_scan(utf8_of(source@), source@, skip_pred(rs), skip_end(rs), cfg, 0);
            &&& out.0@.len() == sc.0.len()
            &&& forall|k: int| 0 <= k < out.0@.len() ==> region_shape(#[trigger] out.0@[k]) == sc.0[k]
            &&& out.1@.len() == sc.1.len()
            &&& forall|k: int| 0 <= k < out.1@.len() ==> error_fits(#[trigger] out.1@[k], sc.1[k], source@)
        }),
        forall|k: int| 0 <= k < out.0@.len() ==> span_body(#[trigger] out.0@[k].span).transparent@.len() == 0,
        regions_ordered(out.0@),
        forall|k: int| 0 <= k < out.0@.len() ==> region_ok(utf8_of(source@), #[trigger] out.0@[k]),
        forall|k: int, j: int| 0 <= k < out.0@.len() && 0 <= j < inline_codes@.len() ==> !#[trigger] in_range(
            inline_codes@[j], #[trigger] out.0@[k].range.start as int),
        forall|k: int, j: int| 0 <= k < out.0@.len() && 0 <= j < code_blocks@.len() ==> !#[trigger] in_range(
            code_blocks@[j], #[trigger] out.0@[k].range.start as int),
        forall|k: int, j: int| 0 <= k < out.0@.len() && 0 <= j < html_blocks@.len() ==> !#[trigger] in_range(
            html_blocks@[j], #[trigger] out.0@[k].range.start as int),
        forall|k: int, j: int| 0 <= k < out.0@.len() && 0 <= j < inline_html@.len() ==> !#[trigger] in_range(
            inline_html@[j], #[trigger] out.0@[k].range.start as int),
        forall|k: int| 0 <= k < out.1@.len() ==> error_ok(utf8_of(source@), #[trigger] out.1@[k]),
        !cfg.environments ==> forall|k: int| 0 <= k < out.0@.len() ==> !(#[trigger] out.0@[k].span is Environment),
        !cfg.environments ==> forall|k: int| 0 <= k < out.1@.len() ==> !(#[trigger] out.1@[k] is UnbalancedEnv),
{
    let z = build_exclusions(inline_codes, code_blocks, html_blocks, inline_html);
    let b = source.as_bytes();
    let ghost inz = zones_pred(z@);
    let ghost zend = zones_end(z@);
    let ghost full = math_scan(b@, source@, inz, zend, cfg, 0);
    let ghost mut done_r: Seq<RegionShape> = seq![];
    let ghost mut done_e: Seq<ErrorShape> = seq![];
    let mut regions: Vec<MathRegion> = Vec::new();
    let mut errors: Vec<MathError> = Vec::new();
    let mut i: usize = 0;
    assert(done_r + full.0 =~= full.0);
    assert(done_e + full.1 =~= full.1);
    while i < b.len()
        invariant
            b@ == utf8_of(source@),
            inz == zones_pred(z@),
            zend == zones_end(z@),
            scan_inv(b@, source@, z@, cfg, full, regions@, errors@, done_r, done_e, i as int),
        decreases b@.len() - i,
    {
        match excluded_end(&z, i) {
            Some(e) => {
                proof {
                    assert(inz(i as int));
                    assert(zend(i as int) == e);
                    lemma_scan_zone(b@, source@, inz, zend, cfg, i as int);
                }
                i = if e < b.len() {
                    e
                } else {
                    b.len()
                };
                continue;
            },
            None => {},
        }
        if cfg.environments {
            match match_begin(b, i) {
                Some((ns, ne, after)) => {
                    let (next, Ghost(dr), Ghost(de)) = scan_env_step(
                        source,
                        b,
                        &z,
                        cfg,
                        i,
                        ns,
                        ne,
                        after,
                        &mut regions,
                        &mut errors,
                        Ghost(full),
                        Ghost(done_r),
                        Ghost(done_e),
                    );
                    proof {
                        done_r = dr;
                        done_e = de;
                    }
                    i = next;
                    continue;
                },
                None => {},
            }
        }
        match match_open(b, i, cfg) {
            None => {
                proof {
                    assert(!inz(i as int));
                    lemma_scan_no_open(b@, source@, inz, zend, cfg, i as int);
                }
                i = i + 1;
            },
            Some((d, open_len)) => {
                let (next, Ghost(dr), Ghost(de)) = scan_delim_step(
                    source,
                    b,
                    &z,
                    cfg,
                    i,
                    d,
                    open_len,
                    &mut regions,
                    &mut errors,
                    Ghost(full),
                    Ghost(done_r),
                    Ghost(done_e),
                );
                proof {
                    done_r = dr;
                    done_e = de;
                }
                i = next;
            },
        }
    }
    proof {
        lemma_scan_end(b@, source@, inz, zend, cfg, i as int);
        assert(done_r + Seq::<RegionShape>::empty() =~= done_r);
        assert(done_e + Seq::<ErrorShape>::empty() =~= done_e);
        let rs = skipped_ranges(inline_codes@, code_blocks@, html_blocks@, inline_html@);
        assert(inz =~= skip_pred(rs));
        assert forall|p: int| #[trigger] zend(p) == skip_end(rs)(p) by {
            lemma_zone_end_is_free_from(z@, rs, p);
        }
        assert(zend =~= skip_end(rs));
        assert forall|k: int, j: int| 0 <= k < regions@.len() && 0 <= j < inline_codes@.len() implies !#[trigger] in_range(
            inline_codes@[j], #[trigger] regions@[k].range.start as int) by {
            let p = regions@[k].range.start as int;
            if in_range(inline_codes@[j], p) {
                let m = choose|m: int| 0 <= m < z@.len() && #[trigger] z@[m].start <= inline_codes@[j].start
                    && inline_codes@[j].end <= z@[m].end;
                assert(in_range(z@[m], p));
            }
        }
        assert forall|k: int, j: int| 0 <= k < regions@.len() && 0 <= j < code_blocks@.len() implies !#[trigger] in_range(
            code_blocks@[j], #[trigger] regions@[k].range.start as int) by {
            let p = regions@[k].range.start as int;
            if in_range(code_blocks@[j], p) {
                let m = choose|m: int| 0 <= m < z@.len() && #[trigger] z@[m].start <= code_blocks@[j].start
                    && code_blocks@[j].end <= z@[m].end;
                assert(in_range(z@[m], p));
            }
        }
        assert forall|k: int, j: int| 0 <= k < regions@.len() && 0 <= j < html_blocks@.len() implies !#[trigger] in_range(
            html_blocks@[j], #[trigger] regions@[k].range.start as int) by {
            let p = regions@[k].range.start as int;
            if in_range(html_blocks@[j], p) {
                let m = choose|m: int| 0 <= m < z@.len() && #[trigger] z@[m].start <= html_blocks@[j].start
                    && html_blocks@[j].end <= z@[m].end;
                assert(in_range(z@[m], p));
            }
        }
        assert forall|k: int, j: int| 0 <= k < regions@.len() && 0 <= j < inline_html@.len() implies !#[trigger] in_range(
            inline_html@[j], #[trigger] regions@[k].range.start as int) by {
            let p = regions@[k].range.start as int;
            if in_range(inline_html@[j], p) {
                let m = choose|m: int| 0 <= m < z@.len() && #[trigger] z@[m].start <= inline_html@[j].start
                    && inline_html@[j].end <= z@[m].end;
                assert(in_range(z@[m], p));
            }
        }
    }
    (regions, errors)
}

} // verus!
