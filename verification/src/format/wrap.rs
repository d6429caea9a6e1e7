//! Paragraph wrap pass: `Doc -> Doc`.
//!
//! - `Wrap::Keep`: every soft break becomes a hard break; word glue
//!   becomes a space.
//! - `Wrap::No`: every soft break and every piece of glue becomes a
//!   space.
//! - `Wrap::At(n)`: each run of wrappable tokens (text, soft breaks,
//!   glue, atomic groups) is laid out by a minimum-squared-slack line
//!   breaker; hard breaks and prefixed subtrees end a run, and a
//!   prefixed subtree is wrapped to the target narrowed by the prefix
//!   width.

use std::borrow::Cow;
use vstd::prelude::*;
use crate::config::Wrap;
use crate::format::doc::{forms, Doc, LinePrefix};
use crate::text::cow_str;

verus! {

/// Paragraphs with more boxes than this skip the line breaker.
pub const MAX_WRAP_TOKENS: usize = 100000;

/// How many inner-loop steps pass between two deadline checks.
pub const TIME_CHECK_STRIDE: usize = 1024;

/// The inner steps of the line breaker on `n` boxes, one per candidate
/// line: `1 + 2 + ... + n`. The clock is read only every
/// `TIME_CHECK_STRIDE` steps, so with fewer steps in all it is never read.
pub open spec fn breaker_steps(n: int) -> int
    decreases n,
{
    if n <= 0 {
        0
    } else {
        n + breaker_steps(n - 1)
    }
}

/// The step count grows with the number of boxes.
pub proof fn lemma_breaker_steps_grow(a: int, b: int)
    requires
        0 <= a <= b,
    ensures
        breaker_steps(a) <= breaker_steps(b),
    decreases b - a,
{
    if a < b {
        lemma_breaker_steps_grow(a, b - 1);
    }
}

/// The step of candidate line `i..j` is within the total.
pub proof fn lemma_breaker_step_within(i: int, j: int, n: int)
    requires
        0 <= i < j <= n,
    ensures
        breaker_steps(j - 1) + i + 1 <= breaker_steps(n),
{
    lemma_breaker_steps_grow(j, n);
}

/// Cost added for a single box wider than the target.
pub const OVERFLOW_PENALTY: u64 = 1000000;

// ----------------------------------------------------------------------
// Shape predicates
// ----------------------------------------------------------------------

/// No soft break or glue outside atomic groups.
pub open spec fn settled<'a>(d: Doc<'a>) -> bool
    decreases d, 0int,
{
    match d {
        Doc::Line => false,
        Doc::SoftSpace => false,
        Doc::Text(_) => true,
        Doc::HardLine => true,
        Doc::Atomic(_) => true,
        Doc::Prefix(_, inner) => settled(*inner),
        Doc::Concat(items) => settled_items(items@, 0),
    }
}

pub open spec fn settled_items<'a>(items: Seq<Doc<'a>>, k: int) -> bool
    decreases items, items.len() - k,
{
    if k < 0 || k >= items.len() {
        true
    } else {
        settled(items[k]) && settled_items(items, k + 1)
    }
}

/// `o` is `d` with soft breaks replaced (by hard breaks when `keep`,
/// by a space otherwise) and glue replaced by a space, everywhere.
pub open spec fn rewritten<'a>(d: Doc<'a>, o: Doc<'a>, keep: bool) -> bool
    decreases d, 0int,
{
    match d {
        Doc::Line => if keep {
            o is HardLine
        } else {
            o matches Doc::Text(c) && c@ == seq![' ']
        },
        Doc::SoftSpace => o matches Doc::Text(c) && c@ == seq![' '],
        Doc::Text(s) => o matches Doc::Text(c) && c@ == s@,
        Doc::HardLine => o is HardLine,
        Doc::Atomic(i) => match o {
            Doc::Atomic(j) => rewritten(*i, *j, keep),
            _ => false,
        },
        Doc::Prefix(p, i) => match o {
            Doc::Prefix(q, j) => forms(q) == forms(p) && rewritten(*i, *j, keep),
            _ => false,
        },
        Doc::Concat(a) => match o {
            Doc::Concat(b) => b@.len() == a@.len() && rewritten_items(a@, b@, 0, keep),
            _ => false,
        },
    }
}

pub open spec fn rewritten_items<'a>(a: Seq<Doc<'a>>, b: Seq<Doc<'a>>, k: int, keep: bool) -> bool
    decreases a, a.len() - k,
{
    if k < 0 || k >= a.len() {
        true
    } else {
        k < b.len() && rewritten(a[k], b[k], keep) && rewritten_items(a, b, k + 1, keep)
    }
}

fn space_text<'a>() -> (d: Doc<'a>)
    ensures
        d matches Doc::Text(c) && c@ == seq![' '],
{
    let s = " ";
    proof {
        reveal_strlit(" ");
    }
    Doc::Text(Cow::Borrowed(s))
}

/// Replaces soft breaks and glue throughout `doc`.
#[verifier::loop_isolation(false)]
fn rewrite_lines<'a>(doc: Doc<'a>, keep: bool) -> (r: Doc<'a>)
    ensures
        rewritten(doc, r, keep),
    decreases doc,
{
    let ghost d0 = doc;
    match doc {
        Doc::Line => if keep {
            Doc::HardLine
        } else {
            space_text()
        },
        Doc::SoftSpace => space_text(),
        Doc::Text(s) => Doc::Text(s),
        Doc::HardLine => Doc::HardLine,
        Doc::Atomic(inner) => Doc::Atomic(Box::new(rewrite_lines(*inner, keep))),
        Doc::Prefix(p, inner) => Doc::Prefix(p, Box::new(rewrite_lines(*inner, keep))),
        Doc::Concat(items) => {
            let ghost orig = items@;
            let mut items = items;
            let n = items.len();
            let mut outv: Vec<Doc<'a>> = Vec::new();
            let mut k: usize = 0;
            while k < n
                invariant
                    n == items@.len(),
                    n == orig.len(),
                    d0 is Concat && d0->Concat_0@ == orig,
                    k <= n,
                    forall|j: int| k <= j < n ==> #[trigger] items@[j] == orig[j],
                    outv@.len() == k,
                    forall|j: int| 0 <= j < k ==> rewritten(orig[j], #[trigger] outv@[j], keep),
                decreases n - k,
            {
                let mut it = Doc::HardLine;
                std::mem::swap(&mut it, &mut items[k]);
                proof {
                    assert(it == orig[k as int]);
                    let v: Vec<Doc<'a>> = d0->Concat_0;
                    assert(decreases_to!(d0 => v));
                    assert(decreases_to!(v => v@));
                    assert(decreases_to!(v@ => v@[k as int]));
                }
                let w = rewrite_lines(it, keep);
                outv.push(w);
                k = k + 1;
            }
            proof {
                lemma_rewritten_items_from(orig, outv@, keep);
            }
            Doc::Concat(outv)
        },
    }
}

proof fn lemma_rewritten_items_from<'a>(a: Seq<Doc<'a>>, b: Seq<Doc<'a>>, keep: bool)
    requires
        a.len() == b.len(),
        forall|j: int| 0 <= j < a.len() ==> rewritten(a[j], #[trigger] b[j], keep),
    ensures
        rewritten_items(a, b, 0, keep),
{
    lemma_rewritten_items_suffix(a, b, keep, 0);
}

proof fn lemma_rewritten_items_suffix<'a>(a: Seq<Doc<'a>>, b: Seq<Doc<'a>>, keep: bool, k: int)
    requires
        a.len() == b.len(),
        0 <= k,
        forall|j: int| 0 <= j < a.len() ==> rewritten(a[j], #[trigger] b[j], keep),
    ensures
        rewritten_items(a, b, k, keep),
    decreases a.len() - k,
{
    if k < a.len() {
        lemma_rewritten_items_suffix(a, b, keep, k + 1);
        assert(rewritten(a[k], b[k], keep));
    }
}

/// A rewritten document has no soft break or glue left, anywhere.
pub proof fn lemma_rewritten_settled<'a>(d: Doc<'a>, o: Doc<'a>, keep: bool)
    requires
        rewritten(d, o, keep),
    ensures
        settled(o),
    decreases d, 0int,
{
    match d {
        Doc::Atomic(i) => {},
        Doc::Prefix(p, i) => {
            let j = o->Prefix_1;
            lemma_rewritten_settled(*i, *j, keep);
        },
        Doc::Concat(a) => {
            let b = o->Concat_0;
            lemma_rewritten_items_settled(a@, b@, 0, keep);
        },
        _ => {},
    }
}

proof fn lemma_rewritten_items_settled<'a>(a: Seq<Doc<'a>>, b: Seq<Doc<'a>>, k: int, keep: bool)
    requires
        a.len() == b.len(),
        0 <= k,
        rewritten_items(a, b, k, keep),
    ensures
        settled_items(b, k),
    decreases a, a.len() - k,
{
    if k < a.len() {
        lemma_rewritten_settled(a[k], b[k], keep);
        lemma_rewritten_items_settled(a, b, k + 1, keep);
    }
}

// ----------------------------------------------------------------------
// Widths
// ----------------------------------------------------------------------

/// The display width `UnicodeWidthStr::width` gives a string.
pub uninterp spec fn display_width(s: Seq<char>) -> usize;

/// Calls `unicode_width::UnicodeWidthStr::width`.
///
/// Trusted: the result is the crate's display width of `s`; the width
/// tables are not restated here.
#[verifier::external_body]
pub(crate) fn str_width(s: &str) -> (r: usize)
    ensures
        r == display_width(s@),
{
    unicode_width::UnicodeWidthStr::width(s)
}

pub open spec fn sat_add_u32(a: int, b: int) -> u32 {
    if a + b > u32::MAX {
        u32::MAX
    } else {
        (a + b) as u32
    }
}

pub open spec fn clamp_u32(w: int) -> u32 {
    if w > u32::MAX {
        u32::MAX
    } else {
        w as u32
    }
}

pub(crate) fn add_u32(a: u32, b: u32) -> (r: u32)
    ensures
        r == sat_add_u32(a as int, b as int),
{
    if a > u32::MAX - b {
        u32::MAX
    } else {
        a + b
    }
}

fn usize_to_u32(w: usize) -> (r: u32)
    ensures
        r == clamp_u32(w as int),
{
    if w > (u32::MAX as usize) {
        u32::MAX
    } else {
        w as u32
    }
}

/// Flat display width of a subtree with an accumulator: breaks and
/// glue count one column, hard breaks none; saturating at `u32::MAX`.
pub open spec fn flat_width<'a>(d: Doc<'a>, acc: u32) -> u32
    decreases d, 0int,
{
    match d {
        Doc::Text(s) => sat_add_u32(acc as int, clamp_u32(display_width(s@) as int) as int),
        Doc::Line => sat_add_u32(acc as int, 1),
        Doc::SoftSpace => sat_add_u32(acc as int, 1),
        Doc::HardLine => acc,
        Doc::Atomic(inner) => flat_width(*inner, acc),
        Doc::Prefix(_, inner) => flat_width(*inner, acc),
        Doc::Concat(items) => flat_width_items(items@, 0, acc),
    }
}

pub open spec fn flat_width_items<'a>(items: Seq<Doc<'a>>, k: int, acc: u32) -> u32
    decreases items, items.len() - k,
{
    if k < 0 || k >= items.len() {
        acc
    } else {
        flat_width_items(items, k + 1, flat_width(items[k], acc))
    }
}

fn walk_width<'a>(d: &Doc<'a>, acc: u32) -> (r: u32)
    ensures
        r == flat_width(*d, acc),
    decreases *d,
{
    match d {
        Doc::Text(s) => add_u32(acc, usize_to_u32(str_width(cow_str(s)))),
        Doc::Line | Doc::SoftSpace => add_u32(acc, 1),
        Doc::HardLine => acc,
        Doc::Atomic(inner) => walk_width(inner, acc),
        Doc::Prefix(_, inner) => walk_width(inner, acc),
        Doc::Concat(items) => {
            let mut a = acc;
            let mut k: usize = 0;
            while k < items.len()
                invariant
                    k <= items@.len(),
                    (*d) is Concat && (*d)->Concat_0 == *items,
                    flat_width_items(items@, k as int, a) == flat_width_items(items@, 0, acc),
                decreases items@.len() - k,
            {
                proof {
                    let v: Vec<Doc<'a>> = (*d)->Concat_0;
                    assert(decreases_to!(*d => v));
                    assert(decreases_to!(v => v@));
                    assert(decreases_to!(v@ => v@[k as int]));
                }
                a = walk_width(&items[k], a);
                k = k + 1;
            }
            a
        },
    }
}

/// Flat display width of `d`.
pub fn doc_flat_width<'a>(d: &Doc<'a>) -> (r: u32)
    ensures
        r == flat_width(*d, 0),
{
    walk_width(d, 0)
}

// ----------------------------------------------------------------------
// Line breaking
// ----------------------------------------------------------------------

/// A box: content that stays on one line, and its display width.
pub struct Bx<'a> {
    pub parts: Vec<Doc<'a>>,
    pub width: u32,
}

pub open spec fn widths_of<'a>(boxes: Seq<Bx<'a>>) -> Seq<u32> {
    boxes.map_values(|b: Bx<'a>| b.width)
}

/// Width of the line holding boxes `i..j`: the box widths plus one
/// column between consecutive boxes, saturating.
pub open spec fn line_width_spec(w: Seq<u32>, i: int, j: int) -> u32
    decreases j - i,
{
    if j <= i {
        0
    } else if j == i + 1 {
        w[i]
    } else {
        sat_add_u32(sat_add_u32(line_width_spec(w, i, j - 1) as int, 1) as int, w[j - 1] as int)
    }
}

/// Cost of a line: squared slack when it fits (none on the last line),
/// a forced finite penalty for a single oversized box, and `u64::MAX`
/// (prohibited) for several boxes that do not fit.
pub open spec fn badness_spec(line_w: u32, target: u32, is_last: bool, boxes_on_line: int) -> u64 {
    if line_w <= target {
        if is_last {
            0
        } else {
            sat_mul_u64((target - line_w) as u64, (target - line_w) as u64)
        }
    } else if boxes_on_line <= 1 {
        sat_add_u64(OVERFLOW_PENALTY as int, sat_mul_u64((line_w - target) as u64, (line_w - target) as u64) as int)
    } else {
        u64::MAX
    }
}

pub open spec fn sat_mul_u64(a: u64, b: u64) -> u64 {
    if a * b > u64::MAX {
        u64::MAX
    } else {
        (a * b) as u64
    }
}

pub open spec fn sat_add_u64(a: int, b: int) -> u64 {
    if a + b > u64::MAX {
        u64::MAX
    } else {
        (a + b) as u64
    }
}

fn mul_u64(a: u64, b: u64) -> (r: u64)
    ensures
        r == sat_mul_u64(a, b),
{
    if a != 0 && b > u64::MAX / a {
        proof {
            assert(a * b > u64::MAX) by (nonlinear_arith)
                requires
                    a != 0,
                    b > u64::MAX / a,
            ;
        }
        u64::MAX
    } else {
        proof {
            assert(a * b <= u64::MAX) by (nonlinear_arith)
                requires
                    a == 0 || b <= u64::MAX / a,
            ;
        }
        a * b
    }
}

pub(crate) fn add_u64(a: u64, b: u64) -> (r: u64)
    ensures
        r == sat_add_u64(a as int, b as int),
{
    if a > u64::MAX - b {
        u64::MAX
    } else {
        a + b
    }
}

/// Width of boxes `i..j` on one line.
pub fn line_width(boxes: &[Bx<'_>], i: usize, j: usize) -> (r: u32)
    requires
        i < j <= boxes@.len(),
    ensures
        r == line_width_spec(widths_of(boxes@), i as int, j as int),
{
    let ghost w = widths_of(boxes@);
    let mut acc = boxes[i].width;
    let mut k = i + 1;
    while k < j
        invariant
            i < k <= j <= boxes@.len(),
            w == widths_of(boxes@),
            acc == line_width_spec(w, i as int, k as int),
        decreases j - k,
    {
        acc = add_u32(add_u32(acc, 1), boxes[k].width);
        k = k + 1;
    }
    acc
}

/// Cost of a line.
pub fn badness(line_w: u32, target: u32, is_last_line: bool, boxes_on_line: usize) -> (r: u64)
    ensures
        r == badness_spec(line_w, target, is_last_line, boxes_on_line as int),
{
    if line_w <= target {
        if is_last_line {
            return 0;
        }
        let slack = (target - line_w) as u64;
        mul_u64(slack, slack)
    } else if boxes_on_line <= 1 {
        let over = (line_w - target) as u64;
        add_u64(OVERFLOW_PENALTY, mul_u64(over, over))
    } else {
        u64::MAX
    }
}

/// A valid line division of `n` boxes: strictly increasing ends, the
/// last one `n`.
pub open spec fn valid_breaks(b: Seq<usize>, n: int) -> bool {
    &&& (n == 0 <==> b.len() == 0)
    &&& (n > 0 ==> b.last() == n)
    &&& forall|k: int| 0 <= k < b.len() ==> 0 < #[trigger] b[k] <= n
    &&& forall|j: int, k: int| 0 <= j < k < b.len() ==> #[trigger] b[j] < #[trigger] b[k]
}

#[verifier::external_type_specification]
#[verifier::external_body]
pub struct ExInstant(std::time::Instant);

/// Calls `std::time::Instant::now`; nothing is promised of the result.
#[verifier::external_body]
pub(crate) fn clock_now() -> std::time::Instant {
    std::time::Instant::now()
}

/// The whole milliseconds passed since `start` (`Instant::elapsed`, then
/// `Duration::as_millis`); the answer depends on the clock, so nothing
/// is promised of it.
#[verifier::external_body]
pub(crate) fn elapsed_millis(start: &std::time::Instant) -> u128 {
    start.elapsed().as_millis()
}

/// The line breaker's time budget, in milliseconds.
pub const MAX_WRAP_MILLIS: u128 = 100;

/// Whether the time budget has run out since `start`.
pub(crate) fn budget_spent(start: &std::time::Instant) -> bool {
    elapsed_millis(start) >= MAX_WRAP_MILLIS
}

/// The cost of the line of boxes `i..j`, of `n` boxes in all.
pub open spec fn line_cost(w: Seq<u32>, target: u32, n: int, i: int, j: int) -> u64 {
    badness_spec(line_width_spec(w, i, j), target, j == n, j - i)
}

/// The summed cost, saturating, of the lines that the ends `bs` cut,
/// the line `i..j` costing `lc(i, j)`.
pub open spec fn division_cost(lc: spec_fn(int, int) -> u64, bs: Seq<usize>) -> u64
    decreases bs.len(),
{
    if bs.len() == 0 {
        0
    } else {
        let p: int = if bs.len() == 1 {
            0
        } else {
            bs[bs.len() - 2] as int
        };
        sat_add_u64(division_cost(lc, bs.drop_last()) as int, lc(p, bs.last() as int) as int)
    }
}

/// The line costs of the fill of `n` boxes of widths `w` to `target`.
pub open spec fn line_costs(w: Seq<u32>, target: u32, n: int) -> spec_fn(int, int) -> u64 {
    |i: int, j: int| line_cost(w, target, n, i, j)
}

/// The line ends that `prev` records back from `q`.
pub open spec fn trace(prev: Seq<usize>, q: int) -> Seq<usize>
    decreases q,
{
    if q <= 0 || q >= prev.len() {
        seq![]
    } else if prev[q] as int >= q {
        seq![q as usize]
    } else {
        trace(prev, prev[q] as int).push(q as usize)
    }
}

/// `cost[q]` is no more than the cost of any line division of the first
/// `q` boxes.
pub open spec fn cost_is_lower(lc: spec_fn(int, int) -> u64, cost: Seq<u64>, q: int) -> bool {
    forall|bs: Seq<usize>| #[trigger] valid_breaks(bs, q) ==> cost[q] <= division_cost(lc, bs)
}

/// When finite, `cost[q]` is the cost of the division `prev` records.
pub open spec fn cost_is_reached(lc: spec_fn(int, int) -> u64, cost: Seq<u64>, prev: Seq<usize>, q: int) -> bool {
    cost[q] < u64::MAX ==> valid_breaks(trace(prev, q), q) && division_cost(lc, trace(prev, q)) == cost[q]
}

proof fn lemma_valid_prefix(bs: Seq<usize>, q: int)
    requires
        valid_breaks(bs, q),
        q > 0,
    ensures
        ({
            let p: int = if bs.len() == 1 {
                0
            } else {
                bs[bs.len() - 2] as int
            };
            &&& 0 <= p < q
            &&& valid_breaks(bs.drop_last(), p)
            &&& bs.last() == q
        }),
{
    if bs.len() >= 2 {
        let p = bs[bs.len() - 2] as int;
        assert(bs[bs.len() - 2] < bs[bs.len() - 1]);
        assert forall|k: int| 0 <= k < bs.drop_last().len() implies 0 < #[trigger] bs.drop_last()[k] <= p by {
            if k < bs.len() - 2 {
                assert(bs[k] < bs[bs.len() - 2]);
            }
        }
    } else {
        assert(bs.drop_last().len() == 0);
    }
}

pub(crate) proof fn lemma_trace_update(prev: Seq<usize>, q: int, j: int, v: usize)
    requires
        q < j < prev.len(),
    ensures
        trace(prev.update(j, v), q) == trace(prev, q),
    decreases q,
{
    if q > 0 && q < prev.len() && (prev[q] as int) < q {
        lemma_trace_update(prev, prev[q] as int, j, v);
    }
}

pub(crate) proof fn lemma_trace_push(lc: spec_fn(int, int) -> u64, prev: Seq<usize>, p: int, q: int)
    requires
        0 <= p < q < prev.len(),
        q <= usize::MAX,
        prev[q] as int == p,
        p == 0 || valid_breaks(trace(prev, p), p),
    ensures
        trace(prev, q) == trace(prev, p).push(q as usize),
        valid_breaks(trace(prev, q), q),
        division_cost(lc, trace(prev, q)) == sat_add_u64(division_cost(lc, trace(prev, p)) as int, lc(p, q) as int),
{
    let t = trace(prev, p);
    let tq = t.push(q as usize);
    assert(tq.drop_last() =~= t);
    if p == 0 {
        assert(t.len() == 0);
    } else {
        assert(t.last() == p);
        assert(tq[tq.len() - 2] == t.last());
    }
    assert forall|a: int, b: int| 0 <= a < b < tq.len() implies #[trigger] tq[a] < #[trigger] tq[b] by {
        if b == tq.len() - 1 {
            assert(tq.len() == t.len() + 1);
            assert(b == t.len());
            assert(tq[t.len() as int] == q as usize);
            assert(tq[a] == t[a]);
            assert(p > 0);
            assert(0 < t[a] <= p);
        } else {
            assert(tq[a] == t[a] && tq[b] == t[b]);
        }
    }
    assert forall|k: int| 0 <= k < tq.len() implies 0 < #[trigger] tq[k] <= q by {
        if k < t.len() {
            assert(tq[k] == t[k]);
            assert(0 < t[k] <= p);
        }
    }
}

pub(crate) proof fn lemma_division_bound(lc: spec_fn(int, int) -> u64, cost: Seq<u64>, j: int, bs: Seq<usize>)
    requires
        0 < j < cost.len(),
        valid_breaks(bs, j),
        forall|q: int| 0 <= q < j ==> #[trigger] cost_is_lower(lc, cost, q),
        forall|p: int| 0 <= p < j && cost[p] != u64::MAX ==> cost[j] <= sat_add_u64(cost[p] as int, #[trigger] lc(p, j) as int),
    ensures
        cost[j] <= division_cost(lc, bs),
{
    lemma_valid_prefix(bs, j);
    let p: int = if bs.len() == 1 {
        0
    } else {
        bs[bs.len() - 2] as int
    };
    let pre = bs.drop_last();
    assert(cost_is_lower(lc, cost, p));
    assert(valid_breaks(pre, p));
    assert(cost[p] <= division_cost(lc, pre));
    let c = lc(p, j);
    if cost[p] == u64::MAX {
        assert(division_cost(lc, pre) == u64::MAX);
    } else {
        assert(cost[j] <= sat_add_u64(cost[p] as int, c as int));
    }
}

/// Before the first step the empty division is the only one of no
/// boxes, and it costs nothing.
pub(crate) proof fn lemma_cost_zero(lc: spec_fn(int, int) -> u64, cost: Seq<u64>)
    requires
        cost.len() > 0,
        cost[0] == 0,
    ensures
        cost_is_lower(lc, cost, 0),
{
    assert forall|bs: Seq<usize>| #[trigger] valid_breaks(bs, 0) implies cost[0] <= division_cost(lc, bs) by {
        assert(bs.len() == 0);
    }
}

/// Chooses line ends minimising the summed badness (dynamic
/// programming over `cost[j]`, the least cost of the first `j` boxes):
/// no other division of the boxes into lines costs less. `None` when
/// the time budget runs out, which cannot happen below
/// `TIME_CHECK_STRIDE` steps: the clock is not read there.
#[verifier::rlimit(30)]
pub fn solve_breaks(boxes: &[Bx<'_>], target: u32) -> (r: Option<Vec<usize>>)
    requires
        boxes@.len() < usize::MAX,
    ensures
        boxes@.len() == 0 ==> (r matches Some(b) && b@.len() == 0),
        breaker_steps(boxes@.len() as int) < TIME_CHECK_STRIDE ==> r is Some,
        r matches Some(b) ==> valid_breaks(b@, boxes@.len() as int),
        r matches Some(b) ==> forall|bs: Seq<usize>| #[trigger] valid_breaks(bs, boxes@.len() as int) ==> division_cost(
            line_costs(widths_of(boxes@), target, boxes@.len() as int),
            b@,
        ) <= division_cost(line_costs(widths_of(boxes@), target, boxes@.len() as int), bs),
{
    let ghost w = widths_of(boxes@);
    let n = boxes.len();
    let ghost lc = line_costs(w, target, n as int);
    if n == 0 {
        proof {
            assert forall|bs: Seq<usize>| #[trigger] valid_breaks(bs, 0) implies division_cost(lc, Seq::<usize>::empty())
                <= division_cost(lc, bs) by {
                assert(bs.len() == 0);
            }
        }
        let empty: Vec<usize> = Vec::new();
        assert(empty@ =~= Seq::<usize>::empty());
        return Some(empty);
    }
    let mut cost: Vec<u64> = Vec::new();
    let mut prev: Vec<usize> = Vec::new();
    let mut z: usize = 0;
    while z <= n
        invariant
            z <= n + 1,
            n == boxes@.len(),
            n < usize::MAX,
            cost@.len() == z,
            prev@.len() == z,
            forall|q: int| 0 <= q < z ==> #[trigger] prev@[q] < q || q == 0,
            z > 0 ==> cost@[0] == 0,
            forall|q: int| 0 < q < z ==> #[trigger] cost@[q] == u64::MAX,
        decreases n + 1 - z,
    {
        cost.push(if z == 0 {
            0
        } else {
            u64::MAX
        });
        prev.push(0);
        z = z + 1;
    }
    proof {
        lemma_cost_zero(lc, cost@);
    }
    let start = clock_now();
    let mut tick: usize = 0;
    let mut j: usize = 1;
    while j <= n
        invariant
            1 <= j <= n + 1,
            n == boxes@.len(),
            n < usize::MAX,
            w == widths_of(boxes@),
            lc == line_costs(w, target, n as int),
            cost@.len() == n + 1,
            prev@.len() == n + 1,
            forall|q: int| 0 < q <= n ==> #[trigger] prev@[q] < q,
            cost@[0] == 0,
            forall|q: int| j <= q <= n ==> #[trigger] cost@[q] == u64::MAX,
            forall|q: int| 0 <= q < j ==> #[trigger] cost_is_lower(lc, cost@, q),
            forall|q: int| 0 <= q < j ==> #[trigger] cost_is_reached(lc, cost@, prev@, q),
            tick as int <= breaker_steps(j - 1),
        decreases n + 1 - j,
    {
        let mut i: usize = 0;
        while i < j
            invariant
                i <= j <= n,
                n == boxes@.len(),
                w == widths_of(boxes@),
                lc == line_costs(w, target, n as int),
                cost@.len() == n + 1,
                prev@.len() == n + 1,
                forall|q: int| 0 < q <= n ==> #[trigger] prev@[q] < q,
                cost@[0] == 0,
                forall|q: int| j < q <= n ==> #[trigger] cost@[q] == u64::MAX,
                forall|q: int| 0 <= q < j ==> #[trigger] cost_is_lower(lc, cost@, q),
                forall|q: int| 0 <= q < j ==> #[trigger] cost_is_reached(lc, cost@, prev@, q),
                forall|p: int| 0 <= p < i && cost@[p] != u64::MAX ==> cost@[j as int] <= sat_add_u64(
                    cost@[p] as int,
                    #[trigger] lc(p, j as int) as int,
                ),
                cost@[j as int] < u64::MAX ==> (prev@[j as int] as int) < j && cost@[prev@[j as int] as int]
                    < u64::MAX && cost@[j as int] == sat_add_u64(
                    cost@[prev@[j as int] as int] as int,
                    lc(prev@[j as int] as int, j as int) as int,
                ),
                tick as int <= breaker_steps(j - 1) + i,
            decreases j - i,
        {
            tick = if tick < usize::MAX {
                tick + 1
            } else {
                tick
            };
            proof {
                lemma_breaker_step_within(i as int, j as int, n as int);
            }
            if tick % TIME_CHECK_STRIDE == 0 && budget_spent(&start) {
                return None;
            }
            let base = cost[i];
            if base != u64::MAX {
                let line_w = line_width(boxes, i, j);
                let bad = badness(line_w, target, j == n, j - i);
                let total = add_u64(base, bad);
                if total < cost[j] {
                    let ghost old_cost = cost@;
                    let ghost old_prev = prev@;
                    cost.set(j, total);
                    prev.set(j, i);
                    proof {
                        assert forall|q: int| 0 <= q < j implies #[trigger] cost_is_lower(lc, cost@, q) by {
                            assert(cost_is_lower(lc, old_cost, q));
                            assert(cost@[q] == old_cost[q]);
                        }
                        assert forall|q: int| 0 <= q < j implies #[trigger] cost_is_reached(lc, cost@, prev@, q) by {
                            assert(cost_is_reached(lc, old_cost, old_prev, q));
                            lemma_trace_update(old_prev, q, j as int, i);
                        }
                    }
                }
            }
            i = i + 1;
        }
        proof {
            assert(cost_is_lower(lc, cost@, j as int)) by {
                assert forall|bs: Seq<usize>| #[trigger] valid_breaks(bs, j as int) implies cost@[j as int]
                    <= division_cost(lc, bs) by {
                    lemma_division_bound(lc, cost@, j as int, bs);
                }
            }
            if cost@[j as int] < u64::MAX {
                let p = prev@[j as int] as int;
                assert(cost_is_reached(lc, cost@, prev@, p));
                lemma_trace_push(lc, prev@, p, j as int);
            }
            assert(cost_is_reached(lc, cost@, prev@, j as int));
        }
        j = j + 1;
    }
    let mut rev: Vec<usize> = Vec::new();
    let mut jj = n;
    while jj > 0
        invariant
            jj <= n,
            n == boxes@.len(),
            prev@.len() == n + 1,
            forall|q: int| 0 < q <= n ==> #[trigger] prev@[q] < q,
            forall|k: int| 0 <= k < rev@.len() ==> jj < #[trigger] rev@[k] <= n,
            forall|a: int, b: int| 0 <= a < b < rev@.len() ==> #[trigger] rev@[a] > #[trigger] rev@[b],
            rev@.len() > 0 ==> rev@[0] == n,
            rev@.len() == 0 ==> jj == n,
            trace(prev@, n as int) == trace(prev@, jj as int) + rev@.reverse(),
        decreases jj,
    {
        proof {
            let t = trace(prev@, prev@[jj as int] as int);
            assert(trace(prev@, jj as int) == t.push(jj));
            assert(t.push(jj) + rev@.reverse() =~= t + rev@.push(jj).reverse());
        }
        rev.push(jj);
        jj = prev[jj];
    }
    let mut breaks: Vec<usize> = Vec::new();
    let mut k = rev.len();
    while k > 0
        invariant
            k <= rev@.len(),
            rev@.len() > 0,
            rev@[0] == n,
            forall|q: int| 0 <= q < rev@.len() ==> 0 < #[trigger] rev@[q] <= n,
            forall|a: int, b: int| 0 <= a < b < rev@.len() ==> #[trigger] rev@[a] > #[trigger] rev@[b],
            breaks@.len() == rev@.len() - k,
            forall|q: int| 0 <= q < breaks@.len() ==> #[trigger] breaks@[q] == rev@[rev@.len() - 1 - q],
        decreases k,
    {
        k = k - 1;
        breaks.push(rev[k]);
    }
    proof {
        assert(breaks@.last() == rev@[0]);
        assert forall|a: int, b: int| 0 <= a < b < breaks@.len() implies #[trigger] breaks@[a] < #[trigger] breaks@[b] by {
            assert(rev@[rev@.len() - 1 - b] > rev@[rev@.len() - 1 - a]);
        }
        assert(breaks@ =~= rev@.reverse());
        assert(trace(prev@, 0) =~= Seq::<usize>::empty());
        assert(trace(prev@, n as int) =~= rev@.reverse());
        assert(cost_is_lower(lc, cost@, n as int));
        assert(cost_is_reached(lc, cost@, prev@, n as int));
        assert forall|bs: Seq<usize>| #[trigger] valid_breaks(bs, n as int) implies division_cost(lc, breaks@) <= division_cost(
            lc,
            bs,
        ) by {
            assert(cost@[n as int] <= division_cost(lc, bs));
        }
    }
    Some(breaks)
}

// ----------------------------------------------------------------------
// Runs
// ----------------------------------------------------------------------

/// A token that takes part in a run.
pub open spec fn wrap_token<'a>(d: Doc<'a>) -> bool {
    d is Text || d is Line || d is SoftSpace || d is Atomic
}

/// What the flattened stream holds: run tokens, hard breaks, and
/// prefixed subtrees already wrapped.
pub open spec fn stream_item<'a>(d: Doc<'a>) -> bool {
    wrap_token(d) || d is HardLine || (d matches Doc::Prefix(_, inner) && settled(*inner))
}

/// Content that may be emitted as-is: text, atomic groups, hard breaks
/// and settled prefixed subtrees.
pub open spec fn emitted<'a>(d: Doc<'a>) -> bool {
    d is Text || d is Atomic || d is HardLine || (d matches Doc::Prefix(_, inner) && settled(*inner))
}

pub open spec fn all_emitted<'a>(v: Seq<Doc<'a>>) -> bool {
    forall|k: int| 0 <= k < v.len() ==> emitted(#[trigger] v[k])
}

proof fn lemma_emitted_settled<'a>(d: Doc<'a>)
    requires
        emitted(d),
    ensures
        settled(d),
{
}

proof fn lemma_all_emitted_settled<'a>(v: Seq<Doc<'a>>, k: int)
    requires
        all_emitted(v),
        0 <= k,
    ensures
        settled_items(v, k),
    decreases v.len() - k,
{
    if k < v.len() {
        lemma_all_emitted_settled(v, k + 1);
        assert(emitted(v[k]));
        lemma_emitted_settled(v[k]);
    }
}

/// Glue between boxes: a soft break or a piece of word glue.
pub open spec fn is_glue<'a>(d: Doc<'a>) -> bool {
    d is Line || d is SoftSpace
}

/// The parts of each box.
pub open spec fn parts_of<'a>(bs: Seq<Bx<'a>>) -> Seq<Seq<Doc<'a>>> {
    bs.map_values(|b: Bx<'a>| b.parts@)
}

/// Boxes (their parts and widths) after appending a box with parts `bp`
/// and width `bw`: nothing for an empty box, a new box after glue or as
/// the first, otherwise merged into the last box.
pub open spec fn appended<'a>(
    ps: Seq<Seq<Doc<'a>>>,
    ws: Seq<u32>,
    bp: Seq<Doc<'a>>,
    bw: u32,
    brk: bool,
) -> (Seq<Seq<Doc<'a>>>, Seq<u32>) {
    if bp.len() == 0 && bw == 0 {
        (ps, ws)
    } else if brk || ps.len() == 0 {
        (ps.push(bp), ws.push(bw))
    } else {
        (
            ps.update(ps.len() - 1, ps.last() + bp),
            ws.update(ws.len() - 1, sat_add_u32(ws.last() as int, bw as int)),
        )
    }
}

/// The boxes of a run, their widths, and whether glue is pending: each
/// non-glue token is a box of its own after glue (or as the first) and
/// joins the previous box otherwise.
pub open spec fn box_fold<'a>(run: Seq<Doc<'a>>) -> (Seq<Seq<Doc<'a>>>, Seq<u32>, bool)
    decreases run.len(),
{
    if run.len() == 0 {
        (Seq::empty(), Seq::empty(), false)
    } else {
        let st = box_fold(run.drop_last());
        let t = run.last();
        if is_glue(t) {
            (st.0, st.1, true)
        } else {
            let a = appended(st.0, st.1, seq![t], flat_width(t, 0), st.2);
            (a.0, a.1, false)
        }
    }
}

/// Boxes joined on one line; `SoftSpace` marks where a single space goes.
pub open spec fn join_spaced<'a>(ps: Seq<Seq<Doc<'a>>>) -> Seq<Doc<'a>>
    decreases ps.len(),
{
    if ps.len() == 0 {
        Seq::empty()
    } else if ps.len() == 1 {
        ps[0]
    } else {
        join_spaced(ps.drop_last()).push(Doc::SoftSpace) + ps.last()
    }
}

/// `out` is the template `t` with each `SoftSpace` mark a one-space text.
pub open spec fn realizes<'a>(out: Seq<Doc<'a>>, t: Seq<Doc<'a>>) -> bool {
    &&& out.len() == t.len()
    &&& forall|k: int|
        0 <= k < t.len() ==> if t[k] is SoftSpace {
            #[trigger] out[k] matches Doc::Text(c) && c@ == seq![' ']
        } else {
            out[k] == t[k]
        }
}

proof fn lemma_realizes_append<'a>(a: Seq<Doc<'a>>, t: Seq<Doc<'a>>, b: Seq<Doc<'a>>, u: Seq<Doc<'a>>)
    requires
        realizes(a, t),
        realizes(b, u),
    ensures
        realizes(a + b, t + u),
{
    assert forall|k: int| 0 <= k < (t + u).len() implies if (t + u)[k] is SoftSpace {
        #[trigger] (a + b)[k] matches Doc::Text(c) && c@ == seq![' ']
    } else {
        (a + b)[k] == (t + u)[k]
    } by {
        if k < t.len() {
            assert((a + b)[k] == a[k] && (t + u)[k] == t[k]);
        } else {
            assert((a + b)[k] == b[k - t.len()] && (t + u)[k] == u[k - t.len()]);
        }
    }
}

proof fn lemma_realizes_space<'a>(a: Seq<Doc<'a>>, t: Seq<Doc<'a>>, d: Doc<'a>)
    requires
        realizes(a, t),
        d matches Doc::Text(c) && c@ == seq![' '],
    ensures
        realizes(a.push(d), t.push(Doc::SoftSpace)),
{
    assert forall|k: int| 0 <= k < t.push(Doc::SoftSpace).len() implies if t.push(Doc::SoftSpace)[k] is SoftSpace {
        #[trigger] a.push(d)[k] matches Doc::Text(c) && c@ == seq![' ']
    } else {
        a.push(d)[k] == t.push(Doc::SoftSpace)[k]
    } by {
        if k < t.len() {
            assert(a.push(d)[k] == a[k]);
        }
    }
}

proof fn lemma_realizes_same<'a>(a: Seq<Doc<'a>>)
    requires
        all_emitted(a),
    ensures
        realizes(a, a),
{
    assert forall|k: int| 0 <= k < a.len() implies !(#[trigger] a[k] is SoftSpace) by {
        assert(emitted(a[k]));
    }
}

/// `join_spaced` of one more box.
proof fn lemma_join_push<'a>(ps: Seq<Seq<Doc<'a>>>, p: Seq<Doc<'a>>)
    ensures
        join_spaced(ps.push(p)) == (if ps.len() == 0 {
            p
        } else {
            join_spaced(ps).push(Doc::SoftSpace) + p
        }),
{
    assert(ps.push(p).drop_last() =~= ps);
    if ps.len() == 0 {
        assert(ps.push(p)[0] == p);
    }
}

/// Width a prefix takes from the line, as `u32`.
fn prefix_width(p: &LinePrefix) -> (r: u32)
    ensures
        r == clamp_u32(display_width(p.content@) as int),
{
    usize_to_u32(str_width(cow_str(&p.content)))
}

/// The target a prefixed subtree is wrapped to: `target` less the
/// prefix's width, at least 1.
pub open spec fn narrowed(p: LinePrefix, target: u32) -> u32 {
    let w = clamp_u32(display_width(p.content@) as int);
    if target > w {
        (target - w) as u32
    } else {
        1
    }
}

/// `lin` is `d` flattened: nested `Concat`s spliced in order, each
/// prefixed subtree wrapped to the narrowed target, every other node
/// kept.
pub open spec fn linearized<'a>(d: Doc<'a>, target: u32, lin: Seq<Doc<'a>>) -> bool
    decreases d, 0int,
{
    match d {
        Doc::Concat(items) => exists|parts: Seq<Seq<Doc<'a>>>|
            items_linearized(items@, target, parts) && lin == #[trigger] concat_all(parts),
        Doc::Prefix(p, inner) => lin.len() == 1 && (lin[0] matches Doc::Prefix(q, w) && q == p && wrapped(
            *inner,
            narrowed(p, target),
            *w,
        )),
        _ => lin == seq![d],
    }
}

/// Each of `items` flattened to the matching entry of `parts`.
pub open spec fn items_linearized<'a>(items: Seq<Doc<'a>>, target: u32, parts: Seq<Seq<Doc<'a>>>) -> bool
    decreases items, 0int,
{
    &&& parts.len() == items.len()
    &&& forall|i: int| 0 <= i < items.len() ==> linearized(items[i], target, #[trigger] parts[i])
}

/// `r` is `d` wrapped at `target`: flattened, its runs laid out, and the
/// result a single node or a `Concat`.
pub open spec fn wrapped<'a>(d: Doc<'a>, target: u32, r: Doc<'a>) -> bool
    decreases d, 1int,
{
    exists|lin: Seq<Doc<'a>>, out: Seq<Doc<'a>>|
        #![trigger stream_laid_out(lin, target, out)]
        linearized(d, target, lin) && stream_laid_out(lin, target, out) && (if out.len() == 1 {
            r == out[0]
        } else {
            r matches Doc::Concat(v) && v@ == out
        })
}

proof fn lemma_concat_push<'a>(os: Seq<Seq<Doc<'a>>>, o: Seq<Doc<'a>>)
    ensures
        concat_all(os.push(o)) == concat_all(os) + o,
{
    assert(os.push(o).drop_last() =~= os);
}

/// Flattens nested `Concat`s into `out`, wrapping each prefixed
/// subtree to the target narrowed by its prefix.
#[verifier::loop_isolation(false)]
fn linearize<'a>(doc: Doc<'a>, target: u32, out: &mut Vec<Doc<'a>>)
    requires
        target >= 1,
    ensures
        final(out)@.len() >= old(out)@.len(),
        forall|k: int| 0 <= k < old(out)@.len() ==> #[trigger] final(out)@[k] == old(out)@[k],
        forall|k: int| old(out)@.len() <= k < final(out)@.len() ==> stream_item(#[trigger] final(out)@[k]),
        exists|lin: Seq<Doc<'a>>| #[trigger] linearized(doc, target, lin) && final(out)@ == old(out)@ + lin,
    decreases doc, 0int,
{
    let ghost d0 = doc;
    let ghost out_start = out@;
    match doc {
        Doc::Concat(items) => {
            let ghost orig = items@;
            let mut items = items;
            let n = items.len();
            let mut k: usize = 0;
            let ghost start = out@;
            let ghost mut parts: Seq<Seq<Doc<'a>>> = Seq::empty();
            while k < n
                invariant
                    n == items@.len(),
                    n == orig.len(),
                    k <= n,
                    target >= 1,
                    d0 is Concat && d0->Concat_0@ == orig,
                    forall|j: int| k <= j < n ==> #[trigger] items@[j] == orig[j],
                    out@.len() >= start.len(),
                    forall|q: int| 0 <= q < start.len() ==> #[trigger] out@[q] == start[q],
                    forall|q: int| start.len() <= q < out@.len() ==> stream_item(#[trigger] out@[q]),
                    parts.len() == k,
                    forall|i: int| 0 <= i < k ==> linearized(orig[i], target, #[trigger] parts[i]),
                    out@ == start + concat_all(parts),
                decreases n - k,
            {
                let mut it = Doc::HardLine;
                std::mem::swap(&mut it, &mut items[k]);
                proof {
                    let v: Vec<Doc<'a>> = d0->Concat_0;
                    assert(decreases_to!(d0 => v));
                    assert(decreases_to!(v => v@));
                    assert(decreases_to!(v@ => v@[k as int]));
                }
                let ghost it0 = it;
                let ghost before = out@;
                linearize(it, target, out);
                proof {
                    let lin = choose|lin: Seq<Doc<'a>>| #[trigger]
                        linearized(it0, target, lin) && out@ == before + lin;
                    lemma_concat_push(parts, lin);
                    assert(out@ =~= start + concat_all(parts.push(lin)));
                    let p2 = parts.push(lin);
                    assert forall|i: int| 0 <= i < k + 1 implies linearized(orig[i], target, #[trigger] p2[i]) by {
                        if i < k {
                            assert(p2[i] == parts[i]);
                        }
                    }
                    parts = p2;
                }
                k = k + 1;
            }
            proof {
                assert(items_linearized(orig, target, parts));
                assert(linearized(d0, target, concat_all(parts)));
                assert(out@ =~= out_start + concat_all(parts));
            }
        },
        Doc::Prefix(p, inner) => {
            let shrink = prefix_width(&p);
            let narrowed = if target > shrink {
                target - shrink
            } else {
                1
            };
            let wrapped = wrap_at(*inner, narrowed);
            out.push(Doc::Prefix(p, Box::new(wrapped)));
            proof {
                let lin = seq![out@.last()];
                assert(out@ =~= out_start + lin);
                assert(linearized(d0, target, lin));
            }
        },
        other => {
            out.push(other);
            proof {
                assert(out@ =~= out_start + seq![d0]);
                assert(linearized(d0, target, seq![d0]));
            }
        },
    }
}

/// Appends box `b`: a new box after glue (or first), otherwise merged
/// into the previous box.
fn append_box<'a>(boxes: &mut Vec<Bx<'a>>, b: Bx<'a>, break_before: bool)
    requires
        forall|k: int| 0 <= k < old(boxes)@.len() ==> all_emitted(#[trigger] old(boxes)@[k].parts@),
        all_emitted(b.parts@),
    ensures
        forall|k: int| 0 <= k < final(boxes)@.len() ==> all_emitted(#[trigger] final(boxes)@[k].parts@),
        parts_of(final(boxes)@) == appended(parts_of(old(boxes)@), widths_of(old(boxes)@), b.parts@, b.width, break_before).0,
        widths_of(final(boxes)@) == appended(parts_of(old(boxes)@), widths_of(old(boxes)@), b.parts@, b.width, break_before).1,
{
    if b.parts.len() == 0 && b.width == 0 {
        return;
    }
    if break_before || boxes.len() == 0 {
        boxes.push(b);
    } else {
        let n = boxes.len();
        let mut last = boxes.pop().unwrap();
        let mut parts = b.parts;
        let ghost lp = last.parts@;
        let ghost bp = parts@;
        last.parts.append(&mut parts);
        last.width = add_u32(last.width, b.width);
        proof {
            assert(last.parts@ =~= lp + bp);
            assert(all_emitted(last.parts@)) by {
                assert forall|k: int| 0 <= k < last.parts@.len() implies emitted(#[trigger] last.parts@[k]) by {
                    if k < lp.len() {
                        assert(emitted(lp[k]));
                    } else {
                        assert(emitted(bp[k - lp.len()]));
                    }
                }
            }
        }
        boxes.push(last);
    }
}

/// Splits a run into boxes; glue separates boxes, adjacent content
/// with no glue between shares a box.
fn tokenize_run<'a>(run: Vec<Doc<'a>>) -> (boxes: Vec<Bx<'a>>)
    requires
        forall|k: int| 0 <= k < run@.len() ==> wrap_token(#[trigger] run@[k]),
    ensures
        forall|k: int| 0 <= k < boxes@.len() ==> all_emitted(#[trigger] boxes@[k].parts@),
        parts_of(boxes@) == box_fold(run@).0,
        widths_of(boxes@) == box_fold(run@).1,
{
    let ghost orig = run@;
    let mut run = run;
    let n = run.len();
    let mut boxes: Vec<Bx<'a>> = Vec::new();
    let mut pending_glue = false;
    let mut k: usize = 0;
    while k < n
        invariant
            n == run@.len(),
            n == orig.len(),
            k <= n,
            forall|j: int| 0 <= j < n ==> wrap_token(#[trigger] orig[j]),
            forall|j: int| k <= j < n ==> #[trigger] run@[j] == orig[j],
            forall|q: int| 0 <= q < boxes@.len() ==> all_emitted(#[trigger] boxes@[q].parts@),
            parts_of(boxes@) == box_fold(orig.take(k as int)).0,
            widths_of(boxes@) == box_fold(orig.take(k as int)).1,
            pending_glue == box_fold(orig.take(k as int)).2,
        decreases n - k,
    {
        let mut it = Doc::HardLine;
        std::mem::swap(&mut it, &mut run[k]);
        proof {
            assert(wrap_token(orig[k as int]));
            assert(orig.take(k + 1).drop_last() =~= orig.take(k as int));
            assert(orig.take(k + 1).last() == orig[k as int]);
        }
        match it {
            Doc::Line | Doc::SoftSpace => {
                pending_glue = true;
            },
            other => {
                let width = doc_flat_width(&other);
                let mut parts: Vec<Doc<'a>> = Vec::new();
                parts.push(other);
                proof {
                    assert(emitted(parts@[0]));
                }
                append_box(&mut boxes, Bx { parts, width }, pending_glue);
                pending_glue = false;
            },
        }
        k = k + 1;
    }
    proof {
        assert(orig.take(n as int) =~= orig);
    }
    boxes
}

fn push_parts<'a>(out: &mut Vec<Doc<'a>>, parts: Vec<Doc<'a>>)
    requires
        all_emitted(old(out)@),
        all_emitted(parts@),
    ensures
        final(out)@ == old(out)@ + parts@,
        all_emitted(final(out)@),
{
    let mut parts = parts;
    let ghost o = out@;
    let ghost p = parts@;
    out.append(&mut parts);
    proof {
        assert(out@ =~= o + p);
        assert forall|k: int| 0 <= k < out@.len() implies emitted(#[trigger] out@[k]) by {
            if k < o.len() {
                assert(emitted(o[k]));
            } else {
                assert(emitted(p[k - o.len()]));
            }
        }
    }
}

/// Boxes joined by single spaces, on one line.
fn rebuild_unwrapped<'a>(boxes: Vec<Bx<'a>>) -> (out: Vec<Doc<'a>>)
    requires
        forall|k: int| 0 <= k < boxes@.len() ==> all_emitted(#[trigger] boxes@[k].parts@),
    ensures
        all_emitted(out@),
        realizes(out@, join_spaced(parts_of(boxes@))),
{
    let mut boxes = boxes;
    let ghost orig = boxes@;
    let ghost ps = parts_of(orig);
    let n = boxes.len();
    let mut out: Vec<Doc<'a>> = Vec::new();
    let mut k: usize = 0;
    while k < n
        invariant
            n == boxes@.len(),
            n == ps.len(),
            k <= n,
            forall|j: int| k <= j < n ==> all_emitted(#[trigger] boxes@[j].parts@),
            forall|j: int| k <= j < n ==> #[trigger] boxes@[j].parts@ == ps[j],
            all_emitted(out@),
            realizes(out@, join_spaced(ps.take(k as int))),
        decreases n - k,
    {
        let ghost o = out@;
        if k > 0 {
            let sp = space_text();
            proof {
                lemma_realizes_space(out@, join_spaced(ps.take(k as int)), sp);
            }
            out.push(sp);
        }
        let ghost o2 = out@;
        let mut parts: Vec<Doc<'a>> = Vec::new();
        std::mem::swap(&mut parts, &mut boxes[k].parts);
        let ghost pk = parts@;
        push_parts(&mut out, parts);
        proof {
            assert(pk == ps[k as int]);
            lemma_realizes_same(pk);
            lemma_join_push(ps.take(k as int), pk);
            assert(ps.take(k + 1) =~= ps.take(k as int).push(pk));
            if k > 0 {
                lemma_realizes_append(o2, join_spaced(ps.take(k as int)).push(Doc::SoftSpace), pk, pk);
            } else {
                assert(ps.take(0) =~= Seq::<Seq<Doc<'a>>>::empty());
                assert(o2 =~= Seq::<Doc<'a>>::empty());
                assert(out@ =~= pk);
            }
        }
        k = k + 1;
    }
    proof {
        assert(ps.take(n as int) =~= ps);
    }
    out
}

/// How many of `n` boxes the first `k` line ends take: each end takes
/// the boxes up to it (clamped to `n`) that earlier ends left.
pub open spec fn consumed_after(n: int, breaks: Seq<usize>, k: int) -> int
    decreases k,
{
    if k <= 0 {
        0
    } else {
        let c = consumed_after(n, breaks, k - 1);
        let e = if (breaks[k - 1] as int) < n {
            breaks[k - 1] as int
        } else {
            n
        };
        if c < e {
            e
        } else {
            c
        }
    }
}

/// The first `k` lines of the layout: each line's boxes joined by
/// spaces, every line but the last followed by a hard break.
pub open spec fn lines_template<'a>(ps: Seq<Seq<Doc<'a>>>, breaks: Seq<usize>, k: int) -> Seq<Doc<'a>>
    decreases k,
{
    if k <= 0 {
        Seq::empty()
    } else {
        lines_template(ps, breaks, k - 1) + join_spaced(
            ps.subrange(
                consumed_after(ps.len() as int, breaks, k - 1),
                consumed_after(ps.len() as int, breaks, k),
            ),
        ) + (if k < breaks.len() {
            seq![Doc::HardLine]
        } else {
            Seq::empty()
        })
    }
}

proof fn lemma_consumed_bounds(n: int, breaks: Seq<usize>, k: int)
    requires
        n >= 0,
    ensures
        0 <= consumed_after(n, breaks, k) <= n,
        k > 0 ==> consumed_after(n, breaks, k - 1) <= consumed_after(n, breaks, k),
    decreases k,
{
    if k > 0 {
        lemma_consumed_bounds(n, breaks, k - 1);
    }
}

/// Lays the boxes out on the chosen lines: boxes on a line joined by a
/// space, lines separated by hard breaks.
fn rebuild<'a>(boxes: Vec<Bx<'a>>, breaks: &Vec<usize>) -> (out: Vec<Doc<'a>>)
    requires
        forall|k: int| 0 <= k < boxes@.len() ==> all_emitted(#[trigger] boxes@[k].parts@),
    ensures
        all_emitted(out@),
        realizes(out@, lines_template(parts_of(boxes@), breaks@, breaks@.len() as int)),
{
    let mut boxes = boxes;
    let ghost ps = parts_of(boxes@);
    let n = boxes.len();
    let mut out: Vec<Doc<'a>> = Vec::new();
    let mut consumed: usize = 0;
    let mut k: usize = 0;
    while k < breaks.len()
        invariant
            n == boxes@.len(),
            n == ps.len(),
            k <= breaks@.len(),
            consumed == consumed_after(n as int, breaks@, k as int),
            consumed <= n,
            forall|j: int| consumed <= j < n ==> all_emitted(#[trigger] boxes@[j].parts@),
            forall|j: int| consumed <= j < n ==> #[trigger] boxes@[j].parts@ == ps[j],
            all_emitted(out@),
            realizes(out@, lines_template(ps, breaks@, k as int)),
        decreases breaks@.len() - k,
    {
        let end = breaks[k];
        let is_last_line = k + 1 == breaks.len();
        let mut first = true;
        let ghost c0 = consumed as int;
        let ghost t0 = lines_template(ps, breaks@, k as int);
        proof {
            lemma_consumed_bounds(n as int, breaks@, k + 1);
            assert(ps.subrange(c0, c0) =~= Seq::<Seq<Doc<'a>>>::empty());
            assert(t0 + join_spaced(ps.subrange(c0, c0)) =~= t0);
        }
        while consumed < end && consumed < n
            invariant
                n == boxes@.len(),
                n == ps.len(),
                0 <= c0 <= consumed <= n,
                k < breaks@.len(),
                end == breaks@[k as int],
                c0 == consumed_after(n as int, breaks@, k as int),
                consumed == c0 || consumed <= end,
                first == (consumed == c0),
                forall|j: int| consumed <= j < n ==> all_emitted(#[trigger] boxes@[j].parts@),
                forall|j: int| consumed <= j < n ==> #[trigger] boxes@[j].parts@ == ps[j],
                all_emitted(out@),
                realizes(out@, t0 + join_spaced(ps.subrange(c0, consumed as int))),
            decreases n - consumed,
        {
            let ghost j0 = join_spaced(ps.subrange(c0, consumed as int));
            if !first {
                let sp = space_text();
                proof {
                    lemma_realizes_space(out@, t0 + j0, sp);
                    assert((t0 + j0).push(Doc::SoftSpace) =~= t0 + j0.push(Doc::SoftSpace));
                }
                out.push(sp);
            }
            first = false;
            let ghost o2 = out@;
            let mut parts: Vec<Doc<'a>> = Vec::new();
            std::mem::swap(&mut parts, &mut boxes[consumed].parts);
            let ghost pk = parts@;
            push_parts(&mut out, parts);
            proof {
                assert(pk == ps[consumed as int]);
                lemma_realizes_same(pk);
                let sub = ps.subrange(c0, consumed as int);
                lemma_join_push(sub, pk);
                assert(ps.subrange(c0, consumed + 1) =~= sub.push(pk));
                if consumed as int > c0 {
                    lemma_realizes_append(o2, t0 + j0.push(Doc::SoftSpace), pk, pk);
                    assert(t0 + j0.push(Doc::SoftSpace) + pk =~= t0 + (j0.push(Doc::SoftSpace) + pk));
                } else {
                    assert(sub =~= Seq::<Seq<Doc<'a>>>::empty());
                    assert(j0 =~= Seq::<Doc<'a>>::empty());
                    assert(t0 + j0 =~= t0);
                    lemma_realizes_append(o2, t0, pk, pk);
                }
            }
            consumed = consumed + 1;
        }
        proof {
            assert(consumed == consumed_after(n as int, breaks@, k + 1));
        }
        if !is_last_line {
            let ghost o3 = out@;
            out.push(Doc::HardLine);
            proof {
                lemma_realizes_same(seq![Doc::HardLine]);
                lemma_realizes_append(o3, t0 + join_spaced(ps.subrange(c0, consumed as int)), seq![Doc::HardLine], seq![Doc::HardLine]);
                assert(o3 + seq![Doc::HardLine] =~= out@);
            }
        } else {
            proof {
                let t = t0 + join_spaced(ps.subrange(c0, consumed as int));
                assert(t + Seq::<Doc<'a>>::empty() =~= t);
            }
        }
        k = k + 1;
    }
    out
}

/// Line ends for boxes of widths `w` that no other division of the
/// boxes into lines undercuts in summed cost.
pub open spec fn optimal_breaks(w: Seq<u32>, target: u32, b: Seq<usize>) -> bool {
    &&& valid_breaks(b, w.len() as int)
    &&& forall|bs: Seq<usize>| #[trigger]
        valid_breaks(bs, w.len() as int) ==> division_cost(line_costs(w, target, w.len() as int), b)
            <= division_cost(line_costs(w, target, w.len() as int), bs)
}

/// How a run is laid out: no boxes give nothing, one box gives its
/// parts, more boxes are joined by spaces on one line, or, up to
/// `MAX_WRAP_TOKENS` boxes, laid out on optimal line ends (the one-line
/// form stands where the line breaker's time budget ran out, which
/// cannot happen while the breaker takes fewer than `TIME_CHECK_STRIDE`
/// steps).
pub open spec fn run_laid_out<'a>(run: Seq<Doc<'a>>, target: u32, out: Seq<Doc<'a>>) -> bool {
    let ps = box_fold(run).0;
    let ws = box_fold(run).1;
    if ps.len() == 0 {
        out.len() == 0
    } else if ps.len() == 1 {
        out == ps[0]
    } else if ps.len() > MAX_WRAP_TOKENS {
        realizes(out, join_spaced(ps))
    } else if breaker_steps(ps.len() as int) < TIME_CHECK_STRIDE {
        exists|b: Seq<usize>| #[trigger]
            optimal_breaks(ws, target, b) && realizes(out, lines_template(ps, b, b.len() as int))
    } else {
        realizes(out, join_spaced(ps)) || exists|b: Seq<usize>| #[trigger]
            optimal_breaks(ws, target, b) && realizes(out, lines_template(ps, b, b.len() as int))
    }
}

/// Lays out one run.
fn wrap_run<'a>(run: Vec<Doc<'a>>, target: u32) -> (out: Vec<Doc<'a>>)
    requires
        forall|k: int| 0 <= k < run@.len() ==> wrap_token(#[trigger] run@[k]),
    ensures
        all_emitted(out@),
        run_laid_out(run@, target, out@),
{
    let ghost r = run@;
    let mut boxes = tokenize_run(run);
    let ghost ps = parts_of(boxes@);
    let ghost ws = widths_of(boxes@);
    assert(ps.len() == boxes@.len() && ws.len() == boxes@.len());
    if boxes.len() == 0 {
        return Vec::new();
    }
    if boxes.len() == 1 {
        let b = boxes.pop().unwrap();
        assert(b.parts@ == ps[0]);
        return b.parts;
    }
    if boxes.len() > MAX_WRAP_TOKENS {
        return rebuild_unwrapped(boxes);
    }
    match solve_breaks(boxes.as_slice(), target) {
        Some(breaks) => {
            let out = rebuild(boxes, &breaks);
            assert(optimal_breaks(ws, target, breaks@));
            out
        },
        None => rebuild_unwrapped(boxes),
    }
}

/// A piece of the flattened stream: a run of wrappable tokens, or an
/// item that ends a run and is kept as it is.
pub enum Piece<'a> {
    Run(Seq<Doc<'a>>),
    Keep(Doc<'a>),
}

/// The pieces so far with the open run closed, if it holds anything.
pub open spec fn close_run<'a>(ps: Seq<Piece<'a>>, run: Seq<Doc<'a>>) -> Seq<Piece<'a>> {
    if run.len() == 0 {
        ps
    } else {
        ps.push(Piece::Run(run))
    }
}

/// The closed pieces of `stream` and the run still open at its end.
pub open spec fn piece_fold<'a>(stream: Seq<Doc<'a>>) -> (Seq<Piece<'a>>, Seq<Doc<'a>>)
    decreases stream.len(),
{
    if stream.len() == 0 {
        (Seq::empty(), Seq::empty())
    } else {
        let st = piece_fold(stream.drop_last());
        let t = stream.last();
        if wrap_token(t) {
            (st.0, st.1.push(t))
        } else {
            (close_run(st.0, st.1).push(Piece::Keep(t)), Seq::empty())
        }
    }
}

/// `stream` cut into maximal runs of wrappable tokens and the items
/// between them.
pub open spec fn pieces_of<'a>(stream: Seq<Doc<'a>>) -> Seq<Piece<'a>> {
    close_run(piece_fold(stream).0, piece_fold(stream).1)
}

/// `o` is what piece `p` becomes: a run laid out, an item unchanged.
pub open spec fn piece_out<'a>(p: Piece<'a>, target: u32, o: Seq<Doc<'a>>) -> bool {
    match p {
        Piece::Run(r) => run_laid_out(r, target, o),
        Piece::Keep(d) => o == seq![d],
    }
}

pub open spec fn concat_all<'a>(os: Seq<Seq<Doc<'a>>>) -> Seq<Doc<'a>>
    decreases os.len(),
{
    if os.len() == 0 {
        Seq::empty()
    } else {
        concat_all(os.drop_last()) + os.last()
    }
}

/// Each piece's output, in order.
pub open spec fn pieces_laid_out<'a>(ps: Seq<Piece<'a>>, target: u32, os: Seq<Seq<Doc<'a>>>) -> bool {
    &&& os.len() == ps.len()
    &&& forall|i: int| 0 <= i < ps.len() ==> piece_out(ps[i], target, #[trigger] os[i])
}

/// `out` is `stream` with each run laid out and the items between runs
/// kept.
pub open spec fn stream_laid_out<'a>(stream: Seq<Doc<'a>>, target: u32, out: Seq<Doc<'a>>) -> bool {
    exists|os: Seq<Seq<Doc<'a>>>| #[trigger] pieces_laid_out(pieces_of(stream), target, os) && out == concat_all(os)
}

proof fn lemma_laid_push<'a>(ps: Seq<Piece<'a>>, os: Seq<Seq<Doc<'a>>>, p: Piece<'a>, o: Seq<Doc<'a>>, target: u32)
    requires
        pieces_laid_out(ps, target, os),
        piece_out(p, target, o),
    ensures
        pieces_laid_out(ps.push(p), target, os.push(o)),
        concat_all(os.push(o)) == concat_all(os) + o,
{
    assert(os.push(o).drop_last() =~= os);
    assert forall|i: int| 0 <= i < ps.push(p).len() implies piece_out(ps.push(p)[i], target, #[trigger] os.push(o)[i]) by {
        if i < ps.len() {
            assert(ps.push(p)[i] == ps[i]);
            assert(os.push(o)[i] == os[i]);
        }
    }
}

/// Wraps the run collected so far into `out` and empties it.
fn flush_run<'a>(run: &mut Vec<Doc<'a>>, target: u32, out: &mut Vec<Doc<'a>>)
    requires
        forall|k: int| 0 <= k < old(run)@.len() ==> wrap_token(#[trigger] old(run)@[k]),
        all_emitted(old(out)@),
    ensures
        final(run)@.len() == 0,
        all_emitted(final(out)@),
        old(run)@.len() == 0 ==> final(out)@ == old(out)@,
        old(run)@.len() > 0 ==> exists|o: Seq<Doc<'a>>| #[trigger]
            run_laid_out(old(run)@, target, o) && final(out)@ == old(out)@ + o,
{
    if run.len() == 0 {
        return;
    }
    let mut taken: Vec<Doc<'a>> = Vec::new();
    std::mem::swap(&mut taken, run);
    let wrapped = wrap_run(taken, target);
    let ghost o = wrapped@;
    push_parts(out, wrapped);
    assert(run_laid_out(old(run)@, target, o));
}

/// Splits the stream into runs, lays each out, and keeps hard breaks
/// and prefixed subtrees between them.
fn process_stream<'a>(stream: Vec<Doc<'a>>, target: u32) -> (out: Vec<Doc<'a>>)
    requires
        forall|k: int| 0 <= k < stream@.len() ==> stream_item(#[trigger] stream@[k]),
    ensures
        all_emitted(out@),
        stream_laid_out(stream@, target, out@),
{
    let mut stream = stream;
    let ghost orig = stream@;
    let n = stream.len();
    let mut out: Vec<Doc<'a>> = Vec::new();
    let mut run: Vec<Doc<'a>> = Vec::new();
    let ghost mut os: Seq<Seq<Doc<'a>>> = Seq::empty();
    let mut k: usize = 0;
    while k < n
        invariant
            n == stream@.len(),
            n == orig.len(),
            k <= n,
            forall|j: int| 0 <= j < n ==> stream_item(#[trigger] orig[j]),
            forall|j: int| k <= j < n ==> #[trigger] stream@[j] == orig[j],
            forall|q: int| 0 <= q < run@.len() ==> wrap_token(#[trigger] run@[q]),
            all_emitted(out@),
            run@ == piece_fold(orig.take(k as int)).1,
            pieces_laid_out(piece_fold(orig.take(k as int)).0, target, os),
            out@ == concat_all(os),
        decreases n - k,
    {
        let mut it = Doc::HardLine;
        std::mem::swap(&mut it, &mut stream[k]);
        proof {
            assert(stream_item(orig[k as int]));
            assert(orig.take(k + 1).drop_last() =~= orig.take(k as int));
            assert(orig.take(k + 1).last() == orig[k as int]);
        }
        let ghost st = piece_fold(orig.take(k as int));
        match it {
            Doc::Text(s) => run.push(Doc::Text(s)),
            Doc::Line => run.push(Doc::Line),
            Doc::SoftSpace => run.push(Doc::SoftSpace),
            Doc::Atomic(a) => run.push(Doc::Atomic(a)),
            other => {
                let ghost r0 = run@;
                let ghost out0 = out@;
                flush_run(&mut run, target, &mut out);
                proof {
                    if r0.len() > 0 {
                        let o = choose|o: Seq<Doc<'a>>| #[trigger]
                            run_laid_out(r0, target, o) && out@ == out0 + o;
                        lemma_laid_push(st.0, os, Piece::Run(r0), o, target);
                        os = os.push(o);
                    }
                }
                let ghost out1 = out@;
                out.push(other);
                proof {
                    lemma_laid_push(close_run(st.0, r0), os, Piece::Keep(other), seq![other], target);
                    os = os.push(seq![other]);
                    assert(out@ =~= out1 + seq![other]);
                }
            },
        }
        k = k + 1;
    }
    proof {
        assert(orig.take(n as int) =~= orig);
    }
    let ghost r0 = run@;
    let ghost out0 = out@;
    let ghost st = piece_fold(orig);
    flush_run(&mut run, target, &mut out);
    proof {
        if r0.len() > 0 {
            let o = choose|o: Seq<Doc<'a>>| #[trigger] run_laid_out(r0, target, o) && out@ == out0 + o;
            lemma_laid_push(st.0, os, Piece::Run(r0), o, target);
            os = os.push(o);
        }
        assert(pieces_laid_out(pieces_of(orig), target, os));
    }
    out
}

/// Wraps `doc` at `target` columns.
fn wrap_at<'a>(doc: Doc<'a>, target: u32) -> (r: Doc<'a>)
    requires
        target >= 1,
    ensures
        settled(r),
        wrapped(doc, target, r),
    decreases doc, 1int,
{
    let ghost d0 = doc;
    let mut stream: Vec<Doc<'a>> = Vec::new();
    linearize(doc, target, &mut stream);
    let ghost lin = stream@;
    proof {
        let l = choose|l: Seq<Doc<'a>>| #[trigger] linearized(d0, target, l) && stream@ == Seq::<Doc<'a>>::empty() + l;
        assert(l =~= lin);
    }
    let mut out = process_stream(stream, target);
    let ghost o = out@;
    if out.len() == 1 {
        let d = out.pop().unwrap();
        proof {
            assert(emitted(d));
            assert(d == o[0]);
            assert(linearized(d0, target, lin) && stream_laid_out(lin, target, o));
            assert(wrapped(d0, target, d));
        }
        d
    } else {
        proof {
            lemma_all_emitted_settled(out@, 0);
        }
        let r = Doc::Concat(out);
        proof {
            assert(linearized(d0, target, lin) && stream_laid_out(lin, target, o));
            assert(wrapped(d0, target, r));
        }
        r
    }
}

/// Applies the wrap policy to `doc`. Afterwards no soft break or glue
/// remains outside atomic groups; `Keep` and `No` rewrite every one of
/// them, inside atomic groups too.
pub fn wrap_doc<'a>(doc: Doc<'a>, wrap: Wrap) -> (r: Doc<'a>)
    ensures
        wrap == Wrap::Keep ==> rewritten(doc, r, true),
        wrap == Wrap::No ==> rewritten(doc, r, false),
        wrap matches Wrap::At(t) ==> wrapped(doc, if t >= 1 { t } else { 1 }, r),
        settled(r),
{
    match wrap {
        Wrap::Keep => {
            let r = rewrite_lines(doc, true);
            proof {
                lemma_rewritten_settled(doc, r, true);
            }
            r
        },
        Wrap::No => {
            let r = rewrite_lines(doc, false);
            proof {
                lemma_rewritten_settled(doc, r, false);
            }
            r
        },
        Wrap::At(target) => wrap_at(doc, if target >= 1 {
            target
        } else {
            1
        }),
    }
}


} // verus!
