//! Block-level emission helpers: whole-block math detection and
//! verbatim line emission.

use std::ops::Range;
use vstd::prelude::*;
use crate::blocks::simple::trim_trailing_lf;
use crate::format::doc::{concat_docs, hard_line, lf_from, text, Doc};
use crate::math::pretty::leaf_text;
use crate::math::span::MathRegion;
use crate::text::{slice_ok, str_get, utf8_of};

verus! {

/// A space, tab, newline or carriage return.
pub open spec fn is_layout_byte(c: u8) -> bool {
    c == 0x20u8 || c == 0x09u8 || c == 0x0Au8 || c == 0x0Du8
}

/// Bytes `[a, b)` of `s` slice cleanly and hold only layout bytes.
pub open spec fn blank_slice(s: Seq<char>, a: int, b: int) -> bool {
    slice_ok(s, a, b) && forall|k: int| a <= k < b ==> #[trigger] is_layout_byte(utf8_of(s)[k])
}

/// Whether a slice holds only layout bytes.
fn all_layout(t: &str) -> (r: bool)
    ensures
        r == forall|k: int| 0 <= k < utf8_of(t@).len() ==> #[trigger] is_layout_byte(utf8_of(t@)[k]),
{
    let b = t.as_bytes();
    let mut i: usize = 0;
    while i < b.len()
        invariant
            b@ == utf8_of(t@),
            i <= b@.len(),
            forall|k: int| 0 <= k < i ==> #[trigger] is_layout_byte(b@[k]),
        decreases b@.len() - i,
    {
        let c = b[i];
        if !(c == 0x20u8 || c == 0x09u8 || c == 0x0Au8 || c == 0x0Du8) {
            assert(!is_layout_byte(b@[i as int]));
            return false;
        }
        i = i + 1;
    }
    true
}

/// The single math region of a block whose source range is `block`,
/// when the region is all the block holds but for layout whitespace
/// around it; a re-rendered region then cannot rearrange prose.
pub fn whole_block_math<'b>(hits: &[&'b MathRegion], block: &Range<usize>, source: &str) -> (r: Option<&'b MathRegion>)
    ensures
        r is Some <==> (hits@.len() == 1 && blank_slice(source@, block.start as int, hits@[0].range.start as int)
            && blank_slice(source@, hits@[0].range.end as int, block.end as int)),
        r matches Some(m) ==> *m == *hits@[0],
{
    if hits.len() != 1 {
        return None;
    }
    let region = hits[0];
    let head = match str_get(source, block.start, region.range.start) {
        Some(h) => h,
        None => {
            return None;
        },
    };
    let tail = match str_get(source, region.range.end, block.end) {
        Some(t) => t,
        None => {
            return None;
        },
    };
    let head_ok = all_layout(head);
    let tail_ok = all_layout(tail);
    proof {
        let s = utf8_of(source@);
        let (a, b) = (block.start as int, region.range.start as int);
        let (c, d) = (region.range.end as int, block.end as int);
        assert((forall|k: int| a <= k < b ==> #[trigger] is_layout_byte(s[k])) == head_ok) by {
            if head_ok {
                assert forall|k: int| a <= k < b implies #[trigger] is_layout_byte(s[k]) by {
                    assert(utf8_of(head@)[k - a] == s[k]);
                }
            } else {
                let k = choose|k: int| 0 <= k < utf8_of(head@).len() && !is_layout_byte(utf8_of(head@)[k]);
                assert(s[a + k] == utf8_of(head@)[k]);
            }
        }
        assert((forall|k: int| c <= k < d ==> #[trigger] is_layout_byte(s[k])) == tail_ok) by {
            if tail_ok {
                assert forall|k: int| c <= k < d implies #[trigger] is_layout_byte(s[k]) by {
                    assert(utf8_of(tail@)[k - c] == s[k]);
                }
            } else {
                let k = choose|k: int| 0 <= k < utf8_of(tail@).len() && !is_layout_byte(utf8_of(tail@)[k]);
                assert(s[c + k] == utf8_of(tail@)[k]);
            }
        }
    }
    if head_ok && tail_ok {
        Some(region)
    } else {
        None
    }
}

/// `raw` emitted byte for byte with one terminating hard line: the
/// text without its trailing newlines, then the hard line; an empty
/// text is the hard line alone.
pub fn verbatim_lines<'a>(raw: &'a str) -> (d: Doc<'a>)
    ensures
        trim_trailing_lf(raw@).len() == 0 ==> d is HardLine,
        trim_trailing_lf(raw@).len() > 0 ==> (d matches Doc::Concat(v) && v@.len() == 2 && leaf_text(v@[0])
            == Some(lf_from(trim_trailing_lf(raw@), 0)) && v@[1] is HardLine),
{
    let cs = crate::text::chars_of(raw);
    let mut n = cs.len();
    assert(cs@.take(n as int) =~= cs@);
    while n > 0 && cs[n - 1] == '\n'
        invariant
            n <= cs@.len(),
            cs@ == raw@,
            trim_trailing_lf(raw@) == trim_trailing_lf(cs@.take(n as int)),
        decreases n,
    {
        assert(cs@.take(n as int).drop_last() =~= cs@.take(n - 1));
        n = n - 1;
    }
    if n == 0 {
        assert(cs@.take(0) =~= Seq::<char>::empty());
        return hard_line();
    }
    let mut trimmed = String::new();
    let mut k: usize = 0;
    while k < n
        invariant
            n <= cs@.len(),
            k <= n,
            trimmed@ == cs@.take(k as int),
        decreases n - k,
    {
        trimmed.push(cs[k]);
        assert(cs@.take(k + 1) =~= cs@.take(k as int).push(cs@[k as int]));
        k = k + 1;
    }
    assert(trim_trailing_lf(cs@.take(n as int)) == cs@.take(n as int));
    let t = text(trimmed);
    let h = hard_line();
    let d = concat_docs([t, h]);
    proof {
        let v = seq![t, h];
        assert(leaf_text(v[0]) == Some(lf_from(trim_trailing_lf(raw@), 0)));
    }
    d
}

} // verus!
