//! The `Doc` layout tree and its renderer.
//!
//! - `Text(s)`: literal text.
//! - `Line`: a soft break; renders as one space (the wrap pass turns
//!   the breaks it keeps into `HardLine` first).
//! - `SoftSpace`: word-boundary glue; a space unless the wrap pass
//!   breaks there.
//! - `HardLine`: a newline; the enclosing prefixes drain before the
//!   next content.
//! - `Atomic(d)`: a box the wrap pass never splits.
//! - `Concat(ds)`: children in order.
//! - `Prefix(p, d)`: every line inside `d` after its first starts with
//!   `p.content` (or `p.blank` on a blank line); a trailing newline
//!   does not drain.

use std::borrow::Cow;
use vstd::prelude::*;
use crate::text::cow_str;

verus! {

/// What to emit at line boundaries inside a `Prefix` subtree.
#[derive(Debug)]
pub struct LinePrefix {
    pub content: Cow<'static, str>,
    pub blank: Cow<'static, str>,
}

/// Tree of layout instructions.
#[derive(Debug)]
pub enum Doc<'a> {
    Text(Cow<'a, str>),
    Line,
    SoftSpace,
    HardLine,
    Atomic(Box<Doc<'a>>),
    Concat(Vec<Doc<'a>>),
    Prefix(LinePrefix, Box<Doc<'a>>),
}

/// Render options; the renderer has no knobs.
#[derive(Clone, Debug)]
pub struct RenderOptions;

/// Things a `Doc::Text` can be made from.
pub trait IntoText<'a> {
    spec fn text_chars(&self) -> Seq<char>;

    fn into_cow(self) -> (r: Cow<'a, str>)
        ensures
            r@ == self.text_chars(),
    ;
}

impl<'a> IntoText<'a> for &'a str {
    open spec fn text_chars(&self) -> Seq<char> {
        (*self)@
    }

    fn into_cow(self) -> (r: Cow<'a, str>) {
        Cow::Borrowed(self)
    }
}

impl<'a> IntoText<'a> for String {
    open spec fn text_chars(&self) -> Seq<char> {
        self@
    }

    fn into_cow(self) -> (r: Cow<'a, str>) {
        Cow::Owned(self)
    }
}

impl<'a> IntoText<'a> for Cow<'a, str> {
    open spec fn text_chars(&self) -> Seq<char> {
        self@
    }

    fn into_cow(self) -> (r: Cow<'a, str>) {
        self
    }
}

/// Line endings made LF: `\r\n` and a lone `\r` both become `\n`.
pub open spec fn lf_only(s: Seq<char>) -> Seq<char>
    decreases s.len(),
{
    if s.len() == 0 {
        Seq::empty()
    } else if s[0] == '\r' {
        if s.len() > 1 && s[1] == '\n' {
            seq!['\n'] + lf_only(s.drop_first().drop_first())
        } else {
            seq!['\n'] + lf_only(s.drop_first())
        }
    } else {
        seq![s[0]] + lf_only(s.drop_first())
    }
}

/// The characters from `i` on, with line endings made LF.
pub open spec fn lf_from(s: Seq<char>, i: int) -> Seq<char>
    decreases s.len() - i,
{
    if i < 0 || i >= s.len() {
        Seq::empty()
    } else if s[i] == '\r' {
        if i + 1 < s.len() && s[i + 1] == '\n' {
            seq!['\n'] + lf_from(s, i + 2)
        } else {
            seq!['\n'] + lf_from(s, i + 1)
        }
    } else {
        seq![s[i]] + lf_from(s, i + 1)
    }
}

/// A text leaf; carriage returns are normalised to LF.
pub fn text<'a, T: IntoText<'a>>(s: T) -> (d: Doc<'a>)
    ensures
        d matches Doc::Text(c) && c@ == lf_from(s.text_chars(), 0),
{
    let c = s.into_cow();
    let cs = crate::text::chars_of(cow_str(&c));
    let mut has_cr = false;
    let mut k: usize = 0;
    while k < cs.len()
        invariant
            k <= cs@.len(),
            has_cr == exists|m: int| 0 <= m < k && cs@[m] == '\r',
        decreases cs@.len() - k,
    {
        if cs[k] == '\r' {
            has_cr = true;
        }
        k = k + 1;
    }
    if !has_cr {
        proof {
            lemma_lf_from_no_cr(cs@, 0);
            assert(cs@.subrange(0, cs@.len() as int) =~= cs@);
        }
        return Doc::Text(c);
    }
    let mut out = String::new();
    let mut i: usize = 0;
    while i < cs.len()
        invariant
            i <= cs@.len(),
            out@ + lf_from(cs@, i as int) == lf_from(cs@, 0),
        decreases cs@.len() - i,
    {
        let ghost before = out@;
        if cs[i] == '\r' {
            out.push('\n');
            if i + 1 < cs.len() && cs[i + 1] == '\n' {
                proof {
                    assert(before + (seq!['\n'] + lf_from(cs@, i + 2)) =~= before.push('\n') + lf_from(cs@, i + 2));
                }
                i = i + 2;
            } else {
                proof {
                    assert(before + (seq!['\n'] + lf_from(cs@, i + 1)) =~= before.push('\n') + lf_from(cs@, i + 1));
                }
                i = i + 1;
            }
        } else {
            out.push(cs[i]);
            proof {
                assert(before + (seq![cs@[i as int]] + lf_from(cs@, i + 1)) =~= before.push(cs@[i as int]) + lf_from(cs@, i + 1));
            }
            i = i + 1;
        }
    }
    proof {
        assert(out@ + Seq::<char>::empty() =~= out@);
    }
    Doc::Text(Cow::Owned(out))
}

/// Without a carriage return, normalising changes nothing.
pub(crate) proof fn lemma_lf_from_no_cr(s: Seq<char>, i: int)
    requires
        0 <= i <= s.len(),
        forall|m: int| i <= m < s.len() ==> s[m] != '\r',
    ensures
        lf_from(s, i) == s.subrange(i, s.len() as int),
    decreases s.len() - i,
{
    if i < s.len() {
        lemma_lf_from_no_cr(s, i + 1);
        assert(seq![s[i]] + s.subrange(i + 1, s.len() as int) =~= s.subrange(i, s.len() as int));
    } else {
        assert(s.subrange(i, s.len() as int) =~= Seq::<char>::empty());
    }
}

pub fn soft_line<'a>() -> (d: Doc<'a>)
    ensures
        d is Line,
{
    Doc::Line
}

pub fn soft_space<'a>() -> (d: Doc<'a>)
    ensures
        d is SoftSpace,
{
    Doc::SoftSpace
}

pub fn hard_line<'a>() -> (d: Doc<'a>)
    ensures
        d is HardLine,
{
    Doc::HardLine
}

pub fn unbreakable<'a>(inner: Doc<'a>) -> (d: Doc<'a>)
    ensures
        d == Doc::Atomic(Box::new(inner)),
{
    Doc::Atomic(Box::new(inner))
}

/// Trusted: `Vec::from` on an array keeps its elements in order.
pub assume_specification<T, const N: usize>[ <Vec<T> as From<[T; N]>>::from ](s: [T; N]) -> (v: Vec<T>)
    ensures
        v@ == s@,
;

pub fn concat_docs<'a, const N: usize>(items: [Doc<'a>; N]) -> (d: Doc<'a>)
    ensures
        d matches Doc::Concat(v) && v@ == items@,
{
    Doc::Concat(Vec::from(items))
}

pub fn prefix_lines<'a>(p: LinePrefix, inner: Doc<'a>) -> (d: Doc<'a>)
    ensures
        d == Doc::Prefix(p, Box::new(inner)),
{
    Doc::Prefix(p, Box::new(inner))
}

/// The words of `s` split at each space.
pub open spec fn words_from(s: Seq<char>, start: int, i: int) -> Seq<Seq<char>>
    decreases s.len() - i,
{
    if i < start || i >= s.len() {
        seq![s.subrange(start, s.len() as int)]
    } else if s[i] == ' ' {
        seq![s.subrange(start, i)] + words_from(s, i + 1, i + 1)
    } else {
        words_from(s, start, i + 1)
    }
}

/// Prose: each space-separated word a text, with `SoftSpace` between
/// consecutive words.
pub open spec fn prose_items<'a>(d: Doc<'a>, words: Seq<Seq<char>>) -> bool {
    d matches Doc::Concat(v) && v@.len() == 2 * words.len() - 1 && forall|k: int|
        0 <= k < v@.len() ==> (if k % 2 == 0 {
            (#[trigger] v@[k]) matches Doc::Text(c) && c@ == words[k / 2]
        } else {
            v@[k] is SoftSpace
        })
}

/// Word-wrappable text: words separated by break candidates.
pub fn prose<'a>(s: &'a str) -> (d: Doc<'a>)
    ensures
        prose_items(d, words_from(s@, 0, 0)),
{
    let cs = crate::text::chars_of(s);
    let mut items: Vec<Doc<'a>> = Vec::new();
    let mut word = String::new();
    let mut i: usize = 0;
    let mut start: usize = 0;
    while i < cs.len()
        invariant
            cs@ == s@,
            start <= i <= cs@.len(),
            word@ == cs@.subrange(start as int, i as int),
            items@.len() % 2 == 0,
            items@.len() / 2 + words_from(cs@, start as int, i as int).len() == words_from(cs@, 0, 0).len(),
            forall|k: int| 0 <= k < words_from(cs@, start as int, i as int).len() ==> #[trigger] words_from(
                cs@, start as int, i as int)[k] == words_from(cs@, 0, 0)[items@.len() / 2 + k],
            forall|k: int| 0 <= k < items@.len() ==> (if k % 2 == 0 {
                (#[trigger] items@[k]) matches Doc::Text(c) && c@ == words_from(cs@, 0, 0)[k / 2]
            } else {
                items@[k] is SoftSpace
            }),
        decreases cs@.len() - i,
    {
        if cs[i] == ' ' {
            let mut w = String::new();
            std::mem::swap(&mut w, &mut word);
            let ghost ws = words_from(cs@, start as int, i as int);
            proof {
                assert(ws == seq![cs@.subrange(start as int, i as int)] + words_from(cs@, i + 1, i + 1));
                assert(ws[0] == cs@.subrange(start as int, i as int));
                assert forall|k: int| 0 <= k < words_from(cs@, i + 1, i + 1).len() implies #[trigger] words_from(
                    cs@, i + 1, i + 1)[k] == words_from(cs@, 0, 0)[(items@.len() + 2) / 2 + k] by {
                    assert(ws[k + 1] == words_from(cs@, i + 1, i + 1)[k]);
                }
            }
            items.push(Doc::Text(Cow::Owned(w)));
            items.push(Doc::SoftSpace);
            i = i + 1;
            start = i;
            proof {
                assert(cs@.subrange(start as int, i as int) =~= Seq::<char>::empty());
            }
        } else {
            word.push(cs[i]);
            proof {
                assert(cs@.subrange(start as int, i + 1) =~= cs@.subrange(start as int, i as int).push(cs@[i as int]));
            }
            i = i + 1;
        }
    }
    proof {
        let ws = words_from(cs@, start as int, i as int);
        assert(ws[0] == cs@.subrange(start as int, cs@.len() as int));
    }
    items.push(Doc::Text(Cow::Owned(word)));
    Doc::Concat(items)
}

// ----------------------------------------------------------------------
// Rendering
// ----------------------------------------------------------------------

/// An active prefix: its content form and its blank form.
pub type PrefixForms = (Seq<char>, Seq<char>);

/// The content forms of the active prefixes, outermost first.
pub open spec fn contents(ps: Seq<PrefixForms>) -> Seq<char>
    decreases ps.len(),
{
    if ps.len() == 0 {
        Seq::empty()
    } else {
        contents(ps.drop_last()) + ps.last().0
    }
}

/// The blank forms of the active prefixes, outermost first.
pub open spec fn blanks(ps: Seq<PrefixForms>) -> Seq<char>
    decreases ps.len(),
{
    if ps.len() == 0 {
        Seq::empty()
    } else {
        blanks(ps.drop_last()) + ps.last().1
    }
}

/// Prefix drain before content: the content forms when a newline is
/// pending, nothing otherwise.
pub open spec fn drain(ps: Seq<PrefixForms>, pending: bool) -> Seq<char> {
    if pending {
        contents(ps)
    } else {
        Seq::empty()
    }
}

/// What a newline emits: the blank forms first when the line it ends
/// is blank.
pub open spec fn newline(ps: Seq<PrefixForms>, pending: bool) -> Seq<char> {
    (if pending {
        blanks(ps)
    } else {
        Seq::empty()
    }) + seq!['\n']
}

/// Emission of the segments of a multi-line text from segment `k` on;
/// each segment follows a newline.
pub open spec fn emit_segments(segs: Seq<Seq<char>>, k: int, ps: Seq<PrefixForms>, pending: bool) -> (Seq<char>, bool)
    decreases segs.len() - k,
{
    if k < 0 || k >= segs.len() {
        (Seq::empty(), pending)
    } else {
        let body = if segs[k].len() > 0 {
            contents(ps) + segs[k]
        } else {
            Seq::empty()
        };
        let (rest, p3) = emit_segments(segs, k + 1, ps, segs[k].len() == 0);
        (newline(ps, pending) + body + rest, p3)
    }
}

/// Splits at every `\n`.
pub open spec fn split_lf(s: Seq<char>) -> Seq<Seq<char>> {
    crate::math::pretty::split_nl(s, 0, 0)
}

/// What a text leaf emits, and whether a newline is left pending.
pub open spec fn emit_text(s: Seq<char>, ps: Seq<PrefixForms>, pending: bool) -> (Seq<char>, bool) {
    if ps.len() == 0 || !s.contains('\n') {
        (drain(ps, pending) + s, false)
    } else {
        let segs = split_lf(s);
        let first_out = if segs[0].len() > 0 || pending {
            drain(ps, pending) + segs[0]
        } else {
            Seq::empty()
        };
        let p1 = if segs[0].len() > 0 || pending {
            false
        } else {
            pending
        };
        let (rest, p2) = emit_segments(segs, 1, ps, p1);
        (first_out + rest, p2)
    }
}

pub open spec fn forms(p: LinePrefix) -> PrefixForms {
    (p.content@, p.blank@)
}

/// The output of rendering `d` under prefixes `ps`, with a newline
/// `pending` or not, and whether one is pending afterwards.
pub open spec fn render_doc<'a>(d: Doc<'a>, ps: Seq<PrefixForms>, pending: bool) -> (Seq<char>, bool)
    decreases d, 0int,
{
    match d {
        Doc::Text(s) => emit_text(s@, ps, pending),
        Doc::Line => (drain(ps, pending) + seq![' '], false),
        Doc::SoftSpace => (drain(ps, pending) + seq![' '], false),
        Doc::HardLine => (newline(ps, pending), true),
        Doc::Atomic(inner) => {
            let (o, p) = render_doc(*inner, ps, false);
            (drain(ps, pending) + o, p)
        },
        Doc::Concat(items) => render_items(items@, 0, ps, pending),
        Doc::Prefix(p, inner) => render_doc(*inner, ps.push(forms(p)), pending),
    }
}

pub open spec fn render_items<'a>(items: Seq<Doc<'a>>, k: int, ps: Seq<PrefixForms>, pending: bool) -> (Seq<char>, bool)
    decreases items, items.len() - k,
{
    if k < 0 || k >= items.len() {
        (Seq::empty(), pending)
    } else {
        let (o1, p1) = render_doc(items[k], ps, pending);
        let (o2, p2) = render_items(items, k + 1, ps, p1);
        (o1 + o2, p2)
    }
}

/// The rendered text of a document.
pub open spec fn rendered<'a>(d: Doc<'a>) -> Seq<char> {
    render_doc(d, Seq::empty(), false).0
}

pub open spec fn forms_of<'b>(v: Seq<(&'b str, &'b str)>) -> Seq<PrefixForms> {
    v.map_values(|x: (&'b str, &'b str)| (x.0@, x.1@))
}

fn drain_content<'b>(out: &mut String, ps: &Vec<(&'b str, &'b str)>, pending: &mut bool)
    ensures
        final(out)@ == old(out)@ + drain(forms_of(ps@), *old(pending)),
        !*final(pending),
{
    if *pending {
        push_contents(out, ps);
    } else {
        proof {
            assert(old(out)@ + Seq::<char>::empty() =~= old(out)@);
        }
    }
    *pending = false;
}

fn push_contents<'b>(out: &mut String, ps: &Vec<(&'b str, &'b str)>)
    ensures
        final(out)@ == old(out)@ + contents(forms_of(ps@)),
{
    let ghost start = out@;
    let mut k: usize = 0;
    proof {
        assert(forms_of(ps@).take(0) =~= Seq::<PrefixForms>::empty());
        assert(start + Seq::<char>::empty() =~= start);
    }
    while k < ps.len()
        invariant
            k <= ps@.len(),
            out@ == start + contents(forms_of(ps@).take(k as int)),
        decreases ps@.len() - k,
    {
        out.push_str(ps[k].0);
        proof {
            assert(forms_of(ps@).take(k + 1).drop_last() =~= forms_of(ps@).take(k as int));
            assert(start + contents(forms_of(ps@).take(k as int)) + ps@[k as int].0@ =~= start + contents(
                forms_of(ps@).take(k + 1)));
        }
        k = k + 1;
    }
    proof {
        assert(forms_of(ps@).take(ps@.len() as int) =~= forms_of(ps@));
    }
}

fn push_newline<'b>(out: &mut String, ps: &Vec<(&'b str, &'b str)>, pending: bool)
    ensures
        final(out)@ == old(out)@ + newline(forms_of(ps@), pending),
{
    let ghost start = out@;
    if pending {
        let mut k: usize = 0;
        proof {
            assert(forms_of(ps@).take(0) =~= Seq::<PrefixForms>::empty());
            assert(start + Seq::<char>::empty() =~= start);
        }
        while k < ps.len()
            invariant
                k <= ps@.len(),
                out@ == start + blanks(forms_of(ps@).take(k as int)),
            decreases ps@.len() - k,
        {
            out.push_str(ps[k].1);
            proof {
                assert(forms_of(ps@).take(k + 1).drop_last() =~= forms_of(ps@).take(k as int));
                assert(start + blanks(forms_of(ps@).take(k as int)) + ps@[k as int].1@ =~= start + blanks(
                    forms_of(ps@).take(k + 1)));
            }
            k = k + 1;
        }
        proof {
            assert(forms_of(ps@).take(ps@.len() as int) =~= forms_of(ps@));
        }
    }
    let ghost mid = out@;
    out.push('\n');
    proof {
        if !pending {
            assert(mid == start);
        }
        assert(out@ =~= start + newline(forms_of(ps@), pending));
    }
}

/// Splits `s` at every `\n` into a vector of segments.
fn split_lines_of(cs: &Vec<char>) -> (segs: Vec<Vec<char>>)
    ensures
        segs@.len() == split_lf(cs@).len(),
        forall|k: int| 0 <= k < segs@.len() ==> (#[trigger] segs@[k])@ == split_lf(cs@)[k],
{
    let mut segs: Vec<Vec<char>> = Vec::new();
    let mut cur: Vec<char> = Vec::new();
    let mut start: usize = 0;
    let mut i: usize = 0;
    while i < cs.len()
        invariant
            start <= i <= cs@.len(),
            cur@ == cs@.subrange(start as int, i as int),
            segs@.len() + crate::math::pretty::split_nl(cs@, start as int, i as int).len() == split_lf(cs@).len(),
            forall|k: int| 0 <= k < segs@.len() ==> (#[trigger] segs@[k])@ == split_lf(cs@)[k],
            forall|k: int| 0 <= k < crate::math::pretty::split_nl(cs@, start as int, i as int).len() ==>
                #[trigger] crate::math::pretty::split_nl(cs@, start as int, i as int)[k] == split_lf(cs@)[segs@.len() + k],
        decreases cs@.len() - i,
    {
        if cs[i] == '\n' {
            let ghost rest = crate::math::pretty::split_nl(cs@, i + 1, i + 1);
            proof {
                let here = crate::math::pretty::split_nl(cs@, start as int, i as int);
                assert(here == seq![cs@.subrange(start as int, i as int)] + rest);
                assert(here[0] == cs@.subrange(start as int, i as int));
                assert forall|k: int| 0 <= k < rest.len() implies #[trigger] rest[k] == split_lf(cs@)[segs@.len() + 1 + k] by {
                    assert(here[k + 1] == rest[k]);
                }
            }
            let mut w: Vec<char> = Vec::new();
            std::mem::swap(&mut w, &mut cur);
            segs.push(w);
            i = i + 1;
            start = i;
            proof {
                assert(cs@.subrange(start as int, i as int) =~= Seq::<char>::empty());
            }
        } else {
            cur.push(cs[i]);
            proof {
                assert(cs@.subrange(start as int, i + 1) =~= cs@.subrange(start as int, i as int).push(cs@[i as int]));
            }
            i = i + 1;
        }
    }
    proof {
        let here = crate::math::pretty::split_nl(cs@, start as int, i as int);
        assert(here[0] == cs@.subrange(start as int, cs@.len() as int));
    }
    segs.push(cur);
    segs
}

fn push_chars(out: &mut String, cs: &Vec<char>)
    ensures
        final(out)@ == old(out)@ + cs@,
{
    let ghost start = out@;
    let mut k: usize = 0;
    while k < cs.len()
        invariant
            k <= cs@.len(),
            out@ == start + cs@.take(k as int),
        decreases cs@.len() - k,
    {
        out.push(cs[k]);
        proof {
            assert(start + cs@.take(k + 1) =~= (start + cs@.take(k as int)).push(cs@[k as int]));
        }
        k = k + 1;
    }
    proof {
        assert(cs@.take(cs@.len() as int) =~= cs@);
    }
}

fn render_text<'b>(out: &mut String, s: &str, ps: &Vec<(&'b str, &'b str)>, pending: &mut bool)
    ensures
        final(out)@ == old(out)@ + emit_text(s@, forms_of(ps@), *old(pending)).0,
        *final(pending) == emit_text(s@, forms_of(ps@), *old(pending)).1,
{
    let cs = crate::text::chars_of(s);
    let mut has_nl = false;
    let mut k: usize = 0;
    while k < cs.len()
        invariant
            k <= cs@.len(),
            has_nl == exists|m: int| 0 <= m < k && cs@[m] == '\n',
        decreases cs@.len() - k,
    {
        if cs[k] == '\n' {
            has_nl = true;
        }
        k = k + 1;
    }
    proof {
        if s@.contains('\n') {
            let m = choose|m: int| 0 <= m < s@.len() && s@[m] == '\n';
            assert(cs@[m] == '\n');
        }
    }
    if ps.len() == 0 || !has_nl {
        drain_content(out, ps, pending);
        out.push_str(s);
        return;
    }
    let segs = split_lines_of(&cs);
    let ghost fs = forms_of(ps@);
    let ghost segv = split_lf(s@);
    proof {
        crate::math::pretty::lemma_split_nl_nonempty(s@, 0, 0);
        assert(segv.len() >= 1);
    }
    if segs[0].len() > 0 || *pending {
        drain_content(out, ps, pending);
        push_chars(out, &segs[0]);
    }
    let mut j: usize = 1;
    let ghost acc = out@;
    let ghost p_entry = *pending;
    proof {
        assert(old(out)@ + (if segv[0].len() > 0 || *old(pending) {
            drain(fs, *old(pending)) + segv[0]
        } else {
            Seq::<char>::empty()
        }) =~= acc);
    }
    while j < segs.len()
        invariant
            1 <= j <= segs@.len(),
            segs@.len() == segv.len(),
            forall|k: int| 0 <= k < segs@.len() ==> (#[trigger] segs@[k])@ == segv[k],
            fs == forms_of(ps@),
            out@ + emit_segments(segv, j as int, fs, *pending).0 == acc + emit_segments(segv, 1, fs, p_entry).0,
            emit_segments(segv, j as int, fs, *pending).1 == emit_segments(segv, 1, fs, p_entry).1,
        decreases segs@.len() - j,
    {
        let ghost before = out@;
        let ghost pb = *pending;
        push_newline(out, ps, *pending);
        *pending = true;
        if segs[j].len() > 0 {
            drain_content(out, ps, pending);
            push_chars(out, &segs[j]);
        }
        proof {
            let body = if segv[j as int].len() > 0 { contents(fs) + segv[j as int] } else { Seq::<char>::empty() };
            assert(*pending == (segv[j as int].len() == 0));
            assert(out@ =~= before + newline(fs, pb) + body);
            let (rest, _) = emit_segments(segv, j + 1, fs, segv[j as int].len() == 0);
            assert(before + (newline(fs, pb) + body + rest) =~= out@ + rest);
        }
        j = j + 1;
    }
    proof {
        assert(emit_segments(segv, j as int, fs, *pending).0 =~= Seq::<char>::empty());
        assert(out@ + Seq::<char>::empty() =~= out@);
    }
}

fn render_into<'a, 'b>(d: &'b Doc<'a>, out: &mut String, ps: &mut Vec<(&'b str, &'b str)>, pending: &mut bool)
    ensures
        final(out)@ == old(out)@ + render_doc(*d, forms_of(old(ps)@), *old(pending)).0,
        *final(pending) == render_doc(*d, forms_of(old(ps)@), *old(pending)).1,
        final(ps)@ == old(ps)@,
    decreases *d,
{
    match d {
        Doc::Text(s) => {
            render_text(out, cow_str(s), ps, pending);
        },
        Doc::Line | Doc::SoftSpace => {
            drain_content(out, ps, pending);
            out.push(' ');
        },
        Doc::HardLine => {
            push_newline(out, ps, *pending);
            *pending = true;
        },
        Doc::Atomic(inner) => {
            let ghost fs = forms_of(ps@);
            let ghost pend0 = *pending;
            drain_content(out, ps, pending);
            let ghost mid = out@;
            render_into(inner, out, ps, pending);
            proof {
                assert(out@ =~= old(out)@ + (drain(fs, pend0) + render_doc(**inner, fs, false).0));
            }
        },
        Doc::Concat(items) => {
            let ghost fs = forms_of(ps@);
            let ghost start = out@;
            let ghost p0 = *pending;
            let mut k: usize = 0;
            while k < items.len()
                invariant
                    k <= items@.len(),
                    (*d) is Concat && (*d)->Concat_0 == *items,
                    ps@ == old(ps)@,
                    fs == forms_of(ps@),
                    out@ + render_items(items@, k as int, fs, *pending).0 == start + render_items(items@, 0, fs, p0).0,
                    render_items(items@, k as int, fs, *pending).1 == render_items(items@, 0, fs, p0).1,
                decreases items@.len() - k,
            {
                let ghost before = out@;
                let ghost pb = *pending;
                proof {
                    let v: Vec<Doc<'a>> = (*d)->Concat_0;
                    assert(v == *items);
                    assert(decreases_to!(*d => v));
                    assert(decreases_to!(v => v@));
                    assert(decreases_to!(v@ => v@[k as int]));
                    assert(decreases_to!(*d => items@[k as int]));
                }
                render_into(&items[k], out, ps, pending);
                proof {
                    let (o1, p1) = render_doc(items@[k as int], fs, pb);
                    let (o2, p2) = render_items(items@, k + 1, fs, p1);
                    assert(before + (o1 + o2) =~= out@ + o2);
                }
                k = k + 1;
            }
            proof {
                assert(out@ + Seq::<char>::empty() =~= out@);
            }
        },
        Doc::Prefix(p, inner) => {
            let ghost fs = forms_of(ps@);
            ps.push((cow_str(&p.content), cow_str(&p.blank)));
            proof {
                assert(forms_of(ps@) =~= fs.push(forms(*p)));
            }
            render_into(inner, out, ps, pending);
            ps.pop();
            proof {
                assert(ps@ =~= old(ps)@);
            }
        },
    }
}

/// Renders `doc`: soft breaks as spaces, hard breaks as newlines
/// followed by the enclosing prefixes' drains.
pub fn render<'a>(doc: &Doc<'a>, opts: &RenderOptions) -> (r: String)
    ensures
        r@ == rendered(*doc),
{
    let mut out = String::new();
    let mut ps: Vec<(&str, &str)> = Vec::new();
    let mut pending = false;
    proof {
        assert(forms_of(ps@) =~= Seq::<PrefixForms>::empty());
    }
    render_into(doc, &mut out, &mut ps, &mut pending);
    proof {
        assert(Seq::<char>::empty() + rendered(*doc) =~= rendered(*doc));
    }
    out
}

} // verus!
