//! Document-boundary post-passes: the trailing-newline policy and the
//! line-ending style of the output.

use vstd::prelude::*;
use crate::config::{EndOfLine, TrailingNewline};
use crate::format::doc::lf_only;
use crate::text::chars_of;

verus! {

/// `s` without its trailing spaces and tabs.
pub open spec fn trim_hspace_end(s: Seq<char>) -> Seq<char>
    decreases s.len(),
{
    if s.len() > 0 && (s.last() == ' ' || s.last() == '\t') {
        trim_hspace_end(s.drop_last())
    } else {
        s
    }
}

/// The number of `\n` at the end of `s`.
pub open spec fn lf_run(s: Seq<char>) -> nat
    decreases s.len(),
{
    if s.len() > 0 && s.last() == '\n' {
        1 + lf_run(s.drop_last())
    } else {
        0
    }
}

/// The trailing newlines of a document as the parser sees them: a
/// final line of only spaces and tabs does not count.
pub open spec fn effective_lf_count(s: Seq<char>) -> nat {
    lf_run(trim_hspace_end(s))
}

/// `s` without its trailing `\n` run.
pub open spec fn strip_lf(s: Seq<char>) -> Seq<char>
    decreases s.len(),
{
    if s.len() > 0 && s.last() == '\n' {
        strip_lf(s.drop_last())
    } else {
        s
    }
}

/// `n` newlines.
pub open spec fn newlines(n: nat) -> Seq<char> {
    Seq::new(n, |_i: int| '\n')
}

/// The output after the trailing-newline policy. `Preserve` matches the
/// source's count of trailing newlines: it drops characters from the
/// end of the output while the output has more, and appends newlines
/// while it has fewer. `Strip` drops every trailing newline; `Ensure`
/// leaves exactly one.
pub open spec fn with_trailing_newline(out: Seq<char>, policy: TrailingNewline, source: Seq<char>) -> Seq<char> {
    match policy {
        TrailingNewline::Preserve => {
            let have = effective_lf_count(out);
            let want = effective_lf_count(source);
            if have > want {
                out.take(out.len() - (have - want))
            } else {
                out + newlines((want - have) as nat)
            }
        },
        TrailingNewline::Strip => strip_lf(out),
        TrailingNewline::Ensure => strip_lf(out) + seq!['\n'],
    }
}

proof fn lemma_trim_hspace_end_prefix(s: Seq<char>)
    ensures
        trim_hspace_end(s).len() <= s.len(),
        trim_hspace_end(s) == s.take(trim_hspace_end(s).len() as int),
    decreases s.len(),
{
    if s.len() > 0 && (s.last() == ' ' || s.last() == '\t') {
        lemma_trim_hspace_end_prefix(s.drop_last());
        assert(s.drop_last().take(trim_hspace_end(s).len() as int) =~= s.take(trim_hspace_end(s).len() as int));
    } else {
        assert(s.take(s.len() as int) =~= s);
    }
}

proof fn lemma_lf_run_le(s: Seq<char>)
    ensures
        lf_run(s) <= s.len(),
    decreases s.len(),
{
    if s.len() > 0 && s.last() == '\n' {
        lemma_lf_run_le(s.drop_last());
    }
}

/// The count of trailing newlines, after trailing spaces and tabs.
pub fn trailing_lf_count(s: &str) -> (r: usize)
    ensures
        r == effective_lf_count(s@),
{
    let cs = chars_of(s);
    let mut n = cs.len();
    assert(cs@.take(n as int) =~= cs@);
    while n > 0 && (cs[n - 1] == ' ' || cs[n - 1] == '\t')
        invariant
            n <= cs@.len(),
            cs@ == s@,
            trim_hspace_end(s@) == trim_hspace_end(cs@.take(n as int)),
        decreases n,
    {
        assert(cs@.take(n as int).drop_last() =~= cs@.take(n - 1));
        n = n - 1;
    }
    let ghost t = cs@.take(n as int);
    assert(trim_hspace_end(t) == t);
    let mut k = n;
    let mut count: usize = 0;
    assert(t.take(k as int) =~= t);
    while k > 0 && cs[k - 1] == '\n'
        invariant
            k <= n <= cs@.len(),
            t == cs@.take(n as int),
            count == n - k,
            lf_run(t) == count + lf_run(t.take(k as int)),
        decreases k,
    {
        assert(t.take(k as int).drop_last() =~= t.take(k - 1));
        k = k - 1;
        count = count + 1;
    }
    count
}

/// The characters of `out` with the last `m` removed.
fn chars_dropping(cs: &Vec<char>, m: usize) -> (r: String)
    requires
        m <= cs@.len(),
    ensures
        r@ == cs@.take(cs@.len() - m),
{
    let mut r = String::new();
    let n = cs.len() - m;
    let mut i: usize = 0;
    while i < n
        invariant
            n <= cs@.len(),
            i <= n,
            r@ == cs@.take(i as int),
        decreases n - i,
    {
        r.push(cs[i]);
        assert(cs@.take(i + 1) =~= cs@.take(i as int).push(cs@[i as int]));
        i = i + 1;
    }
    r
}

/// The length of `s` without its trailing newline run.
fn strip_lf_len(cs: &Vec<char>) -> (n: usize)
    ensures
        n <= cs@.len(),
        cs@.take(n as int) == strip_lf(cs@),
{
    let mut n = cs.len();
    assert(cs@.take(n as int) =~= cs@);
    while n > 0 && cs[n - 1] == '\n'
        invariant
            n <= cs@.len(),
            strip_lf(cs@) == strip_lf(cs@.take(n as int)),
        decreases n,
    {
        assert(cs@.take(n as int).drop_last() =~= cs@.take(n - 1));
        n = n - 1;
    }
    n
}

/// Applies the trailing-newline policy at the end of the document.
pub fn normalize_trailing_newline(out: &mut String, policy: TrailingNewline, source: &str)
    ensures
        final(out)@ == with_trailing_newline(old(out)@, policy, source@),
{
    let cs = chars_of(out.as_str());
    match policy {
        TrailingNewline::Preserve => {
            let source_lf = trailing_lf_count(source);
            let out_lf = trailing_lf_count(out.as_str());
            if out_lf > source_lf {
                proof {
                    lemma_trim_hspace_end_prefix(cs@);
                    lemma_lf_run_le(trim_hspace_end(cs@));
                }
                *out = chars_dropping(&cs, out_lf - source_lf);
            } else {
                let ghost start = out@;
                let mut k: usize = out_lf;
                while k < source_lf
                    invariant
                        out_lf <= k <= source_lf,
                        out@ == start + newlines((k - out_lf) as nat),
                    decreases source_lf - k,
                {
                    out.push('\n');
                    assert(start + newlines((k + 1 - out_lf) as nat) =~= (start + newlines((k - out_lf) as nat)).push('\n'));
                    k = k + 1;
                }
            }
        },
        TrailingNewline::Strip => {
            let n = strip_lf_len(&cs);
            *out = chars_dropping(&cs, cs.len() - n);
        },
        TrailingNewline::Ensure => {
            let n = strip_lf_len(&cs);
            let mut s = chars_dropping(&cs, cs.len() - n);
            s.push('\n');
            *out = s;
        },
    }
}

/// Rewrites every `\r\n` and every lone `\r` in `out` to `\n`.
pub fn normalize_line_endings_lf(out: &mut String)
    ensures
        final(out)@ == lf_only(old(out)@),
{
    let cs = chars_of(out.as_str());
    let ghost s = cs@;
    let mut r = String::new();
    let mut i: usize = 0;
    assert(s.subrange(0, s.len() as int) =~= s);
    assert(r@ + lf_only(s) =~= lf_only(s));
    while i < cs.len()
        invariant
            s == cs@,
            i <= s.len(),
            r@ + lf_only(s.subrange(i as int, s.len() as int)) == lf_only(s),
        decreases s.len() - i,
    {
        let ghost rest = s.subrange(i as int, s.len() as int);
        if cs[i] == '\r' {
            r.push('\n');
            if i + 1 < cs.len() && cs[i + 1] == '\n' {
                assert(rest.drop_first().drop_first() =~= s.subrange(i + 2, s.len() as int));
                i = i + 2;
            } else {
                assert(rest.drop_first() =~= s.subrange(i + 1, s.len() as int));
                i = i + 1;
            }
        } else {
            r.push(cs[i]);
            assert(rest.drop_first() =~= s.subrange(i + 1, s.len() as int));
            i = i + 1;
        }
    }
    assert(s.subrange(i as int, s.len() as int) =~= Seq::<char>::empty());
    assert(r@ + Seq::<char>::empty() =~= r@);
    *out = r;
}

/// Every `\n` written as `\r\n`.
pub open spec fn crlf_of(s: Seq<char>) -> Seq<char>
    decreases s.len(),
{
    if s.len() == 0 {
        Seq::empty()
    } else {
        crlf_of(s.drop_last()) + (if s.last() == '\n' {
            seq!['\r', '\n']
        } else {
            seq![s.last()]
        })
    }
}

/// `s` holds a `\r\n`.
pub open spec fn has_crlf(s: Seq<char>) -> bool {
    exists|i: int| 0 <= i && i + 1 < s.len() && #[trigger] crlf_at(s, i)
}

/// `s` holds `\r\n` at `i`.
pub open spec fn crlf_at(s: Seq<char>, i: int) -> bool {
    s[i] == '\r' && s[i + 1] == '\n'
}

/// The output in the chosen line-ending style; `Keep` follows the
/// source: CRLF if the source holds one, LF otherwise.
pub open spec fn with_end_of_line(out: Seq<char>, policy: EndOfLine, source: Seq<char>) -> Seq<char> {
    match policy {
        EndOfLine::Lf => out,
        EndOfLine::Crlf => crlf_of(out),
        EndOfLine::Keep => if has_crlf(source) {
            crlf_of(out)
        } else {
            out
        },
    }
}

/// Whether `s` holds a `\r\n`.
fn contains_crlf(s: &str) -> (r: bool)
    ensures
        r == has_crlf(s@),
{
    let cs = chars_of(s);
    let mut i: usize = 0;
    while i < cs.len() && i + 1 < cs.len()
        invariant
            cs@ == s@,
            forall|k: int| 0 <= k < i && k + 1 < cs@.len() ==> !#[trigger] crlf_at(cs@, k),
        decreases cs@.len() - i,
    {
        if cs[i] == '\r' && cs[i + 1] == '\n' {
            assert(crlf_at(cs@, i as int));
            return true;
        }
        i = i + 1;
    }
    false
}

/// Writes the output's line endings in the chosen style; the output
/// holds only `\n` line endings on entry.
pub fn apply_end_of_line(out: &mut String, policy: EndOfLine, source: &str)
    ensures
        final(out)@ == with_end_of_line(old(out)@, policy, source@),
{
    let crlf = match policy {
        EndOfLine::Lf => false,
        EndOfLine::Crlf => true,
        EndOfLine::Keep => contains_crlf(source),
    };
    if !crlf {
        return;
    }
    let cs = chars_of(out.as_str());
    let mut r = String::new();
    let mut i: usize = 0;
    while i < cs.len()
        invariant
            i <= cs@.len(),
            r@ == crlf_of(cs@.take(i as int)),
        decreases cs@.len() - i,
    {
        if cs[i] == '\n' {
            r.push('\r');
            r.push('\n');
        } else {
            r.push(cs[i]);
        }
        assert(cs@.take(i + 1).drop_last() =~= cs@.take(i as int));
        i = i + 1;
    }
    assert(cs@.take(cs@.len() as int) =~= cs@);
    *out = r;
}

/// `Strip` and `Ensure` are idempotent: a second pass changes nothing.
pub proof fn law_strip_and_ensure_idempotent(out: Seq<char>, source: Seq<char>)
    ensures
        with_trailing_newline(with_trailing_newline(out, TrailingNewline::Strip, source), TrailingNewline::Strip, source)
            == with_trailing_newline(out, TrailingNewline::Strip, source),
        with_trailing_newline(with_trailing_newline(out, TrailingNewline::Ensure, source), TrailingNewline::Ensure, source)
            == with_trailing_newline(out, TrailingNewline::Ensure, source),
{
    lemma_strip_lf_idempotent(out);
    let e = strip_lf(out) + seq!['\n'];
    assert(e.drop_last() =~= strip_lf(out));
    lemma_strip_lf_idempotent(out);
}

proof fn lemma_strip_lf_idempotent(s: Seq<char>)
    ensures
        strip_lf(strip_lf(s)) == strip_lf(s),
        strip_lf(s).len() == 0 || strip_lf(s).last() != '\n',
    decreases s.len(),
{
    if s.len() > 0 && s.last() == '\n' {
        lemma_strip_lf_idempotent(s.drop_last());
    }
}

/// `Ensure` leaves exactly one trailing newline and `Strip` none.
pub proof fn law_ensure_leaves_one_newline(out: Seq<char>, source: Seq<char>)
    ensures
        lf_run(with_trailing_newline(out, TrailingNewline::Ensure, source)) == 1,
        lf_run(with_trailing_newline(out, TrailingNewline::Strip, source)) == 0,
{
    lemma_strip_lf_idempotent(out);
    let e = strip_lf(out) + seq!['\n'];
    assert(e.drop_last() =~= strip_lf(out));
    assert(e.last() == '\n');
    assert(lf_run(strip_lf(out)) == 0);
    assert(lf_run(e) == 1 + lf_run(e.drop_last()));
}

/// Whether `Preserve` brings `out` to the source's count of trailing
/// newlines in one pass. It does, unless `out` ends in spaces or tabs
/// after some newlines (characters are then dropped, or newlines
/// appended, on the wrong side of that blank tail), or every newline
/// must go and a blank line stays behind them.
pub open spec fn preserve_settles(out: Seq<char>, source: Seq<char>) -> bool {
    let have = effective_lf_count(out);
    let want = effective_lf_count(source);
    let bare = trim_hspace_end(out) == out;
    ||| have == want
    ||| have < want && (bare || have == 0)
    ||| want < have && bare && (want > 0 || effective_lf_count(strip_lf(out)) == 0)
}

proof fn lemma_lf_run_append(s: Seq<char>, d: nat)
    ensures
        lf_run(s + newlines(d)) == lf_run(s) + d,
    decreases d,
{
    if d > 0 {
        let t = s + newlines(d);
        assert(t.drop_last() =~= s + newlines((d - 1) as nat));
        lemma_lf_run_append(s, (d - 1) as nat);
    } else {
        assert(s + newlines(0) =~= s);
    }
}

proof fn lemma_lf_run_take(s: Seq<char>, k: nat)
    requires
        k <= lf_run(s),
    ensures
        lf_run(s.take(s.len() - k)) == lf_run(s) - k,
    decreases k,
{
    lemma_lf_run_le(s);
    if k == 0 {
        assert(s.take(s.len() as int) =~= s);
    } else {
        lemma_lf_run_take(s.drop_last(), (k - 1) as nat);
        assert(s.drop_last().take(s.drop_last().len() - (k - 1)) =~= s.take(s.len() - k));
    }
}

proof fn lemma_strip_lf_take(s: Seq<char>)
    ensures
        strip_lf(s) == s.take(s.len() - lf_run(s)),
    decreases s.len(),
{
    lemma_lf_run_le(s);
    if s.len() > 0 && s.last() == '\n' {
        lemma_strip_lf_take(s.drop_last());
        lemma_lf_run_le(s.drop_last());
        assert(s.drop_last().take(s.drop_last().len() - lf_run(s.drop_last())) =~= s.take(
            s.len() - lf_run(s),
        ));
    } else {
        assert(s.take(s.len() as int) =~= s);
    }
}

proof fn lemma_trim_take_hspace(s: Seq<char>, k: nat)
    requires
        k <= s.len() - trim_hspace_end(s).len(),
    ensures
        trim_hspace_end(s.take(s.len() - k)) == trim_hspace_end(s),
    decreases k,
{
    lemma_trim_hspace_end_prefix(s);
    if k == 0 {
        assert(s.take(s.len() as int) =~= s);
    } else {
        assert(s.len() > 0 && (s.last() == ' ' || s.last() == '\t'));
        lemma_trim_hspace_end_prefix(s.drop_last());
        lemma_trim_take_hspace(s.drop_last(), (k - 1) as nat);
        assert(s.drop_last().take(s.drop_last().len() - (k - 1)) =~= s.take(s.len() - k));
    }
}

/// A second `Preserve` pass changes only what has more or fewer trailing
/// newlines than the source.
proof fn lemma_preserve_fixed(r: Seq<char>, source: Seq<char>)
    ensures
        (with_trailing_newline(r, TrailingNewline::Preserve, source) == r) <==> (effective_lf_count(r)
            == effective_lf_count(source)),
{
    lemma_trim_hspace_end_prefix(r);
    lemma_lf_run_le(trim_hspace_end(r));
    let have = effective_lf_count(r);
    let want = effective_lf_count(source);
    if have == want {
        assert(r + newlines(0) =~= r);
    } else if have < want {
        assert((r + newlines((want - have) as nat)).len() != r.len());
    } else {
        assert(r.take(r.len() - (have - want)).len() != r.len());
    }
}

/// `Preserve` gives the output the source's count of trailing newlines,
/// so a second pass changes nothing, whenever the first pass can reach
/// that count (see [`preserve_settles`]).
pub proof fn law_preserve_idempotent(out: Seq<char>, source: Seq<char>)
    requires
        preserve_settles(out, source),
    ensures
        effective_lf_count(with_trailing_newline(out, TrailingNewline::Preserve, source))
            == effective_lf_count(source),
        with_trailing_newline(
            with_trailing_newline(out, TrailingNewline::Preserve, source),
            TrailingNewline::Preserve,
            source,
        ) == with_trailing_newline(out, TrailingNewline::Preserve, source),
{
    let have = effective_lf_count(out);
    let want = effective_lf_count(source);
    let r = with_trailing_newline(out, TrailingNewline::Preserve, source);
    lemma_trim_hspace_end_prefix(out);
    lemma_lf_run_le(trim_hspace_end(out));
    if have == want {
        assert(r =~= out);
    } else if have < want {
        let d = (want - have) as nat;
        lemma_lf_run_append(out, d);
        assert(r.last() == '\n');
        if trim_hspace_end(out) != out {
            assert(lf_run(out) == 0);
        }
    } else {
        let k = (have - want) as nat;
        lemma_lf_run_take(out, k);
        if want == 0 {
            lemma_strip_lf_take(out);
        }
    }
    lemma_preserve_fixed(r, source);
}

/// The exceptions in [`preserve_settles`] are exact: on every other
/// output a second `Preserve` pass changes the text again.
pub proof fn law_preserve_unsettled_moves(out: Seq<char>, source: Seq<char>)
    requires
        !preserve_settles(out, source),
    ensures
        with_trailing_newline(
            with_trailing_newline(out, TrailingNewline::Preserve, source),
            TrailingNewline::Preserve,
            source,
        ) != with_trailing_newline(out, TrailingNewline::Preserve, source),
{
    let have = effective_lf_count(out);
    let want = effective_lf_count(source);
    let r = with_trailing_newline(out, TrailingNewline::Preserve, source);
    let t = trim_hspace_end(out);
    lemma_trim_hspace_end_prefix(out);
    lemma_lf_run_le(t);
    if have < want {
        let d = (want - have) as nat;
        assert(out.len() > 0 && (out.last() == ' ' || out.last() == '\t'));
        assert(lf_run(out) == 0);
        lemma_lf_run_append(out, d);
        assert(r.last() == '\n');
    } else if t != out {
        let k = (have - want) as nat;
        let hc = (out.len() - t.len()) as nat;
        if k <= hc {
            lemma_trim_take_hspace(out, k);
        } else {
            assert(out.take(out.len() - k) =~= t.take(t.len() - (k - hc)));
            lemma_lf_run_take(t, (k - hc) as nat);
            assert(r.last() == '\n');
        }
    } else {
        lemma_lf_run_take(out, have);
        lemma_strip_lf_take(out);
    }
    lemma_preserve_fixed(r, source);
}

/// Line-ending normalisation leaves no carriage return.
pub proof fn law_lf_only_has_no_cr(s: Seq<char>)
    ensures
        forall|i: int| 0 <= i < lf_only(s).len() ==> lf_only(s)[i] != '\r',
    decreases s.len(),
{
    if s.len() > 0 {
        if s[0] == '\r' {
            let rest = if s.len() > 1 && s[1] == '\n' {
                s.drop_first().drop_first()
            } else {
                s.drop_first()
            };
            law_lf_only_has_no_cr(rest);
            assert(lf_only(s) == seq!['\n'] + lf_only(rest));
            assert forall|i: int| 0 <= i < lf_only(s).len() implies lf_only(s)[i] != '\r' by {
                if i > 0 {
                    assert(lf_only(s)[i] == lf_only(rest)[i - 1]);
                }
            }
        } else {
            let rest = s.drop_first();
            law_lf_only_has_no_cr(rest);
            assert(lf_only(s) == seq![s[0]] + lf_only(rest));
            assert forall|i: int| 0 <= i < lf_only(s).len() implies lf_only(s)[i] != '\r' by {
                if i > 0 {
                    assert(lf_only(s)[i] == lf_only(rest)[i - 1]);
                }
            }
        }
    }
}

/// A character as written under CRLF line endings.
pub open spec fn crlf_unit(c: char) -> Seq<char> {
    if c == '\n' {
        seq!['\r', '\n']
    } else {
        seq![c]
    }
}

proof fn lemma_crlf_front(s: Seq<char>)
    requires
        s.len() > 0,
    ensures
        crlf_of(s) == crlf_unit(s[0]) + crlf_of(s.drop_first()),
    decreases s.len(),
{
    if s.len() == 1 {
        assert(s.drop_last() =~= Seq::<char>::empty());
        assert(s.drop_first() =~= Seq::<char>::empty());
        assert(crlf_of(s) =~= crlf_unit(s[0]));
        assert(crlf_unit(s[0]) + crlf_of(s.drop_first()) =~= crlf_unit(s[0]));
    } else {
        lemma_crlf_front(s.drop_last());
        assert(s.drop_last().drop_first() =~= s.drop_first().drop_last());
        assert(s.drop_first().last() == s.last());
        assert(s.drop_last()[0] == s[0]);
        assert(crlf_of(s) =~= crlf_unit(s[0]) + crlf_of(s.drop_first()));
    }
}

proof fn lemma_crlf_round_trip(s: Seq<char>)
    requires
        forall|i: int| 0 <= i < s.len() ==> s[i] != '\r',
    ensures
        lf_only(crlf_of(s)) == s,
    decreases s.len(),
{
    if s.len() == 0 {
        assert(lf_only(crlf_of(s)) =~= s);
    } else {
        let rest = s.drop_first();
        lemma_crlf_front(s);
        lemma_crlf_round_trip(rest);
        let r = crlf_of(s);
        if s[0] == '\n' {
            assert(r[0] == '\r' && r[1] == '\n');
            assert(r.drop_first().drop_first() =~= crlf_of(rest));
            assert(lf_only(r) == seq!['\n'] + lf_only(crlf_of(rest)));
        } else {
            assert(r[0] == s[0]);
            assert(r.drop_first() =~= crlf_of(rest));
            assert(lf_only(r) == seq![s[0]] + lf_only(crlf_of(rest)));
        }
        assert(seq![s[0]] + rest =~= s);
    }
}

proof fn lemma_crlf_lf_after_cr(s: Seq<char>)
    ensures
        forall|i: int| 0 <= i < crlf_of(s).len() && #[trigger] crlf_of(s)[i] == '\n' ==> i >= 1 && crlf_of(s)[i - 1] == '\r',
    decreases s.len(),
{
    if s.len() > 0 {
        let init = s.drop_last();
        lemma_crlf_lf_after_cr(init);
        let a = crlf_of(init);
        let r = crlf_of(s);
        assert forall|i: int| 0 <= i < r.len() && #[trigger] r[i] == '\n' implies i >= 1 && r[i - 1] == '\r' by {
            if i < a.len() {
                assert(r[i] == a[i]);
                assert(r[i - 1] == a[i - 1]);
            }
        }
    }
}

/// Under CRLF line endings every line feed of the output is preceded by a
/// carriage return, and taking those carriage returns out gives back the
/// output written with bare line feeds. Under LF the output is left as it
/// is; `Keep` writes CRLF exactly when the source holds a `\r\n`.
pub proof fn law_crlf_marks_every_line_feed(out: Seq<char>, source: Seq<char>)
    ensures
        ({
            let r = with_end_of_line(out, EndOfLine::Crlf, source);
            &&& forall|i: int| 0 <= i < r.len() && #[trigger] r[i] == '\n' ==> i >= 1 && r[i - 1] == '\r'
            &&& (forall|i: int| 0 <= i < out.len() ==> #[trigger] out[i] != '\r') ==> lf_only(r) == out
        }),
        with_end_of_line(out, EndOfLine::Lf, source) == out,
        (exists|i: int| 0 <= i && i + 1 < source.len() && source[i] == '\r' && #[trigger] source[i + 1] == '\n')
            ==> with_end_of_line(out, EndOfLine::Keep, source) == with_end_of_line(out, EndOfLine::Crlf, source),
        !(exists|i: int| 0 <= i && i + 1 < source.len() && source[i] == '\r' && #[trigger] source[i + 1] == '\n')
            ==> with_end_of_line(out, EndOfLine::Keep, source) == out,
{
    if exists|i: int| 0 <= i && i + 1 < source.len() && source[i] == '\r' && #[trigger] source[i + 1] == '\n' {
        let i = choose|i: int| 0 <= i && i + 1 < source.len() && source[i] == '\r' && #[trigger] source[i + 1] == '\n';
        assert(crlf_at(source, i));
    }
    lemma_crlf_lf_after_cr(out);
    if forall|i: int| 0 <= i < out.len() ==> out[i] != '\r' {
        lemma_crlf_round_trip(out);
    }
}

} // verus!
