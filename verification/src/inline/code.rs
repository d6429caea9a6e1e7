//! Inline code spans.
//!
//! [`InlineCodeRun::new`] produces the bytes of a code span whose
//! content reparses to the given body: a backtick fence one longer
//! than the body's longest backtick run, a space of padding on each
//! side when an edge is a backtick or when both edges are spaces around
//! some non-space content, and `\|` for each pipe inside a table cell.

use vstd::prelude::*;
use crate::escape::EscapeScope;
use crate::runs::{longest_char_run, longest_run};
use crate::text::chars_of;

verus! {

/// Each `|` written as `\|`.
pub open spec fn escape_pipes(s: Seq<char>) -> Seq<char>
    decreases s.len(),
{
    if s.len() == 0 {
        Seq::empty()
    } else {
        (if s[0] == '|' {
            seq!['\\', '|']
        } else {
            seq![s[0]]
        }) + escape_pipes(s.drop_first())
    }
}

/// Padding is needed when an edge is a backtick, or both edges are
/// spaces and some character is not a space.
pub open spec fn needs_pad(s: Seq<char>) -> bool {
    s.len() > 0 && (s[0] == '`' || s.last() == '`' || (s[0] == ' ' && s.last() == ' ' && exists|k: int|
        0 <= k < s.len() && #[trigger] s[k] != ' '))
}

pub open spec fn backticks(n: nat) -> Seq<char> {
    Seq::new(n, |i: int| '`')
}

/// The emitted code span for `body` under `scope`.
/// The fence length: one more than the longest backtick run (saturating).
pub open spec fn fence_count(body: Seq<char>) -> nat {
    if longest_run(body, '`') < usize::MAX {
        longest_run(body, '`') + 1
    } else {
        usize::MAX as nat
    }
}

pub open spec fn code_span(body: Seq<char>, scope: EscapeScope) -> Seq<char> {
    let fence = backticks(fence_count(body));
    let pad = if needs_pad(body) {
        seq![' ']
    } else {
        Seq::empty()
    };
    let inner = if scope.in_table_cell && body.contains('|') {
        escape_pipes(body)
    } else {
        body
    };
    fence + pad + inner + pad + fence
}

/// A code span in its final emitted form.
#[derive(Clone, Debug)]
pub struct InlineCodeRun {
    pub bytes: String,
}

fn push_backticks(out: &mut String, n: usize)
    ensures
        final(out)@ == old(out)@ + backticks(n as nat),
{
    let ghost start = out@;
    let mut k: usize = 0;
    while k < n
        invariant
            k <= n,
            out@ == start + backticks(k as nat),
        decreases n - k,
    {
        out.push('`');
        proof {
            assert(start + backticks((k + 1) as nat) =~= (start + backticks(k as nat)).push('`'));
        }
        k = k + 1;
    }
}

impl InlineCodeRun {
    pub fn new(body: &str, scope: EscapeScope) -> (r: Self)
        ensures
            r.bytes@ == code_span(body@, scope),
    {
        InlineCodeRun { bytes: build(body, scope) }
    }

    /// The emitted bytes.
    pub fn as_str(&self) -> (r: &str)
        ensures
            r@ == self.bytes@,
    {
        self.bytes.as_str()
    }
}

/// Longest run of backticks in `s`.
pub fn longest_backtick_run(s: &str) -> (r: usize)
    ensures
        r == longest_run(s@, '`'),
{
    let cs = chars_of(s);
    longest_char_run(&cs, '`')
}

/// The bytes of a code span whose content reparses to `body`.
pub fn build(body: &str, scope: EscapeScope) -> (out: String)
    ensures
        out@ == code_span(body@, scope),
{
    let cs = chars_of(body);
    let n = cs.len();
    let longest = longest_char_run(&cs, '`');
    let fence_len = if longest < usize::MAX {
        longest + 1
    } else {
        longest
    };
    let mut any_non_space = false;
    let mut has_pipe = false;
    let mut k: usize = 0;
    while k < n
        invariant
            n == cs@.len(),
            k <= n,
            any_non_space == exists|m: int| 0 <= m < k && #[trigger] cs@[m] != ' ',
            has_pipe == exists|m: int| 0 <= m < k && #[trigger] cs@[m] == '|',
        decreases n - k,
    {
        if cs[k] != ' ' {
            any_non_space = true;
        }
        if cs[k] == '|' {
            has_pipe = true;
        }
        k = k + 1;
    }
    let pad = n > 0 && (cs[0] == '`' || cs[n - 1] == '`' || (cs[0] == ' ' && cs[n - 1] == ' ' && any_non_space));
    let escape_pipe = scope.in_table_cell && has_pipe;
    proof {
        assert(pad == needs_pad(body@));
        assert(has_pipe == body@.contains('|'));
    }
    let mut out = String::new();
    push_backticks(&mut out, fence_len);
    if pad {
        out.push(' ');
    }
    let ghost before = out@;
    let mut i: usize = 0;
    while i < n
        invariant
            n == cs@.len(),
            cs@ == body@,
            i <= n,
            out@ == before + (if escape_pipe {
                escape_pipes(cs@.take(i as int))
            } else {
                cs@.take(i as int)
            }),
        decreases n - i,
    {
        let c = cs[i];
        proof {
            crate::inline::code::lemma_escape_pipes_push(cs@.take(i as int), c);
            assert(cs@.take(i + 1) =~= cs@.take(i as int).push(c));
        }
        if escape_pipe && c == '|' {
            out.push('\\');
            out.push('|');
            proof {
                assert(before + escape_pipes(cs@.take(i + 1)) =~= out@);
            }
        } else {
            out.push(c);
            proof {
                if escape_pipe {
                    assert(before + escape_pipes(cs@.take(i + 1)) =~= out@);
                } else {
                    assert(before + cs@.take(i + 1) =~= out@);
                }
            }
        }
        i = i + 1;
    }
    proof {
        assert(cs@.take(n as int) =~= cs@);
    }
    if pad {
        out.push(' ');
    }
    push_backticks(&mut out, fence_len);
    proof {
        let fence = backticks(fence_count(body@));
        let padq = if needs_pad(body@) { seq![' '] } else { Seq::<char>::empty() };
        let inner = if scope.in_table_cell && body@.contains('|') { escape_pipes(body@) } else { body@ };
        assert(out@ =~= fence + padq + inner + padq + fence);
    }
    out
}

/// Escaping the pipes of a longer prefix appends the escaped last
/// character.
pub proof fn lemma_escape_pipes_push(s: Seq<char>, c: char)
    ensures
        escape_pipes(s.push(c)) == escape_pipes(s) + (if c == '|' {
            seq!['\\', '|']
        } else {
            seq![c]
        }),
    decreases s.len(),
{
    if s.len() == 0 {
        assert(s.push(c).drop_first() =~= Seq::<char>::empty());
        assert(escape_pipes(Seq::<char>::empty()) =~= Seq::<char>::empty());
        let p = if c == '|' { seq!['\\', '|'] } else { seq![c] };
        assert(p + Seq::<char>::empty() =~= p);
        assert(Seq::<char>::empty() + p =~= p);
    } else {
        lemma_escape_pipes_push(s.drop_first(), c);
        assert(s.push(c).drop_first() =~= s.drop_first().push(c));
        let h = if s[0] == '|' { seq!['\\', '|'] } else { seq![s[0]] };
        let p = if c == '|' { seq!['\\', '|'] } else { seq![c] };
        assert(h + (escape_pipes(s.drop_first()) + p) =~= (h + escape_pipes(s.drop_first())) + p);
    }
}

} // verus!
