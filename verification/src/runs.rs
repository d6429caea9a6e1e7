//! Runs of a repeated element, as used to size code fences.

use vstd::prelude::*;

verus! {

/// Length of the run of `x` that ends just before position `i`.
pub open spec fn run_ending<A>(s: Seq<A>, x: A, i: int) -> nat
    decreases i,
{
    if 0 < i <= s.len() && s[i - 1] == x {
        1 + run_ending(s, x, i - 1)
    } else {
        0
    }
}

/// Longest run of `x` within the first `i` elements.
pub open spec fn longest_run_upto<A>(s: Seq<A>, x: A, i: int) -> nat
    decreases i,
{
    if i <= 0 {
        0
    } else {
        let prev = longest_run_upto(s, x, i - 1);
        let here = run_ending(s, x, i);
        if here > prev {
            here
        } else {
            prev
        }
    }
}

/// Longest run of `x` anywhere in `s`.
pub open spec fn longest_run<A>(s: Seq<A>, x: A) -> nat {
    longest_run_upto(s, x, s.len() as int)
}

/// No run is longer than the longest.
pub proof fn lemma_run_le_longest<A>(s: Seq<A>, x: A, i: int, j: int)
    requires
        0 <= j <= i <= s.len(),
    ensures
        run_ending(s, x, j) <= longest_run_upto(s, x, i),
    decreases i,
{
    if i > j {
        lemma_run_le_longest(s, x, i - 1, j);
    }
}

/// Longest run of byte `c` in `b`.
pub fn longest_byte_run(b: &[u8], c: u8) -> (r: usize)
    ensures
        r == longest_run(b@, c),
{
    let mut longest: usize = 0;
    let mut current: usize = 0;
    let mut i: usize = 0;
    while i < b.len()
        invariant
            i <= b@.len(),
            current == run_ending(b@, c, i as int),
            longest == longest_run_upto(b@, c, i as int),
            current <= i,
            longest <= i,
        decreases b@.len() - i,
    {
        if b[i] == c {
            current = current + 1;
            if current > longest {
                longest = current;
            }
        } else {
            current = 0;
        }
        i = i + 1;
    }
    longest
}

/// Longest run of character `c` in `s`.
pub fn longest_char_run(s: &Vec<char>, c: char) -> (r: usize)
    ensures
        r == longest_run(s@, c),
{
    let mut longest: usize = 0;
    let mut current: usize = 0;
    let mut i: usize = 0;
    while i < s.len()
        invariant
            i <= s@.len(),
            current == run_ending(s@, c, i as int),
            longest == longest_run_upto(s@, c, i as int),
            current <= i,
            longest <= i,
        decreases s@.len() - i,
    {
        if s[i] == c {
            current = current + 1;
            if current > longest {
                longest = current;
            }
        } else {
            current = 0;
        }
        i = i + 1;
    }
    longest
}

/// The longest run is no longer than the prefix it lies in.
pub proof fn lemma_longest_le_len<A>(s: Seq<A>, x: A, i: int)
    requires
        0 <= i <= s.len(),
    ensures
        longest_run_upto(s, x, i) <= i,
    decreases i,
{
    if i > 0 {
        lemma_longest_le_len(s, x, i - 1);
        lemma_run_le_index(s, x, i);
    }
}

proof fn lemma_run_le_index<A>(s: Seq<A>, x: A, i: int)
    requires
        0 <= i <= s.len(),
    ensures
        run_ending(s, x, i) <= i,
    decreases i,
{
    if i > 0 {
        lemma_run_le_index(s, x, i - 1);
    }
}

} // verus!
