//! Fenced and indented code blocks.
//!
//! [`FencedCodeBlock::new`] sizes the opening fence from the body: the
//! fence is strictly longer than the longest run of its character in
//! the body, and at least three long, so no body line can close it.

use std::borrow::Cow;
use vstd::prelude::*;
use crate::runs::{longest_byte_run, longest_run, lemma_run_le_longest, run_ending};
use crate::text::{cow_str, utf8_of};

verus! {

#[derive(Copy, Clone, Debug, PartialEq, Eq, Structural)]
pub enum CodeFenceChar {
    Backtick,
    Tilde,
}

pub open spec fn fence_byte(c: CodeFenceChar) -> u8 {
    match c {
        CodeFenceChar::Backtick => 0x60u8,
        CodeFenceChar::Tilde => 0x7Eu8,
    }
}

impl CodeFenceChar {
    pub fn as_byte(self) -> (r: u8)
        ensures
            r == fence_byte(self),
    {
        match self {
            CodeFenceChar::Backtick => 0x60,
            CodeFenceChar::Tilde => 0x7E,
        }
    }
}

/// A fence: `length` copies of `char`, `length` at least three.
#[derive(Copy, Clone, Debug, PartialEq, Eq, Structural)]
pub struct CodeFence {
    pub char: CodeFenceChar,
    pub length: u8,
}

impl CodeFence {
    pub fn char(self) -> (r: CodeFenceChar)
        ensures
            r == self.char,
    {
        self.char
    }

    pub fn length(self) -> (r: u8)
        ensures
            r == self.length,
    {
        self.length
    }
}

/// `max(3, longest run of the fence byte in body + 1)`, saturating at
/// 255.
pub open spec fn fence_length_for(c: CodeFenceChar, body: Seq<u8>) -> u8 {
    let needed = longest_run(body, fence_byte(c)) + 1;
    if needed < 3 {
        3u8
    } else if needed > 255 {
        255u8
    } else {
        needed as u8
    }
}

/// The fence length to use for `body`.
pub fn pick_fence_length(c: CodeFenceChar, body: &str) -> (r: u8)
    ensures
        r == fence_length_for(c, utf8_of(body@)),
{
    let fc = c.as_byte();
    let longest = longest_byte_run(body.as_bytes(), fc);
    if longest < 2 {
        3
    } else if longest >= 255 {
        255
    } else {
        (longest + 1) as u8
    }
}

/// A fenced code block; the fence is sized from the body.
#[derive(Debug)]
pub struct FencedCodeBlock<'a> {
    pub fence: CodeFence,
    pub info: Cow<'a, str>,
    pub body: Cow<'a, str>,
}

impl<'a> FencedCodeBlock<'a> {
    pub fn new(c: CodeFenceChar, info: Cow<'a, str>, body: Cow<'a, str>) -> (r: Self)
        ensures
            r.fence.char == c,
            r.fence.length == fence_length_for(c, utf8_of(body@)),
            r.info@ == info@,
            r.body@ == body@,
    {
        let length = pick_fence_length(c, cow_str(&body));
        FencedCodeBlock { fence: CodeFence { char: c, length }, info, body }
    }

    pub fn fence(&self) -> (r: CodeFence)
        ensures
            r == self.fence,
    {
        self.fence
    }

    pub fn info(&self) -> (r: &str)
        ensures
            r@ == self.info@,
    {
        cow_str(&self.info)
    }

    pub fn body(&self) -> (r: &str)
        ensures
            r@ == self.body@,
    {
        cow_str(&self.body)
    }
}

/// The fence of a constructed block is at least three long and, unless
/// the body holds a run of 255 or more fence bytes, longer than every
/// run of the fence byte in the body.
pub proof fn law_fence_outgrows_body(c: CodeFenceChar, body: Seq<u8>, i: int)
    requires
        0 <= i <= body.len(),
        longest_run(body, fence_byte(c)) < 255,
    ensures
        fence_length_for(c, body) >= 3,
        run_ending(body, fence_byte(c), i) < fence_length_for(c, body),
{
    lemma_run_le_longest(body, fence_byte(c), body.len() as int, i);
}

/// An indented code block; any body is valid.
#[derive(Debug)]
pub struct IndentedCodeBlock<'a> {
    pub body: Cow<'a, str>,
}

impl<'a> IndentedCodeBlock<'a> {
    pub fn new(body: Cow<'a, str>) -> (r: Self)
        ensures
            r.body@ == body@,
    {
        IndentedCodeBlock { body }
    }

    pub fn body(&self) -> (r: &str)
        ensures
            r@ == self.body@,
    {
        cow_str(&self.body)
    }
}

} // verus!
