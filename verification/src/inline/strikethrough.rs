//! Strikethrough runs; structural emit keeps their source bytes.

use vstd::prelude::*;

verus! {

/// A strikethrough run; its source bytes are emitted as they are.
#[derive(Copy, Clone, Debug, PartialEq, Eq, Default, Structural)]
pub struct Strikethrough;

impl Strikethrough {
    pub fn new() -> (r: Self)
        ensures
            r == Strikethrough,
    {
        Strikethrough
    }
}

} // verus!
