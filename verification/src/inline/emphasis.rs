//! Emphasis and strong runs.
//!
//! A run records the delimiter byte the parser saw at its opening (`*`
//! or `_`). Structural emit preserves that byte; style
//! canonicalisation is a separate pass over the rendered bytes.

use vstd::prelude::*;

verus! {

/// The delimiter an emphasis or strong run is written with.
#[derive(Copy, Clone, Debug, PartialEq, Eq, Structural)]
pub enum EmphasisDelim {
    Asterisk,
    Underscore,
}

/// `_` reads as an underscore delimiter; every other byte as an asterisk.
pub open spec fn delim_of_byte(byte: u8) -> EmphasisDelim {
    if byte == 0x5Fu8 {
        EmphasisDelim::Underscore
    } else {
        EmphasisDelim::Asterisk
    }
}

impl EmphasisDelim {
    pub fn from_byte(byte: u8) -> (r: Self)
        ensures
            r == delim_of_byte(byte),
    {
        match byte {
            0x5Fu8 => EmphasisDelim::Underscore,
            _ => EmphasisDelim::Asterisk,
        }
    }

    /// The other delimiter: tried when the source one cannot be emitted
    /// safely at a site, before falling back to escaping the body.
    pub fn flip(self) -> (r: Self)
        ensures
            r != self,
    {
        match self {
            EmphasisDelim::Asterisk => EmphasisDelim::Underscore,
            EmphasisDelim::Underscore => EmphasisDelim::Asterisk,
        }
    }
}

/// An emphasis run and the delimiter byte it opened with.
#[derive(Copy, Clone, Debug, PartialEq, Eq, Structural)]
pub struct EmphasisRun {
    pub source_delim: u8,
}

/// A strong run and the delimiter byte it opened with.
#[derive(Copy, Clone, Debug, PartialEq, Eq, Structural)]
pub struct StrongRun {
    pub source_delim: u8,
}

impl EmphasisRun {
    pub fn from_source(source_delim: u8) -> (r: Self)
        ensures
            r.source_delim == source_delim,
    {
        EmphasisRun { source_delim }
    }

    /// The source delimiter, preserved.
    pub fn resolve(self) -> (r: EmphasisDelim)
        ensures
            r == delim_of_byte(self.source_delim),
    {
        EmphasisDelim::from_byte(self.source_delim)
    }
}

impl StrongRun {
    pub fn from_source(source_delim: u8) -> (r: Self)
        ensures
            r.source_delim == source_delim,
    {
        StrongRun { source_delim }
    }

    /// The source delimiter, preserved.
    pub fn resolve(self) -> (r: EmphasisDelim)
        ensures
            r == delim_of_byte(self.source_delim),
    {
        EmphasisDelim::from_byte(self.source_delim)
    }
}

} // verus!
