use vstd::prelude::*;

pub mod text;
pub mod runs;
pub mod escape;
pub mod config;
pub mod config_discovery;
pub mod math;
pub mod format;
pub mod blocks;
pub mod inline;
pub mod diagnostic;
pub mod discover;
pub mod document;
pub mod incremental;

verus! {

} // verus!
