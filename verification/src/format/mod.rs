//! Formatter building blocks.

pub mod math;
pub mod doc;
pub mod wrap;
pub mod canonicalise;
pub mod emit_safety;
pub mod inline;
pub mod endings;
pub mod block;
pub mod wrap_pass;
pub mod semantic;
