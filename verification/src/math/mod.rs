//! Math-region grammar: delimiter families, the structural recogniser
//! and the region pretty-printing helpers.

pub mod span;
pub mod pretty;
pub mod scan;
pub mod render;
