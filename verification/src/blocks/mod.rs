//! Typed block constructs.

pub mod node;
pub mod code;
pub mod heading;
pub mod line_start;
pub mod simple;
pub mod list;
pub mod table;
