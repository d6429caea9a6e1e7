//! Typed inline constructs.

pub mod code;
pub mod run;
pub mod emphasis;
pub mod autolink;
pub mod footnote;
pub mod task;
pub mod strikethrough;
pub mod html;
pub mod link;
