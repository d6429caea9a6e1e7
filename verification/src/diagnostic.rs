//! Diagnostics emitted by lint rules.

use std::borrow::Cow;
use std::ops::Range;
use vstd::prelude::*;
use crate::text::cow_str;

verus! {

/// How serious a diagnostic is. `Error` is the default for rules;
/// `Advisory` marks advisory rules; `Warning` is reserved so that the
/// serialised form can name all three levels.
#[derive(Copy, Clone, Debug, PartialEq, Eq, Structural)]
pub enum Severity {
    Error,
    Warning,
    Advisory,
}

pub open spec fn severity_name(s: Severity) -> Seq<char> {
    match s {
        Severity::Error => "error"@,
        Severity::Warning => "warning"@,
        Severity::Advisory => "advisory"@,
    }
}

impl Severity {
    /// The lowercase name used in serialised output.
    pub fn as_str(self) -> (r: &'static str)
        ensures
            r@ == severity_name(self),
    {
        match self {
            Severity::Error => "error",
            Severity::Warning => "warning",
            Severity::Advisory => "advisory",
        }
    }
}

/// A source line excerpt for a diagnostic: the one-based line, the
/// columns the span covers on it, and the line's text.
#[derive(Clone, Debug)]
pub struct Snippet<'a> {
    pub line_no: u32,
    pub col_start: u32,
    pub col_end: u32,
    pub line_text: &'a str,
}

/// A replacement for a diagnostic's span; `safe` fixes may be applied
/// without review.
#[derive(Clone, Debug)]
pub struct Fix {
    pub replacement: String,
    pub safe: bool,
}

/// One finding of a lint rule.
#[derive(Debug)]
pub struct Diagnostic {
    /// The rule's name.
    pub rule: Cow<'static, str>,
    /// One-based line of the span's start.
    pub line: usize,
    /// One-based column of the span's start.
    pub column: usize,
    /// The byte range the diagnostic covers.
    pub span: Range<usize>,
    pub message: String,
    pub fix: Option<Fix>,
    /// Whether the rule is advisory.
    pub advisory: bool,
}

impl Diagnostic {
    /// The comment that suppresses this diagnostic:
    /// `mdwright: allow <rule>`.
    pub fn suppress_via(&self) -> (r: String)
        ensures
            r@ == "mdwright: allow "@ + self.rule@,
    {
        let mut out = String::new();
        out.push_str("mdwright: allow ");
        out.push_str(cow_str(&self.rule));
        out
    }

    /// `Advisory` for an advisory rule, `Error` otherwise.
    pub fn severity(&self) -> (r: Severity)
        ensures
            r == (if self.advisory {
                Severity::Advisory
            } else {
                Severity::Error
            }),
    {
        if self.advisory {
            Severity::Advisory
        } else {
            Severity::Error
        }
    }
}

} // verus!
