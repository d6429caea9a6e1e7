use std::borrow::Cow;
use mdwright::diagnostic::{Diagnostic, Fix, Severity};

fn diag(rule: &'static str, advisory: bool) -> Diagnostic {
    Diagnostic {
        rule: Cow::Borrowed(rule),
        line: 1,
        column: 2,
        span: 1..4,
        message: "m".to_owned(),
        fix: Some(Fix { replacement: "x".to_owned(), safe: true }),
        advisory,
    }
}

#[test]
fn severity_names() {
    assert_eq!(Severity::Error.as_str(), "error");
    assert_eq!(Severity::Warning.as_str(), "warning");
    assert_eq!(Severity::Advisory.as_str(), "advisory");
}

#[test]
fn severity_follows_advisory_flag() {
    assert_eq!(diag("r", true).severity(), Severity::Advisory);
    assert_eq!(diag("r", false).severity(), Severity::Error);
}

#[test]
fn suppression_comment_names_the_rule() {
    assert_eq!(diag("bare-url", false).suppress_via(), "mdwright: allow bare-url");
}
