use mdwright::math::pretty::{align_env_body, body_braces_balanced};

#[test]
fn normalise_body_braces_balanced_accepts_matched() {
    assert!(body_braces_balanced("a{b{c}d}e").is_ok());
}

#[test]
fn normalise_body_braces_balanced_rejects_unmatched() {
    assert!(body_braces_balanced("a}").is_err());
    assert!(body_braces_balanced("a{b").is_err());
}

#[test]
fn align_pads_columns() {
    let out = align_env_body("x &= a + b \\\\ longvar &= cc");
    let lines: Vec<&str> = out.lines().collect();
    assert_eq!(lines.len(), 2);
    assert!(lines[0].starts_with("x       "), "got {:?}", lines[0]);
    assert!(lines[1].starts_with("longvar"), "got {:?}", lines[1]);
}
