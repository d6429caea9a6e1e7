use mdwright::inline::emphasis::{EmphasisDelim, EmphasisRun, StrongRun};

#[test]
fn emphasis_preserves_asterisk() {
    assert_eq!(EmphasisRun::from_source(b'*').resolve(), EmphasisDelim::Asterisk);
}

#[test]
fn emphasis_preserves_underscore() {
    assert_eq!(EmphasisRun::from_source(b'_').resolve(), EmphasisDelim::Underscore);
}

#[test]
fn strong_preserves_asterisk() {
    assert_eq!(StrongRun::from_source(b'*').resolve(), EmphasisDelim::Asterisk);
}

#[test]
fn strong_preserves_underscore() {
    assert_eq!(StrongRun::from_source(b'_').resolve(), EmphasisDelim::Underscore);
}
