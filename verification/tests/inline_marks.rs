use mdwright::inline::autolink::AutolinkRun;
use mdwright::inline::footnote::FootnoteReference;
use mdwright::inline::strikethrough::Strikethrough;
use mdwright::inline::task::TaskMarker;

#[test]
fn constructor_preserves_url() {
    let run = AutolinkRun::new("https://example.com".to_owned());
    assert_eq!(run.url(), "https://example.com");
}

#[test]
fn label_round_trips() {
    let r = FootnoteReference::new("foo".to_owned());
    assert_eq!(r.label(), "foo");
}

#[test]
fn strikethrough_is_uniquely_inhabited() {
    assert_eq!(Strikethrough::new(), Strikethrough);
}

#[test]
fn checked_round_trips() {
    assert!(TaskMarker::new(true).checked());
    assert!(!TaskMarker::new(false).checked());
}
