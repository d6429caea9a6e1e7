use mdwright::blocks::heading::{
    find_attr_trailer_range, Heading, HeadingAttrs, HeadingError, HeadingLevel, HeadingStyle,
};

#[test]
fn level_in_range_constructs() {
    for n in 1u8..=6 {
        assert_eq!(HeadingLevel::try_new(n).map(HeadingLevel::as_u8), Ok(n));
    }
}

#[test]
fn level_out_of_range_rejected() {
    assert_eq!(HeadingLevel::try_new(0), Err(HeadingError::InvalidLevel(0)));
    assert_eq!(HeadingLevel::try_new(7), Err(HeadingError::InvalidLevel(7)));
}

#[test]
fn atx_accepts_every_level() {
    for n in 1u8..=6 {
        let lvl = HeadingLevel::try_new(n).expect("range");
        assert!(Heading::try_new(lvl, HeadingStyle::Atx).is_ok());
    }
}

#[test]
fn canonical_trailer_id_then_classes_then_attrs() {
    let attrs = HeadingAttrs {
        id: Some("section".to_owned()),
        classes: vec!["warn".to_owned(), "imp".to_owned()],
        attrs: vec![("data-x".to_owned(), Some("1".to_owned())), ("flag".to_owned(), None)],
        source_trailer: String::new(),
    };
    assert_eq!(attrs.canonical_trailer(), "{#section .warn .imp data-x=1 flag}");
}

#[test]
fn canonical_trailer_quotes_value_with_whitespace() {
    let attrs = HeadingAttrs {
        id: None,
        classes: Vec::new(),
        attrs: vec![("title".to_owned(), Some("hello world".to_owned()))],
        source_trailer: String::new(),
    };
    assert_eq!(attrs.canonical_trailer(), "{title=\"hello world\"}");
}

#[test]
fn canonical_trailer_omits_missing_id_and_empty_lists() {
    let attrs = HeadingAttrs {
        id: None,
        classes: vec!["only".to_owned()],
        attrs: Vec::new(),
        source_trailer: String::new(),
    };
    assert_eq!(attrs.canonical_trailer(), "{.only}");
}

#[test]
fn find_attr_trailer_matches_simple_atx() {
    let raw = "# Heading {#id .class}\n";
    let r = find_attr_trailer_range(raw).expect("trailer present");
    assert_eq!(&raw[r], "{#id .class}");
}

#[test]
fn find_attr_trailer_returns_none_for_plain_heading() {
    assert!(find_attr_trailer_range("# Heading\n").is_none());
}

#[test]
fn setext_accepts_only_one_and_two() {
    for n in 1u8..=2 {
        let lvl = HeadingLevel::try_new(n).expect("range");
        assert!(Heading::try_new(lvl, HeadingStyle::Setext).is_ok());
    }
    for n in 3u8..=6 {
        let lvl = HeadingLevel::try_new(n).expect("range");
        assert_eq!(
            Heading::try_new(lvl, HeadingStyle::Setext),
            Err(HeadingError::SetextLevelTooHigh { level: n }),
        );
    }
}
