use mdwright::blocks::simple::{BlockQuote, DefinitionList, FootnoteDef, HtmlBlock, Paragraph, ThematicBreak};
use mdwright::config::ThematicStyle;

#[test]
fn definition_list_is_uniquely_inhabited() {
    assert_eq!(DefinitionList::new(), DefinitionList);
}

#[test]
fn footnote_label_round_trips() {
    let d = FootnoteDef::new("foo".to_owned());
    assert_eq!(d.label(), "foo");
}

#[test]
fn body_round_trips() {
    let b = HtmlBlock::new("<div>x</div>\n".to_owned());
    assert_eq!(b.body(), "<div>x</div>\n");
}

#[test]
fn paragraph_is_uniquely_inhabited() {
    assert_eq!(Paragraph::new(), Paragraph);
}

#[test]
fn block_quote_is_uniquely_inhabited() {
    assert_eq!(BlockQuote::new(), BlockQuote);
}

#[test]
fn style_round_trips() {
    for s in [
        ThematicStyle::Dash,
        ThematicStyle::Asterisk,
        ThematicStyle::Underscore,
        ThematicStyle::Preserve,
    ] {
        assert_eq!(ThematicBreak::new(s).style(), s);
    }
}
