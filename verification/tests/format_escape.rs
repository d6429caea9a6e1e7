use mdwright::escape::{escape_text, EscapeScope};
use std::borrow::Cow;

fn s(scope_init: impl FnOnce(&mut EscapeScope)) -> EscapeScope {
    let mut sc = EscapeScope::default();
    scope_init(&mut sc);
    sc
}

fn default_scope() -> EscapeScope {
    EscapeScope::default()
}

#[test]
fn escape_backslash_before_punct_is_escaped() {
    // Source `\\\*` → pulldown gives text `\*`. Round-trip is
    // `\\*`: CM parses `\\` as literal `\` then `*` (unpaired) as
    // literal `*`, recovering the original two-byte text.
    assert_eq!(escape_text(r"\*", default_scope()), r"\\*");
}

#[test]
fn escape_backslash_before_paired_asterisk_escapes_both() {
    // `\*foo*` as text: now there's a partner, so escape the `*`s
    // *and* the leading `\`.
    assert_eq!(escape_text(r"\*foo*", default_scope()), r"\\\*foo\*");
}

#[test]
fn escape_backslash_before_letter_is_text() {
    assert_eq!(escape_text(r"\a", default_scope()), r"\a");
}

#[test]
fn escape_lone_trailing_backslash_is_text() {
    assert_eq!(escape_text("foo\\", default_scope()), "foo\\");
}

#[test]
fn escape_asterisk_with_spaces_around_is_text() {
    assert_eq!(escape_text("a * b", default_scope()), "a * b");
}

#[test]
fn escape_asterisk_word_boundary_left_is_escaped() {
    assert_eq!(escape_text("*foo*", default_scope()), r"\*foo\*");
}

#[test]
fn escape_asterisk_intraword_is_escaped() {
    // a*b is right-flanking on the second a and left-flanking on
    // the b side; CM would form an emphasis run if matched.
    assert_eq!(escape_text("a*b*c", default_scope()), r"a\*b\*c");
}

#[test]
fn escape_asterisk_at_start_no_partner_is_text() {
    // Single unpaired `*` — the matching pass would leave it as
    // text, so escape would be over-eager churn.
    assert_eq!(escape_text("*foo", default_scope()), "*foo");
}

#[test]
fn escape_asterisk_pair_at_start_and_end_is_escaped() {
    assert_eq!(escape_text("*foo bar*", default_scope()), r"\*foo bar\*");
}

#[test]
fn escape_intraword_underscore_is_text_id_s() {
    assert_eq!(escape_text("id_S", default_scope()), "id_S");
}

#[test]
fn escape_intraword_underscore_is_text_hom_cart() {
    assert_eq!(escape_text("Hom_{cart}", default_scope()), "Hom_{cart}");
}

#[test]
fn escape_intraword_underscore_is_text_a_b_c() {
    assert_eq!(escape_text("a_b_c", default_scope()), "a_b_c");
}

#[test]
fn escape_underscore_word_boundary_is_escaped() {
    assert_eq!(escape_text("_foo_", default_scope()), r"\_foo\_");
}

#[test]
fn escape_underscore_after_space_before_letter_with_partner_is_escaped() {
    // The leading `_` is left-flanking and has a partner closer
    // later in the run, so it would pair as italics. Escape both.
    assert_eq!(escape_text("a _b_ c", default_scope()), r"a \_b\_ c");
}

#[test]
fn escape_underscore_unpaired_is_text() {
    // Single `_` with no possible partner: matching pass leaves
    // it as text; no escape.
    assert_eq!(escape_text("foo_bar", default_scope()), "foo_bar");
    assert_eq!(escape_text("foo _bar", default_scope()), "foo _bar");
}

#[test]
fn escape_backtick_in_text_is_always_escaped() {
    assert_eq!(escape_text("a`b", default_scope()), r"a\`b");
}

#[test]
fn escape_lone_backtick_at_end_is_escaped() {
    assert_eq!(escape_text("foo`", default_scope()), r"foo\`");
}

#[test]
fn escape_bracket_not_link_shape_is_text() {
    assert_eq!(escape_text("[foo bar baz", default_scope()), "[foo bar baz");
}

#[test]
fn escape_bracket_link_shape_is_escaped() {
    assert_eq!(escape_text("[foo](bar)", default_scope()), r"\[foo](bar)");
}

#[test]
fn escape_bracket_reference_shape_is_escaped() {
    assert_eq!(escape_text("[foo][bar]", default_scope()), r"\[foo][bar]");
}

#[test]
fn escape_closing_bracket_outside_link_is_text() {
    assert_eq!(escape_text("a] b", default_scope()), "a] b");
}

#[test]
fn escape_bracket_inside_link_text_is_escaped() {
    let sc = s(|s| s.in_link_text = true);
    assert_eq!(escape_text("[", sc), r"\[");
    assert_eq!(escape_text("]", sc), r"\]");
}

#[test]
fn escape_less_than_before_space_is_text() {
    assert_eq!(escape_text("a < b", default_scope()), "a < b");
}

#[test]
fn escape_less_than_before_digit_is_text() {
    assert_eq!(escape_text("a <3 b", default_scope()), "a <3 b");
}

#[test]
fn escape_less_than_before_letter_is_escaped() {
    assert_eq!(escape_text("<tag", default_scope()), r"\<tag");
}

#[test]
fn escape_less_than_before_slash_is_escaped() {
    assert_eq!(escape_text("</a>", default_scope()), r"\</a>");
}

#[test]
fn escape_ampersand_with_space_is_text() {
    assert_eq!(escape_text("a & b", default_scope()), "a & b");
}

#[test]
fn escape_named_entity_is_escaped() {
    assert_eq!(escape_text("&amp;", default_scope()), r"\&amp;");
}

#[test]
fn escape_decimal_entity_is_escaped() {
    assert_eq!(escape_text("&#42;", default_scope()), r"\&#42;");
}

#[test]
fn escape_hex_entity_is_escaped() {
    assert_eq!(escape_text("&#x2A;", default_scope()), r"\&#x2A;");
}

#[test]
fn escape_ampersand_letter_without_semicolon_is_text() {
    assert_eq!(escape_text("&amp", default_scope()), "&amp");
}

#[test]
fn escape_pipe_outside_table_is_text() {
    assert_eq!(escape_text("a|b", default_scope()), "a|b");
}

#[test]
fn escape_pipe_inside_table_is_escaped() {
    let sc = s(|s| s.in_table_cell = true);
    assert_eq!(escape_text("a|b", sc), r"a\|b");
}

#[test]
fn empty_string_borrows() {
    let out = escape_text("", default_scope());
    assert!(matches!(out, Cow::Borrowed("")));
}

#[test]
fn plain_text_borrows_no_alloc() {
    let out = escape_text("Hello, world.", default_scope());
    assert!(matches!(out, Cow::Borrowed(_)));
}

#[test]
fn escape_utf8_codepoint_preserved_next_to_asterisk() {
    // 4-byte UTF-8 emoji adjacent to a flanking `*`. We must not
    // split the codepoint; the escape goes before the ASCII byte.
    let input = "👋*hi*";
    assert_eq!(escape_text(input, default_scope()), r"👋\*hi\*");
}

#[test]
fn escape_utf8_letter_acts_as_alphanumeric_for_flanking() {
    // `é_x` — non-ASCII byte preceding `_`, ASCII letter after.
    // Our policy treats high bytes as "other" (alphanumeric-like),
    // so this is intraword → no escape.
    assert_eq!(escape_text("é_x", default_scope()), "é_x");
}

#[test]
fn escape_only_escapable_chars_partnered() {
    // Two `*`s pair, two `_`s pair, backticks always escape.
    assert_eq!(escape_text("**__``", default_scope()), r"\*\*\_\_\`\`");
}

#[test]
fn escape_combined_link_text_and_table_cell_scopes() {
    let sc = s(|s| {
        s.in_link_text = true;
        s.in_table_cell = true;
    });
    assert_eq!(escape_text("a|b[c]", sc), r"a\|b\[c\]");
}

#[test]
fn escape_mixed_escapes_in_one_run() {
    // `<c>` is a valid one-letter HTML tag opener, so the `<`
    // escapes; the entity `&amp;` escapes; the paired `*`s
    // both escape.
    assert_eq!(
        escape_text("a*b<c>*&amp;", default_scope()),
        r"a\*b\<c>\*\&amp;"
    );
}

#[test]
fn escape_asterisk_intraword_no_partner_is_text() {
    // `a*b` alone — single `*`, no partner, no escape.
    assert_eq!(escape_text("a*b", default_scope()), "a*b");
}

#[test]
fn cm_punct_set_complete() {
    // Spot-check: every CM-punct byte should round-trip when
    // preceded by a backslash. Test escape on `\\<punct>` for a
    // few representative bytes.
    for b in [b'!', b'#', b'@', b'~', b'^', b'{', b'}'] {
        let s = format!("\\{}", char::from(b));
        let out = escape_text(&s, default_scope());
        assert_eq!(out, format!("\\\\{}", char::from(b)));
    }
}
