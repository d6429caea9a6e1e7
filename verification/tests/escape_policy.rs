use mdwright::escape::{escape_buffer, EscapeScope};

fn s(scope_init: impl FnOnce(&mut EscapeScope)) -> EscapeScope {
    let mut sc = EscapeScope::default();
    scope_init(&mut sc);
    sc
}

fn default_scope() -> EscapeScope {
    EscapeScope::default()
}

fn escape_no_forced(text: &str, scope: EscapeScope) -> String {
    escape_buffer(text, &vec![false; text.len()], scope)
}

#[test]
fn escape_policy_backslash_before_punct_is_escaped() {
    assert_eq!(escape_no_forced(r"\*", default_scope()), r"\\*");
}

#[test]
fn escape_policy_backslash_before_paired_asterisk_escapes_both() {
    assert_eq!(escape_no_forced(r"\*foo*", default_scope()), r"\\\*foo\*");
}

#[test]
fn escape_policy_backslash_before_letter_is_text() {
    assert_eq!(escape_no_forced(r"\a", default_scope()), r"\a");
}

#[test]
fn escape_policy_lone_trailing_backslash_is_text() {
    assert_eq!(escape_no_forced("foo\\", default_scope()), "foo\\");
}

#[test]
fn escape_policy_asterisk_with_spaces_around_is_text() {
    assert_eq!(escape_no_forced("a * b", default_scope()), "a * b");
}

#[test]
fn escape_policy_asterisk_word_boundary_left_is_escaped() {
    assert_eq!(escape_no_forced("*foo*", default_scope()), r"\*foo\*");
}

#[test]
fn escape_policy_asterisk_intraword_is_escaped() {
    assert_eq!(escape_no_forced("a*b*c", default_scope()), r"a\*b\*c");
}

#[test]
fn escape_policy_asterisk_at_start_no_partner_is_text() {
    assert_eq!(escape_no_forced("*foo", default_scope()), "*foo");
}

#[test]
fn escape_policy_asterisk_pair_at_start_and_end_is_escaped() {
    assert_eq!(escape_no_forced("*foo bar*", default_scope()), r"\*foo bar\*");
}

#[test]
fn escape_policy_intraword_underscore_is_text_id_s() {
    assert_eq!(escape_no_forced("id_S", default_scope()), "id_S");
}

#[test]
fn escape_policy_intraword_underscore_is_text_hom_cart() {
    assert_eq!(escape_no_forced("Hom_{cart}", default_scope()), "Hom_{cart}");
}

#[test]
fn escape_policy_intraword_underscore_is_text_a_b_c() {
    assert_eq!(escape_no_forced("a_b_c", default_scope()), "a_b_c");
}

#[test]
fn escape_policy_underscore_word_boundary_is_escaped() {
    assert_eq!(escape_no_forced("_foo_", default_scope()), r"\_foo\_");
}

#[test]
fn escape_policy_underscore_after_space_before_letter_with_partner_is_escaped() {
    assert_eq!(escape_no_forced("a _b_ c", default_scope()), r"a \_b\_ c");
}

#[test]
fn escape_policy_underscore_unpaired_is_text() {
    assert_eq!(escape_no_forced("foo_bar", default_scope()), "foo_bar");
    assert_eq!(escape_no_forced("foo _bar", default_scope()), "foo _bar");
}

#[test]
fn escape_policy_backtick_in_text_is_always_escaped() {
    assert_eq!(escape_no_forced("a`b", default_scope()), r"a\`b");
}

#[test]
fn escape_policy_lone_backtick_at_end_is_escaped() {
    assert_eq!(escape_no_forced("foo`", default_scope()), r"foo\`");
}

#[test]
fn escape_policy_bracket_not_link_shape_is_text() {
    assert_eq!(escape_no_forced("[foo bar baz", default_scope()), "[foo bar baz");
}

#[test]
fn escape_policy_bracket_link_shape_is_escaped() {
    assert_eq!(escape_no_forced("[foo](bar)", default_scope()), r"\[foo](bar)");
}

#[test]
fn escape_policy_bracket_reference_shape_is_escaped() {
    assert_eq!(escape_no_forced("[foo][bar]", default_scope()), r"\[foo][bar]");
}

#[test]
fn escape_policy_closing_bracket_outside_link_is_text() {
    assert_eq!(escape_no_forced("a] b", default_scope()), "a] b");
}

#[test]
fn escape_policy_bracket_inside_link_text_is_escaped() {
    let sc = s(|s| s.in_link_text = true);
    assert_eq!(escape_no_forced("[", sc), r"\[");
    assert_eq!(escape_no_forced("]", sc), r"\]");
}

#[test]
fn escape_policy_less_than_before_space_is_text() {
    assert_eq!(escape_no_forced("a < b", default_scope()), "a < b");
}

#[test]
fn escape_policy_less_than_before_digit_is_text() {
    assert_eq!(escape_no_forced("a <3 b", default_scope()), "a <3 b");
}

#[test]
fn escape_policy_less_than_before_letter_is_escaped() {
    assert_eq!(escape_no_forced("<tag", default_scope()), r"\<tag");
}

#[test]
fn escape_policy_less_than_before_slash_is_escaped() {
    assert_eq!(escape_no_forced("</a>", default_scope()), r"\</a>");
}

#[test]
fn escape_policy_ampersand_with_space_is_text() {
    assert_eq!(escape_no_forced("a & b", default_scope()), "a & b");
}

#[test]
fn escape_policy_named_entity_is_escaped() {
    assert_eq!(escape_no_forced("&amp;", default_scope()), r"\&amp;");
}

#[test]
fn escape_policy_decimal_entity_is_escaped() {
    assert_eq!(escape_no_forced("&#42;", default_scope()), r"\&#42;");
}

#[test]
fn escape_policy_hex_entity_is_escaped() {
    assert_eq!(escape_no_forced("&#x2A;", default_scope()), r"\&#x2A;");
}

#[test]
fn escape_policy_ampersand_letter_without_semicolon_is_text() {
    assert_eq!(escape_no_forced("&amp", default_scope()), "&amp");
}

#[test]
fn escape_policy_pipe_outside_table_is_text() {
    assert_eq!(escape_no_forced("a|b", default_scope()), "a|b");
}

#[test]
fn escape_policy_pipe_inside_table_is_escaped() {
    let sc = s(|s| s.in_table_cell = true);
    assert_eq!(escape_no_forced("a|b", sc), r"a\|b");
}

#[test]
fn empty_string_returns_empty() {
    assert_eq!(escape_no_forced("", default_scope()), "");
}

#[test]
fn escape_policy_utf8_codepoint_preserved_next_to_asterisk() {
    let input = "👋*hi*";
    assert_eq!(escape_no_forced(input, default_scope()), r"👋\*hi\*");
}

#[test]
fn escape_policy_utf8_letter_acts_as_alphanumeric_for_flanking() {
    assert_eq!(escape_no_forced("é_x", default_scope()), "é_x");
}

#[test]
fn escape_policy_only_escapable_chars_partnered() {
    assert_eq!(escape_no_forced("**__``", default_scope()), r"\*\*\_\_\`\`");
}

#[test]
fn escape_policy_combined_link_text_and_table_cell_scopes() {
    let sc = s(|s| {
        s.in_link_text = true;
        s.in_table_cell = true;
    });
    assert_eq!(escape_no_forced("a|b[c]", sc), r"a\|b\[c\]");
}

#[test]
fn escape_policy_mixed_escapes_in_one_run() {
    assert_eq!(
        escape_no_forced("a*b<c>*&amp;", default_scope()),
        r"a\*b\<c>\*\&amp;"
    );
}

#[test]
fn escape_policy_asterisk_intraword_no_partner_is_text() {
    assert_eq!(escape_no_forced("a*b", default_scope()), "a*b");
}

#[test]
fn forced_escape_overrides_no_escape_decision() {
    let mut forced = vec![false; "abc".len()];
    if let Some(slot) = forced.get_mut(1) {
        *slot = true;
    }
    assert_eq!(escape_buffer("abc", &forced, default_scope()), r"a\bc");
}
