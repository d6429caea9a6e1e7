//! Configuration files read through `toml::Table` into the library's
//! schema, then resolved by `Config::from_schema`.

use mdwright::config::{
    Config, EndOfLine, FmtOptions, FmtSchema, ItalicStyle, LintSchema, ListMarkerStyle, OrderedListStyle, Schema,
    StrongStyle, ThematicStyle, TrailingNewline, TrailingNewlineSchema, Wrap, WrapSchema,
};
use toml::{Table, Value};

fn named<T: Copy>(v: &Value, names: &[(&str, T)]) -> Result<T, String> {
    let s = v.as_str().ok_or_else(|| format!("expected a string, got {v}"))?;
    names.iter().find(|(n, _)| *n == s).map(|(_, t)| *t).ok_or_else(|| format!("unknown value {s:?}"))
}

fn strings(v: &Value) -> Result<Vec<String>, String> {
    let items = v.as_array().ok_or_else(|| format!("expected an array, got {v}"))?;
    items
        .iter()
        .map(|i| i.as_str().map(str::to_owned).ok_or_else(|| format!("expected a string, got {i}")))
        .collect()
}

fn table(v: &Value) -> Result<&Table, String> {
    v.as_table().ok_or_else(|| format!("expected a table, got {v}"))
}

fn read_lint(v: &Value, lint: &mut LintSchema) -> Result<(), String> {
    for (key, value) in table(v)? {
        match key.as_str() {
            "rules" => lint.rules = Some(value.as_str().ok_or("rules: expected a string")?.to_owned()),
            "exclude" => lint.exclude = strings(value)?,
            "info-strings" => {
                for (k, extra) in table(value)? {
                    if k != "extra" {
                        return Err(format!("unknown key {k}"));
                    }
                    lint.info_strings_extra = strings(extra)?;
                }
            }
            other => return Err(format!("unknown key {other}")),
        }
    }
    Ok(())
}

fn read_fmt(v: &Value, fmt: &mut FmtSchema) -> Result<(), String> {
    let style3 = [("asterisk", 0u8), ("underscore", 1), ("preserve", 2)];
    for (key, value) in table(v)? {
        match key.as_str() {
            "wrap" => {
                fmt.wrap = Some(match value {
                    Value::Integer(n) => WrapSchema::Columns(u32::try_from(*n).map_err(|e| e.to_string())?),
                    _ => named(value, &[("keep", WrapSchema::Keep), ("no", WrapSchema::No)])?,
                });
            }
            "italic" => {
                fmt.italic = Some(
                    [ItalicStyle::Asterisk, ItalicStyle::Underscore, ItalicStyle::Preserve]
                        [usize::from(named(value, &style3)?)],
                );
            }
            "strong" => {
                fmt.strong = Some(
                    [StrongStyle::Asterisk, StrongStyle::Underscore, StrongStyle::Preserve]
                        [usize::from(named(value, &style3)?)],
                );
            }
            "list-marker" => {
                fmt.list_marker = Some(named(
                    value,
                    &[
                        ("dash", ListMarkerStyle::Dash),
                        ("asterisk", ListMarkerStyle::Asterisk),
                        ("plus", ListMarkerStyle::Plus),
                        ("preserve", ListMarkerStyle::Preserve),
                    ],
                )?);
            }
            "ordered-list" => {
                fmt.ordered_list = Some(named(
                    value,
                    &[("consistent", OrderedListStyle::Consistent), ("preserve", OrderedListStyle::Preserve)],
                )?);
            }
            "thematic-break" => {
                fmt.thematic_break = Some(named(
                    value,
                    &[
                        ("dash", ThematicStyle::Dash),
                        ("asterisk", ThematicStyle::Asterisk),
                        ("underscore", ThematicStyle::Underscore),
                        ("preserve", ThematicStyle::Preserve),
                    ],
                )?);
            }
            "trailing-newline" => {
                fmt.trailing_newline = Some(match value {
                    Value::Boolean(b) => TrailingNewlineSchema::Bool(*b),
                    _ => TrailingNewlineSchema::Named(named(
                        value,
                        &[
                            ("preserve", TrailingNewline::Preserve),
                            ("strip", TrailingNewline::Strip),
                            ("ensure", TrailingNewline::Ensure),
                        ],
                    )?),
                });
            }
            "end-of-line" => {
                fmt.end_of_line = Some(named(
                    value,
                    &[("lf", EndOfLine::Lf), ("crlf", EndOfLine::Crlf), ("keep", EndOfLine::Keep)],
                )?);
            }
            "exclude" => fmt.exclude = strings(value)?,
            other => return Err(format!("unknown key {other}")),
        }
    }
    Ok(())
}

fn schema_from_str(src: &str) -> Result<Schema, String> {
    let parsed: Table = src.parse().map_err(|e: toml::de::Error| e.to_string())?;
    let mut schema = Schema::empty();
    for (key, value) in &parsed {
        match key.as_str() {
            "lint" => read_lint(value, &mut schema.lint)?,
            "fmt" => read_fmt(value, &mut schema.fmt)?,
            other => return Err(format!("unknown key {other}")),
        }
    }
    Ok(schema)
}

fn config_from_str(src: &str) -> Result<Config, String> {
    Ok(Config::from_schema(schema_from_str(src)?, None))
}

#[test]
fn parses_complete_toml() -> Result<(), String> {
    let src = r#"
[lint]
rules = "default,+escaped-emphasis"
exclude = ["docs/vendored/**"]
[lint.info-strings]
extra = ["promql"]

[fmt]
wrap = 70
italic = "asterisk"
strong = "underscore"
list-marker = "dash"
ordered-list = "consistent"
thematic-break = "asterisk"
trailing-newline = true
end-of-line = "lf"
exclude = ["docs/generated/**"]
"#;
    let cfg = config_from_str(src)?;
    assert_eq!(cfg.rules_spec(), "default,+escaped-emphasis");
    assert_eq!(cfg.exclude_globs(), &["docs/vendored/**".to_owned()]);
    assert_eq!(cfg.extra_info_strings(), &["promql".to_owned()]);
    let fmt = cfg.fmt_options();
    assert_eq!(fmt.wrap(), Wrap::At(70));
    assert_eq!(fmt.italic(), ItalicStyle::Asterisk);
    assert_eq!(fmt.strong(), StrongStyle::Underscore);
    assert_eq!(fmt.list_marker(), ListMarkerStyle::Dash);
    assert_eq!(fmt.ordered_list(), OrderedListStyle::Consistent);
    assert_eq!(fmt.thematic_break_style(), ThematicStyle::Asterisk);
    assert_eq!(fmt.trailing_newline(), TrailingNewline::Ensure);
    assert_eq!(fmt.end_of_line(), EndOfLine::Lf);
    assert_eq!(fmt.exclude_globs(), &["docs/generated/**".to_owned()]);
    Ok(())
}

#[test]
fn wrap_schema_accepts_string_or_int() -> Result<(), String> {
    let keep = config_from_str("[fmt]\nwrap = \"keep\"\n")?;
    assert_eq!(keep.fmt_options().wrap(), Wrap::Keep);
    assert_eq!(keep.fmt_options().wrap().columns(), u32::MAX);
    let no = config_from_str("[fmt]\nwrap = \"no\"\n")?;
    assert_eq!(no.fmt_options().wrap(), Wrap::No);
    assert_eq!(no.fmt_options().wrap().columns(), u32::MAX);
    let columns = config_from_str("[fmt]\nwrap = 70\n")?;
    assert_eq!(columns.fmt_options().wrap(), Wrap::At(70));
    assert_eq!(columns.fmt_options().wrap().columns(), 70);
    Ok(())
}

#[test]
fn resolvers_honour_style() -> Result<(), String> {
    let preserve = config_from_str("[fmt]\nitalic = \"preserve\"\nlist-marker = \"preserve\"\n")?;
    let fmt = preserve.fmt_options();
    assert_eq!(fmt.resolve_italic(b'_'), b'_');
    assert_eq!(fmt.resolve_italic(b'*'), b'*');
    assert_eq!(fmt.resolve_list_marker(b'+'), b'+');

    let pin = config_from_str("[fmt]\nitalic = \"asterisk\"\nlist-marker = \"dash\"\n")?;
    let fmt = pin.fmt_options();
    assert_eq!(fmt.resolve_italic(b'_'), b'*');
    assert_eq!(fmt.resolve_list_marker(b'*'), b'-');

    let defaults = FmtOptions::default();
    assert_eq!(defaults.resolve_italic(b'_'), b'_');
    assert_eq!(defaults.resolve_italic(b'*'), b'*');
    assert_eq!(defaults.resolve_list_marker(b'+'), b'+');
    assert_eq!(defaults.resolve_list_marker(b'-'), b'-');
    Ok(())
}

#[test]
fn style_enums_round_trip() -> Result<(), String> {
    for (lit, expected) in [
        ("\"asterisk\"", ItalicStyle::Asterisk),
        ("\"underscore\"", ItalicStyle::Underscore),
        ("\"preserve\"", ItalicStyle::Preserve),
    ] {
        let cfg = config_from_str(&format!("[fmt]\nitalic = {lit}\n"))?;
        assert_eq!(cfg.fmt_options().italic(), expected);
    }
    for (lit, expected) in [
        ("\"asterisk\"", StrongStyle::Asterisk),
        ("\"underscore\"", StrongStyle::Underscore),
        ("\"preserve\"", StrongStyle::Preserve),
    ] {
        let cfg = config_from_str(&format!("[fmt]\nstrong = {lit}\n"))?;
        assert_eq!(cfg.fmt_options().strong(), expected);
    }
    for (lit, expected) in [
        ("\"dash\"", ThematicStyle::Dash),
        ("\"asterisk\"", ThematicStyle::Asterisk),
        ("\"underscore\"", ThematicStyle::Underscore),
        ("\"preserve\"", ThematicStyle::Preserve),
    ] {
        let cfg = config_from_str(&format!("[fmt]\nthematic-break = {lit}\n"))?;
        assert_eq!(cfg.fmt_options().thematic_break_style(), expected);
    }
    for (lit, expected) in [
        ("\"dash\"", ListMarkerStyle::Dash),
        ("\"asterisk\"", ListMarkerStyle::Asterisk),
        ("\"plus\"", ListMarkerStyle::Plus),
        ("\"preserve\"", ListMarkerStyle::Preserve),
    ] {
        let cfg = config_from_str(&format!("[fmt]\nlist-marker = {lit}\n"))?;
        assert_eq!(cfg.fmt_options().list_marker(), expected);
    }
    for (lit, expected) in [
        ("\"consistent\"", OrderedListStyle::Consistent),
        ("\"preserve\"", OrderedListStyle::Preserve),
    ] {
        let cfg = config_from_str(&format!("[fmt]\nordered-list = {lit}\n"))?;
        assert_eq!(cfg.fmt_options().ordered_list(), expected);
    }
    for (lit, expected) in [("\"lf\"", EndOfLine::Lf), ("\"crlf\"", EndOfLine::Crlf), ("\"keep\"", EndOfLine::Keep)] {
        let cfg = config_from_str(&format!("[fmt]\nend-of-line = {lit}\n"))?;
        assert_eq!(cfg.fmt_options().end_of_line(), expected);
    }
    Ok(())
}

#[test]
fn missing_file_keys_take_defaults() -> Result<(), String> {
    let cfg = config_from_str("")?;
    assert_eq!(cfg.rules_spec(), "default");
    assert!(cfg.exclude_globs().is_empty());
    assert_eq!(cfg.fmt_options().wrap(), Wrap::Keep);
    assert_eq!(cfg.fmt_options().trailing_newline(), TrailingNewline::Preserve);
    assert_eq!(cfg.fmt_options().end_of_line(), EndOfLine::Lf);
    assert!(cfg.source().is_none());
    let strip = config_from_str("[fmt]\ntrailing-newline = false\n")?;
    assert_eq!(strip.fmt_options().trailing_newline(), TrailingNewline::Strip);
    Ok(())
}
