//! Resolved project configuration.
//!
//! The on-disk format (TOML) is read and deserialised outside this
//! crate into the plain schema values of this module ([`Schema`] and
//! friends), which record for each key whether it was present. This
//! module resolves those values into the public types — [`Config`],
//! [`FmtOptions`] and the style enums — filling in every default.

use vstd::prelude::*;

verus! {

// ============================================================
// Style enums
// ============================================================

/// Heading-attribute trailer emission policy.
#[derive(Copy, Clone, Debug, PartialEq, Eq, Structural)]
pub enum HeadingAttrsStyle {
    /// Emit the source trailer byte-verbatim.
    Preserve,
    /// Emit `#id`, then classes, then `key=value` pairs.
    Canonicalise,
}

impl Default for HeadingAttrsStyle {
    fn default() -> (r: Self)
        ensures
            r == HeadingAttrsStyle::Preserve,
    {
        HeadingAttrsStyle::Preserve
    }
}

/// Delimiter rewrite policy for math regions at emit time.
#[derive(Copy, Clone, Debug, PartialEq, Eq, Structural)]
pub enum MathRender {
    /// Pass math regions through verbatim.
    Passthrough,
    /// Pass through verbatim; signals a `KaTeX` / `MathJax` renderer.
    CommonmarkKatex,
    /// Rewrite `\[..\]` to `$$..$$` and `\(..\)` to `$..$`.
    Dollar,
}

impl Default for MathRender {
    fn default() -> (r: Self)
        ensures
            r == MathRender::Passthrough,
    {
        MathRender::Passthrough
    }
}

/// Math canonicalisation configuration; every field defaults off.
#[derive(Copy, Clone, Debug, PartialEq, Eq, Structural)]
pub struct MathOptions {
    /// Whether whole-block math regions are normalised.
    pub normalise: bool,
    /// How math regions are emitted for downstream renderers.
    pub render: MathRender,
}

impl Default for MathOptions {
    fn default() -> (r: Self)
        ensures
            !r.normalise,
            r.render == MathRender::Passthrough,
    {
        MathOptions { normalise: false, render: MathRender::Passthrough }
    }
}

/// Recognition toggles for `MyST`-flavoured extensions (all default on).
#[derive(Copy, Clone, Debug, PartialEq, Eq, Structural)]
pub struct MystOptions {
    pub directive_containers: bool,
    pub inline_roles: bool,
    pub substitution_references: bool,
    pub comments: bool,
}

impl Default for MystOptions {
    fn default() -> (r: Self)
        ensures
            r.directive_containers && r.inline_roles && r.substitution_references && r.comments,
    {
        MystOptions {
            directive_containers: true,
            inline_roles: true,
            substitution_references: true,
            comments: true,
        }
    }
}

/// Recognition toggles for `Pandoc`-flavoured extensions (all default on).
#[derive(Copy, Clone, Debug, PartialEq, Eq, Structural)]
pub struct PandocOptions {
    pub fenced_divs: bool,
    pub short_form_divs: bool,
    pub inline_attribute_spans: bool,
}

impl Default for PandocOptions {
    fn default() -> (r: Self)
        ensures
            r.fenced_divs && r.short_form_divs && r.inline_attribute_spans,
    {
        PandocOptions { fenced_divs: true, short_form_divs: true, inline_attribute_spans: true }
    }
}

/// Per-extension recognition toggles (all default on).
#[derive(Copy, Clone, Debug, PartialEq, Eq, Structural)]
pub struct ExtensionOptions {
    pub definition_lists: bool,
    pub abbreviation_lists: bool,
    pub heading_attribute_lists: bool,
    pub block_attribute_lists: bool,
    pub myst: MystOptions,
    pub pandoc: PandocOptions,
}

pub open spec fn all_myst_on(m: MystOptions) -> bool {
    m.directive_containers && m.inline_roles && m.substitution_references && m.comments
}

pub open spec fn all_pandoc_on(p: PandocOptions) -> bool {
    p.fenced_divs && p.short_form_divs && p.inline_attribute_spans
}

impl Default for ExtensionOptions {
    fn default() -> (r: Self)
        ensures
            r.definition_lists && r.abbreviation_lists && r.heading_attribute_lists
                && r.block_attribute_lists,
            all_myst_on(r.myst),
            all_pandoc_on(r.pandoc),
    {
        ExtensionOptions {
            definition_lists: true,
            abbreviation_lists: true,
            heading_attribute_lists: true,
            block_attribute_lists: true,
            myst: MystOptions::default(),
            pandoc: PandocOptions::default(),
        }
    }
}

/// Trailing-newline policy at the document boundary.
#[derive(Copy, Clone, Debug, PartialEq, Eq, Structural)]
pub enum TrailingNewline {
    /// One trailing `\n` iff the source had any.
    Preserve,
    /// Drop every trailing `\n`.
    Strip,
    /// Exactly one trailing `\n`, appended if absent.
    Ensure,
}

impl Default for TrailingNewline {
    fn default() -> (r: Self)
        ensures
            r == TrailingNewline::Preserve,
    {
        TrailingNewline::Preserve
    }
}

/// Emission position for link reference and footnote definitions.
#[derive(Copy, Clone, Debug, PartialEq, Eq, Structural)]
pub enum Placement {
    End,
    Preserve,
}

/// Destination style for link definitions and inline links.
#[derive(Copy, Clone, Debug, PartialEq, Eq, Structural)]
pub enum LinkDefStyle {
    Bare,
    Angle,
    Preserve,
}

/// Prose-wrap mode.
#[derive(Copy, Clone, Debug, PartialEq, Eq, Structural)]
pub enum Wrap {
    Keep,
    No,
    At(u32),
}

impl Wrap {
    /// Effective column target; `Keep` and `No` never introduce breaks.
    pub fn columns(self) -> (r: u32)
        ensures
            r == match self {
                Wrap::At(n) => n,
                _ => u32::MAX,
            },
    {
        match self {
            Wrap::Keep | Wrap::No => u32::MAX,
            Wrap::At(n) => n,
        }
    }

    /// Narrows the target by `n` columns for prefixed nested contexts,
    /// never below one column. `Keep` and `No` are unaffected.
    pub fn shrink(self, n: u32) -> (r: Self)
        ensures
            r == match self {
                Wrap::At(c) => Wrap::At(if c > n && c - n >= 1 { (c - n) as u32 } else { 1 }),
                _ => self,
            },
    {
        match self {
            Wrap::At(c) => {
                let d = if c > n {
                    c - n
                } else {
                    0
                };
                Wrap::At(if d >= 1 {
                    d
                } else {
                    1
                })
            },
            Wrap::Keep | Wrap::No => self,
        }
    }
}

/// Italic delimiter normalisation policy.
#[derive(Copy, Clone, Debug, PartialEq, Eq, Structural)]
pub enum ItalicStyle {
    Asterisk,
    Underscore,
    Preserve,
}

/// Strong-emphasis delimiter normalisation policy.
#[derive(Copy, Clone, Debug, PartialEq, Eq, Structural)]
pub enum StrongStyle {
    Asterisk,
    Underscore,
    Preserve,
}

/// Unordered-list bullet normalisation policy.
#[derive(Copy, Clone, Debug, PartialEq, Eq, Structural)]
pub enum ListMarkerStyle {
    Dash,
    Asterisk,
    Plus,
    Preserve,
}

/// Ordered-list number normalisation policy.
#[derive(Copy, Clone, Debug, PartialEq, Eq, Structural)]
pub enum OrderedListStyle {
    Consistent,
    Preserve,
}

/// Thematic-break canonicalisation policy.
#[derive(Copy, Clone, Debug, PartialEq, Eq, Structural)]
pub enum ThematicStyle {
    Dash,
    Asterisk,
    Underscore,
    Preserve,
}

impl ThematicStyle {
    /// The byte a thematic-break line is built from; `None` for `Preserve`.
    pub fn as_byte(self) -> (r: Option<u8>)
        ensures
            r == match self {
                ThematicStyle::Dash => Some(0x2Du8),
                ThematicStyle::Asterisk => Some(0x2Au8),
                ThematicStyle::Underscore => Some(0x5Fu8),
                ThematicStyle::Preserve => None,
            },
    {
        match self {
            ThematicStyle::Dash => Some(0x2Du8),
            ThematicStyle::Asterisk => Some(0x2Au8),
            ThematicStyle::Underscore => Some(0x5Fu8),
            ThematicStyle::Preserve => None,
        }
    }
}

/// Line-ending policy; `Keep` adopts the first newline in the source.
#[derive(Copy, Clone, Debug, PartialEq, Eq, Structural)]
pub enum EndOfLine {
    Lf,
    Crlf,
    Keep,
}

/// Failure to load configuration: I/O, TOML syntax, or schema validation.
#[derive(Debug)]
pub struct ConfigError {
    pub message: String,
}

impl ConfigError {
    /// The rendered message: the path and the underlying cause.
    pub fn message(&self) -> (r: &str)
        ensures
            r@ == self.message@,
    {
        self.message.as_str()
    }
}

// ============================================================
// Formatter options
// ============================================================

/// Formatter knobs. Style knobs default to `Preserve`; structural
/// defaults are `wrap = keep`, `trailing-newline = preserve`,
/// `end-of-line = lf` and an empty exclude list.
#[derive(Debug, Clone)]
pub struct FmtOptions {
    pub wrap: Wrap,
    pub italic: ItalicStyle,
    pub strong: StrongStyle,
    pub list_marker: ListMarkerStyle,
    pub ordered_list: OrderedListStyle,
    pub trailing_newline: TrailingNewline,
    pub end_of_line: EndOfLine,
    pub exclude_globs: Vec<String>,
    pub link_def_placement: Placement,
    pub link_def_style: LinkDefStyle,
    pub footnote_placement: Placement,
    pub preserve_frontmatter: bool,
    pub thematic_break_style: ThematicStyle,
    pub math: MathOptions,
    pub heading_attrs: HeadingAttrsStyle,
    pub extensions: ExtensionOptions,
}

/// The documented defaults.
pub open spec fn is_default_fmt(o: FmtOptions) -> bool {
    &&& o.wrap == Wrap::Keep
    &&& o.italic == ItalicStyle::Preserve
    &&& o.strong == StrongStyle::Preserve
    &&& o.list_marker == ListMarkerStyle::Preserve
    &&& o.ordered_list == OrderedListStyle::Preserve
    &&& o.trailing_newline == TrailingNewline::Preserve
    &&& o.end_of_line == EndOfLine::Lf
    &&& o.exclude_globs@.len() == 0
    &&& o.link_def_placement == Placement::End
    &&& o.link_def_style == LinkDefStyle::Preserve
    &&& o.footnote_placement == Placement::Preserve
    &&& o.preserve_frontmatter
    &&& o.thematic_break_style == ThematicStyle::Preserve
    &&& o.math == MathOptions { normalise: false, render: MathRender::Passthrough }
    &&& o.heading_attrs == HeadingAttrsStyle::Preserve
    &&& is_default_extensions(o.extensions)
}

pub open spec fn is_default_extensions(e: ExtensionOptions) -> bool {
    e.definition_lists && e.abbreviation_lists && e.heading_attribute_lists
        && e.block_attribute_lists && all_myst_on(e.myst) && all_pandoc_on(e.pandoc)
}

impl Default for FmtOptions {
    fn default() -> (r: Self)
        ensures
            is_default_fmt(r),
    {
        FmtOptions {
            wrap: Wrap::Keep,
            italic: ItalicStyle::Preserve,
            strong: StrongStyle::Preserve,
            list_marker: ListMarkerStyle::Preserve,
            ordered_list: OrderedListStyle::Preserve,
            trailing_newline: TrailingNewline::Preserve,
            end_of_line: EndOfLine::Lf,
            exclude_globs: Vec::new(),
            link_def_placement: Placement::End,
            link_def_style: LinkDefStyle::Preserve,
            footnote_placement: Placement::Preserve,
            preserve_frontmatter: true,
            thematic_break_style: ThematicStyle::Preserve,
            math: MathOptions::default(),
            heading_attrs: HeadingAttrsStyle::Preserve,
            extensions: ExtensionOptions::default(),
        }
    }
}

pub open spec fn italic_target(s: ItalicStyle) -> Option<u8> {
    match s {
        ItalicStyle::Asterisk => Some(0x2Au8),
        ItalicStyle::Underscore => Some(0x5Fu8),
        ItalicStyle::Preserve => None,
    }
}

pub open spec fn strong_target(s: StrongStyle) -> Option<u8> {
    match s {
        StrongStyle::Asterisk => Some(0x2Au8),
        StrongStyle::Underscore => Some(0x5Fu8),
        StrongStyle::Preserve => None,
    }
}

pub open spec fn list_marker_target(s: ListMarkerStyle) -> Option<u8> {
    match s {
        ListMarkerStyle::Dash => Some(0x2Du8),
        ListMarkerStyle::Asterisk => Some(0x2Au8),
        ListMarkerStyle::Plus => Some(0x2Bu8),
        ListMarkerStyle::Preserve => None,
    }
}

pub open spec fn thematic_target(s: ThematicStyle) -> Option<u8> {
    match s {
        ThematicStyle::Dash => Some(0x2Du8),
        ThematicStyle::Asterisk => Some(0x2Au8),
        ThematicStyle::Underscore => Some(0x5Fu8),
        ThematicStyle::Preserve => None,
    }
}

pub open spec fn link_style_target(s: LinkDefStyle) -> Option<LinkDefStyle> {
    match s {
        LinkDefStyle::Preserve => None,
        _ => Some(s),
    }
}

/// Some knob asks the canonicalisation pass to rewrite source bytes.
pub open spec fn any_canonicalisation(o: FmtOptions) -> bool {
    italic_target(o.italic) is Some || strong_target(o.strong) is Some || list_marker_target(
        o.list_marker,
    ) is Some || thematic_target(o.thematic_break_style) is Some || o.ordered_list
        == OrderedListStyle::Consistent || link_style_target(o.link_def_style) is Some
        || o.heading_attrs == HeadingAttrsStyle::Canonicalise || o.math.render == MathRender::Dollar
        || o.math.normalise || !o.preserve_frontmatter
}

impl FmtOptions {
    /// Wrap mode for prose paragraphs.
    pub fn wrap(&self) -> (r: Wrap)
        ensures
            r == self.wrap,
    {
        self.wrap
    }

    /// Italic delimiter normalisation policy.
    pub fn italic(&self) -> (r: ItalicStyle)
        ensures
            r == self.italic,
    {
        self.italic
    }

    /// Strong-emphasis delimiter normalisation policy.
    pub fn strong(&self) -> (r: StrongStyle)
        ensures
            r == self.strong,
    {
        self.strong
    }

    /// Unordered-list bullet normalisation policy.
    pub fn list_marker(&self) -> (r: ListMarkerStyle)
        ensures
            r == self.list_marker,
    {
        self.list_marker
    }

    /// Ordered-list number normalisation policy.
    pub fn ordered_list(&self) -> (r: OrderedListStyle)
        ensures
            r == self.ordered_list,
    {
        self.ordered_list
    }

    /// Trailing-newline policy at the document boundary.
    pub fn trailing_newline(&self) -> (r: TrailingNewline)
        ensures
            r == self.trailing_newline,
    {
        self.trailing_newline
    }

    /// Line-ending normalisation policy.
    pub fn end_of_line(&self) -> (r: EndOfLine)
        ensures
            r == self.end_of_line,
    {
        self.end_of_line
    }

    /// Where reference-link definitions are emitted.
    pub fn link_def_placement(&self) -> (r: Placement)
        ensures
            r == self.link_def_placement,
    {
        self.link_def_placement
    }

    /// Whether link destinations are emitted bare or angle-bracketed.
    pub fn link_def_style(&self) -> (r: LinkDefStyle)
        ensures
            r == self.link_def_style,
    {
        self.link_def_style
    }

    /// Where footnote definitions are emitted.
    pub fn footnote_placement(&self) -> (r: Placement)
        ensures
            r == self.footnote_placement,
    {
        self.footnote_placement
    }

    /// Whether frontmatter is emitted byte-verbatim (`true`) or stripped.
    pub fn preserve_frontmatter(&self) -> (r: bool)
        ensures
            r == self.preserve_frontmatter,
    {
        self.preserve_frontmatter
    }

    /// Thematic-break canonicalisation policy.
    pub fn thematic_break_style(&self) -> (r: ThematicStyle)
        ensures
            r == self.thematic_break_style,
    {
        self.thematic_break_style
    }

    /// Math canonicalisation configuration.
    pub fn math(&self) -> (r: MathOptions)
        ensures
            r == self.math,
    {
        self.math
    }

    /// Heading-attribute trailer emission policy.
    pub fn heading_attrs(&self) -> (r: HeadingAttrsStyle)
        ensures
            r == self.heading_attrs,
    {
        self.heading_attrs
    }

    /// Per-extension recognition toggles.
    pub fn extensions(&self) -> (r: ExtensionOptions)
        ensures
            r == self.extensions,
    {
        self.extensions
    }

    /// Formatter-specific exclude globs.
    pub fn exclude_globs(&self) -> (r: &[String])
        ensures
            r@ == self.exclude_globs@,
    {
        self.exclude_globs.as_slice()
    }

    /// Override the math options. Every other knob is kept.
    pub fn with_math(self, math: MathOptions) -> (r: Self)
        ensures
            r.math == math,
            r.wrap == self.wrap,
            r.italic == self.italic,
            r.strong == self.strong,
            r.list_marker == self.list_marker,
            r.ordered_list == self.ordered_list,
            r.trailing_newline == self.trailing_newline,
            r.end_of_line == self.end_of_line,
            r.exclude_globs@ == self.exclude_globs@,
            r.link_def_placement == self.link_def_placement,
            r.link_def_style == self.link_def_style,
            r.footnote_placement == self.footnote_placement,
            r.preserve_frontmatter == self.preserve_frontmatter,
            r.thematic_break_style == self.thematic_break_style,
            r.heading_attrs == self.heading_attrs,
            r.extensions == self.extensions,
    {
        let mut s = self;
        s.math = math;
        s
    }

    /// Override the heading-attribute style. Every other knob is kept.
    pub fn with_heading_attrs(self, style: HeadingAttrsStyle) -> (r: Self)
        ensures
            r.heading_attrs == style,
            r.wrap == self.wrap,
            r.italic == self.italic,
            r.strong == self.strong,
            r.list_marker == self.list_marker,
            r.ordered_list == self.ordered_list,
            r.trailing_newline == self.trailing_newline,
            r.end_of_line == self.end_of_line,
            r.exclude_globs@ == self.exclude_globs@,
            r.link_def_placement == self.link_def_placement,
            r.link_def_style == self.link_def_style,
            r.footnote_placement == self.footnote_placement,
            r.preserve_frontmatter == self.preserve_frontmatter,
            r.thematic_break_style == self.thematic_break_style,
            r.math == self.math,
            r.extensions == self.extensions,
    {
        let mut s = self;
        s.heading_attrs = style;
        s
    }

    /// Override the per-extension toggles. Every other knob is kept.
    pub fn with_extensions(self, extensions: ExtensionOptions) -> (r: Self)
        ensures
            r.extensions == extensions,
            r.wrap == self.wrap,
            r.italic == self.italic,
            r.strong == self.strong,
            r.list_marker == self.list_marker,
            r.ordered_list == self.ordered_list,
            r.trailing_newline == self.trailing_newline,
            r.end_of_line == self.end_of_line,
            r.exclude_globs@ == self.exclude_globs@,
            r.link_def_placement == self.link_def_placement,
            r.link_def_style == self.link_def_style,
            r.footnote_placement == self.footnote_placement,
            r.preserve_frontmatter == self.preserve_frontmatter,
            r.thematic_break_style == self.thematic_break_style,
            r.math == self.math,
            r.heading_attrs == self.heading_attrs,
    {
        let mut s = self;
        s.extensions = extensions;
        s
    }

    /// Override the wrap mode. Every other knob is kept.
    pub fn with_wrap(self, wrap: Wrap) -> (r: Self)
        ensures
            r.wrap == wrap,
            r.italic == self.italic,
            r.strong == self.strong,
            r.list_marker == self.list_marker,
            r.ordered_list == self.ordered_list,
            r.trailing_newline == self.trailing_newline,
            r.end_of_line == self.end_of_line,
            r.exclude_globs@ == self.exclude_globs@,
            r.link_def_placement == self.link_def_placement,
            r.link_def_style == self.link_def_style,
            r.footnote_placement == self.footnote_placement,
            r.preserve_frontmatter == self.preserve_frontmatter,
            r.thematic_break_style == self.thematic_break_style,
            r.math == self.math,
            r.heading_attrs == self.heading_attrs,
            r.extensions == self.extensions,
    {
        let mut s = self;
        s.wrap = wrap;
        s
    }

    /// Override the italic style. Every other knob is kept.
    pub fn with_italic(self, italic: ItalicStyle) -> (r: Self)
        ensures
            r.italic == italic,
            r.wrap == self.wrap,
            r.strong == self.strong,
            r.list_marker == self.list_marker,
            r.ordered_list == self.ordered_list,
            r.trailing_newline == self.trailing_newline,
            r.end_of_line == self.end_of_line,
            r.exclude_globs@ == self.exclude_globs@,
            r.link_def_placement == self.link_def_placement,
            r.link_def_style == self.link_def_style,
            r.footnote_placement == self.footnote_placement,
            r.preserve_frontmatter == self.preserve_frontmatter,
            r.thematic_break_style == self.thematic_break_style,
            r.math == self.math,
            r.heading_attrs == self.heading_attrs,
            r.extensions == self.extensions,
    {
        let mut s = self;
        s.italic = italic;
        s
    }

    /// Override the strong style. Every other knob is kept.
    pub fn with_strong(self, strong: StrongStyle) -> (r: Self)
        ensures
            r.strong == strong,
            r.wrap == self.wrap,
            r.italic == self.italic,
            r.list_marker == self.list_marker,
            r.ordered_list == self.ordered_list,
            r.trailing_newline == self.trailing_newline,
            r.end_of_line == self.end_of_line,
            r.exclude_globs@ == self.exclude_globs@,
            r.link_def_placement == self.link_def_placement,
            r.link_def_style == self.link_def_style,
            r.footnote_placement == self.footnote_placement,
            r.preserve_frontmatter == self.preserve_frontmatter,
            r.thematic_break_style == self.thematic_break_style,
            r.math == self.math,
            r.heading_attrs == self.heading_attrs,
            r.extensions == self.extensions,
    {
        let mut s = self;
        s.strong = strong;
        s
    }

    /// Override the unordered-list bullet style. Every other knob is kept.
    pub fn with_list_marker(self, list_marker: ListMarkerStyle) -> (r: Self)
        ensures
            r.list_marker == list_marker,
            r.wrap == self.wrap,
            r.italic == self.italic,
            r.strong == self.strong,
            r.ordered_list == self.ordered_list,
            r.trailing_newline == self.trailing_newline,
            r.end_of_line == self.end_of_line,
            r.exclude_globs@ == self.exclude_globs@,
            r.link_def_placement == self.link_def_placement,
            r.link_def_style == self.link_def_style,
            r.footnote_placement == self.footnote_placement,
            r.preserve_frontmatter == self.preserve_frontmatter,
            r.thematic_break_style == self.thematic_break_style,
            r.math == self.math,
            r.heading_attrs == self.heading_attrs,
            r.extensions == self.extensions,
    {
        let mut s = self;
        s.list_marker = list_marker;
        s
    }

    /// Override the ordered-list numbering policy. Every other knob is kept.
    pub fn with_ordered_list(self, ordered_list: OrderedListStyle) -> (r: Self)
        ensures
            r.ordered_list == ordered_list,
            r.wrap == self.wrap,
            r.italic == self.italic,
            r.strong == self.strong,
            r.list_marker == self.list_marker,
            r.trailing_newline == self.trailing_newline,
            r.end_of_line == self.end_of_line,
            r.exclude_globs@ == self.exclude_globs@,
            r.link_def_placement == self.link_def_placement,
            r.link_def_style == self.link_def_style,
            r.footnote_placement == self.footnote_placement,
            r.preserve_frontmatter == self.preserve_frontmatter,
            r.thematic_break_style == self.thematic_break_style,
            r.math == self.math,
            r.heading_attrs == self.heading_attrs,
            r.extensions == self.extensions,
    {
        let mut s = self;
        s.ordered_list = ordered_list;
        s
    }

    /// Override the thematic-break policy. Every other knob is kept.
    pub fn with_thematic_break(self, thematic_break: ThematicStyle) -> (r: Self)
        ensures
            r.thematic_break_style == thematic_break,
            r.wrap == self.wrap,
            r.italic == self.italic,
            r.strong == self.strong,
            r.list_marker == self.list_marker,
            r.ordered_list == self.ordered_list,
            r.trailing_newline == self.trailing_newline,
            r.end_of_line == self.end_of_line,
            r.exclude_globs@ == self.exclude_globs@,
            r.link_def_placement == self.link_def_placement,
            r.link_def_style == self.link_def_style,
            r.footnote_placement == self.footnote_placement,
            r.preserve_frontmatter == self.preserve_frontmatter,
            r.math == self.math,
            r.heading_attrs == self.heading_attrs,
            r.extensions == self.extensions,
    {
        let mut s = self;
        s.thematic_break_style = thematic_break;
        s
    }

    /// Override the link-destination style. Every other knob is kept.
    pub fn with_link_def_style(self, link_def_style: LinkDefStyle) -> (r: Self)
        ensures
            r.link_def_style == link_def_style,
            r.wrap == self.wrap,
            r.italic == self.italic,
            r.strong == self.strong,
            r.list_marker == self.list_marker,
            r.ordered_list == self.ordered_list,
            r.trailing_newline == self.trailing_newline,
            r.end_of_line == self.end_of_line,
            r.exclude_globs@ == self.exclude_globs@,
            r.link_def_placement == self.link_def_placement,
            r.footnote_placement == self.footnote_placement,
            r.preserve_frontmatter == self.preserve_frontmatter,
            r.thematic_break_style == self.thematic_break_style,
            r.math == self.math,
            r.heading_attrs == self.heading_attrs,
            r.extensions == self.extensions,
    {
        let mut s = self;
        s.link_def_style = link_def_style;
        s
    }

    /// Override only the math render policy; `normalise` is kept.
    pub fn with_math_render(self, render: MathRender) -> (r: Self)
        ensures
            r.math.render == render,
            r.math.normalise == self.math.normalise,
            r.wrap == self.wrap,
            r.italic == self.italic,
            r.strong == self.strong,
            r.list_marker == self.list_marker,
            r.ordered_list == self.ordered_list,
            r.trailing_newline == self.trailing_newline,
            r.end_of_line == self.end_of_line,
            r.exclude_globs@ == self.exclude_globs@,
            r.link_def_placement == self.link_def_placement,
            r.link_def_style == self.link_def_style,
            r.footnote_placement == self.footnote_placement,
            r.preserve_frontmatter == self.preserve_frontmatter,
            r.thematic_break_style == self.thematic_break_style,
            r.heading_attrs == self.heading_attrs,
            r.extensions == self.extensions,
    {
        let mut s = self;
        s.math.render = render;
        s
    }
    /// The italic delimiter to emit for a run whose source used
    /// `source_delim`: the fixed style's byte, or the source byte.
    pub fn resolve_italic(&self, source_delim: u8) -> (r: u8)
        ensures
            r == match italic_target(self.italic) {
                Some(b) => b,
                None => source_delim,
            },
    {
        match self.italic {
            ItalicStyle::Asterisk => 0x2Au8,
            ItalicStyle::Underscore => 0x5Fu8,
            ItalicStyle::Preserve => source_delim,
        }
    }

    /// The bullet to emit for a list whose source used `source_marker`.
    pub fn resolve_list_marker(&self, source_marker: u8) -> (r: u8)
        ensures
            r == match list_marker_target(self.list_marker) {
                Some(b) => b,
                None => source_marker,
            },
    {
        match self.list_marker {
            ListMarkerStyle::Dash => 0x2Du8,
            ListMarkerStyle::Asterisk => 0x2Au8,
            ListMarkerStyle::Plus => 0x2Bu8,
            ListMarkerStyle::Preserve => source_marker,
        }
    }

    /// Italic-delimiter target byte; `None` keeps source bytes.
    pub fn italic_target_byte(&self) -> (r: Option<u8>)
        ensures
            r == italic_target(self.italic),
    {
        match self.italic {
            ItalicStyle::Asterisk => Some(0x2Au8),
            ItalicStyle::Underscore => Some(0x5Fu8),
            ItalicStyle::Preserve => None,
        }
    }

    /// Strong-delimiter target byte; `None` keeps source bytes.
    pub fn strong_target_byte(&self) -> (r: Option<u8>)
        ensures
            r == strong_target(self.strong),
    {
        match self.strong {
            StrongStyle::Asterisk => Some(0x2Au8),
            StrongStyle::Underscore => Some(0x5Fu8),
            StrongStyle::Preserve => None,
        }
    }

    /// Unordered-list bullet target byte; `None` keeps source bytes.
    pub fn list_marker_target_byte(&self) -> (r: Option<u8>)
        ensures
            r == list_marker_target(self.list_marker),
    {
        match self.list_marker {
            ListMarkerStyle::Dash => Some(0x2Du8),
            ListMarkerStyle::Asterisk => Some(0x2Au8),
            ListMarkerStyle::Plus => Some(0x2Bu8),
            ListMarkerStyle::Preserve => None,
        }
    }

    /// Thematic-break target byte; `None` keeps source bytes.
    pub fn thematic_target_byte(&self) -> (r: Option<u8>)
        ensures
            r == thematic_target(self.thematic_break_style),
    {
        self.thematic_break_style.as_byte()
    }

    /// Whether ordered lists are renumbered.
    pub fn should_renumber_ordered_lists(&self) -> (r: bool)
        ensures
            r == (self.ordered_list == OrderedListStyle::Consistent),
    {
        match self.ordered_list {
            OrderedListStyle::Consistent => true,
            OrderedListStyle::Preserve => false,
        }
    }

    /// Link-destination rewrite target; `None` keeps each source form.
    pub fn link_def_target(&self) -> (r: Option<LinkDefStyle>)
        ensures
            r == link_style_target(self.link_def_style),
    {
        match self.link_def_style {
            LinkDefStyle::Bare => Some(LinkDefStyle::Bare),
            LinkDefStyle::Angle => Some(LinkDefStyle::Angle),
            LinkDefStyle::Preserve => None,
        }
    }

    /// Whether any knob asks for a rewrite; when not, the
    /// canonicalisation pass is skipped entirely.
    pub fn has_any_canonicalisation(&self) -> (r: bool)
        ensures
            r == any_canonicalisation(*self),
    {
        self.italic_target_byte().is_some() || self.strong_target_byte().is_some()
            || self.list_marker_target_byte().is_some() || self.thematic_target_byte().is_some()
            || self.should_renumber_ordered_lists() || self.link_def_target().is_some() || (match self.heading_attrs {
            HeadingAttrsStyle::Canonicalise => true,
            HeadingAttrsStyle::Preserve => false,
        }) || (match self.math.render {
            MathRender::Dollar => true,
            _ => false,
        }) || self.math.normalise || !self.preserve_frontmatter
    }

    /// Resolves a `[fmt]` table: every absent key takes its default.
    pub fn from_schema(schema: FmtSchema) -> (r: Self)
        ensures
            r == fmt_of(schema),
    {
        let d = FmtOptions::default();
        let wrap = match schema.wrap {
            Some(w) => w.resolve(),
            None => d.wrap,
        };
        let trailing_newline = match schema.trailing_newline {
            Some(t) => t.resolve(),
            None => d.trailing_newline,
        };
        let math = match schema.math {
            Some(m) => m.resolve(),
            None => d.math,
        };
        let extensions = match schema.extensions {
            Some(e) => e.resolve(),
            None => d.extensions,
        };
        FmtOptions {
            wrap,
            italic: unwrap_or_copy(schema.italic, d.italic),
            strong: unwrap_or_copy(schema.strong, d.strong),
            list_marker: unwrap_or_copy(schema.list_marker, d.list_marker),
            ordered_list: unwrap_or_copy(schema.ordered_list, d.ordered_list),
            trailing_newline,
            end_of_line: unwrap_or_copy(schema.end_of_line, d.end_of_line),
            exclude_globs: schema.exclude,
            link_def_placement: unwrap_or_copy(schema.refs_placement, d.link_def_placement),
            link_def_style: unwrap_or_copy(schema.refs_style, d.link_def_style),
            footnote_placement: unwrap_or_copy(schema.footnotes_placement, d.footnote_placement),
            preserve_frontmatter: unwrap_or_copy(schema.frontmatter_preserve, d.preserve_frontmatter),
            thematic_break_style: unwrap_or_copy(schema.thematic_break, d.thematic_break_style),
            math,
            heading_attrs: unwrap_or_copy(schema.heading_attrs, d.heading_attrs),
            extensions,
        }
    }
}

fn unwrap_or_copy<T: Copy>(o: Option<T>, d: T) -> (r: T)
    ensures
        r == o.unwrap_or(d),
{
    match o {
        Some(v) => v,
        None => d,
    }
}

fn bool_or(o: Option<bool>, d: bool) -> (r: bool)
    ensures
        r == o.unwrap_or(d),
{
    match o {
        Some(v) => v,
        None => d,
    }
}

// ============================================================
// Schema: the keys as read from disk, each possibly absent
// ============================================================

/// `wrap = "keep" | "no" | <columns>`.
#[derive(Copy, Clone, Debug, PartialEq, Eq, Structural)]
pub enum WrapSchema {
    Keep,
    No,
    Columns(u32),
}

pub open spec fn wrap_of(w: WrapSchema) -> Wrap {
    match w {
        WrapSchema::Keep => Wrap::Keep,
        WrapSchema::No => Wrap::No,
        WrapSchema::Columns(n) => Wrap::At(n),
    }
}

impl WrapSchema {
    pub fn resolve(self) -> (r: Wrap)
        ensures
            r == wrap_of(self),
    {
        match self {
            WrapSchema::Keep => Wrap::Keep,
            WrapSchema::No => Wrap::No,
            WrapSchema::Columns(n) => Wrap::At(n),
        }
    }
}

/// `trailing-newline = "preserve" | "strip" | "ensure" | true | false`;
/// the boolean form is the older spelling (`true` ensures, `false` strips).
#[derive(Copy, Clone, Debug, PartialEq, Eq, Structural)]
pub enum TrailingNewlineSchema {
    Named(TrailingNewline),
    Bool(bool),
}

pub open spec fn trailing_newline_of(t: TrailingNewlineSchema) -> TrailingNewline {
    match t {
        TrailingNewlineSchema::Named(n) => n,
        TrailingNewlineSchema::Bool(true) => TrailingNewline::Ensure,
        TrailingNewlineSchema::Bool(false) => TrailingNewline::Strip,
    }
}

impl TrailingNewlineSchema {
    pub fn resolve(self) -> (r: TrailingNewline)
        ensures
            r == trailing_newline_of(self),
    {
        match self {
            TrailingNewlineSchema::Named(n) => n,
            TrailingNewlineSchema::Bool(b) => if b {
                TrailingNewline::Ensure
            } else {
                TrailingNewline::Strip
            },
        }
    }
}

/// `[fmt.math]`.
#[derive(Copy, Clone, Debug, PartialEq, Eq, Structural)]
pub struct MathSchema {
    pub normalise: Option<bool>,
    pub render: Option<MathRender>,
}

pub open spec fn math_of(m: MathSchema) -> MathOptions {
    MathOptions {
        normalise: m.normalise.unwrap_or(false),
        render: m.render.unwrap_or(MathRender::Passthrough),
    }
}

impl MathSchema {
    pub fn resolve(self) -> (r: MathOptions)
        ensures
            r == math_of(self),
    {
        MathOptions {
            normalise: bool_or(self.normalise, false),
            render: unwrap_or_copy(self.render, MathRender::Passthrough),
        }
    }
}

/// `[fmt.extensions.myst]`.
#[derive(Copy, Clone, Debug, PartialEq, Eq, Structural)]
pub struct MystSchema {
    pub directive_containers: Option<bool>,
    pub inline_roles: Option<bool>,
    pub substitution_references: Option<bool>,
    pub comments: Option<bool>,
}

pub open spec fn myst_of(m: MystSchema) -> MystOptions {
    MystOptions {
        directive_containers: m.directive_containers.unwrap_or(true),
        inline_roles: m.inline_roles.unwrap_or(true),
        substitution_references: m.substitution_references.unwrap_or(true),
        comments: m.comments.unwrap_or(true),
    }
}

impl MystSchema {
    pub fn resolve(self) -> (r: MystOptions)
        ensures
            r == myst_of(self),
    {
        MystOptions {
            directive_containers: bool_or(self.directive_containers, true),
            inline_roles: bool_or(self.inline_roles, true),
            substitution_references: bool_or(self.substitution_references, true),
            comments: bool_or(self.comments, true),
        }
    }
}

/// `[fmt.extensions.pandoc]`.
#[derive(Copy, Clone, Debug, PartialEq, Eq, Structural)]
pub struct PandocSchema {
    pub fenced_divs: Option<bool>,
    pub short_form_divs: Option<bool>,
    pub inline_attribute_spans: Option<bool>,
}

pub open spec fn pandoc_of(p: PandocSchema) -> PandocOptions {
    PandocOptions {
        fenced_divs: p.fenced_divs.unwrap_or(true),
        short_form_divs: p.short_form_divs.unwrap_or(true),
        inline_attribute_spans: p.inline_attribute_spans.unwrap_or(true),
    }
}

impl PandocSchema {
    pub fn resolve(self) -> (r: PandocOptions)
        ensures
            r == pandoc_of(self),
    {
        PandocOptions {
            fenced_divs: bool_or(self.fenced_divs, true),
            short_form_divs: bool_or(self.short_form_divs, true),
            inline_attribute_spans: bool_or(self.inline_attribute_spans, true),
        }
    }
}

/// `[fmt.extensions]`.
#[derive(Copy, Clone, Debug, PartialEq, Eq, Structural)]
pub struct ExtensionsSchema {
    pub definition_lists: Option<bool>,
    pub abbreviation_lists: Option<bool>,
    pub heading_attribute_lists: Option<bool>,
    pub block_attribute_lists: Option<bool>,
    pub myst: Option<MystSchema>,
    pub pandoc: Option<PandocSchema>,
}

pub open spec fn extensions_of(e: ExtensionsSchema) -> ExtensionOptions {
    ExtensionOptions {
        definition_lists: e.definition_lists.unwrap_or(true),
        abbreviation_lists: e.abbreviation_lists.unwrap_or(true),
        heading_attribute_lists: e.heading_attribute_lists.unwrap_or(true),
        block_attribute_lists: e.block_attribute_lists.unwrap_or(true),
        myst: match e.myst {
            Some(m) => myst_of(m),
            None => myst_of(MystSchema {
                directive_containers: None,
                inline_roles: None,
                substitution_references: None,
                comments: None,
            }),
        },
        pandoc: match e.pandoc {
            Some(p) => pandoc_of(p),
            None => pandoc_of(
                PandocSchema { fenced_divs: None, short_form_divs: None, inline_attribute_spans: None },
            ),
        },
    }
}

impl ExtensionsSchema {
    pub fn resolve(self) -> (r: ExtensionOptions)
        ensures
            r == extensions_of(self),
    {
        ExtensionOptions {
            definition_lists: bool_or(self.definition_lists, true),
            abbreviation_lists: bool_or(self.abbreviation_lists, true),
            heading_attribute_lists: bool_or(self.heading_attribute_lists, true),
            block_attribute_lists: bool_or(self.block_attribute_lists, true),
            myst: match self.myst {
                Some(m) => m.resolve(),
                None => MystOptions::default(),
            },
            pandoc: match self.pandoc {
                Some(p) => p.resolve(),
                None => PandocOptions::default(),
            },
        }
    }
}

/// The `[fmt]` table.
#[derive(Debug, Clone)]
pub struct FmtSchema {
    pub wrap: Option<WrapSchema>,
    pub italic: Option<ItalicStyle>,
    pub strong: Option<StrongStyle>,
    pub list_marker: Option<ListMarkerStyle>,
    pub ordered_list: Option<OrderedListStyle>,
    pub thematic_break: Option<ThematicStyle>,
    pub trailing_newline: Option<TrailingNewlineSchema>,
    pub end_of_line: Option<EndOfLine>,
    pub exclude: Vec<String>,
    pub refs_placement: Option<Placement>,
    pub refs_style: Option<LinkDefStyle>,
    pub footnotes_placement: Option<Placement>,
    pub frontmatter_preserve: Option<bool>,
    pub math: Option<MathSchema>,
    pub heading_attrs: Option<HeadingAttrsStyle>,
    pub extensions: Option<ExtensionsSchema>,
}

/// The options a `[fmt]` table resolves to.
pub open spec fn fmt_of(s: FmtSchema) -> FmtOptions {
    FmtOptions {
        wrap: match s.wrap {
            Some(w) => wrap_of(w),
            None => Wrap::Keep,
        },
        italic: s.italic.unwrap_or(ItalicStyle::Preserve),
        strong: s.strong.unwrap_or(StrongStyle::Preserve),
        list_marker: s.list_marker.unwrap_or(ListMarkerStyle::Preserve),
        ordered_list: s.ordered_list.unwrap_or(OrderedListStyle::Preserve),
        trailing_newline: match s.trailing_newline {
            Some(t) => trailing_newline_of(t),
            None => TrailingNewline::Preserve,
        },
        end_of_line: s.end_of_line.unwrap_or(EndOfLine::Lf),
        exclude_globs: s.exclude,
        link_def_placement: s.refs_placement.unwrap_or(Placement::End),
        link_def_style: s.refs_style.unwrap_or(LinkDefStyle::Preserve),
        footnote_placement: s.footnotes_placement.unwrap_or(Placement::Preserve),
        preserve_frontmatter: s.frontmatter_preserve.unwrap_or(true),
        thematic_break_style: s.thematic_break.unwrap_or(ThematicStyle::Preserve),
        math: match s.math {
            Some(m) => math_of(m),
            None => MathOptions { normalise: false, render: MathRender::Passthrough },
        },
        heading_attrs: s.heading_attrs.unwrap_or(HeadingAttrsStyle::Preserve),
        extensions: match s.extensions {
            Some(e) => extensions_of(e),
            None => extensions_of(no_extension_keys()),
        },
    }
}

/// An `[fmt.extensions]` table with no keys.
pub open spec fn no_extension_keys() -> ExtensionsSchema {
    ExtensionsSchema {
        definition_lists: None,
        abbreviation_lists: None,
        heading_attribute_lists: None,
        block_attribute_lists: None,
        myst: None,
        pandoc: None,
    }
}

/// A `[fmt]` table with no keys.
pub open spec fn fmt_schema_is_empty(r: FmtSchema) -> bool {
    r.wrap is None && r.italic is None && r.strong is None && r.list_marker is None
        && r.ordered_list is None && r.thematic_break is None && r.trailing_newline is None
        && r.end_of_line is None && r.exclude@.len() == 0 && r.refs_placement is None
        && r.refs_style is None && r.footnotes_placement is None && r.frontmatter_preserve is None
        && r.math is None && r.heading_attrs is None && r.extensions is None
}

impl FmtSchema {
    /// An empty `[fmt]` table: every key absent.
    pub fn empty() -> (r: Self)
        ensures
            fmt_schema_is_empty(r),
    {
        FmtSchema {
            wrap: None,
            italic: None,
            strong: None,
            list_marker: None,
            ordered_list: None,
            thematic_break: None,
            trailing_newline: None,
            end_of_line: None,
            exclude: Vec::new(),
            refs_placement: None,
            refs_style: None,
            footnotes_placement: None,
            frontmatter_preserve: None,
            math: None,
            heading_attrs: None,
            extensions: None,
        }
    }
}

/// The `[lint]` table.
#[derive(Debug, Clone)]
pub struct LintSchema {
    pub rules: Option<String>,
    pub exclude: Vec<String>,
    pub info_strings_extra: Vec<String>,
}

/// A whole configuration file.
#[derive(Debug, Clone)]
pub struct Schema {
    pub lint: LintSchema,
    pub fmt: FmtSchema,
}

impl Schema {
    /// A file with no keys at all.
    pub fn empty() -> (r: Self)
        ensures
            r.lint.rules is None,
            r.lint.exclude@.len() == 0,
            r.lint.info_strings_extra@.len() == 0,
            fmt_schema_is_empty(r.fmt),
    {
        Schema {
            lint: LintSchema { rules: None, exclude: Vec::new(), info_strings_extra: Vec::new() },
            fmt: FmtSchema::empty(),
        }
    }
}

// ============================================================
// Config
// ============================================================

/// Resolved project configuration.
#[derive(Debug, Clone)]
pub struct Config {
    pub rules_spec: String,
    pub exclude_globs: Vec<String>,
    pub extra_info_strings: Vec<String>,
    pub fmt_options: FmtOptions,
    /// Path of the file the configuration came from; `None` for defaults.
    pub source: Option<String>,
}

/// The parent directory `std::path::Path::parent` gives for a path.
pub uninterp spec fn path_parent(p: Seq<char>) -> Option<Seq<char>>;

/// Calls `std::path::Path::parent` on `p`.
///
/// Trusted: the result is `Path::parent(p)` rendered back as a string;
/// it is named, not stated, because the path grammar lives in std.
#[verifier::external_body]
fn parent_of(p: &str) -> (r: Option<String>)
    ensures
        match r {
            Some(s) => path_parent(p@) == Some(s@),
            None => path_parent(p@) is None,
        },
{
    std::path::Path::new(p).parent().map(|q| q.to_string_lossy().into_owned())
}

impl Config {
    /// Resolves a parsed file; `source` is the path it was read from.
    pub fn from_schema(schema: Schema, source: Option<String>) -> (r: Self)
        ensures
            r.rules_spec@ == match schema.lint.rules {
                Some(s) => s@,
                None => "default"@,
            },
            r.exclude_globs@ == schema.lint.exclude@,
            r.extra_info_strings@ == schema.lint.info_strings_extra@,
            r.fmt_options == fmt_of(schema.fmt),
            r.source == source,
    {
        let rules_spec = match schema.lint.rules {
            Some(s) => s,
            None => "default".to_owned(),
        };
        Config {
            rules_spec,
            exclude_globs: schema.lint.exclude,
            extra_info_strings: schema.lint.info_strings_extra,
            fmt_options: FmtOptions::from_schema(schema.fmt),
            source,
        }
    }

    /// The all-defaults configuration (no file found).
    pub fn defaults() -> (r: Self)
        ensures
            r.rules_spec@ == "default"@,
            r.exclude_globs@.len() == 0,
            r.extra_info_strings@.len() == 0,
            is_default_fmt(r.fmt_options),
            r.source is None,
    {
        let s = Schema::empty();
        let r = Config::from_schema(s, None);
        r
    }

    /// Path of the file this configuration was loaded from.
    pub fn source(&self) -> (r: Option<&str>)
        ensures
            match r {
                Some(t) => self.source is Some && t@ == self.source->0@,
                None => self.source is None,
            },
    {
        match &self.source {
            Some(s) => Some(s.as_str()),
            None => None,
        }
    }

    /// Directory containing the configuration file.
    pub fn source_dir(&self) -> (r: Option<String>)
        ensures
            match self.source {
                None => r is None,
                Some(s) => match r {
                    Some(d) => path_parent(s@) == Some(d@),
                    None => path_parent(s@) is None,
                },
            },
    {
        match &self.source {
            Some(s) => parent_of(s.as_str()),
            None => None,
        }
    }

    /// The rule token list; `"default"` when no file sets it.
    pub fn rules_spec(&self) -> (r: &str)
        ensures
            r@ == self.rules_spec@,
    {
        self.rules_spec.as_str()
    }

    /// Gitignore-style patterns from `[lint] exclude`.
    pub fn exclude_globs(&self) -> (r: &[String])
        ensures
            r@ == self.exclude_globs@,
    {
        self.exclude_globs.as_slice()
    }

    /// Additions to the info-string allowlist.
    pub fn extra_info_strings(&self) -> (r: &[String])
        ensures
            r@ == self.extra_info_strings@,
    {
        self.extra_info_strings.as_slice()
    }

    /// Resolved formatter knobs.
    pub fn fmt_options(&self) -> (r: &FmtOptions)
        ensures
            *r == self.fmt_options,
    {
        &self.fmt_options
    }
}

/// `v` is the value `o` holds, or the default `d` when the key is absent.
pub open spec fn key_or<T>(o: Option<T>, v: T, d: T) -> bool {
    match o {
        Some(x) => v == x,
        None => v == d,
    }
}

/// Resolving a `[fmt]` table keeps every key that is present, with its
/// value, and gives every absent key its documented default: `wrap` keeps
/// (a column count wraps at that many columns), emphasis, list and break
/// styles preserve, line endings are LF, link definitions go to the end,
/// footnotes and frontmatter are kept in place, math passes through
/// unnormalised, heading attributes are preserved and every extension is
/// on.
pub proof fn law_fmt_schema_keys_kept(s: FmtSchema)
    ensures
        ({
            let o = fmt_of(s);
            &&& match s.wrap {
                Some(WrapSchema::Keep) => o.wrap == Wrap::Keep,
                Some(WrapSchema::No) => o.wrap == Wrap::No,
                Some(WrapSchema::Columns(n)) => o.wrap == Wrap::At(n),
                None => o.wrap == Wrap::Keep,
            }
            &&& key_or(s.italic, o.italic, ItalicStyle::Preserve)
            &&& key_or(s.strong, o.strong, StrongStyle::Preserve)
            &&& key_or(s.list_marker, o.list_marker, ListMarkerStyle::Preserve)
            &&& key_or(s.ordered_list, o.ordered_list, OrderedListStyle::Preserve)
            &&& key_or(s.thematic_break, o.thematic_break_style, ThematicStyle::Preserve)
            &&& match s.trailing_newline {
                Some(TrailingNewlineSchema::Named(t)) => o.trailing_newline == t,
                Some(TrailingNewlineSchema::Bool(true)) => o.trailing_newline == TrailingNewline::Ensure,
                Some(TrailingNewlineSchema::Bool(false)) => o.trailing_newline == TrailingNewline::Strip,
                None => o.trailing_newline == TrailingNewline::Preserve,
            }
            &&& key_or(s.end_of_line, o.end_of_line, EndOfLine::Lf)
            &&& o.exclude_globs == s.exclude
            &&& key_or(s.refs_placement, o.link_def_placement, Placement::End)
            &&& key_or(s.refs_style, o.link_def_style, LinkDefStyle::Preserve)
            &&& key_or(s.footnotes_placement, o.footnote_placement, Placement::Preserve)
            &&& key_or(s.frontmatter_preserve, o.preserve_frontmatter, true)
            &&& key_or(s.heading_attrs, o.heading_attrs, HeadingAttrsStyle::Preserve)
            &&& match s.math {
                Some(m) => key_or(m.normalise, o.math.normalise, false) && key_or(
                    m.render,
                    o.math.render,
                    MathRender::Passthrough,
                ),
                None => !o.math.normalise && o.math.render == MathRender::Passthrough,
            }
            &&& match s.extensions {
                Some(e) => {
                    &&& key_or(e.definition_lists, o.extensions.definition_lists, true)
                    &&& key_or(e.abbreviation_lists, o.extensions.abbreviation_lists, true)
                    &&& key_or(e.heading_attribute_lists, o.extensions.heading_attribute_lists, true)
                    &&& key_or(e.block_attribute_lists, o.extensions.block_attribute_lists, true)
                    &&& match e.myst {
                        Some(m) => {
                            &&& key_or(m.directive_containers, o.extensions.myst.directive_containers, true)
                            &&& key_or(m.inline_roles, o.extensions.myst.inline_roles, true)
                            &&& key_or(m.substitution_references, o.extensions.myst.substitution_references, true)
                            &&& key_or(m.comments, o.extensions.myst.comments, true)
                        },
                        None => all_myst_on(o.extensions.myst),
                    }
                    &&& match e.pandoc {
                        Some(p) => {
                            &&& key_or(p.fenced_divs, o.extensions.pandoc.fenced_divs, true)
                            &&& key_or(p.short_form_divs, o.extensions.pandoc.short_form_divs, true)
                            &&& key_or(p.inline_attribute_spans, o.extensions.pandoc.inline_attribute_spans, true)
                        },
                        None => o.extensions.pandoc.fenced_divs && o.extensions.pandoc.short_form_divs
                            && o.extensions.pandoc.inline_attribute_spans,
                    }
                },
                None => {
                    &&& o.extensions.definition_lists && o.extensions.abbreviation_lists
                    &&& o.extensions.heading_attribute_lists && o.extensions.block_attribute_lists
                    &&& all_myst_on(o.extensions.myst)
                    &&& o.extensions.pandoc.fenced_divs && o.extensions.pandoc.short_form_divs
                    &&& o.extensions.pandoc.inline_attribute_spans
                },
            }
        }),
{
}

} // verus!
