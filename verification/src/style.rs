//! Colours, text modifiers and styles, styled text spans and lines, and the
//! theme that maps configuration to styles.

use vstd::prelude::*;
use crate::text::eq_str;

verus! {

/// A terminal colour.
#[derive(Clone, Copy, Debug, PartialEq, Eq, Structural)]
pub enum ThemeColor {
    Reset,
    Black,
    Red,
    Green,
    Yellow,
    Blue,
    Magenta,
    Cyan,
    Gray,
    DarkGray,
    LightRed,
    LightGreen,
    LightYellow,
    LightBlue,
    LightMagenta,
    LightCyan,
    White,
    Rgb(u8, u8, u8),
    Indexed(u8),
}

/// A set of text modifiers.
#[derive(Clone, Copy, Debug, PartialEq, Eq, Structural)]
pub struct Modifiers {
    pub bold: bool,
    pub dim: bool,
    pub italic: bool,
    pub underlined: bool,
}

/// The style of a piece of text: an optional foreground colour and the
/// modifiers that are switched on.
#[derive(Clone, Copy, Debug, PartialEq, Eq, Structural)]
pub struct TextStyle {
    pub fg: Option<ThemeColor>,
    pub modifiers: Modifiers,
}

pub open spec fn no_modifiers() -> Modifiers {
    Modifiers { bold: false, dim: false, italic: false, underlined: false }
}

pub open spec fn bold_mod() -> Modifiers {
    Modifiers { bold: true, ..no_modifiers() }
}

pub open spec fn dim_mod() -> Modifiers {
    Modifiers { dim: true, ..no_modifiers() }
}

pub open spec fn italic_mod() -> Modifiers {
    Modifiers { italic: true, ..no_modifiers() }
}

pub open spec fn underlined_mod() -> Modifiers {
    Modifiers { underlined: true, ..no_modifiers() }
}

/// The union of two modifier sets.
pub open spec fn union_mods(a: Modifiers, b: Modifiers) -> Modifiers {
    Modifiers {
        bold: a.bold || b.bold,
        dim: a.dim || b.dim,
        italic: a.italic || b.italic,
        underlined: a.underlined || b.underlined,
    }
}

/// The style with no colour and no modifiers.
pub open spec fn plain_style() -> TextStyle {
    TextStyle { fg: None, modifiers: no_modifiers() }
}

/// `s` with the modifiers `m` switched on as well.
pub open spec fn add_mods(s: TextStyle, m: Modifiers) -> TextStyle {
    TextStyle { fg: s.fg, modifiers: union_mods(s.modifiers, m) }
}

impl Modifiers {
    pub fn none() -> (r: Modifiers)
        ensures
            r == no_modifiers(),
    {
        Modifiers { bold: false, dim: false, italic: false, underlined: false }
    }

    pub fn bold() -> (r: Modifiers)
        ensures
            r == bold_mod(),
    {
        Modifiers { bold: true, dim: false, italic: false, underlined: false }
    }

    pub fn dim() -> (r: Modifiers)
        ensures
            r == dim_mod(),
    {
        Modifiers { bold: false, dim: true, italic: false, underlined: false }
    }

    pub fn italic() -> (r: Modifiers)
        ensures
            r == italic_mod(),
    {
        Modifiers { bold: false, dim: false, italic: true, underlined: false }
    }

    pub fn underlined() -> (r: Modifiers)
        ensures
            r == underlined_mod(),
    {
        Modifiers { bold: false, dim: false, italic: false, underlined: true }
    }

    /// The union of `self` and `other`.
    pub fn union(self, other: Modifiers) -> (r: Modifiers)
        ensures
            r == union_mods(self, other),
    {
        Modifiers {
            bold: self.bold || other.bold,
            dim: self.dim || other.dim,
            italic: self.italic || other.italic,
            underlined: self.underlined || other.underlined,
        }
    }
}

impl TextStyle {
    /// The style with no colour and no modifiers.
    pub fn plain() -> (r: TextStyle)
        ensures
            r == plain_style(),
    {
        TextStyle { fg: None, modifiers: Modifiers::none() }
    }

    /// This style with foreground colour `c`.
    pub fn fg(self, c: ThemeColor) -> (r: TextStyle)
        ensures
            r == (TextStyle { fg: Some(c), modifiers: self.modifiers }),
    {
        TextStyle { fg: Some(c), modifiers: self.modifiers }
    }

    /// This style with the modifiers `m` switched on as well.
    pub fn add_modifier(self, m: Modifiers) -> (r: TextStyle)
        ensures
            r == add_mods(self, m),
    {
        TextStyle { fg: self.fg, modifiers: self.modifiers.union(m) }
    }
}

/// A styled piece of text as a mathematical value.
pub struct SpanView {
    pub text: Seq<char>,
    pub style: TextStyle,
}

/// A styled piece of text.
pub struct StyledSpan {
    pub content: String,
    pub style: TextStyle,
}

impl StyledSpan {
    pub open spec fn view(&self) -> SpanView {
        SpanView { text: self.content@, style: self.style }
    }

    /// A span holding `content` in `style`.
    pub fn styled(content: &str, style: TextStyle) -> (r: StyledSpan)
        ensures
            r.view() == (SpanView { text: content@, style }),
    {
        StyledSpan { content: content.to_owned(), style }
    }
}

/// A line of styled spans.
pub struct StyledLine {
    pub spans: Vec<StyledSpan>,
}

pub open spec fn spans_view(v: Seq<StyledSpan>) -> Seq<SpanView> {
    v.map_values(|s: StyledSpan| s.view())
}

impl StyledLine {
    pub open spec fn view(&self) -> Seq<SpanView> {
        spans_view(self.spans@)
    }

    /// The text of the line: the contents of its spans, one after another.
    pub fn text(&self) -> (r: String)
        ensures
            r@ == line_text(self.view()),
    {
        let mut acc: Vec<char> = Vec::new();
        let mut i: usize = 0;
        while i < self.spans.len()
            invariant
                i <= self.spans@.len(),
                acc@ == line_text(self.view().take(i as int)),
            decreases self.spans.len() - i,
        {
            assert(self.view().take(i + 1).drop_last() =~= self.view().take(i as int));
            crate::text::extend_str(&mut acc, self.spans[i].content.as_str());
            i = i + 1;
        }
        assert(self.view().take(i as int) =~= self.view());
        crate::text::string_of(&acc)
    }
}

/// The text of a sequence of spans.
pub open spec fn line_text(l: Seq<SpanView>) -> Seq<char>
    decreases l.len(),
{
    if l.len() == 0 {
        Seq::empty()
    } else {
        line_text(l.drop_last()) + l.last().text
    }
}

pub open spec fn lines_view(v: Seq<StyledLine>) -> Seq<Seq<SpanView>> {
    v.map_values(|l: StyledLine| l.view())
}

pub open spec fn span_lines_view(v: Seq<Vec<StyledSpan>>) -> Seq<Seq<SpanView>> {
    v.map_values(|l: Vec<StyledSpan>| spans_view(l@))
}

/// The theme settings that rendering depends on.
pub struct ThemeConfig {
    pub bold_style: String,
    pub emphasis_style: String,
    pub h1_color: ThemeColor,
    pub h2_color: ThemeColor,
    pub h3_color: ThemeColor,
    pub code_color: ThemeColor,
    pub code_block_color: ThemeColor,
}

impl Default for ThemeConfig {
    /// Bold strong text, underlined emphasis, and the terminal's own colours.
    fn default() -> (r: ThemeConfig)
        ensures
            r.bold_style@ == "bold"@,
            r.emphasis_style@ == "underlined"@,
            r.h1_color == ThemeColor::Reset,
            r.h2_color == ThemeColor::Reset,
            r.h3_color == ThemeColor::Reset,
            r.code_color == ThemeColor::Reset,
            r.code_block_color == ThemeColor::Reset,
    {
        ThemeConfig {
            bold_style: "bold".to_owned(),
            emphasis_style: "underlined".to_owned(),
            h1_color: ThemeColor::Reset,
            h2_color: ThemeColor::Reset,
            h3_color: ThemeColor::Reset,
            code_color: ThemeColor::Reset,
            code_block_color: ThemeColor::Reset,
        }
    }
}

/// The styles used to render Markdown elements.
#[derive(Clone, Copy)]
pub struct MarkdownTheme {
    pub h1: TextStyle,
    pub h2: TextStyle,
    pub h3: TextStyle,
    pub bold: TextStyle,
    pub dim: TextStyle,
    pub code: TextStyle,
    pub code_block: TextStyle,
}

/// The modifier named `name` (`bold`, `dim`, `italic` or `underlined`), or
/// `fallback` for any other name.
pub open spec fn modifier_named(name: Seq<char>, fallback: Modifiers) -> Modifiers {
    if name == "bold"@ {
        bold_mod()
    } else if name == "dim"@ {
        dim_mod()
    } else if name == "italic"@ {
        italic_mod()
    } else if name == "underlined"@ {
        underlined_mod()
    } else {
        fallback
    }
}

/// The modifier that a theme setting names.
pub fn modifier_from_name(name: &String, fallback: Modifiers) -> (r: Modifiers)
    ensures
        r == modifier_named(name@, fallback),
{
    let v = crate::text::chars_of(name.as_str());
    if eq_str(&v, "bold") {
        Modifiers::bold()
    } else if eq_str(&v, "dim") {
        Modifiers::dim()
    } else if eq_str(&v, "italic") {
        Modifiers::italic()
    } else if eq_str(&v, "underlined") {
        Modifiers::underlined()
    } else {
        fallback
    }
}

/// The theme that `cfg` describes.
pub open spec fn theme_of(cfg: ThemeConfig) -> MarkdownTheme {
    MarkdownTheme {
        h1: TextStyle { fg: Some(cfg.h1_color), modifiers: union_mods(bold_mod(), underlined_mod()) },
        h2: TextStyle { fg: Some(cfg.h2_color), modifiers: underlined_mod() },
        h3: TextStyle { fg: Some(cfg.h3_color), modifiers: no_modifiers() },
        bold: TextStyle { fg: None, modifiers: modifier_named(cfg.bold_style@, bold_mod()) },
        dim: TextStyle {
            fg: None,
            modifiers: modifier_named(cfg.emphasis_style@, underlined_mod()),
        },
        code: TextStyle { fg: Some(cfg.code_color), modifiers: no_modifiers() },
        code_block: TextStyle { fg: Some(cfg.code_block_color), modifiers: no_modifiers() },
    }
}

/// Builds the rendering theme from the configuration: heading, inline-code and
/// code-block colours, and the modifiers named for strong and emphasised text
/// (bold and underlined when the name is not one of `bold`, `dim`, `italic`,
/// `underlined`).
pub fn theme_from_cfg(cfg: &ThemeConfig) -> (r: MarkdownTheme)
    ensures
        r == theme_of(*cfg),
{
    let bold_mod = modifier_from_name(&cfg.bold_style, Modifiers::bold());
    let emphasis_mod = modifier_from_name(&cfg.emphasis_style, Modifiers::underlined());
    MarkdownTheme {
        h1: TextStyle::plain().fg(cfg.h1_color).add_modifier(
            Modifiers::bold().union(Modifiers::underlined()),
        ),
        h2: TextStyle::plain().fg(cfg.h2_color).add_modifier(Modifiers::underlined()),
        h3: TextStyle::plain().fg(cfg.h3_color),
        bold: TextStyle::plain().add_modifier(bold_mod),
        dim: TextStyle::plain().add_modifier(emphasis_mod),
        code: TextStyle::plain().fg(cfg.code_color),
        code_block: TextStyle::plain().fg(cfg.code_block_color),
    }
}


/// What each colour of the configuration styles: headings take their own
/// colours (level 1 bold and underlined, level 2 underlined, level 3 plain),
/// inline code takes the code colour with no modifier, and code blocks take
/// the code-block colour with no modifier; the inline-code style does not
/// depend on the code-block colour, nor the code-block style on the code
/// colour.
pub proof fn lemma_theme_colours(cfg: ThemeConfig, other: ThemeColor)
    ensures
        theme_of(cfg).code.fg == Some(cfg.code_color),
        theme_of(cfg).code.modifiers == no_modifiers(),
        theme_of(cfg).code_block.fg == Some(cfg.code_block_color),
        theme_of(cfg).code_block.modifiers == no_modifiers(),
        theme_of(cfg).h1.fg == Some(cfg.h1_color),
        theme_of(cfg).h1.modifiers.bold && theme_of(cfg).h1.modifiers.underlined,
        !theme_of(cfg).h1.modifiers.dim && !theme_of(cfg).h1.modifiers.italic,
        theme_of(cfg).h2.fg == Some(cfg.h2_color),
        theme_of(cfg).h2.modifiers == (Modifiers { underlined: true, ..no_modifiers() }),
        theme_of(cfg).h3.fg == Some(cfg.h3_color),
        theme_of(cfg).h3.modifiers == no_modifiers(),
        theme_of(ThemeConfig { code_block_color: other, ..cfg }).code == theme_of(cfg).code,
        theme_of(ThemeConfig { code_color: other, ..cfg }).code_block == theme_of(cfg).code_block,
{
}

} // verus!
