//! Styled text as the terminal shows it: colors, text modifiers, and text
//! made of lines of styled spans.

use vstd::prelude::*;

verus! {

/// A terminal color.
#[derive(Clone, Copy, Debug, PartialEq, Eq, Structural)]
pub enum Color {
    Reset,
    Black,
    Red,
    Green,
    Yellow,
    Blue,
    Magenta,
    Cyan,
    Gray,
    DarkGray,
    LightRed,
    LightGreen,
    LightYellow,
    LightBlue,
    LightMagenta,
    LightCyan,
    White,
    Rgb(u8, u8, u8),
    Indexed(u8),
}

/// Text modifiers that a style adds.
#[derive(Clone, Copy, Debug, PartialEq, Eq, Structural)]
pub struct Modifiers {
    pub bold: bool,
    pub italic: bool,
    pub underlined: bool,
    pub reversed: bool,
}

/// A style: optional foreground and background colors and added modifiers.
#[derive(Clone, Copy, Debug, PartialEq, Eq, Structural)]
pub struct Style {
    pub fg: Option<Color>,
    pub bg: Option<Color>,
    pub add_modifier: Modifiers,
}

/// No modifier.
pub open spec fn no_modifiers() -> Modifiers {
    Modifiers { bold: false, italic: false, underlined: false, reversed: false }
}

/// The style that sets nothing.
pub open spec fn plain_style() -> Style {
    Style { fg: None, bg: None, add_modifier: no_modifiers() }
}

/// `base` patched with `other`: colors that `other` sets win, and the
/// modifiers of both are added.
pub open spec fn patch_style(base: Style, other: Style) -> Style {
    Style {
        fg: if other.fg is Some { other.fg } else { base.fg },
        bg: if other.bg is Some { other.bg } else { base.bg },
        add_modifier: Modifiers {
            bold: base.add_modifier.bold || other.add_modifier.bold,
            italic: base.add_modifier.italic || other.add_modifier.italic,
            underlined: base.add_modifier.underlined || other.add_modifier.underlined,
            reversed: base.add_modifier.reversed || other.add_modifier.reversed,
        },
    }
}

impl Style {
    /// The style that sets nothing.
    pub fn plain() -> (r: Style)
        ensures
            r == plain_style(),
    {
        Style {
            fg: None,
            bg: None,
            add_modifier: Modifiers { bold: false, italic: false, underlined: false, reversed: false },
        }
    }

    /// A foreground color with the given modifiers.
    pub fn colored(fg: Color, bold: bool, italic: bool, underlined: bool) -> (r: Style)
        ensures
            r == (Style {
                fg: Some(fg),
                bg: None,
                add_modifier: Modifiers { bold, italic, underlined, reversed: false },
            }),
    {
        Style { fg: Some(fg), bg: None, add_modifier: Modifiers { bold, italic, underlined, reversed: false } }
    }

    /// This style patched with `other` (see [`patch_style`]).
    pub fn patch(self, other: Style) -> (r: Style)
        ensures
            r == patch_style(self, other),
    {
        Style {
            fg: if other.fg.is_some() {
                other.fg
            } else {
                self.fg
            },
            bg: if other.bg.is_some() {
                other.bg
            } else {
                self.bg
            },
            add_modifier: Modifiers {
                bold: self.add_modifier.bold || other.add_modifier.bold,
                italic: self.add_modifier.italic || other.add_modifier.italic,
                underlined: self.add_modifier.underlined || other.add_modifier.underlined,
                reversed: self.add_modifier.reversed || other.add_modifier.reversed,
            },
        }
    }
}

/// A piece of text in one style.
#[derive(Clone, Debug, PartialEq, Eq)]
pub struct Span {
    pub content: String,
    pub style: Style,
}

/// A line of spans, with a style under all of them.
#[derive(Clone, Debug, PartialEq, Eq)]
pub struct Line {
    pub spans: Vec<Span>,
    pub style: Style,
}

/// Lines of styled text.
#[derive(Clone, Debug, PartialEq, Eq)]
pub struct Text {
    pub lines: Vec<Line>,
}

/// The mathematical value of a [`Span`].
pub struct SpanModel {
    pub content: Seq<char>,
    pub style: Style,
}

/// The mathematical value of a [`Line`].
pub struct LineModel {
    pub spans: Seq<SpanModel>,
    pub style: Style,
}

impl View for Span {
    type V = SpanModel;

    open spec fn view(&self) -> SpanModel {
        SpanModel { content: self.content@, style: self.style }
    }
}

pub open spec fn spans_view(v: Seq<Span>) -> Seq<SpanModel> {
    v.map_values(|s: Span| s@)
}

impl View for Line {
    type V = LineModel;

    open spec fn view(&self) -> LineModel {
        LineModel { spans: spans_view(self.spans@), style: self.style }
    }
}

pub open spec fn lines_view(v: Seq<Line>) -> Seq<LineModel> {
    v.map_values(|l: Line| l@)
}

impl View for Text {
    type V = Seq<LineModel>;

    open spec fn view(&self) -> Seq<LineModel> {
        lines_view(self.lines@)
    }
}

/// The text of a sequence of spans, one after the other.
pub open spec fn spans_text(s: Seq<SpanModel>) -> Seq<char>
    decreases s.len(),
{
    if s.len() == 0 {
        seq![]
    } else {
        spans_text(s.drop_last()) + s.last().content
    }
}

/// A line showing `content` in the line style `style`: one unstyled span,
/// or none when `content` is empty.
pub open spec fn styled_line(content: Seq<char>, style: Style) -> LineModel {
    LineModel {
        spans: if content.len() == 0 {
            seq![]
        } else {
            seq![SpanModel { content, style: plain_style() }]
        },
        style,
    }
}

/// Builds [`styled_line`]`(content, style)`.
pub fn make_styled_line(content: String, style: Style) -> (r: Line)
    ensures
        r@ == styled_line(content@, style),
{
    let mut spans: Vec<Span> = Vec::new();
    if !content.as_str().is_empty() {
        spans.push(Span { content, style: Style::plain() });
    }
    let r = Line { spans, style };
    assert(r@.spans =~= styled_line(content@, style).spans);
    r
}

} // verus!
