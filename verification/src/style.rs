//! Styles: colours and text emphasis, as plain values.
use vstd::prelude::*;

verus! {

/// Bold text.
pub const BOLD: u16 = 0b0000_0000_0001;

/// Italic text.
pub const ITALIC: u16 = 0b0000_0000_0100;

/// Underlined text.
pub const UNDERLINED: u16 = 0b0000_0000_1000;

/// Text that is crossed out.
pub const CROSSED_OUT: u16 = 0b0001_0000_0000;

/// A terminal colour.
#[derive(Debug, Clone, Copy, PartialEq, Eq, Structural)]
pub enum Color {
    Reset,
    Black,
    Red,
    Green,
    Yellow,
    Blue,
    Magenta,
    Cyan,
    Gray,
    DarkGray,
    LightRed,
    LightGreen,
    LightYellow,
    LightBlue,
    LightMagenta,
    LightCyan,
    White,
    /// A true colour: red, green, blue.
    Rgb(u8, u8, u8),
    /// One of the 256 indexed colours.
    Indexed(u8),
}

/// How a piece of text is displayed. A colour that is `None`, or a modifier
/// that is in neither set, is left as it was on the terminal.
#[derive(Debug, Clone, Copy, PartialEq, Eq, Structural)]
pub struct Style {
    pub fg: Option<Color>,
    pub bg: Option<Color>,
    pub underline_color: Option<Color>,
    /// The modifiers that are switched on, as a set of bits.
    pub add_modifier: u16,
    /// The modifiers that are switched off, as a set of bits.
    pub sub_modifier: u16,
}

impl Style {
    /// A style that changes nothing.
    #[verifier::allow_in_spec]
    pub fn new() -> (r: Style)
        returns
            (Style {
                fg: None,
                bg: None,
                underline_color: None,
                add_modifier: 0,
                sub_modifier: 0,
            }),
    {
        Style { fg: None, bg: None, underline_color: None, add_modifier: 0, sub_modifier: 0 }
    }

    /// The style with the foreground colour changed.
    #[verifier::allow_in_spec]
    pub fn fg(self, color: Color) -> (r: Style)
        returns
            (Style { fg: Some(color), ..self }),
    {
        Style { fg: Some(color), ..self }
    }

    /// The style with the background colour changed.
    #[verifier::allow_in_spec]
    pub fn bg(self, color: Color) -> (r: Style)
        returns
            (Style { bg: Some(color), ..self }),
    {
        Style { bg: Some(color), ..self }
    }

    /// The style with the modifiers of a set switched on.
    #[verifier::allow_in_spec]
    pub fn add_modifier(self, modifier: u16) -> (r: Style)
        returns
            (Style {
                add_modifier: self.add_modifier | modifier,
                sub_modifier: self.sub_modifier & !modifier,
                ..self
            }),
    {
        Style {
            add_modifier: self.add_modifier | modifier,
            sub_modifier: self.sub_modifier & !modifier,
            ..self
        }
    }
}

impl Default for Style {
    fn default() -> (r: Style)
        ensures
            r == Style::new(),
    {
        Style::new()
    }
}

/// The colours that the renderer draws with.
#[derive(Debug, Clone, Copy, PartialEq, Eq, Structural)]
pub struct Palette {
    /// Headings, bullets and code blocks.
    pub sky: Color,
    /// Links.
    pub blue: Color,
    /// Rules and table borders.
    pub text_dim: Color,
    /// The background of inline code.
    pub surface_elevated: Color,
}

/// What a rendering depends on besides the text, the width and the base style.
#[derive(Debug, Clone, Copy, PartialEq, Eq, Structural)]
pub struct RenderOptions {
    /// Whether links are written as OSC 8 escape sequences.
    pub osc8: bool,
    pub palette: Palette,
}

/// The style of links.
#[verifier::allow_in_spec]
pub fn link_style(palette: Palette) -> (r: Style)
    returns
        Style::new().fg(palette.blue).add_modifier(UNDERLINED),
{
    Style::new().fg(palette.blue).add_modifier(UNDERLINED)
}

/// The style of headings.
#[verifier::allow_in_spec]
pub fn heading_style(palette: Palette) -> (r: Style)
    returns
        Style::new().fg(palette.sky).add_modifier(BOLD),
{
    Style::new().fg(palette.sky).add_modifier(BOLD)
}

/// The style of code blocks.
#[verifier::allow_in_spec]
pub fn code_block_style(palette: Palette) -> (r: Style)
    returns
        Style::new().fg(palette.sky).add_modifier(ITALIC),
{
    Style::new().fg(palette.sky).add_modifier(ITALIC)
}

/// The style of list bullets.
#[verifier::allow_in_spec]
pub fn bullet_style(palette: Palette) -> (r: Style)
    returns
        Style::new().fg(palette.sky),
{
    Style::new().fg(palette.sky)
}

/// The style of rules and of table borders.
#[verifier::allow_in_spec]
pub fn rule_style(palette: Palette) -> (r: Style)
    returns
        Style::new().fg(palette.text_dim),
{
    Style::new().fg(palette.text_dim)
}

} // verus!
