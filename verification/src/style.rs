//! Colors and text styles.

use vstd::prelude::*;
use egui::Color32;

verus! {

/// A terminal color.
#[derive(Clone, Copy, Debug, PartialEq, Eq, Structural)]
pub enum Color {
    Reset,
    Black,
    DarkGrey,
    Red,
    DarkRed,
    Green,
    DarkGreen,
    Yellow,
    DarkYellow,
    Blue,
    DarkBlue,
    Magenta,
    DarkMagenta,
    Cyan,
    DarkCyan,
    White,
    Grey,
    Rgb { r: u8, g: u8, b: u8 },
    AnsiValue(u8),
}

/// A text style. Each attribute is either set or left open; an open
/// attribute takes whatever a less specific style or the default gives.
#[derive(Clone, Copy, Debug, PartialEq, Eq)]
pub struct Style {
    pub fg: Option<Color>,
    pub bg: Option<Color>,
    pub bold: Option<bool>,
    pub italic: Option<bool>,
    pub underline: Option<bool>,
}

/// `b` where it is set, `a` otherwise.
pub open spec fn or_else<T>(b: Option<T>, a: Option<T>) -> Option<T> {
    if b is Some {
        b
    } else {
        a
    }
}

/// The style in which no attribute is set.
pub open spec fn unset() -> Style {
    Style { fg: None, bg: None, bold: None, italic: None, underline: None }
}

/// `base` overridden by `other`: every attribute that `other` sets wins,
/// every attribute that it leaves open stays as `base` has it.
pub open spec fn merged(base: Style, other: Style) -> Style {
    Style {
        fg: or_else(other.fg, base.fg),
        bg: or_else(other.bg, base.bg),
        bold: or_else(other.bold, base.bold),
        italic: or_else(other.italic, base.italic),
        underline: or_else(other.underline, base.underline),
    }
}

impl Default for Style {
    fn default() -> (style: Style)
        ensures
            style == unset(),
    {
        Style { fg: None, bg: None, bold: None, italic: None, underline: None }
    }
}

fn color_or(b: Option<Color>, a: Option<Color>) -> (r: Option<Color>)
    ensures
        r == or_else(b, a),
{
    match b {
        Some(_) => b,
        None => a,
    }
}

fn flag_or(b: Option<bool>, a: Option<bool>) -> (r: Option<bool>)
    ensures
        r == or_else(b, a),
{
    match b {
        Some(_) => b,
        None => a,
    }
}

fn same_color(a: Option<Color>, b: Option<Color>) -> (same: bool)
    ensures
        same == (a == b),
{
    match (a, b) {
        (None, None) => true,
        (Some(x), Some(y)) => x == y,
        _ => false,
    }
}

fn same_flag(a: Option<bool>, b: Option<bool>) -> (same: bool)
    ensures
        same == (a == b),
{
    match (a, b) {
        (None, None) => true,
        (Some(x), Some(y)) => x == y,
        _ => false,
    }
}

impl Style {
    /// Overrides this style by `other`, attribute by attribute.
    pub fn merge(&mut self, other: &Style)
        ensures
            *final(self) == merged(*old(self), *other),
    {
        self.fg = color_or(other.fg, self.fg);
        self.bg = color_or(other.bg, self.bg);
        self.bold = flag_or(other.bold, self.bold);
        self.italic = flag_or(other.italic, self.italic);
        self.underline = flag_or(other.underline, self.underline);
    }

    /// Whether the two styles agree in every attribute.
    pub fn same(&self, other: &Style) -> (same: bool)
        ensures
            same == (*self == *other),
    {
        same_color(self.fg, other.fg) && same_color(self.bg, other.bg) && same_flag(
            self.bold,
            other.bold,
        ) && same_flag(self.italic, other.italic) && same_flag(self.underline, other.underline)
    }
}

/// Merging is associative: overriding by `b` and then by `c` is overriding
/// by `b` overridden by `c`.
pub proof fn lemma_merge_associative(a: Style, b: Style, c: Style)
    ensures
        merged(merged(a, b), c) == merged(a, merged(b, c)),
{
}

/// Merging is biased to the right where the right side is set, and to the
/// left where it is open.
pub proof fn lemma_merge_right_biased(a: Style, b: Style)
    ensures
        b.fg is Some ==> merged(a, b).fg == b.fg,
        b.fg is None ==> merged(a, b).fg == a.fg,
        b.bg is Some ==> merged(a, b).bg == b.bg,
        b.bg is None ==> merged(a, b).bg == a.bg,
        b.bold is Some ==> merged(a, b).bold == b.bold,
        b.bold is None ==> merged(a, b).bold == a.bold,
        b.italic is Some ==> merged(a, b).italic == b.italic,
        b.italic is None ==> merged(a, b).italic == a.italic,
        b.underline is Some ==> merged(a, b).underline == b.underline,
        b.underline is None ==> merged(a, b).underline == a.underline,
{
}

/// The open style is neutral on both sides.
pub proof fn lemma_merge_unset(a: Style)
    ensures
        merged(a, unset()) == a,
        merged(unset(), a) == a,
{
}

/// `egui::Color32`: a color of four bytes, which this library only makes
/// and hands on.
#[verifier::external_type_specification]
#[verifier::external_body]
pub struct ExColor32(Color32);

/// The opaque color made of the three channels `r`, `g` and `b`.
pub uninterp spec fn color32_from_rgb(r: u8, g: u8, b: u8) -> Color32;

/// `Color32::from_rgb`: the opaque color of the three channels.
#[verifier::external_body]
pub(crate) fn from_rgb(r: u8, g: u8, b: u8) -> (color: Color32)
    ensures
        color == color32_from_rgb(r, g, b),
{
    Color32::from_rgb(r, g, b)
}

/// The color of text that has no color of its own: white.
pub open spec fn default_color_spec() -> Color32 {
    color32_from_rgb(255, 255, 255)
}

/// `Color32::WHITE`, which the crate defines as `from_rgb(255, 255, 255)`.
#[verifier::external_body]
pub(crate) fn white() -> (color: Color32)
    ensures
        color == color32_from_rgb(255, 255, 255),
{
    Color32::WHITE
}

/// The color of text that has no color of its own.
pub fn default_color() -> (color: Color32)
    ensures
        color == default_color_spec(),
{
    white()
}

/// Whether a color can be drawn. A color given by its number in the
/// palette of 256 cannot.
pub open spec fn is_drawable(color: Color) -> bool {
    !(color is AnsiValue)
}

/// The channels that a drawable terminal color is drawn with.
pub open spec fn color_channels(color: Color) -> (u8, u8, u8)
    recommends
        is_drawable(color),
{
    match color {
        Color::Black => (0, 0, 0),
        Color::Red => (187, 0, 0),
        Color::Green => (0, 187, 0),
        Color::Yellow => (187, 187, 0),
        Color::Blue => (0, 0, 187),
        Color::Magenta => (187, 0, 187),
        Color::Cyan => (0, 187, 187),
        Color::Grey => (85, 85, 85),
        Color::DarkGrey => (85, 85, 85),
        Color::DarkRed => (255, 85, 85),
        Color::DarkGreen => (85, 255, 85),
        Color::DarkBlue => (85, 85, 255),
        Color::DarkMagenta => (255, 85, 255),
        Color::DarkCyan => (85, 255, 255),
        Color::DarkYellow => (187, 187, 0),
        Color::White => (255, 255, 255),
        Color::Reset => (255, 255, 255),
        Color::Rgb { r, g, b } => (r, g, b),
        Color::AnsiValue(_) => arbitrary(),
    }
}

/// The color that a drawable terminal color is drawn with.
pub open spec fn color_to_egui_spec(color: Color) -> Color32
    recommends
        is_drawable(color),
{
    let (r, g, b) = color_channels(color);
    color32_from_rgb(r, g, b)
}

/// The color that a terminal color is drawn with. `Reset` is drawn in the
/// default color.
pub fn color_to_egui(color: Color) -> (drawn: Color32)
    requires
        is_drawable(color),
    ensures
        drawn == color_to_egui_spec(color),
{
    match color {
        Color::Black => from_rgb(0, 0, 0),
        Color::Red => from_rgb(187, 0, 0),
        Color::Green => from_rgb(0, 187, 0),
        Color::Yellow => from_rgb(187, 187, 0),
        Color::Blue => from_rgb(0, 0, 187),
        Color::Magenta => from_rgb(187, 0, 187),
        Color::Cyan => from_rgb(0, 187, 187),
        Color::Grey => from_rgb(85, 85, 85),
        Color::DarkGrey => from_rgb(85, 85, 85),
        Color::DarkRed => from_rgb(255, 85, 85),
        Color::DarkGreen => from_rgb(85, 255, 85),
        Color::DarkBlue => from_rgb(85, 85, 255),
        Color::DarkMagenta => from_rgb(255, 85, 255),
        Color::DarkCyan => from_rgb(85, 255, 255),
        Color::DarkYellow => from_rgb(187, 187, 0),
        Color::White => from_rgb(255, 255, 255),
        Color::Reset => default_color(),
        Color::Rgb { r, g, b } => from_rgb(r, g, b),
        Color::AnsiValue(_) => unreached(),
    }
}

} // verus!
