//! What is painted in a pane: areas, colours and lines of text.
use vstd::prelude::*;

verus! {

/// A terminal colour.
#[derive(Debug, Clone, Copy, PartialEq, Eq, Structural)]
pub enum Color {
    /// The terminal's own colour.
    Reset,
    Black,
    Red,
    Green,
    Yellow,
    Blue,
    Magenta,
    Cyan,
    Gray,
    DarkGray,
    LightRed,
    LightGreen,
    LightYellow,
    LightBlue,
    LightMagenta,
    LightCyan,
    White,
    Rgb(u8, u8, u8),
    Indexed(u8),
}

/// The colours of a theme that views use.
#[derive(Debug, Clone, Copy, PartialEq, Eq, Structural)]
pub struct Palette {
    pub accent: Color,
    pub panel_bg: Color,
    pub surface_dim: Color,
    pub overlay0: Color,
    pub blue: Color,
    pub teal: Color,
    pub green: Color,
    pub red: Color,
    pub yellow: Color,
}

/// One line of text in one style.
#[derive(Debug, PartialEq, Eq)]
pub struct StyledLine {
    pub text: String,
    pub fg: Color,
    /// The background, where it is not the terminal's own.
    pub bg: Option<Color>,
    pub bold: bool,
}

/// What a [`StyledLine`] holds.
#[verifier::ext_equal]
pub struct StyledModel {
    pub text: Seq<char>,
    pub fg: Color,
    pub bg: Option<Color>,
    pub bold: bool,
}

impl DeepView for StyledLine {
    type V = StyledModel;

    open spec fn deep_view(&self) -> StyledModel {
        StyledModel { text: self.text@, fg: self.fg, bg: self.bg, bold: self.bold }
    }
}

/// A rectangle of the terminal, in cells.
#[derive(Debug, Clone, Copy, PartialEq, Eq, Structural)]
pub struct Area {
    pub x: u16,
    pub y: u16,
    pub width: u16,
    pub height: u16,
}

/// What to paint of a view: a header line, and content of which the rows from
/// `scroll` on are in sight.
#[derive(Debug, PartialEq, Eq)]
pub struct Picture {
    pub header_area: Area,
    pub header: StyledLine,
    pub body_area: Area,
    pub content: Vec<StyledLine>,
    pub scroll: u16,
}

/// What a [`Picture`] holds.
#[verifier::ext_equal]
pub struct PictureModel {
    pub header_area: Area,
    pub header: StyledModel,
    pub body_area: Area,
    pub content: Seq<StyledModel>,
    pub scroll: int,
}

impl DeepView for Picture {
    type V = PictureModel;

    open spec fn deep_view(&self) -> PictureModel {
        PictureModel {
            header_area: self.header_area,
            header: self.header.deep_view(),
            body_area: self.body_area,
            content: self.content.deep_view(),
            scroll: self.scroll as int,
        }
    }
}

} // verus!
