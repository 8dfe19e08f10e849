//! The concrete colors behind the symbolic ones.
use vstd::prelude::*;
use crate::format::Color;

verus! {

/// An RGBA color, one byte per channel, alpha not premultiplied.
pub type Rgba = [u8; 4];

/// One concrete color for each symbolic slot, and the window background.
#[derive(Clone, Copy, Debug)]
pub struct Palette {
    pub background: Rgba,
    pub white: Rgba,
    pub black: Rgba,
    pub red: Rgba,
    pub green: Rgba,
    pub yellow: Rgba,
    pub blue: Rgba,
    pub magenta: Rgba,
    pub cyan: Rgba,
    pub grey: Rgba,
    pub bright_red: Rgba,
    pub bright_green: Rgba,
    pub bright_yellow: Rgba,
    pub bright_blue: Rgba,
    pub bright_magenta: Rgba,
    pub bright_cyan: Rgba,
}

impl Palette {
    /// The slot that holds the concrete color for `c`.
    pub open spec fn slot(&self, c: Color) -> Rgba {
        match c {
            Color::White => self.white,
            Color::Black => self.black,
            Color::Red => self.red,
            Color::Green => self.green,
            Color::Yellow => self.yellow,
            Color::Blue => self.blue,
            Color::Magenta => self.magenta,
            Color::Cyan => self.cyan,
            Color::Grey => self.grey,
            Color::BrightRed => self.bright_red,
            Color::BrightGreen => self.bright_green,
            Color::BrightYellow => self.bright_yellow,
            Color::BrightBlue => self.bright_blue,
            Color::BrightMagenta => self.bright_magenta,
            Color::BrightCyan => self.bright_cyan,
        }
    }

    /// The concrete color of a symbolic one.
    pub fn resolve(&self, c: Color) -> (r: Rgba)
        ensures
            r == self.slot(c),
    {
        match c {
            Color::White => self.white,
            Color::Black => self.black,
            Color::Red => self.red,
            Color::Green => self.green,
            Color::Yellow => self.yellow,
            Color::Blue => self.blue,
            Color::Magenta => self.magenta,
            Color::Cyan => self.cyan,
            Color::Grey => self.grey,
            Color::BrightRed => self.bright_red,
            Color::BrightGreen => self.bright_green,
            Color::BrightYellow => self.bright_yellow,
            Color::BrightBlue => self.bright_blue,
            Color::BrightMagenta => self.bright_magenta,
            Color::BrightCyan => self.bright_cyan,
        }
    }
}

} // verus!
