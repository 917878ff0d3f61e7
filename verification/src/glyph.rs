//! What one terminal cell of a drawn maze shows: a character, two colors
//! and its emphasis, as plain values.

use vstd::prelude::*;
use crate::maze::Square;
use crate::solvers::solve::{BLUE_MASK, GREEN_MASK, GREEN_SHIFT, RED_MASK, RED_SHIFT};

verus! {

/// A color a terminal cell is drawn in.
#[derive(Clone, Copy, Debug, PartialEq, Eq, Structural)]
pub enum Shade {
    /// The terminal's own color.
    Reset,
    /// One of the 256 indexed ANSI colors.
    Indexed(u8),
    /// A color by its red, green and blue.
    Rgb(u8, u8, u8),
}

/// How one terminal cell is drawn: its character, its foreground and
/// background colors, and whether it is bold and whether it blinks.
#[derive(Clone, Copy, Debug, PartialEq, Eq, Structural)]
pub struct Cell {
    pub symbol: char,
    pub fg: Shade,
    pub bg: Shade,
    pub bold: bool,
    pub blink: bool,
}

/// A character in the terminal's own colors.
pub open spec fn spec_plain(symbol: char) -> Cell {
    Cell { symbol, fg: Shade::Reset, bg: Shade::Reset, bold: false, blink: false }
}

pub fn plain(symbol: char) -> (c: Cell)
    ensures
        c == spec_plain(symbol),
{
    Cell { symbol, fg: Shade::Reset, bg: Shade::Reset, bold: false, blink: false }
}

/// The color a solver painted into a square: its red, green and blue bytes.
pub open spec fn spec_thread_rgb(square: Square) -> Shade {
    Shade::Rgb(
        ((square & RED_MASK) >> RED_SHIFT) as u8,
        ((square & GREEN_MASK) >> GREEN_SHIFT) as u8,
        (square & BLUE_MASK) as u8,
    )
}

pub fn thread_rgb(square: Square) -> (s: Shade)
    ensures
        s == spec_thread_rgb(square),
{
    Shade::Rgb(
        ((square & RED_MASK) >> RED_SHIFT) as u8,
        ((square & GREEN_MASK) >> GREEN_SHIFT) as u8,
        (square & BLUE_MASK) as u8,
    )
}

} // verus!
