use vstd::prelude::*;
use crate::maze::{Point, Square};

verus! {

/// A painter's position and its color.
pub struct ThreadGuide {
    pub bias: usize,
    pub color_i: usize,
    pub cache: Square,
    pub p: Point,
}

pub type SpeedUnit = u64;

pub type Rgb = [u8; 3];

pub const PAINT: Square = 0b0001_0000_0000_0000_0000_0000_0000;
pub const PAINT_MASK: Square = 0b1111_1111_1111_1111_1111_1111;
pub const MEASURED: Square = 0b0010_0000_0000_0000_0000_0000_0000;
pub const MEASURED_MASKS: [Square; 4] = [0x1000000, 0x2000000, 0x4000000, 0x8000000];
pub const NUM_PAINTERS: usize = 4;
/// Animation delays in microseconds, from paused to fastest.
pub const ANIMATION_SPEEDS: [SpeedUnit; 8] = [0, 10000, 5000, 2000, 1000, 500, 250, 50];
pub const RED_SHIFT: Square = 16;
pub const GREEN_SHIFT: Square = 8;

/// The square carries a color.
pub fn has_paint_vals(square: Square) -> (b: bool)
    ensures
        b == (square & PAINT_MASK != 0),
{
    (square & PAINT_MASK) != 0
}

/// The square has been measured.
pub fn is_measured(square: Square) -> (b: bool)
    ensures
        b == (square & MEASURED != 0),
{
    (square & MEASURED) != 0
}

} // verus!
