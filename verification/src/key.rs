use vstd::prelude::*;

verus! {

/// How one combination of solver threads is drawn: a block and an ANSI color.
#[derive(Clone, Copy)]
pub struct ThreadColor {
    pub block: char,
    pub ansi: u8,
}

pub const BLOCK: char = '█';
pub const ANSI_RED: u8 = 1;
pub const ANSI_GRN: u8 = 2;
pub const ANSI_BLU: u8 = 4;
pub const ANSI_PRP: u8 = 183;
pub const ANSI_CYN: u8 = 14;
pub const ANSI_RED_BLOCK: u8 = 1;
pub const ANSI_GRN_BLOCK: u8 = 2;
pub const ANSI_YEL_BLOCK: u8 = 3;
pub const ANSI_BLU_BLOCK: u8 = 4;
pub const ANSI_PRP_BLOCK: u8 = 183;
pub const ANSI_MAG_BLOCK: u8 = 201;
pub const ANSI_CYN_BLOCK: u8 = 87;
pub const ANSI_WIT_BLOCK: u8 = 231;
pub const ANSI_PRP_RED_BLOCK: u8 = 204;
pub const ANSI_RED_GRN_BLU_BLOCK: u8 = 121;
pub const ANSI_GRN_PRP_BLOCK: u8 = 106;
pub const ANSI_GRN_BLU_PRP_BLOCK: u8 = 60;
pub const ANSI_RED_GRN_PRP_BLOCK: u8 = 105;
pub const ANSI_RED_BLU_PRP_BLOCK: u8 = 89;
pub const ANSI_DRK_BLU_MAG_BLOCK: u8 = 57;

/// The color of each overlap of the four solver threads, indexed by the
/// thread bits: one bit per thread, so index 0 is "no thread".
pub const THREAD_ANSI: [u8; 16] = [0, 1, 2, 3, 4, 201, 14, 121, 183, 204, 106, 105, 57, 89, 60, 231];

pub open spec fn spec_thread_block(color_index: int) -> char {
    if color_index == 0 {
        ' '
    } else {
        BLOCK
    }
}

pub open spec fn spec_thread_color(color_index: int) -> ThreadColor {
    ThreadColor { block: spec_thread_block(color_index), ansi: THREAD_ANSI@[color_index] }
}

pub fn thread_color_block(color_index: usize) -> (c: char)
    requires
        color_index < 16,
    ensures
        c == spec_thread_block(color_index as int),
{
    if color_index == 0 {
        ' '
    } else {
        BLOCK
    }
}

pub fn thread_color_code(color_index: usize) -> (code: u8)
    requires
        color_index < 16,
    ensures
        code == THREAD_ANSI@[color_index as int],
{
    THREAD_ANSI[color_index]
}

pub fn thread_color(color_index: usize) -> (t: ThreadColor)
    requires
        color_index < 16,
    ensures
        t == spec_thread_color(color_index as int),
{
    ThreadColor { block: thread_color_block(color_index), ansi: thread_color_code(color_index) }
}

pub fn num_colors() -> (n: usize)
    ensures
        n == 16,
{
    THREAD_ANSI.len()
}

} // verus!
