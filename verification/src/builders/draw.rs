//! How a maze under construction is drawn, square by square: the arrows a
//! backtracking builder leaves, walls and open paths, in full squares or in
//! the half blocks of the mini style.

use vstd::prelude::*;
use crate::builders::build_ops::{get_mark, spec_backtracking_symbol, spec_marker, ANSI_WHITE, MARKERS_MASK};
use crate::glyph::{plain, spec_plain, Cell, Shade};
use crate::maze::{is_wall, lemma_wall_bits_range, spec_is_wall, wall_bits, Blueprint, Maze, Point, Square, WALL_MASK, WALL_STYLES};

verus! {

/// A square of a maze under construction in full size: a marked square is
/// its arrow in white over the marker's color, a wall its piece of the wall
/// style, a path blank.
pub open spec fn spec_decode_square(wall_row: Seq<char>, square: Square) -> Cell {
    if spec_marker(square) != 0 {
        Cell {
            symbol: spec_backtracking_symbol(spec_marker(square) as int).arrow,
            fg: Shade::Indexed(ANSI_WHITE),
            bg: Shade::Indexed(spec_marker(square) as u8),
            bold: true,
            blink: false,
        }
    } else if spec_is_wall(square) {
        spec_plain(wall_row[wall_bits(square)])
    } else {
        spec_plain(' ')
    }
}

pub fn decode_square(wall_row: &[char], square: Square) -> (c: Cell)
    requires
        wall_row@.len() >= 16,
        spec_marker(square) < 5,
    ensures
        c == spec_decode_square(wall_row@, square),
{
    if (square & MARKERS_MASK) != 0 {
        let mark = get_mark(square);
        Cell {
            symbol: mark.arrow,
            fg: Shade::Indexed(ANSI_WHITE),
            bg: Shade::Indexed(mark.ansi),
            bold: true,
            blink: false,
        }
    } else if is_wall(square) {
        proof {
            lemma_wall_bits_range(square);
        }
        plain(wall_row[((square & WALL_MASK) >> 24u32) as usize])
    } else {
        plain(' ')
    }
}

/// The color a marker shows in the other half of a mini cell: none for no
/// marker.
pub open spec fn mark_shade(s: Square) -> Shade {
    if spec_marker(s) == 0 {
        Shade::Reset
    } else {
        Shade::Indexed(spec_marker(s) as u8)
    }
}

/// The color a mini cell gives an unmarked wall: the marker of the square
/// sharing its terminal cell, if there is one.
pub open spec fn wall_backdrop(m: &Blueprint, p: Point) -> u8 {
    if p.row % 2 != 0 && p.row > 0 {
        spec_marker(m.square(p.row - 1, p.col as int)) as u8
    } else if p.row + 1 < m.rows {
        spec_marker(m.square(p.row + 1, p.col as int)) as u8
    } else {
        0
    }
}

/// The square sharing a terminal cell with `p` in the mini style: the one
/// above an odd row, the one below an even row.
pub open spec fn other_half(m: &Blueprint, p: Point) -> Square {
    if p.row % 2 != 0 {
        m.square(p.row - 1, p.col as int)
    } else {
        m.square(p.row + 1, p.col as int)
    }
}

/// The piece of the wall style that draws `s`.
pub open spec fn wall_piece(m: &Blueprint, s: Square) -> char {
    WALL_STYLES@[m.wall_style_index * 16 + wall_bits(s)]
}

/// An upper half block over a lower one.
pub open spec fn halves(symbol: char, fg: Shade, bg: Shade) -> Cell {
    Cell { symbol, fg, bg, bold: false, blink: false }
}

/// A square of a maze under construction in the mini style, where one
/// terminal cell shows an even row in its upper half and the odd row below
/// in its lower half: markers color their own half and show in the other,
/// and a path square draws the wall half next to it.
pub open spec fn spec_decode_mini_square(m: &Blueprint, p: Point) -> Cell {
    let s = m.square(p.row as int, p.col as int);
    let other = other_half(m, p);
    if spec_is_wall(s) {
        if spec_marker(s) != 0 {
            halves('▀', mark_shade(other), Shade::Indexed(spec_marker(s) as u8))
        } else {
            halves(wall_piece(m, s), Shade::Reset, Shade::Indexed(wall_backdrop(m, p)))
        }
    } else if p.row % 2 == 0 {
        halves(if spec_is_wall(other) { '▄' } else { ' ' }, mark_shade(other), Shade::Indexed(spec_marker(s) as u8))
    } else {
        halves(if spec_is_wall(other) { '▀' } else { ' ' }, mark_shade(other), Shade::Indexed(spec_marker(s) as u8))
    }
}

/// The squares a mini cell reads exist and carry markers that have arrows.
pub open spec fn mini_marks_fit(m: &Blueprint, p: Point) -> bool {
    let s = m.square(p.row as int, p.col as int);
    let own_read = !spec_is_wall(s) || spec_marker(s) != 0;
    &&& own_read ==> spec_marker(s) < 5
    &&& p.row % 2 == 0 && own_read ==> p.row + 1 < m.rows
    &&& (p.row % 2 != 0 || p.row + 1 < m.rows) ==> spec_marker(other_half(m, p)) < 5
}

/// The marker of the square sharing the terminal cell, for an unmarked wall.
fn backdrop(maze: &Blueprint, p: Point) -> (color: u8)
    requires
        maze.wf(),
        maze.in_bounds(p.row as int, p.col as int),
        (p.row % 2 != 0 || p.row + 1 < maze.rows) ==> spec_marker(other_half(maze, p)) < 5,
    ensures
        color == wall_backdrop(maze, p),
{
    if p.row % 2 != 0 && p.row > 0 {
        get_mark(maze.get(p.row - 1, p.col)).ansi
    } else if p.row + 1 < maze.rows {
        get_mark(maze.get(p.row + 1, p.col)).ansi
    } else {
        0
    }
}

pub fn decode_mini_square(maze: &Blueprint, p: Point) -> (c: Cell)
    requires
        maze.wf(),
        maze.in_bounds(p.row as int, p.col as int),
        mini_marks_fit(maze, p),
    ensures
        c == spec_decode_mini_square(maze, p),
{
    let square = maze.get(p.row, p.col);
    if is_wall(square) {
        if (square & MARKERS_MASK) != 0 {
            let other = if p.row % 2 == 0 { maze.get(p.row + 1, p.col) } else { maze.get(p.row - 1, p.col) };
            let mark = get_mark(other);
            let fg = if mark.ansi == 0 { Shade::Reset } else { Shade::Indexed(mark.ansi) };
            return Cell {
                symbol: '▀',
                fg,
                bg: Shade::Indexed(get_mark(square).ansi),
                bold: false,
                blink: false,
            };
        }
        let color = backdrop(maze, p);
        return Cell { symbol: maze.wall_char(square), fg: Shade::Reset, bg: Shade::Indexed(color), bold: false, blink: false };
    }
    if p.row % 2 == 0 {
        let mark = get_mark(maze.get(p.row + 1, p.col));
        let fg = if mark.ansi == 0 { Shade::Reset } else { Shade::Indexed(mark.ansi) };
        let symbol = if maze.wall_at(p.row + 1, p.col) { '▄' } else { ' ' };
        return Cell { symbol, fg, bg: Shade::Indexed(get_mark(square).ansi), bold: false, blink: false };
    }
    let mark = get_mark(maze.get(p.row - 1, p.col));
    let fg = if mark.ansi == 0 { Shade::Reset } else { Shade::Indexed(mark.ansi) };
    let symbol = if maze.wall_at(p.row - 1, p.col) { '▀' } else { ' ' };
    Cell { symbol, fg, bg: Shade::Indexed(get_mark(square).ansi), bold: false, blink: false }
}

/// A square of a maze under construction drawn by the cursor in the mini
/// style while a walk backtracks: markers color their own half only, an
/// unmarked wall takes the marker sharing its cell as its backdrop.
pub open spec fn spec_mini_backtracker_cell(m: &Maze, p: Point) -> Cell {
    let b = &m.maze;
    let s = b.square(p.row as int, p.col as int);
    let other = other_half(b, p);
    if spec_is_wall(s) {
        if spec_marker(s) != 0 {
            halves('▀', Shade::Reset, Shade::Indexed(spec_marker(s) as u8))
        } else {
            halves(wall_piece(b, s), Shade::Reset, Shade::Indexed(wall_backdrop(b, p)))
        }
    } else if p.row % 2 == 0 {
        halves(if spec_is_wall(other) { '▄' } else { ' ' }, Shade::Reset, Shade::Indexed(spec_marker(s) as u8))
    } else {
        halves(if spec_is_wall(other) { '▀' } else { ' ' }, Shade::Reset, Shade::Indexed(spec_marker(s) as u8))
    }
}

/// The squares a backtracking mini cell reads exist and carry markers that
/// have arrows.
pub open spec fn backtracker_marks_fit(m: &Maze, p: Point) -> bool {
    let b = &m.maze;
    let s = b.square(p.row as int, p.col as int);
    &&& !spec_is_wall(s) || spec_marker(s) != 0 ==> spec_marker(s) < 5
    &&& p.row % 2 == 0 && !spec_is_wall(s) ==> p.row + 1 < b.rows
    &&& spec_is_wall(s) && spec_marker(s) == 0 && (p.row % 2 != 0 || p.row + 1 < b.rows) ==> spec_marker(
        other_half(b, p),
    ) < 5
}

pub fn mini_backtracker_cell(maze: &Maze, p: Point) -> (c: Cell)
    requires
        maze.wf(),
        maze.in_bounds(p.row as int, p.col as int),
        backtracker_marks_fit(maze, p),
    ensures
        c == spec_mini_backtracker_cell(maze, p),
{
    let square = maze.get(p.row, p.col);
    if is_wall(square) {
        if (square & MARKERS_MASK) != 0 {
            return Cell { symbol: '▀', fg: Shade::Reset, bg: Shade::Indexed(get_mark(square).ansi), bold: false, blink: false };
        }
        let color = backdrop(&maze.maze, p);
        return Cell { symbol: maze.wall_char(square), fg: Shade::Reset, bg: Shade::Indexed(color), bold: false, blink: false };
    }
    let bg = Shade::Indexed(get_mark(square).ansi);
    if p.row % 2 == 0 {
        let symbol = if maze.wall_at(p.row + 1, p.col) { '▄' } else { ' ' };
        return Cell { symbol, fg: Shade::Reset, bg, bold: false, blink: false };
    }
    let symbol = if maze.wall_at(p.row - 1, p.col) { '▀' } else { ' ' };
    Cell { symbol, fg: Shade::Reset, bg, bold: false, blink: false }
}

/// A square of a maze drawn by the cursor in the mini style, without
/// markers: a wall in an odd row draws the square above it, which shares
/// its terminal cell, and a path draws the wall half next to it.
pub open spec fn spec_mini_cell(m: &Maze, p: Point) -> Cell {
    let b = &m.maze;
    let s = b.square(p.row as int, p.col as int);
    let other = other_half(b, p);
    if spec_is_wall(s) {
        spec_plain(wall_piece(b, if p.row % 2 != 0 { other } else { s }))
    } else if p.row % 2 == 0 {
        spec_plain(if spec_is_wall(other) { '▄' } else { ' ' })
    } else {
        spec_plain(if spec_is_wall(other) { '▀' } else { ' ' })
    }
}

pub fn mini_cell(maze: &Maze, p: Point) -> (c: Cell)
    requires
        maze.wf(),
        maze.in_bounds(p.row as int, p.col as int),
        p.row % 2 == 0 && !spec_is_wall(maze.square(p.row as int, p.col as int)) ==> p.row + 1 < maze.rows_spec(),
    ensures
        c == spec_mini_cell(maze, p),
{
    let square = maze.get(p.row, p.col);
    if is_wall(square) {
        if p.row % 2 != 0 {
            return plain(maze.wall_char(maze.get(p.row - 1, p.col)));
        }
        return plain(maze.wall_char(square));
    }
    if p.row % 2 == 0 {
        return plain(if maze.wall_at(p.row + 1, p.col) { '▄' } else { ' ' });
    }
    plain(if p.row > 0 && maze.wall_at(p.row - 1, p.col) { '▀' } else { ' ' })
}

} // verus!
