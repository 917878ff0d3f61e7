//! How a solved maze is drawn, square by square: starts, finishes, the
//! paint of the solver threads, walls and open paths, in full squares or in
//! the half blocks of the mini style.

use vstd::prelude::*;
use crate::glyph::{plain, spec_plain, spec_thread_rgb, thread_rgb, Cell, Shade};
use crate::key::{spec_thread_block, thread_color, ANSI_CYN, THREAD_ANSI};
use crate::maze::{
    is_wall, lemma_wall_bits_range, spec_is_wall, wall_bits, Blueprint, Maze, Point, Square, WALL_MASK,
    WALL_STYLES,
};
use crate::solvers::solve::{
    color_index, is_color, is_finish, is_start, is_start_or_finish, FINISH_BIT, START_BIT, THREAD_MASK,
};

verus! {

/// A square marked as a start or a finish.
pub open spec fn special(s: Square) -> bool {
    s & (START_BIT | FINISH_BIT) != 0
}

/// The thread bits of a square, as an index into the thread colors.
pub open spec fn tag_index(s: Square) -> int {
    ((s & THREAD_MASK) >> 4u32) as int
}

/// The thread bits of the square name one of the thread colors.
pub open spec fn tagged(s: Square) -> bool {
    tag_index(s) < 16
}

/// The ANSI color of the threads that marked a square.
pub open spec fn tag_shade(s: Square) -> Shade {
    Shade::Indexed(THREAD_ANSI@[tag_index(s)])
}

/// A square of a solved maze in full size, its paint in red, green and
/// blue: a finish blinks over its paint, a start is bold, painted squares
/// are blocks of their paint, walls take their piece of the wall style.
pub open spec fn spec_decode_square(wall_row: Seq<char>, square: Square) -> Cell {
    if square & FINISH_BIT != 0 {
        Cell { symbol: 'F', fg: Shade::Indexed(ANSI_CYN), bg: spec_thread_rgb(square), bold: true, blink: true }
    } else if square & START_BIT != 0 {
        Cell { symbol: 'S', fg: Shade::Indexed(ANSI_CYN), bg: Shade::Reset, bold: true, blink: false }
    } else if square & THREAD_MASK != 0 {
        Cell { symbol: '█', fg: spec_thread_rgb(square), bg: Shade::Reset, bold: false, blink: false }
    } else if spec_is_wall(square) {
        spec_plain(wall_row[wall_bits(square)])
    } else {
        spec_plain(' ')
    }
}

pub fn decode_square(wall_row: &[char], square: Square) -> (c: Cell)
    requires
        wall_row@.len() >= 16,
    ensures
        c == spec_decode_square(wall_row@, square),
{
    if is_finish(square) {
        Cell { symbol: 'F', fg: Shade::Indexed(ANSI_CYN), bg: thread_rgb(square), bold: true, blink: true }
    } else if is_start(square) {
        Cell { symbol: 'S', fg: Shade::Indexed(ANSI_CYN), bg: Shade::Reset, bold: true, blink: false }
    } else if is_color(square) {
        Cell { symbol: '█', fg: thread_rgb(square), bg: Shade::Reset, bold: false, blink: false }
    } else if is_wall(square) {
        proof {
            lemma_wall_bits_range(square);
        }
        plain(wall_row[((square & WALL_MASK) >> 24u32) as usize])
    } else {
        plain(' ')
    }
}

/// The cell for a start or finish, or for the half next to one, in the
/// mini style.
pub open spec fn mini_special(bg: Shade) -> Cell {
    Cell { symbol: '▀', fg: Shade::Indexed(ANSI_CYN), bg, bold: false, blink: true }
}

/// An upper half block over a lower one.
pub open spec fn halves(symbol: char, fg: Shade, bg: Shade) -> Cell {
    Cell { symbol, fg, bg, bold: false, blink: false }
}

/// A square of a solved maze in the mini style, where one terminal cell
/// shows an even row in its upper half and the odd row below in its lower
/// half: a path square shows its paint in its own half and whatever lies
/// in the other half, starts and finishes blink, and a wall in an even row
/// shows the path below it.
pub open spec fn spec_decode_mini_path(m: &Blueprint, p: Point) -> Cell {
    let s = m.square(p.row as int, p.col as int);
    let this_color = spec_thread_rgb(s);
    if special(s) {
        mini_special(this_color)
    } else if p.row % 2 != 0 {
        if spec_is_wall(s) {
            spec_plain('█')
        } else {
            let up = m.square(p.row - 1, p.col as int);
            if spec_is_wall(up) {
                halves('▀', Shade::Reset, this_color)
            } else if special(up) {
                mini_special(this_color)
            } else {
                halves('▀', spec_thread_rgb(up), this_color)
            }
        }
    } else if !spec_is_wall(s) {
        let down = m.square(p.row + 1, p.col as int);
        if spec_is_wall(down) {
            halves('▄', Shade::Reset, this_color)
        } else if special(down) {
            mini_special(this_color)
        } else {
            halves('▀', spec_thread_rgb(down), this_color)
        }
    } else if p.row + 1 < m.rows && !spec_is_wall(m.square(p.row + 1, p.col as int)) {
        let down = m.square(p.row + 1, p.col as int);
        if special(down) {
            Cell { symbol: '▀', fg: Shade::Reset, bg: Shade::Indexed(ANSI_CYN), bold: false, blink: true }
        } else {
            halves('▀', Shade::Reset, spec_thread_rgb(down))
        }
    } else {
        spec_plain('▀')
    }
}

/// A path square in an even row of the mini style has a row below it.
pub open spec fn mini_rows_fit(m: &Blueprint, p: Point) -> bool {
    let s = m.square(p.row as int, p.col as int);
    p.row % 2 == 0 && !spec_is_wall(s) && !special(s) ==> p.row + 1 < m.rows
}

pub fn decode_mini_path(maze: &Blueprint, p: Point) -> (c: Cell)
    requires
        maze.wf(),
        maze.in_bounds(p.row as int, p.col as int),
        mini_rows_fit(maze, p),
    ensures
        c == spec_decode_mini_path(maze, p),
{
    let square = maze.get(p.row, p.col);
    let this_color = thread_rgb(square);
    if is_start_or_finish(square) {
        return Cell { symbol: '▀', fg: Shade::Indexed(ANSI_CYN), bg: this_color, bold: false, blink: true };
    }
    if p.row % 2 != 0 {
        if maze.path_at(p.row, p.col) {
            if maze.path_at(p.row - 1, p.col) {
                let neighbor_square = maze.get(p.row - 1, p.col);
                if is_start_or_finish(neighbor_square) {
                    return Cell {
                        symbol: '▀',
                        fg: Shade::Indexed(ANSI_CYN),
                        bg: this_color,
                        bold: false,
                        blink: true,
                    };
                }
                return Cell {
                    symbol: '▀',
                    fg: thread_rgb(neighbor_square),
                    bg: this_color,
                    bold: false,
                    blink: false,
                };
            }
            return Cell { symbol: '▀', fg: Shade::Reset, bg: this_color, bold: false, blink: false };
        }
        return plain('█');
    }
    if maze.path_at(p.row, p.col) {
        if maze.path_at(p.row + 1, p.col) {
            let neighbor_square = maze.get(p.row + 1, p.col);
            if is_start_or_finish(neighbor_square) {
                return Cell { symbol: '▀', fg: Shade::Indexed(ANSI_CYN), bg: this_color, bold: false, blink: true };
            }
            return Cell { symbol: '▀', fg: thread_rgb(neighbor_square), bg: this_color, bold: false, blink: false };
        }
        return Cell { symbol: '▄', fg: Shade::Reset, bg: this_color, bold: false, blink: false };
    }
    if p.row + 1 < maze.rows && maze.path_at(p.row + 1, p.col) {
        let neighbor_square = maze.get(p.row + 1, p.col);
        if is_start_or_finish(neighbor_square) {
            return Cell { symbol: '▀', fg: Shade::Reset, bg: Shade::Indexed(ANSI_CYN), bold: false, blink: true };
        }
        return Cell { symbol: '▀', fg: Shade::Reset, bg: thread_rgb(neighbor_square), bold: false, blink: false };
    }
    plain('▀')
}

/// A square of a maze drawn by the cursor in full size, its thread bits
/// naming one of the thread colors: a finish blinks over the color of the
/// threads that reached it, a start is bold, marked squares are blocks of
/// their threads' color.
pub open spec fn spec_cursor_cell(m: &Maze, p: Point) -> Cell {
    let s = m.square(p.row as int, p.col as int);
    if s & FINISH_BIT != 0 {
        Cell { symbol: 'F', fg: Shade::Indexed(ANSI_CYN), bg: tag_shade(s), bold: true, blink: true }
    } else if s & START_BIT != 0 {
        Cell { symbol: 'S', fg: Shade::Indexed(ANSI_CYN), bg: Shade::Reset, bold: true, blink: false }
    } else if s & THREAD_MASK != 0 {
        halves(spec_thread_block(tag_index(s)), tag_shade(s), Shade::Reset)
    } else if spec_is_wall(s) {
        spec_plain(WALL_STYLES@[m.maze.wall_style_index * 16 + wall_bits(s)])
    } else {
        spec_plain(' ')
    }
}

pub fn cursor_cell(maze: &Maze, p: Point) -> (c: Cell)
    requires
        maze.wf(),
        maze.in_bounds(p.row as int, p.col as int),
        maze.square(p.row as int, p.col as int) & (FINISH_BIT | THREAD_MASK) != 0 ==> tagged(
            maze.square(p.row as int, p.col as int),
        ),
    ensures
        c == spec_cursor_cell(maze, p),
{
    let square = maze.get(p.row, p.col);
    proof {
        assert(square & (FINISH_BIT | THREAD_MASK) == 0 ==> square & FINISH_BIT == 0 && square & THREAD_MASK == 0)
            by (bit_vector);
    }
    if is_finish(square) {
        let t = thread_color(color_index(square));
        return Cell { symbol: 'F', fg: Shade::Indexed(ANSI_CYN), bg: Shade::Indexed(t.ansi), bold: true, blink: true };
    }
    if is_start(square) {
        return Cell { symbol: 'S', fg: Shade::Indexed(ANSI_CYN), bg: Shade::Reset, bold: true, blink: false };
    }
    if is_color(square) {
        let t = thread_color(color_index(square));
        return Cell { symbol: t.block, fg: Shade::Indexed(t.ansi), bg: Shade::Reset, bold: false, blink: false };
    }
    if is_wall(square) {
        return plain(maze.wall_char(square));
    }
    plain(' ')
}

/// A path square of a maze drawn by the cursor in the mini style, colored
/// by its threads: a start or finish blinks, and the other half of the
/// terminal cell shows the threads of the path square there, or nothing
/// where a wall is.
pub open spec fn spec_mini_path_cell(m: &Maze, p: Point) -> Cell {
    let s = m.square(p.row as int, p.col as int);
    let this_color = tag_shade(s);
    let other = if p.row % 2 != 0 {
        m.square(p.row - 1, p.col as int)
    } else {
        m.square(p.row + 1, p.col as int)
    };
    if special(s) {
        mini_special(this_color)
    } else if spec_is_wall(other) {
        halves(if p.row % 2 != 0 { '▀' } else { '▄' }, Shade::Reset, this_color)
    } else if special(other) {
        mini_special(this_color)
    } else {
        halves('▀', tag_shade(other), this_color)
    }
}

/// The squares that a mini cell reads exist, and those whose thread colors
/// it shows name one.
pub open spec fn mini_tags_fit(m: &Maze, p: Point) -> bool {
    let s = m.square(p.row as int, p.col as int);
    let other = if p.row % 2 != 0 {
        m.square(p.row - 1, p.col as int)
    } else {
        m.square(p.row + 1, p.col as int)
    };
    &&& tagged(s)
    &&& !special(s) ==> (p.row % 2 == 0 ==> p.row + 1 < m.rows_spec()) && (!spec_is_wall(other) && !special(other)
        ==> tagged(other))
}

pub fn mini_path_cell(maze: &Maze, p: Point) -> (c: Cell)
    requires
        maze.wf(),
        maze.in_bounds(p.row as int, p.col as int),
        mini_tags_fit(maze, p),
    ensures
        c == spec_mini_path_cell(maze, p),
{
    let square = maze.get(p.row, p.col);
    let this_color = Shade::Indexed(thread_color(color_index(square)).ansi);
    if is_start_or_finish(square) {
        return Cell { symbol: '▀', fg: Shade::Indexed(ANSI_CYN), bg: this_color, bold: false, blink: true };
    }
    let odd = p.row % 2 != 0;
    let other_row = if odd { p.row - 1 } else { p.row + 1 };
    if maze.path_at(other_row, p.col) {
        let neighbor_square = maze.get(other_row, p.col);
        if is_start_or_finish(neighbor_square) {
            return Cell { symbol: '▀', fg: Shade::Indexed(ANSI_CYN), bg: this_color, bold: false, blink: true };
        }
        let fg = Shade::Indexed(thread_color(color_index(neighbor_square)).ansi);
        return Cell { symbol: '▀', fg, bg: this_color, bold: false, blink: false };
    }
    Cell { symbol: if odd { '▀' } else { '▄' }, fg: Shade::Reset, bg: this_color, bold: false, blink: false }
}

/// Any square of a maze drawn by the cursor in the mini style: a wall that
/// is no start or finish is its piece of the wall style, and the rest is
/// drawn as a path square.
pub open spec fn spec_mini_point_cell(m: &Maze, p: Point) -> Cell {
    let s = m.square(p.row as int, p.col as int);
    if !special(s) && spec_is_wall(s) {
        spec_plain(WALL_STYLES@[m.maze.wall_style_index * 16 + wall_bits(s)])
    } else {
        spec_mini_path_cell(m, p)
    }
}

pub fn mini_point_cell(maze: &Maze, p: Point) -> (c: Cell)
    requires
        maze.wf(),
        maze.in_bounds(p.row as int, p.col as int),
        tagged(maze.square(p.row as int, p.col as int)),
        !spec_is_wall(maze.square(p.row as int, p.col as int)) || special(maze.square(p.row as int, p.col as int))
            ==> mini_tags_fit(maze, p),
    ensures
        c == spec_mini_point_cell(maze, p),
{
    let square = maze.get(p.row, p.col);
    if !is_start_or_finish(square) && is_wall(square) {
        return plain(maze.wall_char(square));
    }
    mini_path_cell(maze, p)
}

/// Where the cursor draws the square `p` of a mini maze on the screen: two
/// rows of the maze share a line, and the maze's offset shifts the whole.
pub fn mini_point_position(maze: &Maze, p: Point) -> (q: Point)
    requires
        0 <= p.row,
        i32::MIN <= p.row / 2 + maze.maze.offset.add_rows <= i32::MAX,
        i32::MIN <= p.col + maze.maze.offset.add_cols <= i32::MAX,
    ensures
        q.row == p.row / 2 + maze.maze.offset.add_rows,
        q.col == p.col + maze.maze.offset.add_cols,
{
    let o = maze.offset();
    Point { row: p.row / 2 + o.add_rows, col: p.col + o.add_cols }
}

} // verus!
