use vstd::prelude::*;
use crate::maze::{
    cell_index, consistent, lemma_recorded_exactly, BUILDER_BIT, is_burst, is_wall, lemma_cell_index_injective, lemma_cell_index_bounds, lemma_recorded_builder_bit, lemma_recorded_refl, lemma_recorded_trans, lemma_replay_empty,
    lemma_replay_push, lemma_replay_same_changes, recorded, same_changes, frames_from,
    replay, same_but_builder, Delta, spec_is_wall, Maze, Point, Square, WallLine,
    EAST_WALL, NORTH_WALL, PATH_BIT, SOUTH_WALL, WALL_MASK, WEST_WALL,
};

verus! {

pub type SpeedUnit = u64;
pub type BacktrackMarker = u32;

#[derive(Clone, Copy, PartialEq, Eq, Structural)]
pub enum ParityPoint {
    Even,
    Odd,
}

#[derive(Clone, Copy)]
pub struct BacktrackSymbol {
    pub arrow: char,
    pub ansi: u8,
}

pub const NUM_DIRECTIONS: usize = 4;
pub const MARKERS_MASK: BacktrackMarker = 0b1111;
pub const FROM_NORTH: BacktrackMarker = 0b0001;
pub const FROM_EAST: BacktrackMarker = 0b0010;
pub const FROM_SOUTH: BacktrackMarker = 0b0011;
pub const FROM_WEST: BacktrackMarker = 0b0100;
pub const ANSI_WHITE: u8 = 15;
/// Animation delays in microseconds, from paused to fastest.
pub const BUILDER_SPEEDS: [SpeedUnit; 8] = [0, 5000, 2500, 1000, 500, 250, 100, 1];

/// The arrow drawn for a backtracking marker, in the ANSI color of the
/// marker's number.
pub open spec fn spec_backtracking_symbol(marker: int) -> BacktrackSymbol {
    let arrow = if marker == 1 {
        '↑'
    } else if marker == 2 {
        '→'
    } else if marker == 3 {
        '↓'
    } else if marker == 4 {
        '←'
    } else {
        ' '
    };
    BacktrackSymbol { arrow, ansi: marker as u8 }
}

/// The arrow drawn for each backtracking marker.
pub fn backtracking_symbol(marker: BacktrackMarker) -> (s: BacktrackSymbol)
    requires
        marker < 5,
    ensures
        s.ansi == marker,
        s == spec_backtracking_symbol(marker as int),
{
    if marker == 0 {
        BacktrackSymbol { arrow: ' ', ansi: 0 }
    } else if marker == 1 {
        BacktrackSymbol { arrow: '↑', ansi: 1 }
    } else if marker == 2 {
        BacktrackSymbol { arrow: '→', ansi: 2 }
    } else if marker == 3 {
        BacktrackSymbol { arrow: '↓', ansi: 3 }
    } else {
        BacktrackSymbol { arrow: '←', ansi: 4 }
    }
}

/// Where a marker says the walk came from, two squares away.
pub open spec fn spec_backtracking_point(marker: int) -> Point {
    if marker == 1 {
        Point { row: -2i32, col: 0 }
    } else if marker == 2 {
        Point { row: 0, col: 2 }
    } else if marker == 3 {
        Point { row: 2, col: 0 }
    } else if marker == 4 {
        Point { row: 0, col: -2i32 }
    } else {
        Point { row: 0, col: 0 }
    }
}

/// The wall square between a marked square and the square it came from.
pub open spec fn spec_backtracking_half_point(marker: int) -> Point {
    if marker == 1 {
        Point { row: -1i32, col: 0 }
    } else if marker == 2 {
        Point { row: 0, col: 1 }
    } else if marker == 3 {
        Point { row: 1, col: 0 }
    } else if marker == 4 {
        Point { row: 0, col: -1i32 }
    } else {
        Point { row: 0, col: 0 }
    }
}

pub fn backtracking_point(marker: BacktrackMarker) -> (p: Point)
    requires
        marker < 5,
    ensures
        p == spec_backtracking_point(marker as int),
{
    if marker == 1 {
        Point { row: -2, col: 0 }
    } else if marker == 2 {
        Point { row: 0, col: 2 }
    } else if marker == 3 {
        Point { row: 2, col: 0 }
    } else if marker == 4 {
        Point { row: 0, col: -2 }
    } else {
        Point { row: 0, col: 0 }
    }
}

pub fn backtracking_half_point(marker: BacktrackMarker) -> (p: Point)
    requires
        marker < 5,
    ensures
        p == spec_backtracking_half_point(marker as int),
{
    if marker == 1 {
        Point { row: -1, col: 0 }
    } else if marker == 2 {
        Point { row: 0, col: 1 }
    } else if marker == 3 {
        Point { row: 1, col: 0 }
    } else if marker == 4 {
        Point { row: 0, col: -1 }
    } else {
        Point { row: 0, col: 0 }
    }
}

/// North, east, south and west steps between cells, two squares long.
pub open spec fn spec_generate_direction(i: int) -> Point {
    if i == 0 {
        Point { row: -2i32, col: 0 }
    } else if i == 1 {
        Point { row: 0, col: 2 }
    } else if i == 2 {
        Point { row: 2, col: 0 }
    } else {
        Point { row: 0, col: -2i32 }
    }
}

pub fn generate_direction(i: usize) -> (p: Point)
    requires
        i < 4,
    ensures
        p == spec_generate_direction(i as int),
{
    if i == 0 {
        Point { row: -2, col: 0 }
    } else if i == 1 {
        Point { row: 0, col: 2 }
    } else if i == 2 {
        Point { row: 2, col: 0 }
    } else {
        Point { row: 0, col: -2 }
    }
}

pub open spec fn spec_is_built(square: Square) -> bool {
    square & BUILDER_BIT != 0
}

pub open spec fn spec_marker(square: Square) -> BacktrackMarker {
    square & MARKERS_MASK
}

pub open spec fn interior(maze: &Maze, p: Point) -> bool {
    0 < p.row < maze.rows_spec() - 1 && 0 < p.col < maze.cols_spec() - 1
}

pub open spec fn point_in(maze: &Maze, p: Point) -> bool {
    maze.in_bounds(p.row as int, p.col as int)
}

pub open spec fn sq(maze: &Maze, p: Point) -> Square {
    maze.square(p.row as int, p.col as int)
}

pub fn is_built(square: Square) -> (b: bool)
    ensures
        b == spec_is_built(square),
{
    (square & BUILDER_BIT) != 0
}

pub fn is_marked(square: Square) -> (b: bool)
    ensures
        b == (spec_marker(square) != 0),
{
    (square & MARKERS_MASK) != 0
}

pub fn get_mark(square: Square) -> (s: BacktrackSymbol)
    requires
        spec_marker(square) < 5,
    ensures
        s.ansi == spec_marker(square),
        s == spec_backtracking_symbol(spec_marker(square) as int),
{
    backtracking_symbol(square & MARKERS_MASK)
}

pub fn is_square_within_perimeter_walls(maze: &Maze, next: Point) -> (b: bool)
    requires
        maze.wf(),
    ensures
        b == interior(maze, next),
{
    next.row < maze.rows() - 1 && next.row > 0 && next.col < maze.cols() - 1 && next.col > 0
}

pub fn can_build_new_square(maze: &Maze, next: Point) -> (b: bool)
    requires
        maze.wf(),
    ensures
        b == (interior(maze, next) && !spec_is_built(sq(maze, next))),
{
    next.row > 0 && next.row < maze.rows() - 1 && next.col > 0 && next.col < maze.cols() - 1
        && (maze.get(next.row, next.col) & BUILDER_BIT) == 0
}

pub fn has_builder_bit(maze: &Maze, next: Point) -> (b: bool)
    requires
        maze.wf(),
        point_in(maze, next),
    ensures
        b == spec_is_built(sq(maze, next)),
{
    (maze.get(next.row, next.col) & BUILDER_BIT) != 0
}

/// Zeroes every square.
pub fn reset_build(maze: &mut Maze)
    requires
        old(maze).wf(),
    ensures
        final(maze).wf(),
        final(maze).same_shape(old(maze)),
        final(maze).build_history == old(maze).build_history,
        final(maze).solve_history == old(maze).solve_history,
        forall|k: int| 0 <= k < final(maze).squares().len() ==> final(maze).squares()[k] == 0,
{
    let n = maze.maze.buf.len();
    let mut k: usize = 0;
    while k < n
        invariant
            maze.wf(),
            maze.same_shape(old(maze)),
            maze.build_history == old(maze).build_history,
            maze.solve_history == old(maze).solve_history,
            n == maze.squares().len(),
            k <= n,
            forall|j: int| 0 <= j < k ==> maze.squares()[j] == 0,
        decreases n - k,
    {
        maze.maze.buf.set(k, 0);
        k = k + 1;
    }
}

/// The buffer after writing new values into the square `p` and into each of
/// its four neighbors that lies on the grid.
pub open spec fn set_around(
    s: Seq<Square>,
    rows: int,
    cols: int,
    p: Point,
    center: Square,
    north: Square,
    east: Square,
    south: Square,
    west: Square,
) -> Seq<Square> {
    Seq::new(
        s.len(),
        |k: int|
            if k == cell_index(p.row as int, p.col as int, cols) {
                center
            } else if p.row > 0 && k == cell_index(p.row - 1, p.col as int, cols) {
                north
            } else if p.row + 1 < rows && k == cell_index(p.row + 1, p.col as int, cols) {
                south
            } else if p.col > 0 && k == cell_index(p.row as int, p.col - 1, cols) {
                west
            } else if p.col + 1 < cols && k == cell_index(p.row as int, p.col + 1, cols) {
                east
            } else {
                s[k]
            },
    )
}

/// The squares of `maze` after `set_around` at `p`.
pub open spec fn around(
    maze: &Maze,
    p: Point,
    center: Square,
    north: Square,
    east: Square,
    south: Square,
    west: Square,
) -> Seq<Square> {
    set_around(
        maze.squares(),
        maze.rows_spec(),
        maze.cols_spec(),
        p,
        center,
        north,
        east,
        south,
        west,
    )
}

/// The square `dr` rows and `dc` columns away from `p`.
pub open spec fn at_offset(maze: &Maze, p: Point, dr: int, dc: int) -> Square {
    maze.square(p.row + dr, p.col + dc)
}

/// Only squares changed, and the maze is still well formed.
pub open spec fn reshaped(new: &Maze, old: &Maze) -> bool {
    &&& new.wf()
    &&& new.same_shape(old)
    &&& new.build_history == old.build_history
    &&& new.solve_history == old.solve_history
}

pub proof fn lemma_around_cells(maze: &Maze, p: Point)
    requires
        maze.wf(),
        point_in(maze, p),
    ensures
        ({
            let cols = maze.cols_spec();
            let c = cell_index(p.row as int, p.col as int, cols);
            let n = cell_index(p.row - 1, p.col as int, cols);
            let s = cell_index(p.row + 1, p.col as int, cols);
            let w = cell_index(p.row as int, p.col - 1, cols);
            let e = cell_index(p.row as int, p.col + 1, cols);
            &&& n == c - cols && s == c + cols && w == c - 1 && e == c + 1
            &&& c != n && c != s && n != s
            &&& p.col > 0 ==> (c != w && n != w && s != w)
            &&& p.col + 1 < cols ==> (c != e && n != e && s != e)
            &&& p.col > 0 && p.col + 1 < cols ==> w != e
        }),
{
    let cols = maze.cols_spec();
    let r = p.row as int;
    let q = p.col as int;
    assert((r - 1) * cols == r * cols - cols && (r + 1) * cols == r * cols + cols)
        by (nonlinear_arith);
    lemma_cell_index_injective(r, q, r - 1, q, cols);
    lemma_cell_index_injective(r, q, r + 1, q, cols);
    lemma_cell_index_injective(r - 1, q, r + 1, q, cols);
    if q > 0 {
        lemma_cell_index_injective(r, q, r, q - 1, cols);
        lemma_cell_index_injective(r - 1, q, r, q - 1, cols);
        lemma_cell_index_injective(r + 1, q, r, q - 1, cols);
    }
    if q + 1 < cols {
        lemma_cell_index_injective(r, q, r, q + 1, cols);
        lemma_cell_index_injective(r - 1, q, r, q + 1, cols);
        lemma_cell_index_injective(r + 1, q, r, q + 1, cols);
        if q > 0 {
            lemma_cell_index_injective(r, q - 1, r, q + 1, cols);
        }
    }
}

proof fn lemma_row_step(a: int, b: int, cols: int)
    requires
        a + 1 == b,
    ensures
        a * cols + cols == b * cols,
{
    assert(a * cols + cols == (a + 1) * cols) by (nonlinear_arith);
}

/// Writes `center` into `p` and the other values into the neighbors of `p`
/// that lie on the grid.
fn write_around(
    maze: &mut Maze,
    p: Point,
    center: Square,
    north: Square,
    east: Square,
    south: Square,
    west: Square,
)
    requires
        old(maze).wf(),
        point_in(old(maze), p),
    ensures
        reshaped(final(maze), old(maze)),
        final(maze).squares() == around(old(maze), p, center, north, east, south, west),
{
    let ghost s0 = maze.squares();
    let ghost cols = maze.cols_spec();
    let ghost rows = maze.rows_spec();
    proof {
        lemma_around_cells(maze, p);
        maze.maze.lemma_index(p.row as int, p.col as int);
    }
    if p.row > 0 {
        let up = p.row - 1;
        proof {
            lemma_row_step(up as int, p.row as int, cols);
            maze.maze.lemma_index(up as int, p.col as int);
        }
        maze.set(up, p.col, north);
    }
    let ghost s1 = maze.squares();
    assert(forall|k: int|
        0 <= k < s0.len() && !(p.row > 0 && k == cell_index(p.row - 1, p.col as int, cols))
            ==> s1[k] == s0[k]);
    if p.row + 1 < maze.rows() {
        let down = p.row + 1;
        proof {
            lemma_row_step(p.row as int, down as int, cols);
            maze.maze.lemma_index(down as int, p.col as int);
        }
        maze.set(down, p.col, south);
    }
    let ghost s2 = maze.squares();
    assert(forall|k: int|
        0 <= k < s0.len() && !(p.row + 1 < rows && k == cell_index(p.row + 1, p.col as int, cols))
            ==> s2[k] == s1[k]);
    if p.col > 0 {
        proof { maze.maze.lemma_index(p.row as int, p.col - 1); }
        maze.set(p.row, p.col - 1, west);
    }
    let ghost s3 = maze.squares();
    assert(forall|k: int|
        0 <= k < s0.len() && !(p.col > 0 && k == cell_index(p.row as int, p.col - 1, cols))
            ==> s3[k] == s2[k]);
    if p.col + 1 < maze.cols() {
        proof { maze.maze.lemma_index(p.row as int, p.col + 1); }
        maze.set(p.row, p.col + 1, east);
    }
    let ghost s4 = maze.squares();
    assert(forall|k: int|
        0 <= k < s0.len() && !(p.col + 1 < cols && k == cell_index(p.row as int, p.col + 1, cols))
            ==> s4[k] == s3[k]);
    maze.set(p.row, p.col, center);
    assert(maze.squares() =~= around(old(maze), p, center, north, east, south, west));
}


/// The wall bits that connect `p` to every neighbor it has on the grid.
pub open spec fn boundary_walls(rows: int, cols: int, row: int, col: int) -> Square {
    (if row > 0 { NORTH_WALL } else { 0u32 }) | (if row + 1 < rows { SOUTH_WALL } else { 0u32 })
        | (if col > 0 { WEST_WALL } else { 0u32 }) | (if col + 1 < cols { EAST_WALL } else { 0u32 })
}

/// Every square is a wall joined to all of its neighbors, as after filling.
pub open spec fn all_walls(maze: &Maze) -> bool {
    forall|r: int, c: int|
        maze.in_bounds(r, c) ==> #[trigger] maze.square(r, c) == boundary_walls(
            maze.rows_spec(),
            maze.cols_spec(),
            r,
            c,
        )
}

/// Turns the square `p` into a wall joined to every neighbor, whatever it held.
pub fn build_wall(maze: &mut Maze, p: Point)
    requires
        old(maze).wf(),
        point_in(old(maze), p),
    ensures
        reshaped(final(maze), old(maze)),
        final(maze).squares() == old(maze).maze.with_square(
            p.row as int,
            p.col as int,
            boundary_walls(old(maze).rows_spec(), old(maze).cols_spec(), p.row as int, p.col as int),
        ),
{
    let wall: WallLine = (if p.row > 0 { NORTH_WALL } else { 0u32 }) | (if p.row + 1 < maze.rows() {
        SOUTH_WALL
    } else {
        0u32
    }) | (if p.col > 0 { WEST_WALL } else { 0u32 }) | (if p.col + 1 < maze.cols() {
        EAST_WALL
    } else {
        0u32
    });
    maze.set(p.row, p.col, wall);
}

/// The buffer `s` after opening `p` as a path (with `extra` bits set) and
/// removing the walls that pointed at it from its neighbors.
pub open spec fn opened(s: Seq<Square>, rows: int, cols: int, p: Point, extra: Square) -> Seq<Square> {
    set_around(
        s,
        rows,
        cols,
        p,
        (s[cell_index(p.row as int, p.col as int, cols)] & !WALL_MASK) | PATH_BIT | extra,
        s[cell_index(p.row - 1, p.col as int, cols)] & !SOUTH_WALL,
        s[cell_index(p.row as int, p.col + 1, cols)] & !WEST_WALL,
        s[cell_index(p.row + 1, p.col as int, cols)] & !NORTH_WALL,
        s[cell_index(p.row as int, p.col - 1, cols)] & !EAST_WALL,
    )
}

/// The squares of `maze` after `opened` at `p`.
pub open spec fn path_opened(maze: &Maze, p: Point, extra: Square) -> Seq<Square> {
    opened(maze.squares(), maze.rows_spec(), maze.cols_spec(), p, extra)
}

/// Reads the neighbor `dr` rows and `dc` columns away, or zero off the grid.
pub(crate) fn neighbor_or_zero(maze: &Maze, p: Point, dr: i32, dc: i32) -> (s: Square)
    requires
        maze.wf(),
        point_in(maze, p),
        -1 <= dr <= 1,
        -1 <= dc <= 1,
    ensures
        maze.in_bounds(p.row + dr, p.col + dc) ==> s == at_offset(maze, p, dr as int, dc as int),
{
    let r = p.row as i64 + dr as i64;
    let c = p.col as i64 + dc as i64;
    if 0 <= r && r < maze.rows() as i64 && 0 <= c && c < maze.cols() as i64 {
        maze.get(r as i32, c as i32)
    } else {
        0
    }
}

fn open_path(maze: &mut Maze, p: Point, extra: Square)
    requires
        old(maze).wf(),
        point_in(old(maze), p),
    ensures
        reshaped(final(maze), old(maze)),
        final(maze).squares() == path_opened(old(maze), p, extra),
{
    let center = (maze.get(p.row, p.col) & !WALL_MASK) | PATH_BIT | extra;
    let north = neighbor_or_zero(maze, p, -1, 0) & !SOUTH_WALL;
    let east = neighbor_or_zero(maze, p, 0, 1) & !WEST_WALL;
    let south = neighbor_or_zero(maze, p, 1, 0) & !NORTH_WALL;
    let west = neighbor_or_zero(maze, p, 0, -1) & !EAST_WALL;
    let ghost m0 = *maze;
    write_around(maze, p, center, north, east, south, west);
    assert(maze.squares() =~= path_opened(&m0, p, extra));
}

/// Opens `p` as a path and removes the walls that pointed at it.
pub fn build_path(maze: &mut Maze, p: Point)
    requires
        old(maze).wf(),
        point_in(old(maze), p),
    ensures
        reshaped(final(maze), old(maze)),
        final(maze).squares() == path_opened(old(maze), p, 0),
{
    open_path(maze, p, 0);
}

/// Opens `p` as a path, marks it built, and removes the walls that pointed at it.
pub fn carve_path_walls(maze: &mut Maze, p: Point)
    requires
        old(maze).wf(),
        point_in(old(maze), p),
    ensures
        reshaped(final(maze), old(maze)),
        final(maze).squares() == path_opened(old(maze), p, BUILDER_BIT),
{
    open_path(maze, p, BUILDER_BIT);
}

/// The wall bits of `p` toward those of its neighbors that are walls.
pub open spec fn wall_links(maze: &Maze, p: Point) -> Square {
    (if p.row > 0 && spec_is_wall(at_offset(maze, p, -1, 0)) { NORTH_WALL } else { 0u32 })
        | (if p.row + 1 < maze.rows_spec() && spec_is_wall(at_offset(maze, p, 1, 0)) { SOUTH_WALL } else { 0u32 })
        | (if p.col > 0 && spec_is_wall(at_offset(maze, p, 0, -1)) { WEST_WALL } else { 0u32 })
        | (if p.col + 1 < maze.cols_spec() && spec_is_wall(at_offset(maze, p, 0, 1)) { EAST_WALL } else { 0u32 })
}

/// The squares after turning `p` into a wall joined to the neighbors that are
/// walls, each of which gets a wall bit pointing back at `p`.
pub open spec fn wall_joined(maze: &Maze, p: Point, extra: Square) -> Seq<Square> {
    around(
        maze,
        p,
        (sq(maze, p) | wall_links(maze, p) | extra) & !PATH_BIT,
        if spec_is_wall(at_offset(maze, p, -1, 0)) { at_offset(maze, p, -1, 0) | SOUTH_WALL } else { at_offset(maze, p, -1, 0) },
        if spec_is_wall(at_offset(maze, p, 0, 1)) { at_offset(maze, p, 0, 1) | WEST_WALL } else { at_offset(maze, p, 0, 1) },
        if spec_is_wall(at_offset(maze, p, 1, 0)) { at_offset(maze, p, 1, 0) | NORTH_WALL } else { at_offset(maze, p, 1, 0) },
        if spec_is_wall(at_offset(maze, p, 0, -1)) { at_offset(maze, p, 0, -1) | EAST_WALL } else { at_offset(maze, p, 0, -1) },
    )
}

fn join_wall(maze: &mut Maze, p: Point, extra: Square)
    requires
        old(maze).wf(),
        point_in(old(maze), p),
    ensures
        reshaped(final(maze), old(maze)),
        final(maze).squares() == wall_joined(old(maze), p, extra),
{
    let ghost m0 = *maze;
    let north = neighbor_or_zero(maze, p, -1, 0);
    let east = neighbor_or_zero(maze, p, 0, 1);
    let south = neighbor_or_zero(maze, p, 1, 0);
    let west = neighbor_or_zero(maze, p, 0, -1);
    let north_wall = p.row > 0 && is_wall(north);
    let south_wall = p.row + 1 < maze.rows() && is_wall(south);
    let west_wall = p.col > 0 && is_wall(west);
    let east_wall = p.col + 1 < maze.cols() && is_wall(east);
    let wall: WallLine = (if north_wall { NORTH_WALL } else { 0u32 }) | (if south_wall {
        SOUTH_WALL
    } else {
        0u32
    }) | (if west_wall { WEST_WALL } else { 0u32 }) | (if east_wall { EAST_WALL } else { 0u32 });
    let north = if is_wall(north) { north | SOUTH_WALL } else { north };
    let east = if is_wall(east) { east | WEST_WALL } else { east };
    let south = if is_wall(south) { south | NORTH_WALL } else { south };
    let west = if is_wall(west) { west | EAST_WALL } else { west };
    let center = (maze.get(p.row, p.col) | wall | extra) & !PATH_BIT;
    write_around(maze, p, center, north, east, south, west);
    assert(maze.squares() =~= wall_joined(&m0, p, extra));
}

/// Turns `p` into a wall joined only to neighbors that are walls already.
pub fn build_wall_carefully(maze: &mut Maze, p: Point)
    requires
        old(maze).wf(),
        point_in(old(maze), p),
    ensures
        reshaped(final(maze), old(maze)),
        final(maze).squares() == wall_joined(old(maze), p, 0),
{
    join_wall(maze, p, 0);
}

/// Turns `p` into a built wall joined to the neighbors that are walls.
pub fn build_wall_line(maze: &mut Maze, p: Point)
    requires
        old(maze).wf(),
        point_in(old(maze), p),
    ensures
        reshaped(final(maze), old(maze)),
        final(maze).squares() == wall_joined(old(maze), p, BUILDER_BIT),
{
    join_wall(maze, p, BUILDER_BIT);
}


/// One delta for the square `p`.
fn delta_at(maze: &Maze, p: Point, after: Square, burst: usize) -> (d: Delta)
    requires
        maze.wf(),
        point_in(maze, p),
    ensures
        d == (Delta { id: p, before: sq(maze, p), after, burst }),
{
    Delta { id: p, before: maze.get(p.row, p.col), after, burst }
}

/// Appends the delta of `q` to a frame recorded from the squares of `maze`.
fn push_step(maze: &Maze, frame: &mut Vec<Delta>, q: Point, after: Square, burst: usize)
    requires
        maze.wf(),
        point_in(maze, q),
        consistent(maze.squares(), maze.cols_spec(), old(frame)@),
        replay(maze.squares(), maze.cols_spec(), old(frame)@)[cell_index(
            q.row as int,
            q.col as int,
            maze.cols_spec(),
        )] == sq(maze, q),
    ensures
        final(frame)@ == old(frame)@.push(Delta { id: q, before: sq(maze, q), after, burst }),
        consistent(maze.squares(), maze.cols_spec(), final(frame)@),
        replay(maze.squares(), maze.cols_spec(), final(frame)@) == replay(
            maze.squares(),
            maze.cols_spec(),
            old(frame)@,
        ).update(cell_index(q.row as int, q.col as int, maze.cols_spec()), after),
{
    proof { maze.maze.lemma_index(q.row as int, q.col as int); }
    let d = delta_at(maze, q, after, burst);
    proof { lemma_replay_push(maze.squares(), maze.cols_spec(), frame@, d); }
    frame.push(d);
}

/// `frame` with the delta of `q` in `maze` appended when `touch` holds: its
/// burst is its position plus one when `numbered` or when it ends a frame of
/// `total` deltas, else one.
pub open spec fn frame_push_if(
    frame: Seq<Delta>,
    touch: bool,
    maze: &Maze,
    q: Point,
    after: Square,
    numbered: bool,
    total: int,
) -> Seq<Delta> {
    if touch {
        let b: int = if numbered || frame.len() + 1 == total { frame.len() + 1int } else { 1int };
        frame.push(Delta { id: q, before: sq(maze, q), after, burst: b as usize })
    } else {
        frame
    }
}

/// The number of deltas in a frame around a square: its own and one per
/// neighbor touched.
pub open spec fn around_total(touch_north: bool, touch_south: bool, touch_west: bool, touch_east: bool) -> int {
    1 + (if touch_north { 1int } else { 0 }) + (if touch_south { 1int } else { 0 }) + (if touch_west { 1int } else {
        0
    }) + (if touch_east { 1int } else { 0 })
}

/// The frame that records writing `center` at `p` and the given values at
/// the neighbors touched: the delta of `p` first, then those of the north,
/// south, west and east neighbors touched, in that order, each with the
/// square as it was and as it becomes. The first and last deltas carry the
/// frame's length; the ones between their position plus one when
/// `numbered`, else one.
pub open spec fn around_deltas(
    maze: &Maze,
    p: Point,
    center: Square,
    north: Square,
    east: Square,
    south: Square,
    west: Square,
    touch_north: bool,
    touch_south: bool,
    touch_west: bool,
    touch_east: bool,
    numbered: bool,
) -> Seq<Delta> {
    let total = around_total(touch_north, touch_south, touch_west, touch_east);
    let f1 = seq![Delta { id: p, before: sq(maze, p), after: center, burst: total as usize }];
    let f2 = frame_push_if(f1, touch_north, maze, Point { row: (p.row - 1) as i32, col: p.col }, north, numbered, total);
    let f3 = frame_push_if(f2, touch_south, maze, Point { row: (p.row + 1) as i32, col: p.col }, south, numbered, total);
    let f4 = frame_push_if(f3, touch_west, maze, Point { row: p.row, col: (p.col - 1) as i32 }, west, numbered, total);
    frame_push_if(f4, touch_east, maze, Point { row: p.row, col: (p.col + 1) as i32 }, east, numbered, total)
}

/// Appends the delta of `q` when `touch` holds; the burst it records is its
/// position plus one when `numbered` or when it ends the frame of `total`.
fn push_if(
    maze: &Maze,
    frame: &mut Vec<Delta>,
    touch: bool,
    q: Point,
    after: Square,
    numbered: bool,
    total: usize,
    Ghost(g): Ghost<Seq<Square>>,
)
    requires
        maze.wf(),
        touch ==> point_in(maze, q),
        consistent(maze.squares(), maze.cols_spec(), old(frame)@),
        replay(maze.squares(), maze.cols_spec(), old(frame)@) == g,
        touch ==> g[cell_index(q.row as int, q.col as int, maze.cols_spec())] == sq(maze, q),
        old(frame)@.len() + (if touch { 1int } else { 0 }) <= total <= 5,
    ensures
        consistent(maze.squares(), maze.cols_spec(), final(frame)@),
        replay(maze.squares(), maze.cols_spec(), final(frame)@) == (if touch {
            g.update(cell_index(q.row as int, q.col as int, maze.cols_spec()), after)
        } else {
            g
        }),
        final(frame)@.len() == old(frame)@.len() + (if touch { 1int } else { 0 }),
        final(frame)@.subrange(0, old(frame)@.len() as int) == old(frame)@,
        touch && final(frame)@.len() == total ==> final(frame)@.last().burst == total,
        final(frame)@ == frame_push_if(old(frame)@, touch, maze, q, after, numbered, total as int),
{
    if touch {
        let b = if numbered || frame.len() + 1 == total { frame.len() + 1 } else { 1 };
        push_step(maze, frame, q, after, b);
        assert(frame@.subrange(0, old(frame)@.len() as int) =~= old(frame)@);
    } else {
        assert(frame@.subrange(0, old(frame)@.len() as int) =~= old(frame)@);
    }
}

/// The frame `record_around` writes, recorded from the squares of `maze`.
#[verifier::rlimit(60)]
fn around_frame(
    maze: &Maze,
    p: Point,
    center: Square,
    north: Square,
    east: Square,
    south: Square,
    west: Square,
    touch_north: bool,
    touch_south: bool,
    touch_west: bool,
    touch_east: bool,
    numbered: bool,
) -> (frame: Vec<Delta>)
    requires
        maze.wf(),
        point_in(maze, p),
        touch_north ==> p.row > 0,
        touch_south ==> p.row + 1 < maze.rows_spec(),
        touch_west ==> p.col > 0,
        touch_east ==> p.col + 1 < maze.cols_spec(),
        p.row > 0 && !touch_north ==> north == at_offset(maze, p, -1, 0),
        p.row + 1 < maze.rows_spec() && !touch_south ==> south == at_offset(maze, p, 1, 0),
        p.col > 0 && !touch_west ==> west == at_offset(maze, p, 0, -1),
        p.col + 1 < maze.cols_spec() && !touch_east ==> east == at_offset(maze, p, 0, 1),
    ensures
        consistent(maze.squares(), maze.cols_spec(), frame@),
        replay(maze.squares(), maze.cols_spec(), frame@) == around(
            maze,
            p,
            center,
            north,
            east,
            south,
            west,
        ),
        is_burst(frame@),
        frame@.len() == 1 + (if touch_north { 1int } else { 0 }) + (if touch_south { 1int } else { 0 })
            + (if touch_west { 1int } else { 0 }) + (if touch_east { 1int } else { 0 }),
        frame@ == around_deltas(
            maze,
            p,
            center,
            north,
            east,
            south,
            west,
            touch_north,
            touch_south,
            touch_west,
            touch_east,
            numbered,
        ),
{
    let ghost s0 = maze.squares();
    let ghost cols = maze.cols_spec();
    proof {
        lemma_around_cells(maze, p);
        maze.maze.lemma_index(p.row as int, p.col as int);
        if p.row > 0 { maze.maze.lemma_index(p.row - 1, p.col as int); }
        if p.row + 1 < maze.rows_spec() { maze.maze.lemma_index(p.row + 1, p.col as int); }
        if p.col > 0 { maze.maze.lemma_index(p.row as int, p.col - 1); }
        if p.col + 1 < cols { maze.maze.lemma_index(p.row as int, p.col + 1); }
    }
    let total: usize = 1 + (if touch_north { 1usize } else { 0 }) + (if touch_south {
        1usize
    } else {
        0
    }) + (if touch_west { 1usize } else { 0 }) + (if touch_east { 1usize } else { 0 });
    let mut frame: Vec<Delta> = Vec::new();
    proof { lemma_replay_empty(s0, cols); }
    push_step(maze, &mut frame, p, center, total);
    let ghost f1 = frame@;
    let ghost c0 = cell_index(p.row as int, p.col as int, cols);
    let ghost cn = cell_index(p.row - 1, p.col as int, cols);
    let ghost cs = cell_index(p.row + 1, p.col as int, cols);
    let ghost cw = cell_index(p.row as int, p.col - 1, cols);
    let ghost ce = cell_index(p.row as int, p.col + 1, cols);
    let ghost g1 = s0.update(c0, center);
    push_if(maze, &mut frame, touch_north, Point { row: p.row - 1, col: p.col }, north, numbered, total, Ghost(g1));
    let ghost f2 = frame@;
    let ghost g2 = if touch_north { g1.update(cn, north) } else { g1 };
    push_if(maze, &mut frame, touch_south, Point { row: p.row + 1, col: p.col }, south, numbered, total, Ghost(g2));
    let ghost f3 = frame@;
    let ghost g3 = if touch_south { g2.update(cs, south) } else { g2 };
    push_if(maze, &mut frame, touch_west, Point { row: p.row, col: p.col - 1 }, west, numbered, total, Ghost(g3));
    let ghost f4 = frame@;
    let ghost g4 = if touch_west { g3.update(cw, west) } else { g3 };
    push_if(maze, &mut frame, touch_east, Point { row: p.row, col: p.col + 1 }, east, numbered, total, Ghost(g4));
    let ghost g5 = if touch_east { g4.update(ce, east) } else { g4 };
    assert(frame@[0] == f1[0]) by {
        assert(f2[0] == f1[0]);
        assert(f3[0] == f2[0]);
        assert(f4[0] == f3[0]);
        assert(frame@.subrange(0, f4.len() as int)[0] == f4[0]);
    }
    assert(frame@.last().burst == total) by {
        if touch_east {
        } else if touch_west {
            assert(frame@ == f4);
        } else if touch_south {
            assert(frame@ == f3);
        } else if touch_north {
            assert(frame@ == f2);
        } else {
            assert(frame@ == f1);
        }
    }
    assert(replay(s0, cols, frame@) =~= around(maze, p, center, north, east, south, west));
    frame
}

/// Writes the values of `write_around` and records them as one frame: the
/// delta of `p` first, then one delta for each neighbor flagged in the order
/// north, south, west, east. The frame's first and last deltas record its
/// length; the ones between record their position plus one when `numbered`,
/// else one.
pub(crate) fn record_around(
    maze: &mut Maze,
    p: Point,
    center: Square,
    north: Square,
    east: Square,
    south: Square,
    west: Square,
    touch_north: bool,
    touch_south: bool,
    touch_west: bool,
    touch_east: bool,
    numbered: bool,
) -> (burst: usize)
    requires
        old(maze).wf(),
        point_in(old(maze), p),
        touch_north ==> p.row > 0,
        touch_south ==> p.row + 1 < old(maze).rows_spec(),
        touch_west ==> p.col > 0,
        touch_east ==> p.col + 1 < old(maze).cols_spec(),
        p.row > 0 && !touch_north ==> north == at_offset(old(maze), p, -1, 0),
        p.row + 1 < old(maze).rows_spec() && !touch_south ==> south == at_offset(old(maze), p, 1, 0),
        p.col > 0 && !touch_west ==> west == at_offset(old(maze), p, 0, -1),
        p.col + 1 < old(maze).cols_spec() && !touch_east ==> east == at_offset(old(maze), p, 0, 1),
        old(maze).build_history.deltas().len() + 5 <= usize::MAX,
    ensures
        recorded(old(maze), final(maze)),
        final(maze).squares() == around(old(maze), p, center, north, east, south, west),
        burst == final(maze).build_history.deltas().len() - old(maze).build_history.deltas().len(),
        burst == 1 + (if touch_north { 1int } else { 0 }) + (if touch_south { 1int } else { 0 })
            + (if touch_west { 1int } else { 0 }) + (if touch_east { 1int } else { 0 }),
        final(maze).build_history.deltas() == old(maze).build_history.deltas() + around_deltas(
            old(maze),
            p,
            center,
            north,
            east,
            south,
            west,
            touch_north,
            touch_south,
            touch_west,
            touch_east,
            numbered,
        ),
        final(maze).solve_history == old(maze).solve_history,
{
    let ghost m0 = *maze;
    let frame = around_frame(
        maze,
        p,
        center,
        north,
        east,
        south,
        west,
        touch_north,
        touch_south,
        touch_west,
        touch_east,
        numbered,
    );
    write_around(maze, p, center, north, east, south, west);
    maze.build_history.push_burst(frame.as_slice());
    let ghost d0 = m0.build_history.deltas();
    let ghost d1 = maze.build_history.deltas();
    assert(d1.subrange(d0.len() as int, d1.len() as int) =~= frame@);
    assert(d1.subrange(0, d0.len() as int) =~= d0);
    proof { lemma_recorded_exactly(&m0, maze); }
    frame.len()
}


/// The squares after turning `p` into a wall joined to the neighbors that are
/// walls, keeping whatever else `p` held, path bit included.
pub open spec fn wall_linked(maze: &Maze, p: Point) -> Seq<Square> {
    around(
        maze,
        p,
        sq(maze, p) | wall_links(maze, p),
        if spec_is_wall(at_offset(maze, p, -1, 0)) { at_offset(maze, p, -1, 0) | SOUTH_WALL } else { at_offset(maze, p, -1, 0) },
        if spec_is_wall(at_offset(maze, p, 0, 1)) { at_offset(maze, p, 0, 1) | WEST_WALL } else { at_offset(maze, p, 0, 1) },
        if spec_is_wall(at_offset(maze, p, 1, 0)) { at_offset(maze, p, 1, 0) | NORTH_WALL } else { at_offset(maze, p, 1, 0) },
        if spec_is_wall(at_offset(maze, p, 0, -1)) { at_offset(maze, p, 0, -1) | EAST_WALL } else { at_offset(maze, p, 0, -1) },
    )
}

/// `build_path`, recorded as one frame.
pub fn build_path_history(maze: &mut Maze, p: Point) -> (burst: usize)
    requires
        old(maze).wf(),
        point_in(old(maze), p),
        old(maze).build_history.deltas().len() + 5 <= usize::MAX,
    ensures
        recorded(old(maze), final(maze)),
        final(maze).squares() == path_opened(old(maze), p, 0),
        burst == final(maze).build_history.deltas().len() - old(maze).build_history.deltas().len(),
        1 <= burst <= 5,
{
    let center = (maze.get(p.row, p.col) & !WALL_MASK) | PATH_BIT | 0;
    let north = neighbor_or_zero(maze, p, -1, 0) & !SOUTH_WALL;
    let east = neighbor_or_zero(maze, p, 0, 1) & !WEST_WALL;
    let south = neighbor_or_zero(maze, p, 1, 0) & !NORTH_WALL;
    let west = neighbor_or_zero(maze, p, 0, -1) & !EAST_WALL;
    let ghost m0 = *maze;
    let burst = record_around(
        maze,
        p,
        center,
        north,
        east,
        south,
        west,
        p.row > 0,
        p.row + 1 < maze.rows(),
        p.col > 0,
        p.col + 1 < maze.cols(),
        true,
    );
    assert(maze.squares() =~= path_opened(&m0, p, 0));
    burst
}

/// `carve_path_walls` with a backtracking marker, recorded as one frame.
pub fn carve_wall_history(maze: &mut Maze, p: Point, backtracking: BacktrackMarker)
    requires
        old(maze).wf(),
        point_in(old(maze), p),
        old(maze).build_history.deltas().len() + 5 <= usize::MAX,
    ensures
        recorded(old(maze), final(maze)),
        final(maze).squares() == path_opened(old(maze), p, BUILDER_BIT | backtracking),
        final(maze).build_history.deltas().len() <= old(maze).build_history.deltas().len() + 5,
{
    let center = (maze.get(p.row, p.col) & !WALL_MASK) | PATH_BIT | (BUILDER_BIT | backtracking);
    let north = neighbor_or_zero(maze, p, -1, 0) & !SOUTH_WALL;
    let east = neighbor_or_zero(maze, p, 0, 1) & !WEST_WALL;
    let south = neighbor_or_zero(maze, p, 1, 0) & !NORTH_WALL;
    let west = neighbor_or_zero(maze, p, 0, -1) & !EAST_WALL;
    let ghost m0 = *maze;
    record_around(
        maze,
        p,
        center,
        north,
        east,
        south,
        west,
        p.row > 0,
        p.row + 1 < maze.rows(),
        p.col > 0,
        p.col + 1 < maze.cols(),
        true,
    );
    assert(maze.squares() =~= path_opened(&m0, p, BUILDER_BIT | backtracking));
}

/// The values `join_wall` and its recorded forms write around `p`.
pub(crate) fn wall_neighbors(maze: &Maze, p: Point) -> (r: (Square, Square, Square, Square, WallLine, bool, bool, bool, bool))
    requires
        maze.wf(),
        point_in(maze, p),
    ensures
        r.4 == wall_links(maze, p),
        r.5 == (p.row > 0 && spec_is_wall(at_offset(maze, p, -1, 0))),
        r.6 == (p.row + 1 < maze.rows_spec() && spec_is_wall(at_offset(maze, p, 1, 0))),
        r.7 == (p.col > 0 && spec_is_wall(at_offset(maze, p, 0, -1))),
        r.8 == (p.col + 1 < maze.cols_spec() && spec_is_wall(at_offset(maze, p, 0, 1))),
        p.row > 0 ==> r.0 == (if spec_is_wall(at_offset(maze, p, -1, 0)) { at_offset(maze, p, -1, 0) | SOUTH_WALL } else { at_offset(maze, p, -1, 0) }),
        p.col + 1 < maze.cols_spec() ==> r.1 == (if spec_is_wall(at_offset(maze, p, 0, 1)) { at_offset(maze, p, 0, 1) | WEST_WALL } else { at_offset(maze, p, 0, 1) }),
        p.row + 1 < maze.rows_spec() ==> r.2 == (if spec_is_wall(at_offset(maze, p, 1, 0)) { at_offset(maze, p, 1, 0) | NORTH_WALL } else { at_offset(maze, p, 1, 0) }),
        p.col > 0 ==> r.3 == (if spec_is_wall(at_offset(maze, p, 0, -1)) { at_offset(maze, p, 0, -1) | EAST_WALL } else { at_offset(maze, p, 0, -1) }),
{
    let north = neighbor_or_zero(maze, p, -1, 0);
    let east = neighbor_or_zero(maze, p, 0, 1);
    let south = neighbor_or_zero(maze, p, 1, 0);
    let west = neighbor_or_zero(maze, p, 0, -1);
    let north_wall = p.row > 0 && is_wall(north);
    let south_wall = p.row + 1 < maze.rows() && is_wall(south);
    let west_wall = p.col > 0 && is_wall(west);
    let east_wall = p.col + 1 < maze.cols() && is_wall(east);
    let wall: WallLine = (if north_wall { NORTH_WALL } else { 0u32 }) | (if south_wall {
        SOUTH_WALL
    } else {
        0u32
    }) | (if west_wall { WEST_WALL } else { 0u32 }) | (if east_wall { EAST_WALL } else { 0u32 });
    let north = if is_wall(north) { north | SOUTH_WALL } else { north };
    let east = if is_wall(east) { east | WEST_WALL } else { east };
    let south = if is_wall(south) { south | NORTH_WALL } else { south };
    let west = if is_wall(west) { west | EAST_WALL } else { west };
    (north, east, south, west, wall, north_wall, south_wall, west_wall, east_wall)
}

/// `build_wall_line`, recorded as one frame.
pub fn build_wall_line_history(maze: &mut Maze, p: Point)
    requires
        old(maze).wf(),
        point_in(old(maze), p),
        old(maze).build_history.deltas().len() + 5 <= usize::MAX,
    ensures
        recorded(old(maze), final(maze)),
        final(maze).squares() == wall_joined(old(maze), p, BUILDER_BIT),
        final(maze).build_history.deltas().len() <= old(maze).build_history.deltas().len() + 5,
{
    let ghost m0 = *maze;
    let (north, east, south, west, wall, tn, ts, tw, te) = wall_neighbors(maze, p);
    let center = (maze.get(p.row, p.col) | wall | BUILDER_BIT) & !PATH_BIT;
    record_around(maze, p, center, north, east, south, west, tn, ts, tw, te, true);
    assert(maze.squares() =~= wall_joined(&m0, p, BUILDER_BIT));
}

/// Joins `p` to the neighbors that are walls, recorded as one frame whose
/// middle deltas record a length of one; returns the frame's length. The path
/// bit of `p` stays as it was.
pub fn build_wall_history_carefully(maze: &mut Maze, p: Point) -> (burst: usize)
    requires
        old(maze).wf(),
        point_in(old(maze), p),
        old(maze).build_history.deltas().len() + 5 <= usize::MAX,
    ensures
        recorded(old(maze), final(maze)),
        final(maze).squares() == wall_linked(old(maze), p),
        burst == final(maze).build_history.deltas().len() - old(maze).build_history.deltas().len(),
        1 <= burst <= 5,
{
    let ghost m0 = *maze;
    let (north, east, south, west, wall, tn, ts, tw, te) = wall_neighbors(maze, p);
    let center = maze.get(p.row, p.col) | wall;
    let burst = record_around(maze, p, center, north, east, south, west, tn, ts, tw, te, false);
    assert(maze.squares() =~= wall_linked(&m0, p));
    burst
}

/// `build_wall`, recorded as a frame of one delta whose `before` is zero:
/// the record holds from a square that was zero.
pub fn build_wall_history(maze: &mut Maze, p: Point)
    requires
        old(maze).wf(),
        point_in(old(maze), p),
    ensures
        final(maze).squares() == old(maze).maze.with_square(
            p.row as int,
            p.col as int,
            boundary_walls(old(maze).rows_spec(), old(maze).cols_spec(), p.row as int, p.col as int),
        ),
        final(maze).build_history.deltas() == old(maze).build_history.deltas().push(
            Delta {
                id: p,
                before: 0,
                after: boundary_walls(old(maze).rows_spec(), old(maze).cols_spec(), p.row as int, p.col as int),
                burst: 1,
            },
        ),
        sq(old(maze), p) == 0 ==> recorded(old(maze), final(maze)),
        final(maze).wf(),
        final(maze).same_shape(old(maze)),
        final(maze).solve_history == old(maze).solve_history,
        final(maze).build_history.pos() == old(maze).build_history.pos(),
        old(maze).build_history.framed() ==> final(maze).build_history.framed(),
{
    let ghost m0 = *maze;
    let wall: WallLine = (if p.row > 0 { NORTH_WALL } else { 0u32 }) | (if p.row + 1 < maze.rows() {
        SOUTH_WALL
    } else {
        0u32
    }) | (if p.col > 0 { WEST_WALL } else { 0u32 }) | (if p.col + 1 < maze.cols() {
        EAST_WALL
    } else {
        0u32
    });
    let d = Delta { id: p, before: 0, after: wall, burst: 1 };
    maze.build_history.push(d);
    maze.set(p.row, p.col, wall);
    proof {
        let d0 = m0.build_history.deltas();
        let d1 = maze.build_history.deltas();
        let cols = m0.cols_spec();
        m0.maze.lemma_index(p.row as int, p.col as int);
        assert(d1.subrange(0, d0.len() as int) =~= d0);
        assert(d1.subrange(d0.len() as int, d1.len() as int) =~= Seq::<Delta>::empty().push(d));
        lemma_replay_empty(m0.squares(), cols);
        lemma_replay_push(m0.squares(), cols, Seq::<Delta>::empty(), d);
        assert(Seq::<Delta>::empty().push(d) =~= seq![d]);
        if sq(&m0, p) == 0 {
            assert(maze.squares() =~= replay(m0.squares(), cols, seq![d]));
            lemma_recorded_exactly(&m0, maze);
        }
    }
}


/// Rows and columns whose squares come before `(r, c)` in row-major order.
pub open spec fn before_cell(rr: int, cc: int, r: int, c: int) -> bool {
    rr < r || (rr == r && cc < c)
}

/// Fills the whole grid with walls, each joined to all of its neighbors.
pub fn fill_maze_with_walls(maze: &mut Maze)
    requires
        old(maze).wf(),
    ensures
        reshaped(final(maze), old(maze)),
        all_walls(final(maze)),
{
    let rows = maze.rows();
    let cols = maze.cols();
    let mut r: i32 = 0;
    while r < rows
        invariant
            reshaped(maze, old(maze)),
            rows == maze.rows_spec(),
            cols == maze.cols_spec(),
            0 <= r <= rows,
            forall|rr: int, cc: int|
                maze.in_bounds(rr, cc) && rr < r ==> #[trigger] maze.square(rr, cc)
                    == boundary_walls(rows as int, cols as int, rr, cc),
        decreases rows - r,
    {
        let mut c: i32 = 0;
        while c < cols
            invariant
                reshaped(maze, old(maze)),
                rows == maze.rows_spec(),
                cols == maze.cols_spec(),
                0 <= r < rows,
                0 <= c <= cols,
                forall|rr: int, cc: int|
                    maze.in_bounds(rr, cc) && before_cell(rr, cc, r as int, c as int)
                        ==> #[trigger] maze.square(rr, cc) == boundary_walls(
                        rows as int,
                        cols as int,
                        rr,
                        cc,
                    ),
            decreases cols - c,
        {
            let ghost prev = *maze;
            build_wall(maze, Point { row: r, col: c });
            proof {
                assert forall|rr: int, cc: int|
                    maze.in_bounds(rr, cc) && before_cell(rr, cc, r as int, c + 1) implies #[trigger] maze.square(rr, cc)
                        == boundary_walls(rows as int, cols as int, rr, cc) by {
                    prev.maze.lemma_index(rr, cc);
                    prev.maze.lemma_index(r as int, c as int);
                    if rr != r || cc != c {
                        lemma_cell_index_injective(rr, cc, r as int, c as int, cols as int);
                        assert(before_cell(rr, cc, r as int, c as int));
                        assert(prev.square(rr, cc) == boundary_walls(rows as int, cols as int, rr, cc));
                        assert(maze.square(rr, cc) == prev.square(rr, cc));
                    }
                }
            }
            c = c + 1;
        }
        r = r + 1;
    }
}


/// Every square of the buffer is zero, as in a new maze.
pub open spec fn all_zero(maze: &Maze) -> bool {
    forall|k: int| 0 <= k < maze.squares().len() ==> #[trigger] maze.squares()[k] == 0
}

/// `fill_maze_with_walls`, recorded as one delta per square, first row first,
/// each with a `before` of zero; the first and the last delta then record the
/// number of squares, so that on an empty history the whole fill is one frame.
pub fn fill_maze_history_with_walls(maze: &mut Maze)
    requires
        old(maze).wf(),
        old(maze).build_history.deltas().len() + old(maze).squares().len() <= usize::MAX,
    ensures
        final(maze).wf(),
        final(maze).same_shape(old(maze)),
        final(maze).solve_history == old(maze).solve_history,
        all_walls(final(maze)),
        final(maze).build_history.deltas().len() == old(maze).build_history.deltas().len()
            + old(maze).squares().len(),
        old(maze).build_history.deltas().len() == 0 ==> final(maze).build_history.framed(),
        old(maze).build_history.deltas().len() == 0 && all_zero(old(maze)) ==> recorded(
            old(maze),
            final(maze),
        ),
{
    let ghost m0 = *maze;
    let ghost empty_start = m0.build_history.deltas().len() == 0;
    let ghost zero_start = empty_start && all_zero(&m0);
    let rows = maze.rows();
    let cols = maze.cols();
    let ghost n0 = m0.build_history.deltas().len();
    proof { lemma_recorded_refl(&m0); }
    let mut r: i32 = 0;
    while r < rows
        invariant
            maze.wf(),
            maze.same_shape(&m0),
            maze.solve_history == m0.solve_history,
            rows == maze.rows_spec(),
            cols == maze.cols_spec(),
            0 <= r <= rows,
            n0 == m0.build_history.deltas().len(),
            n0 + m0.squares().len() <= usize::MAX,
            m0.squares().len() == rows * cols,
            maze.build_history.deltas().len() == n0 + r * cols,
            maze.build_history.pos() == m0.build_history.pos(),
            forall|k: int|
                n0 <= k < maze.build_history.deltas().len() ==> (#[trigger] maze.build_history.deltas()[k]).burst == 1,
            empty_start ==> maze.build_history.framed(),
            zero_start ==> recorded(&m0, maze),
            zero_start ==> all_zero(&m0),
            forall|rr: int, cc: int|
                maze.in_bounds(rr, cc) && rr < r ==> #[trigger] maze.square(rr, cc)
                    == boundary_walls(rows as int, cols as int, rr, cc),
            forall|rr: int, cc: int|
                maze.in_bounds(rr, cc) && rr >= r ==> #[trigger] maze.square(rr, cc)
                    == m0.square(rr, cc),
        decreases rows - r,
    {
        let mut c: i32 = 0;
        while c < cols
            invariant
                maze.wf(),
                maze.same_shape(&m0),
                maze.solve_history == m0.solve_history,
                rows == maze.rows_spec(),
                cols == maze.cols_spec(),
                0 <= r < rows,
                0 <= c <= cols,
                n0 == m0.build_history.deltas().len(),
                n0 + m0.squares().len() <= usize::MAX,
                m0.squares().len() == rows * cols,
                maze.build_history.deltas().len() == n0 + r * cols + c,
                maze.build_history.pos() == m0.build_history.pos(),
                forall|k: int|
                    n0 <= k < maze.build_history.deltas().len() ==> (#[trigger] maze.build_history.deltas()[k]).burst == 1,
                empty_start ==> maze.build_history.framed(),
                zero_start ==> recorded(&m0, maze),
                zero_start ==> all_zero(&m0),
                forall|rr: int, cc: int|
                    maze.in_bounds(rr, cc) && before_cell(rr, cc, r as int, c as int)
                        ==> #[trigger] maze.square(rr, cc) == boundary_walls(
                        rows as int,
                        cols as int,
                        rr,
                        cc,
                    ),
                forall|rr: int, cc: int|
                    maze.in_bounds(rr, cc) && !before_cell(rr, cc, r as int, c as int)
                        ==> #[trigger] maze.square(rr, cc) == m0.square(rr, cc),
            decreases cols - c,
        {
            let ghost prev = *maze;
            proof {
                lemma_cell_index_bounds(r as int, c as int, rows as int, cols as int);
                assert(r * cols + c < rows * cols);
                assert(prev.square(r as int, c as int) == m0.square(r as int, c as int));
                m0.maze.lemma_index(r as int, c as int);
            }
            build_wall_history(maze, Point { row: r, col: c });
            proof {
                if zero_start {
                    assert(m0.squares()[m0.maze.index_of(r as int, c as int)] == 0);
                    lemma_recorded_trans(&m0, &prev, maze);
                }
                assert forall|rr: int, cc: int|
                    maze.in_bounds(rr, cc) && rr != r as int || maze.in_bounds(rr, cc) && cc != c as int implies #[trigger] maze.square(rr, cc)
                        == prev.square(rr, cc) by {
                    prev.maze.lemma_index(rr, cc);
                    prev.maze.lemma_index(r as int, c as int);
                    lemma_cell_index_injective(rr, cc, r as int, c as int, cols as int);
                }
                assert forall|rr: int, cc: int|
                    maze.in_bounds(rr, cc) && before_cell(rr, cc, r as int, c + 1) implies #[trigger] maze.square(rr, cc)
                        == boundary_walls(rows as int, cols as int, rr, cc) by {
                    if rr != r || cc != c {
                        assert(maze.square(rr, cc) == prev.square(rr, cc));
                        assert(before_cell(rr, cc, r as int, c as int));
                    } else {
                        prev.maze.lemma_index(r as int, c as int);
                    }
                }
                assert forall|rr: int, cc: int|
                    maze.in_bounds(rr, cc) && !before_cell(rr, cc, r as int, c + 1) implies #[trigger] maze.square(rr, cc)
                        == m0.square(rr, cc) by {
                    assert(maze.square(rr, cc) == prev.square(rr, cc));
                }
            }
            c = c + 1;
        }
        proof {
            assert(r * cols + cols == (r + 1) * cols) by (nonlinear_arith);
        }
        r = r + 1;
    }
    let burst = (rows * cols) as usize;
    proof {
        assert(rows * cols >= 1) by (nonlinear_arith)
            requires
                rows >= 1,
                cols >= 1,
        ;
    }
    let ghost before_patch = *maze;
    let mut first = *maze.build_history.index(0);
    first.burst = burst;
    *maze.build_history.index_mut(0) = first;
    let mut last = *maze.build_history.index(burst - 1);
    last.burst = burst;
    *maze.build_history.index_mut(burst - 1) = last;
    proof {
        let d0 = before_patch.build_history.deltas();
        let d1 = maze.build_history.deltas();
        assert(same_changes(d0, d1));
        assert forall|rr: int, cc: int| maze.in_bounds(rr, cc) implies #[trigger] maze.square(rr, cc)
            == boundary_walls(rows as int, cols as int, rr, cc) by {
            assert(before_patch.square(rr, cc) == boundary_walls(rows as int, cols as int, rr, cc));
        }
        if empty_start {
            assert(d1.len() == burst);
            assert(frames_from(d1, burst as int));
            assert(frames_from(d1, 0));
        }
        if zero_start {
            let added0 = d0.subrange(n0 as int, d0.len() as int);
            let added1 = d1.subrange(n0 as int, d1.len() as int);
            assert(same_changes(added0, added1));
            lemma_replay_same_changes(m0.squares(), m0.cols_spec(), added0, added1);
            assert(d1.subrange(0, 0) =~= d0.subrange(0, 0));
        }
    }
}


/// The wall square between `cur` and a cell two steps away in one direction.
pub open spec fn between(cur: Point, next: Point) -> Point {
    if next.row < cur.row {
        Point { row: (cur.row - 1) as i32, col: cur.col }
    } else if next.row > cur.row {
        Point { row: (cur.row + 1) as i32, col: cur.col }
    } else if next.col < cur.col {
        Point { row: cur.row, col: (cur.col - 1) as i32 }
    } else {
        Point { row: cur.row, col: (cur.col + 1) as i32 }
    }
}

pub(crate) fn step_toward(cur: Point, next: Point) -> (wall: Point)
    requires
        i32::MIN < cur.row < i32::MAX,
        i32::MIN < cur.col < i32::MAX,
    ensures
        wall == between(cur, next),
{
    let mut wall = cur;
    if next.row < cur.row {
        wall.row = wall.row - 1;
    } else if next.row > cur.row {
        wall.row = wall.row + 1;
    } else if next.col < cur.col {
        wall.col = wall.col - 1;
    } else {
        wall.col = wall.col + 1;
    }
    wall
}

/// `p` is on the grid and so are the two squares around it in each direction.
pub open spec fn joinable(maze: &Maze, cur: Point, next: Point) -> bool {
    &&& point_in(maze, cur)
    &&& point_in(maze, next)
    &&& point_in(maze, between(cur, next))
    &&& cur != next
}

/// The buffer after joining `cur` and `next` through the wall between them:
/// each of the three squares opened as a built path, in that order.
pub open spec fn joined(s: Seq<Square>, rows: int, cols: int, cur: Point, next: Point) -> Seq<Square> {
    let s1 = opened(s, rows, cols, cur, BUILDER_BIT);
    let s2 = opened(s1, rows, cols, between(cur, next), BUILDER_BIT);
    opened(s2, rows, cols, next, BUILDER_BIT)
}

proof fn lemma_or_builder(x: Square)
    ensures
        ((x & !WALL_MASK) | PATH_BIT | 0u32) | BUILDER_BIT == (x & !WALL_MASK) | PATH_BIT | BUILDER_BIT,
{
    assert(((x & !0x0F00_0000u32) | 0x2000_0000u32 | 0u32) | 0x1000_0000u32 == (x & !0x0F00_0000u32)
        | 0x2000_0000u32 | 0x1000_0000u32) by (bit_vector);
}

/// Opens `p` as a path, then marks it built.
fn build_built_path(maze: &mut Maze, p: Point)
    requires
        old(maze).wf(),
        point_in(old(maze), p),
    ensures
        reshaped(final(maze), old(maze)),
        final(maze).squares() == path_opened(old(maze), p, BUILDER_BIT),
{
    let ghost m0 = *maze;
    build_path(maze, p);
    let s = maze.get(p.row, p.col);
    maze.set(p.row, p.col, s | BUILDER_BIT);
    proof {
        lemma_or_builder(sq(&m0, p));
        lemma_around_cells(&m0, p);
        m0.maze.lemma_index(p.row as int, p.col as int);
    }
    assert(maze.squares() =~= path_opened(&m0, p, BUILDER_BIT));
}

/// Joins `cur` and `next` by opening both and the wall between them as built paths.
pub fn join_squares(maze: &mut Maze, cur: Point, next: Point)
    requires
        old(maze).wf(),
        joinable(old(maze), cur, next),
    ensures
        reshaped(final(maze), old(maze)),
        final(maze).squares() == joined(
            old(maze).squares(),
            old(maze).rows_spec(),
            old(maze).cols_spec(),
            cur,
            next,
        ),
{
    build_built_path(maze, cur);
    let wall = step_toward(cur, next);
    build_built_path(maze, wall);
    build_built_path(maze, next);
}

/// `build_path_history` at `p`, then the builder bit of `p` set without a delta.
fn build_built_path_history(maze: &mut Maze, p: Point)
    requires
        old(maze).wf(),
        point_in(old(maze), p),
        old(maze).build_history.deltas().len() + 5 <= usize::MAX,
    ensures
        recorded(old(maze), final(maze)),
        final(maze).squares() == path_opened(old(maze), p, BUILDER_BIT),
        final(maze).build_history.deltas().len() <= old(maze).build_history.deltas().len() + 5,
{
    let ghost m0 = *maze;
    build_path_history(maze, p);
    let ghost mid = *maze;
    let s = maze.get(p.row, p.col);
    maze.set(p.row, p.col, s | BUILDER_BIT);
    proof {
        lemma_or_builder(sq(&m0, p));
        lemma_around_cells(&m0, p);
        m0.maze.lemma_index(p.row as int, p.col as int);
        lemma_recorded_builder_bit(&m0, &mid, maze, m0.maze.index_of(p.row as int, p.col as int));
    }
    assert(maze.squares() =~= path_opened(&m0, p, BUILDER_BIT));
}

/// `join_squares`, with the paths recorded; the builder bits are not.
pub fn join_squares_history(maze: &mut Maze, cur: Point, next: Point)
    requires
        old(maze).wf(),
        joinable(old(maze), cur, next),
        old(maze).build_history.deltas().len() + 15 <= usize::MAX,
    ensures
        recorded(old(maze), final(maze)),
        final(maze).squares() == joined(
            old(maze).squares(),
            old(maze).rows_spec(),
            old(maze).cols_spec(),
            cur,
            next,
        ),
        final(maze).build_history.deltas().len() <= old(maze).build_history.deltas().len() + 15,
{
    let ghost m0 = *maze;
    build_built_path_history(maze, cur);
    let ghost m1 = *maze;
    let wall = step_toward(cur, next);
    build_built_path_history(maze, wall);
    let ghost m2 = *maze;
    build_built_path_history(maze, next);
    proof {
        lemma_recorded_trans(&m0, &m1, &m2);
        lemma_recorded_trans(&m0, &m2, maze);
    }
}


/// The marker a square gets when a walk reaches it from `from`: the side it
/// was entered from.
pub open spec fn origin_marker(from: Point, to: Point) -> BacktrackMarker {
    if to.row > from.row {
        FROM_NORTH
    } else if to.row < from.row {
        FROM_SOUTH
    } else if to.col < from.col {
        FROM_EAST
    } else {
        FROM_WEST
    }
}

pub(crate) fn marker_toward(from: Point, to: Point) -> (m: BacktrackMarker)
    ensures
        m == origin_marker(from, to),
{
    if to.row > from.row {
        FROM_NORTH
    } else if to.row < from.row {
        FROM_SOUTH
    } else if to.col < from.col {
        FROM_EAST
    } else {
        FROM_WEST
    }
}

/// The buffer with `bits` set in the square `p`.
pub open spec fn or_at(s: Seq<Square>, cols: int, p: Point, bits: Square) -> Seq<Square> {
    let k = cell_index(p.row as int, p.col as int, cols);
    s.update(k, s[k] | bits)
}

fn or_square(maze: &mut Maze, p: Point, bits: Square)
    requires
        old(maze).wf(),
        point_in(old(maze), p),
    ensures
        reshaped(final(maze), old(maze)),
        final(maze).squares() == or_at(old(maze).squares(), old(maze).cols_spec(), p, bits),
{
    let s = maze.get(p.row, p.col);
    maze.set(p.row, p.col, s | bits);
}

/// Marks `next` with the side a walk from `walk` entered it.
pub fn mark_origin(maze: &mut Maze, walk: Point, next: Point)
    requires
        old(maze).wf(),
        point_in(old(maze), next),
        walk != next,
    ensures
        reshaped(final(maze), old(maze)),
        final(maze).squares() == or_at(
            old(maze).squares(),
            old(maze).cols_spec(),
            next,
            origin_marker(walk, next),
        ),
{
    let m = marker_toward(walk, next);
    or_square(maze, next, m);
}

/// Marks `next`, and the wall between `walk` and `next`, with the side the
/// walk entered from, recording the two changes as two frames of one delta.
pub fn mark_origin_history(maze: &mut Maze, walk: Point, next: Point)
    requires
        old(maze).wf(),
        joinable(old(maze), walk, next),
        old(maze).build_history.deltas().len() + 2 <= usize::MAX,
    ensures
        final(maze).squares() == or_at(
            or_at(
                old(maze).squares(),
                old(maze).cols_spec(),
                between(walk, next),
                origin_marker(walk, next),
            ),
            old(maze).cols_spec(),
            next,
            origin_marker(walk, next),
        ),
        final(maze).build_history.deltas().len() == old(maze).build_history.deltas().len() + 2,
        between(walk, next) != next ==> recorded(old(maze), final(maze)),
        final(maze).wf(),
        final(maze).same_shape(old(maze)),
        final(maze).solve_history == old(maze).solve_history,
{
    let ghost m0 = *maze;
    let ghost cols = m0.cols_spec();
    let m = marker_toward(walk, next);
    let wall = step_toward(walk, next);
    let next_before = maze.get(next.row, next.col);
    let wall_before = maze.get(wall.row, wall.col);
    or_square(maze, wall, m);
    or_square(maze, next, m);
    let d1 = Delta { id: wall, before: wall_before, after: maze.get(wall.row, wall.col), burst: 1 };
    let d2 = Delta { id: next, before: next_before, after: maze.get(next.row, next.col), burst: 1 };
    maze.build_history.push(d1);
    maze.build_history.push(d2);
    proof {
        let d0 = m0.build_history.deltas();
        let dd = maze.build_history.deltas();
        m0.maze.lemma_index(wall.row as int, wall.col as int);
        m0.maze.lemma_index(next.row as int, next.col as int);
        assert(dd.subrange(0, d0.len() as int) =~= d0);
        assert(dd.subrange(d0.len() as int, dd.len() as int) =~= seq![d1, d2]);
        if wall != next {
            lemma_cell_index_injective(
                wall.row as int,
                wall.col as int,
                next.row as int,
                next.col as int,
                cols,
            );
            lemma_replay_empty(m0.squares(), cols);
            lemma_replay_push(m0.squares(), cols, Seq::<Delta>::empty(), d1);
            assert(Seq::<Delta>::empty().push(d1) =~= seq![d1]);
            lemma_replay_push(m0.squares(), cols, seq![d1], d2);
            assert(seq![d1].push(d2) =~= seq![d1, d2]);
            assert(replay(m0.squares(), cols, seq![d1, d2]) =~= maze.squares());
            lemma_recorded_exactly(&m0, maze);
        }
    }
}

/// Marks `next` and the wall between with the side entered from, then opens
/// `cur`, `next` and the wall as built paths, in that order.
pub fn carve_path_markings(maze: &mut Maze, cur: Point, next: Point)
    requires
        old(maze).wf(),
        joinable(old(maze), cur, next),
    ensures
        reshaped(final(maze), old(maze)),
        ({
            let rows = old(maze).rows_spec();
            let cols = old(maze).cols_spec();
            let m = origin_marker(cur, next);
            let w = between(cur, next);
            let s1 = or_at(or_at(old(maze).squares(), cols, w, m), cols, next, m);
            let s2 = opened(opened(opened(s1, rows, cols, cur, BUILDER_BIT), rows, cols, next, BUILDER_BIT), rows, cols, w, BUILDER_BIT);
            final(maze).squares() == s2
        }),
{
    let m = marker_toward(cur, next);
    let wall = step_toward(cur, next);
    or_square(maze, wall, m);
    or_square(maze, next, m);
    carve_path_walls(maze, cur);
    carve_path_walls(maze, next);
    carve_path_walls(maze, wall);
}

/// Opens `cur` (keeping its marker), the wall toward `next` and `next` as
/// built paths, marking the last two with the side entered from; each is
/// recorded as one frame.
pub fn carve_path_history(maze: &mut Maze, cur: Point, next: Point)
    requires
        old(maze).wf(),
        joinable(old(maze), cur, next),
        old(maze).build_history.deltas().len() + 15 <= usize::MAX,
    ensures
        recorded(old(maze), final(maze)),
        ({
            let rows = old(maze).rows_spec();
            let cols = old(maze).cols_spec();
            let s0 = old(maze).squares();
            let m = origin_marker(cur, next);
            let w = between(cur, next);
            let s1 = opened(s0, rows, cols, cur, BUILDER_BIT | (sq(old(maze), cur) & MARKERS_MASK));
            let s2 = opened(s1, rows, cols, w, BUILDER_BIT | m);
            final(maze).squares() == opened(s2, rows, cols, next, BUILDER_BIT | m)
        }),
        final(maze).build_history.deltas().len() <= old(maze).build_history.deltas().len() + 15,
{
    let ghost m0 = *maze;
    let own = maze.get(cur.row, cur.col) & MARKERS_MASK;
    carve_wall_history(maze, cur, own);
    let ghost m1 = *maze;
    let wall = step_toward(cur, next);
    let m = marker_toward(cur, next);
    carve_wall_history(maze, wall, m);
    let ghost m2 = *maze;
    carve_wall_history(maze, next, m);
    proof {
        lemma_recorded_trans(&m0, &m1, &m2);
        lemma_recorded_trans(&m0, &m2, maze);
    }
}


/// Clearing or setting wall bits leaves the path bit, the builder bit, the
/// markers and the bits no builder writes as they were.
pub proof fn lemma_wall_bits_keep(x: Square)
    ensures
        forall|w: Square|
            #![trigger x & !w]
            #![trigger x | w]
            (w == NORTH_WALL || w == EAST_WALL || w == SOUTH_WALL || w == WEST_WALL) ==> {
                &&& (x & !w) & PATH_BIT == x & PATH_BIT
                &&& (x & !w) & BUILDER_BIT == x & BUILDER_BIT
                &&& (x & !w) & MARKERS_MASK == x & MARKERS_MASK
                &&& (x | w) & PATH_BIT == x & PATH_BIT
                &&& (x | w) & BUILDER_BIT == x & BUILDER_BIT
                &&& (x | w) & MARKERS_MASK == x & MARKERS_MASK
                &&& solver_bits(x & !w) == solver_bits(x)
                &&& solver_bits(x | w) == solver_bits(x)
            },
{
    assert(forall|w: u32|
        (w == 0x0100_0000u32 || w == 0x0200_0000u32 || w == 0x0400_0000u32 || w == 0x0800_0000u32) ==> {
            &&& (x & !w) & 0x2000_0000u32 == x & 0x2000_0000u32
            &&& (x & !w) & 0x1000_0000u32 == x & 0x1000_0000u32
            &&& (x & !w) & 0xFu32 == x & 0xFu32
            &&& (x | w) & 0x2000_0000u32 == x & 0x2000_0000u32
            &&& (x | w) & 0x1000_0000u32 == x & 0x1000_0000u32
            &&& (x | w) & 0xFu32 == x & 0xFu32
            &&& (x & !w) & 0xC0FF_FFF0u32 == x & 0xC0FF_FFF0u32
            &&& (x | w) & 0xC0FF_FFF0u32 == x & 0xC0FF_FFF0u32
        }) by (bit_vector);
}

/// The bits of a square that no builder writes: the start and finish bits,
/// the solver threads' paint and the bits between it and the markers.
pub open spec fn solver_bits(x: Square) -> Square {
    x & 0xC0FF_FFF0
}

/// What opening a square as a path does to the path bits, builder bits and
/// markers of a buffer: `p` becomes a path with `extra` added, and every other
/// square keeps those bits.
pub proof fn lemma_opened_bits(s: Seq<Square>, rows: int, cols: int, p: Point, extra: Square, k: int)
    requires
        0 <= k < s.len(),
    ensures
        opened(s, rows, cols, p, extra).len() == s.len(),
        k == cell_index(p.row as int, p.col as int, cols) ==> {
            let x = opened(s, rows, cols, p, extra)[k];
            &&& !spec_is_wall(x)
            &&& x & BUILDER_BIT == (s[k] | extra) & BUILDER_BIT
            &&& x & MARKERS_MASK == (s[k] | extra) & MARKERS_MASK
            &&& solver_bits(x) == solver_bits(s[k] | extra)
        },
        k != cell_index(p.row as int, p.col as int, cols) ==> {
            let x = opened(s, rows, cols, p, extra)[k];
            &&& x & PATH_BIT == s[k] & PATH_BIT
            &&& x & BUILDER_BIT == s[k] & BUILDER_BIT
            &&& x & MARKERS_MASK == s[k] & MARKERS_MASK
            &&& solver_bits(x) == solver_bits(s[k])
        },
{
    lemma_wall_bits_keep(s[k]);
    let y = s[k];
    assert(((y & !0x0F00_0000u32) | 0x2000_0000u32 | extra) & 0xC0FF_FFF0u32 == (y | extra) & 0xC0FF_FFF0u32
        && (y & !0x0100_0000u32) & 0xC0FF_FFF0u32 == y & 0xC0FF_FFF0u32 && (y & !0x0200_0000u32) & 0xC0FF_FFF0u32
        == y & 0xC0FF_FFF0u32 && (y & !0x0400_0000u32) & 0xC0FF_FFF0u32 == y & 0xC0FF_FFF0u32 && (y & !0x0800_0000u32)
        & 0xC0FF_FFF0u32 == y & 0xC0FF_FFF0u32
        && ((y & !0x0F00_0000u32) | 0x2000_0000u32 | extra) & 0x2000_0000u32 != 0
        && ((y & !0x0F00_0000u32) | 0x2000_0000u32 | extra) & 0x1000_0000u32 == (y | extra) & 0x1000_0000u32
        && ((y & !0x0F00_0000u32) | 0x2000_0000u32 | extra) & 0xFu32 == (y | extra) & 0xFu32) by (bit_vector);
}

/// A buffer in which every square on the edge of the grid is a wall.
pub open spec fn perimeter_walls(maze: &Maze) -> bool {
    forall|r: int, c: int|
        maze.in_bounds(r, c) && !(0 < r < maze.rows_spec() - 1 && 0 < c < maze.cols_spec() - 1)
            ==> spec_is_wall(#[trigger] maze.square(r, c))
}

/// Every square inside the edge of the grid is a path.
pub open spec fn interior_paths(maze: &Maze) -> bool {
    forall|r: int, c: int|
        0 < r < maze.rows_spec() - 1 && 0 < c < maze.cols_spec() - 1 ==> !spec_is_wall(
            #[trigger] maze.square(r, c),
        )
}

pub proof fn lemma_all_walls_perimeter(maze: &Maze)
    requires
        maze.wf(),
        all_walls(maze),
    ensures
        perimeter_walls(maze),
        forall|r: int, c: int| maze.in_bounds(r, c) ==> spec_is_wall(#[trigger] maze.square(r, c)),
{
    assert forall|r: int, c: int| maze.in_bounds(r, c) implies spec_is_wall(#[trigger] maze.square(r, c)) by {
        let rows = maze.rows_spec();
        let cols = maze.cols_spec();
        let n = if r > 0 { NORTH_WALL } else { 0u32 };
        let so = if r + 1 < rows { SOUTH_WALL } else { 0u32 };
        let w = if c > 0 { WEST_WALL } else { 0u32 };
        let e = if c + 1 < cols { EAST_WALL } else { 0u32 };
        assert((n == 0 || n == 0x0100_0000u32) && (so == 0 || so == 0x0400_0000u32) && (w == 0 || w == 0x0800_0000u32)
            && (e == 0 || e == 0x0200_0000u32) ==> (n | so | w | e) & 0x2000_0000u32 == 0) by (bit_vector);
    }
}

/// Opening an inside square as a path keeps the edge of the grid walled.
pub proof fn lemma_opened_keeps_perimeter(old: &Maze, new: &Maze, p: Point, extra: Square)
    requires
        old.wf(),
        new.wf(),
        new.same_shape(old),
        interior(old, p),
        perimeter_walls(old),
        new.squares() == path_opened(old, p, extra),
    ensures
        perimeter_walls(new),
{
    assert forall|r: int, c: int|
        new.in_bounds(r, c) && !(0 < r < new.rows_spec() - 1 && 0 < c < new.cols_spec() - 1) implies spec_is_wall(
        #[trigger] new.square(r, c),
    ) by {
        old.maze.lemma_index(r, c);
        old.maze.lemma_index(p.row as int, p.col as int);
        lemma_cell_index_injective(r, c, p.row as int, p.col as int, old.cols_spec());
        lemma_opened_bits(old.squares(), old.rows_spec(), old.cols_spec(), p, extra, old.maze.index_of(r, c));
        assert(old.square(r, c) & PATH_BIT == 0);
    }
}


/// Opening `p` makes it a path and leaves every other square as much a path
/// or a wall as it was; builder bits and markers follow `lemma_opened_bits`.
pub proof fn lemma_open_paths(prev: &Maze, next: &Maze, p: Point, extra: Square)
    requires
        prev.wf(),
        point_in(prev, p),
        next.squares() == path_opened(prev, p, extra),
        next.same_shape(prev),
    ensures
        forall|rr: int, cc: int|
            prev.in_bounds(rr, cc) ==> (!spec_is_wall(#[trigger] next.square(rr, cc)) == (!spec_is_wall(
                prev.square(rr, cc),
            ) || (rr == p.row && cc == p.col))),
        forall|rr: int, cc: int|
            prev.in_bounds(rr, cc) && (rr != p.row || cc != p.col) ==> (#[trigger] next.square(rr, cc))
                & BUILDER_BIT == prev.square(rr, cc) & BUILDER_BIT,
        forall|rr: int, cc: int|
            prev.in_bounds(rr, cc) && (rr != p.row || cc != p.col) ==> (#[trigger] next.square(rr, cc))
                & MARKERS_MASK == prev.square(rr, cc) & MARKERS_MASK,
        next.square(p.row as int, p.col as int) & BUILDER_BIT == (sq(prev, p) | extra) & BUILDER_BIT,
        next.square(p.row as int, p.col as int) & MARKERS_MASK == (sq(prev, p) | extra) & MARKERS_MASK,
{
    prev.maze.lemma_index(p.row as int, p.col as int);
    lemma_opened_bits(prev.squares(), prev.rows_spec(), prev.cols_spec(), p, extra, prev.maze.index_of(p.row as int, p.col as int));
    assert forall|rr: int, cc: int| prev.in_bounds(rr, cc) implies {
        &&& (!spec_is_wall(#[trigger] next.square(rr, cc)) == (!spec_is_wall(prev.square(rr, cc)) || (rr == p.row && cc == p.col)))
        &&& (rr != p.row || cc != p.col) ==> next.square(rr, cc) & BUILDER_BIT == prev.square(rr, cc) & BUILDER_BIT
        &&& (rr != p.row || cc != p.col) ==> next.square(rr, cc) & MARKERS_MASK == prev.square(rr, cc) & MARKERS_MASK
    } by {
        prev.maze.lemma_index(rr, cc);
        if rr != p.row || cc != p.col {
            lemma_cell_index_injective(rr, cc, p.row as int, p.col as int, prev.cols_spec());
        }
        lemma_opened_bits(prev.squares(), prev.rows_spec(), prev.cols_spec(), p, extra, prev.maze.index_of(rr, cc));
    }
}


/// The number of squares without the builder bit.
pub open spec fn unbuilt_count(s: Seq<Square>) -> nat
    decreases s.len(),
{
    if s.len() == 0 {
        0
    } else {
        unbuilt_count(s.drop_last()) + if spec_is_built(s.last()) { 0nat } else { 1nat }
    }
}

/// Setting builder bits, and never clearing one, does not add unbuilt
/// squares; setting one where there was none removes one at least.
pub proof fn lemma_unbuilt_count(a: Seq<Square>, b: Seq<Square>, k0: int)
    requires
        a.len() == b.len(),
        forall|k: int| 0 <= k < a.len() && spec_is_built(#[trigger] a[k]) ==> spec_is_built(b[k]),
    ensures
        unbuilt_count(b) <= unbuilt_count(a),
        0 <= k0 < a.len() && !spec_is_built(a[k0]) && spec_is_built(b[k0]) ==> unbuilt_count(b)
            < unbuilt_count(a),
    decreases a.len(),
{
    if a.len() > 0 {
        let a1 = a.drop_last();
        let b1 = b.drop_last();
        assert forall|k: int| 0 <= k < a1.len() && spec_is_built(#[trigger] a1[k]) implies spec_is_built(b1[k]) by {
            assert(a1[k] == a[k] && b1[k] == b[k]);
        }
        lemma_unbuilt_count(a1, b1, k0);
        assert(spec_is_built(a.last()) ==> spec_is_built(b.last()));
        if 0 <= k0 < a1.len() {
            assert(a1[k0] == a[k0] && b1[k0] == b[k0]);
        }
    }
}

/// Setting marker bits changes no other bit that builders look at.
pub proof fn lemma_marker_bits(x: Square, m: BacktrackMarker)
    requires
        m <= 4,
    ensures
        (x | m) & BUILDER_BIT == x & BUILDER_BIT,
        (x | m) & PATH_BIT == x & PATH_BIT,
        (x | m) & MARKERS_MASK == (x & MARKERS_MASK) | m,
        (x & !MARKERS_MASK) & BUILDER_BIT == x & BUILDER_BIT,
        (x & !MARKERS_MASK) & PATH_BIT == x & PATH_BIT,
        (x & !MARKERS_MASK) & MARKERS_MASK == 0,
        x & MARKERS_MASK == 0 ==> (x | m) & MARKERS_MASK == m,
{
    assert(m <= 4u32 ==> (x | m) & 0x1000_0000u32 == x & 0x1000_0000u32 && (x | m) & 0x2000_0000u32
        == x & 0x2000_0000u32 && (x | m) & 0xFu32 == (x & 0xFu32) | m && (x & !0xFu32)
        & 0x1000_0000u32 == x & 0x1000_0000u32 && (x & !0xFu32) & 0x2000_0000u32 == x & 0x2000_0000u32
        && (x & !0xFu32) & 0xFu32 == 0 && (x & 0xFu32 == 0 ==> (x | m) & 0xFu32 == m)) by (bit_vector);
}


/// Setting a wall bit leaves the path bit as it was.
proof fn lemma_or_walls_keep_path(x: Square)
    ensures
        (x | NORTH_WALL) & PATH_BIT == x & PATH_BIT,
        (x | SOUTH_WALL) & PATH_BIT == x & PATH_BIT,
        (x | EAST_WALL) & PATH_BIT == x & PATH_BIT,
        (x | WEST_WALL) & PATH_BIT == x & PATH_BIT,
{
    assert((x | 0x0100_0000u32) & 0x2000_0000u32 == x & 0x2000_0000u32 && (x | 0x0400_0000u32) & 0x2000_0000u32
        == x & 0x2000_0000u32 && (x | 0x0200_0000u32) & 0x2000_0000u32 == x & 0x2000_0000u32 && (x
        | 0x0800_0000u32) & 0x2000_0000u32 == x & 0x2000_0000u32) by (bit_vector);
}

/// Joining `p` into the walls turns `p` into a wall (unless `linked`, when
/// its path bit stays), and leaves every other square as much a path or a
/// wall as it was.
pub proof fn lemma_wall_joined_paths(m0: &Maze, m1: &Maze, p: Point, extra: Square, linked: bool)
    requires
        m0.wf(),
        m1.same_shape(m0),
        point_in(m0, p),
        !linked ==> m1.squares() == wall_joined(m0, p, extra),
        linked ==> m1.squares() == wall_linked(m0, p),
    ensures
        forall|r: int, c: int|
            m0.in_bounds(r, c) && (r != p.row || c != p.col) ==> spec_is_wall(#[trigger] m1.square(r, c))
                == spec_is_wall(m0.square(r, c)),
        !linked ==> spec_is_wall(sq(m1, p)),
        linked ==> spec_is_wall(sq(m1, p)) == spec_is_wall(sq(m0, p)),
{
    let cols = m0.cols_spec();
    lemma_around_cells(m0, p);
    m0.maze.lemma_index(p.row as int, p.col as int);
    let y = sq(m0, p);
    let links = wall_links(m0, p);
    assert(((y | links | extra) & !0x2000_0000u32) & 0x2000_0000u32 == 0 && (links & 0x2000_0000u32 == 0 ==> (y
        | links) & 0x2000_0000u32 == y & 0x2000_0000u32)) by (bit_vector);
    assert(links & PATH_BIT == 0) by {
        let n = if p.row > 0 && spec_is_wall(at_offset(m0, p, -1, 0)) { NORTH_WALL } else { 0u32 };
        let so = if p.row + 1 < m0.rows_spec() && spec_is_wall(at_offset(m0, p, 1, 0)) { SOUTH_WALL } else { 0u32 };
        let w = if p.col > 0 && spec_is_wall(at_offset(m0, p, 0, -1)) { WEST_WALL } else { 0u32 };
        let e = if p.col + 1 < m0.cols_spec() && spec_is_wall(at_offset(m0, p, 0, 1)) { EAST_WALL } else { 0u32 };
        assert((n == 0 || n == 0x0100_0000u32) && (so == 0 || so == 0x0400_0000u32) && (w == 0 || w == 0x0800_0000u32)
            && (e == 0 || e == 0x0200_0000u32) ==> (n | so | w | e) & 0x2000_0000u32 == 0) by (bit_vector);
    }
    assert forall|r: int, c: int|
        m0.in_bounds(r, c) && (r != p.row || c != p.col) implies spec_is_wall(#[trigger] m1.square(r, c))
            == spec_is_wall(m0.square(r, c)) by {
        m0.maze.lemma_index(r, c);
        lemma_cell_index_injective(r, c, p.row as int, p.col as int, cols);
        let x = m0.square(r, c);
        lemma_or_walls_keep_path(x);
        let k = cell_index(r, c, cols);
        let kn = cell_index(p.row - 1, p.col as int, cols);
        let ks = cell_index(p.row + 1, p.col as int, cols);
        let kw = cell_index(p.row as int, p.col - 1, cols);
        let ke = cell_index(p.row as int, p.col + 1, cols);
        assert(m0.squares()[k] == x);
        assert(m1.square(r, c) == m1.squares()[k]);
        let sa = if linked { wall_linked(m0, p) } else { wall_joined(m0, p, extra) };
        assert(sa == m1.squares());
        assert(sa.len() == m0.squares().len());
        if p.row > 0 && k == kn {
            assert(at_offset(m0, p, -1, 0) == x);
            assert(sa[k] == (if spec_is_wall(x) { x | SOUTH_WALL } else { x }));
            assert((x | SOUTH_WALL) & PATH_BIT == x & PATH_BIT);
        } else if p.row + 1 < m0.rows_spec() && k == ks {
            assert(at_offset(m0, p, 1, 0) == x);
            assert(sa[k] == (if spec_is_wall(x) { x | NORTH_WALL } else { x }));
            assert((x | NORTH_WALL) & PATH_BIT == x & PATH_BIT);
        } else if p.col > 0 && k == kw {
            assert(at_offset(m0, p, 0, -1) == x);
            assert(sa[k] == (if spec_is_wall(x) { x | EAST_WALL } else { x }));
            assert((x | EAST_WALL) & PATH_BIT == x & PATH_BIT);
        } else if p.col + 1 < cols && k == ke {
            assert(at_offset(m0, p, 0, 1) == x);
            assert(sa[k] == (if spec_is_wall(x) { x | WEST_WALL } else { x }));
            assert((x | WEST_WALL) & PATH_BIT == x & PATH_BIT);
        } else {
            assert(sa[k] == x);
        }
        assert(spec_is_wall(sa[k]) == spec_is_wall(x));
    }
}

/// The bits below the wall bits: markers and the bits builders and solvers
/// keep for themselves.
pub open spec fn low_bits(x: Square) -> Square {
    x & 0x00FF_FFFF
}

/// Opening a path or joining a wall never touches the low bits of a square,
/// nor the builder bit but where a wall line sets it.
pub proof fn lemma_low_keep(x: Square, extra: Square)
    ensures
        forall|w: Square|
            #![trigger x & !w]
            #![trigger x | w]
            (w == NORTH_WALL || w == EAST_WALL || w == SOUTH_WALL || w == WEST_WALL) ==> {
                &&& low_bits(x & !w) == low_bits(x)
                &&& low_bits(x | w) == low_bits(x)
                &&& (x & !w) & BUILDER_BIT == x & BUILDER_BIT
                &&& (x | w) & BUILDER_BIT == x & BUILDER_BIT
            },
        low_bits((x & !WALL_MASK) | PATH_BIT | 0) == low_bits(x),
        ((x & !WALL_MASK) | PATH_BIT | 0) & BUILDER_BIT == x & BUILDER_BIT,
        low_bits(x | BUILDER_BIT) == low_bits(x),
        (x | BUILDER_BIT) & BUILDER_BIT != 0,
{
    assert forall|w: Square|
        #![trigger x & !w]
        #![trigger x | w]
        (w == NORTH_WALL || w == EAST_WALL || w == SOUTH_WALL || w == WEST_WALL) implies {
            &&& low_bits(x & !w) == low_bits(x)
            &&& low_bits(x | w) == low_bits(x)
            &&& (x & !w) & BUILDER_BIT == x & BUILDER_BIT
            &&& (x | w) & BUILDER_BIT == x & BUILDER_BIT
        } by {
        assert((w == 0x0100_0000u32 || w == 0x0200_0000u32 || w == 0x0400_0000u32 || w == 0x0800_0000u32) ==> {
            &&& (x & !w) & 0x00FF_FFFFu32 == x & 0x00FF_FFFFu32
            &&& (x | w) & 0x00FF_FFFFu32 == x & 0x00FF_FFFFu32
            &&& (x & !w) & 0x1000_0000u32 == x & 0x1000_0000u32
            &&& (x | w) & 0x1000_0000u32 == x & 0x1000_0000u32
        }) by (bit_vector);
    }
    assert(((x & !0x0F00_0000u32) | 0x2000_0000u32 | 0u32) & 0x00FF_FFFFu32 == x & 0x00FF_FFFFu32
        && ((x & !0x0F00_0000u32) | 0x2000_0000u32 | 0u32) & 0x1000_0000u32 == x & 0x1000_0000u32
        && (x | 0x1000_0000u32) & 0x00FF_FFFFu32 == x & 0x00FF_FFFFu32 && (x | 0x1000_0000u32) & 0x1000_0000u32
        != 0) by (bit_vector);
}

/// Joining `p` into the walls keeps every square's low bits, and every
/// builder bit but that of `p`, which `extra` may set.
pub proof fn lemma_wall_joined_low(m0: &Maze, m1: &Maze, p: Point, extra: Square)
    requires
        m0.wf(),
        m1.same_shape(m0),
        point_in(m0, p),
        m1.squares() == wall_joined(m0, p, extra),
        low_bits(extra) == 0,
    ensures
        forall|r: int, c: int| m0.in_bounds(r, c) ==> low_bits(#[trigger] m1.square(r, c)) == low_bits(m0.square(r, c)),
        forall|r: int, c: int|
            m0.in_bounds(r, c) && (r != p.row || c != p.col) ==> (#[trigger] m1.square(r, c)) & BUILDER_BIT
                == m0.square(r, c) & BUILDER_BIT,
        sq(m1, p) & BUILDER_BIT == (sq(m0, p) | extra) & BUILDER_BIT,
{
    let cols = m0.cols_spec();
    lemma_around_cells(m0, p);
    m0.maze.lemma_index(p.row as int, p.col as int);
    let y = sq(m0, p);
    let links = wall_links(m0, p);
    let n = if p.row > 0 && spec_is_wall(at_offset(m0, p, -1, 0)) { NORTH_WALL } else { 0u32 };
    let so = if p.row + 1 < m0.rows_spec() && spec_is_wall(at_offset(m0, p, 1, 0)) { SOUTH_WALL } else { 0u32 };
    let w = if p.col > 0 && spec_is_wall(at_offset(m0, p, 0, -1)) { WEST_WALL } else { 0u32 };
    let e = if p.col + 1 < m0.cols_spec() && spec_is_wall(at_offset(m0, p, 0, 1)) { EAST_WALL } else { 0u32 };
    assert(links == n | so | w | e);
    assert((n == 0 || n == 0x0100_0000u32) && (so == 0 || so == 0x0400_0000u32) && (w == 0 || w == 0x0800_0000u32)
        && (e == 0 || e == 0x0200_0000u32) && extra & 0x00FF_FFFFu32 == 0 ==> {
        let l = n | so | w | e;
        &&& ((y | l | extra) & !0x2000_0000u32) & 0x00FF_FFFFu32 == y & 0x00FF_FFFFu32
        &&& ((y | l | extra) & !0x2000_0000u32) & 0x1000_0000u32 == (y | extra) & 0x1000_0000u32
    }) by (bit_vector);
    assert forall|r: int, c: int| m0.in_bounds(r, c) implies {
        &&& low_bits(#[trigger] m1.square(r, c)) == low_bits(m0.square(r, c))
        &&& (r != p.row || c != p.col) ==> m1.square(r, c) & BUILDER_BIT == m0.square(r, c) & BUILDER_BIT
    } by {
        m0.maze.lemma_index(r, c);
        let x = m0.square(r, c);
        lemma_low_keep(x, 0);
        let k = cell_index(r, c, cols);
        let kn = cell_index(p.row - 1, p.col as int, cols);
        let ks = cell_index(p.row + 1, p.col as int, cols);
        let kw = cell_index(p.row as int, p.col - 1, cols);
        let ke = cell_index(p.row as int, p.col + 1, cols);
        let sa = wall_joined(m0, p, extra);
        assert(m1.square(r, c) == sa[k]);
        assert(m0.squares()[k] == x);
        if r == p.row && c == p.col {
        } else {
            lemma_cell_index_injective(r, c, p.row as int, p.col as int, cols);
            if p.row > 0 && k == kn {
                assert(at_offset(m0, p, -1, 0) == x);
                assert(sa[k] == (if spec_is_wall(x) { x | SOUTH_WALL } else { x }));
            } else if p.row + 1 < m0.rows_spec() && k == ks {
                assert(at_offset(m0, p, 1, 0) == x);
                assert(sa[k] == (if spec_is_wall(x) { x | NORTH_WALL } else { x }));
            } else if p.col > 0 && k == kw {
                assert(at_offset(m0, p, 0, -1) == x);
                assert(sa[k] == (if spec_is_wall(x) { x | EAST_WALL } else { x }));
            } else if p.col + 1 < cols && k == ke {
                assert(at_offset(m0, p, 0, 1) == x);
                assert(sa[k] == (if spec_is_wall(x) { x | WEST_WALL } else { x }));
            } else {
                assert(sa[k] == x);
            }
        }
    }
}

/// Linking `p` into the walls keeps every square's low bits and builder bit.
pub proof fn lemma_wall_linked_low(m0: &Maze, m1: &Maze, p: Point)
    requires
        m0.wf(),
        m1.same_shape(m0),
        point_in(m0, p),
        m1.squares() == wall_linked(m0, p),
    ensures
        forall|r: int, c: int|
            m0.in_bounds(r, c) ==> low_bits(#[trigger] m1.square(r, c)) == low_bits(m0.square(r, c))
                && m1.square(r, c) & BUILDER_BIT == m0.square(r, c) & BUILDER_BIT,
{
    let cols = m0.cols_spec();
    lemma_around_cells(m0, p);
    m0.maze.lemma_index(p.row as int, p.col as int);
    let y = sq(m0, p);
    let links = wall_links(m0, p);
    let n = if p.row > 0 && spec_is_wall(at_offset(m0, p, -1, 0)) { NORTH_WALL } else { 0u32 };
    let so = if p.row + 1 < m0.rows_spec() && spec_is_wall(at_offset(m0, p, 1, 0)) { SOUTH_WALL } else { 0u32 };
    let w = if p.col > 0 && spec_is_wall(at_offset(m0, p, 0, -1)) { WEST_WALL } else { 0u32 };
    let e = if p.col + 1 < m0.cols_spec() && spec_is_wall(at_offset(m0, p, 0, 1)) { EAST_WALL } else { 0u32 };
    assert(links == n | so | w | e);
    assert((n == 0 || n == 0x0100_0000u32) && (so == 0 || so == 0x0400_0000u32) && (w == 0 || w == 0x0800_0000u32)
        && (e == 0 || e == 0x0200_0000u32) ==> {
        let l = n | so | w | e;
        &&& (y | l) & 0x00FF_FFFFu32 == y & 0x00FF_FFFFu32
        &&& (y | l) & 0x1000_0000u32 == y & 0x1000_0000u32
    }) by (bit_vector);
    assert forall|r: int, c: int| m0.in_bounds(r, c) implies low_bits(#[trigger] m1.square(r, c)) == low_bits(m0.square(r, c))
        && m1.square(r, c) & BUILDER_BIT == m0.square(r, c) & BUILDER_BIT by {
        m0.maze.lemma_index(r, c);
        let x = m0.square(r, c);
        lemma_low_keep(x, 0);
        let k = cell_index(r, c, cols);
        let kn = cell_index(p.row - 1, p.col as int, cols);
        let ks = cell_index(p.row + 1, p.col as int, cols);
        let kw = cell_index(p.row as int, p.col - 1, cols);
        let ke = cell_index(p.row as int, p.col + 1, cols);
        let sa = wall_linked(m0, p);
        assert(m1.square(r, c) == sa[k]);
        assert(m0.squares()[k] == x);
        if r == p.row && c == p.col {
        } else {
            lemma_cell_index_injective(r, c, p.row as int, p.col as int, cols);
            if p.row > 0 && k == kn {
                assert(at_offset(m0, p, -1, 0) == x);
                assert(sa[k] == (if spec_is_wall(x) { x | SOUTH_WALL } else { x }));
            } else if p.row + 1 < m0.rows_spec() && k == ks {
                assert(at_offset(m0, p, 1, 0) == x);
                assert(sa[k] == (if spec_is_wall(x) { x | NORTH_WALL } else { x }));
            } else if p.col > 0 && k == kw {
                assert(at_offset(m0, p, 0, -1) == x);
                assert(sa[k] == (if spec_is_wall(x) { x | EAST_WALL } else { x }));
            } else if p.col + 1 < cols && k == ke {
                assert(at_offset(m0, p, 0, 1) == x);
                assert(sa[k] == (if spec_is_wall(x) { x | WEST_WALL } else { x }));
            } else {
                assert(sa[k] == x);
            }
        }
    }
}

/// Opening a path keeps every square's low bits and builder bit.
pub proof fn lemma_opened_low(m0: &Maze, m1: &Maze, p: Point)
    requires
        m0.wf(),
        m1.same_shape(m0),
        point_in(m0, p),
        m1.squares() == path_opened(m0, p, 0),
    ensures
        forall|r: int, c: int|
            m0.in_bounds(r, c) ==> low_bits(#[trigger] m1.square(r, c)) == low_bits(m0.square(r, c))
                && m1.square(r, c) & BUILDER_BIT == m0.square(r, c) & BUILDER_BIT,
{
    let cols = m0.cols_spec();
    lemma_around_cells(m0, p);
    m0.maze.lemma_index(p.row as int, p.col as int);
    assert forall|r: int, c: int| m0.in_bounds(r, c) implies low_bits(#[trigger] m1.square(r, c)) == low_bits(m0.square(r, c))
        && m1.square(r, c) & BUILDER_BIT == m0.square(r, c) & BUILDER_BIT by {
        m0.maze.lemma_index(r, c);
        let x = m0.square(r, c);
        lemma_low_keep(x, 0);
        let k = cell_index(r, c, cols);
        assert(m0.squares()[k] == x);
        if r != p.row || c != p.col {
            lemma_cell_index_injective(r, c, p.row as int, p.col as int, cols);
        }
    }
}

/// Walls on the edge of the grid, built and joined to one another, and
/// paths everywhere inside; the low bits of every square stay as they were.
pub fn build_wall_outline(maze: &mut Maze)
    requires
        old(maze).wf(),
    ensures
        reshaped(final(maze), old(maze)),
        perimeter_walls(final(maze)),
        interior_paths(final(maze)),
        forall|r: int, c: int|
            final(maze).in_bounds(r, c) ==> low_bits(#[trigger] final(maze).square(r, c)) == low_bits(old(maze).square(r, c)),
        forall|r: int, c: int|
            final(maze).in_bounds(r, c) && !(0 < r < final(maze).rows_spec() - 1 && 0 < c < final(maze).cols_spec() - 1)
                ==> spec_is_built(#[trigger] final(maze).square(r, c)),
{
    let rows = maze.rows();
    let cols = maze.cols();
    let mut r: i32 = 0;
    while r < rows
        invariant
            reshaped(maze, old(maze)),
            rows == maze.rows_spec(),
            cols == maze.cols_spec(),
            0 <= r <= rows,
            forall|rr: int, cc: int|
                maze.in_bounds(rr, cc) && rr < r ==> outline_square(maze, rr, cc),
            forall|rr: int, cc: int|
                maze.in_bounds(rr, cc) ==> low_bits(#[trigger] maze.square(rr, cc)) == low_bits(old(maze).square(rr, cc)),
            forall|rr: int, cc: int|
                maze.in_bounds(rr, cc) && rr < r && !(0 < rr < rows - 1 && 0 < cc < cols - 1) ==> spec_is_built(
                    #[trigger] maze.square(rr, cc),
                ),
        decreases rows - r,
    {
        let mut c: i32 = 0;
        while c < cols
            invariant
                reshaped(maze, old(maze)),
                rows == maze.rows_spec(),
                cols == maze.cols_spec(),
                0 <= r < rows,
                0 <= c <= cols,
                forall|rr: int, cc: int|
                    maze.in_bounds(rr, cc) && before_cell(rr, cc, r as int, c as int) ==> outline_square(maze, rr, cc),
                forall|rr: int, cc: int|
                    maze.in_bounds(rr, cc) ==> low_bits(#[trigger] maze.square(rr, cc)) == low_bits(old(maze).square(rr, cc)),
                forall|rr: int, cc: int|
                    maze.in_bounds(rr, cc) && before_cell(rr, cc, r as int, c as int) && !(0 < rr < rows - 1 && 0 < cc
                        < cols - 1) ==> spec_is_built(#[trigger] maze.square(rr, cc)),
            decreases cols - c,
        {
            let p = Point { row: r, col: c };
            let ghost prev = *maze;
            if c == 0 || c == cols - 1 || r == 0 || r == rows - 1 {
                let s = maze.get(r, c);
                maze.set(r, c, s | BUILDER_BIT);
                let ghost mid = *maze;
                build_wall_carefully(maze, p);
                proof {
                    lemma_wall_joined_paths(&mid, maze, p, 0, false);
                    assert(0u32 & 0x00FF_FFFFu32 == 0) by (bit_vector);
                    lemma_wall_joined_low(&mid, maze, p, 0);
                    prev.maze.lemma_index(r as int, c as int);
                    assert((s | BUILDER_BIT) | 0u32 == s | BUILDER_BIT) by (bit_vector);
                    lemma_low_keep(s, 0);
                    assert forall|rr: int, cc: int| maze.in_bounds(rr, cc) implies low_bits(#[trigger] maze.square(rr, cc))
                        == low_bits(old(maze).square(rr, cc)) by {
                        prev.maze.lemma_index(rr, cc);
                        if rr != r || cc != c {
                            lemma_cell_index_injective(rr, cc, r as int, c as int, cols as int);
                            assert(mid.square(rr, cc) == prev.square(rr, cc));
                        } else {
                            assert(mid.square(rr, cc) == s | BUILDER_BIT);
                        }
                    }
                    assert forall|rr: int, cc: int|
                        maze.in_bounds(rr, cc) && before_cell(rr, cc, r as int, c + 1) && !(0 < rr < rows - 1 && 0 < cc
                            < cols - 1) implies spec_is_built(#[trigger] maze.square(rr, cc)) by {
                        prev.maze.lemma_index(rr, cc);
                        if rr != r || cc != c {
                            lemma_cell_index_injective(rr, cc, r as int, c as int, cols as int);
                            assert(mid.square(rr, cc) == prev.square(rr, cc));
                            assert(before_cell(rr, cc, r as int, c as int));
                            assert(maze.square(rr, cc) & BUILDER_BIT == mid.square(rr, cc) & BUILDER_BIT);
                        } else {
                            assert(mid.square(rr, cc) == s | BUILDER_BIT);
                            assert(sq(maze, p) & BUILDER_BIT == (sq(&mid, p) | 0u32) & BUILDER_BIT);
                        }
                    }
                    assert forall|rr: int, cc: int|
                        maze.in_bounds(rr, cc) && before_cell(rr, cc, r as int, c + 1) implies outline_square(maze, rr, cc) by {
                        if rr != r || cc != c {
                            prev.maze.lemma_index(rr, cc);
                            prev.maze.lemma_index(r as int, c as int);
                            lemma_cell_index_injective(rr, cc, r as int, c as int, cols as int);
                            assert(before_cell(rr, cc, r as int, c as int));
                            assert(mid.square(rr, cc) == prev.square(rr, cc));
                        }
                    }
                }
            } else {
                build_path(maze, p);
                proof {
                    lemma_open_paths(&prev, maze, p, 0);
                    lemma_opened_low(&prev, maze, p);
                    assert forall|rr: int, cc: int|
                        maze.in_bounds(rr, cc) && before_cell(rr, cc, r as int, c + 1) implies outline_square(maze, rr, cc) by {
                        if rr != r || cc != c {
                            assert(before_cell(rr, cc, r as int, c as int));
                        }
                    }
                    assert forall|rr: int, cc: int|
                        maze.in_bounds(rr, cc) && before_cell(rr, cc, r as int, c + 1) && !(0 < rr < rows - 1 && 0 < cc
                            < cols - 1) implies spec_is_built(#[trigger] maze.square(rr, cc)) by {
                        assert(before_cell(rr, cc, r as int, c as int));
                        assert(spec_is_built(prev.square(rr, cc)));
                    }
                }
            }
            c = c + 1;
        }
        r = r + 1;
    }
    assert forall|rr: int, cc: int|
        maze.in_bounds(rr, cc) && !(0 < rr < maze.rows_spec() - 1 && 0 < cc < maze.cols_spec() - 1) implies spec_is_built(
        #[trigger] maze.square(rr, cc),
    ) by {
        assert(before_cell(rr, cc, r as int, 0));
    }
    assert forall|rr: int, cc: int|
        maze.in_bounds(rr, cc) && !(0 < rr < maze.rows_spec() - 1 && 0 < cc < maze.cols_spec() - 1) implies spec_is_wall(
        #[trigger] maze.square(rr, cc),
    ) by {
        assert(outline_square(maze, rr, cc));
    }
    assert forall|rr: int, cc: int|
        0 < rr < maze.rows_spec() - 1 && 0 < cc < maze.cols_spec() - 1 implies !spec_is_wall(
        #[trigger] maze.square(rr, cc),
    ) by {
        assert(outline_square(maze, rr, cc));
    }
}

/// The square `(r, c)` is a wall on the edge of the grid and a path inside.
pub open spec fn outline_square(maze: &Maze, r: int, c: int) -> bool {
    spec_is_wall(maze.square(r, c)) == !(0 < r < maze.rows_spec() - 1 && 0 < c < maze.cols_spec() - 1)
}


/// `build_wall_outline`, recorded: each square is recorded as a frame, the
/// edge squares keeping their path bit, and the first delta of the history
/// and the last of the outline then record the number of deltas of the
/// outline, so that on an empty history the whole outline is one frame.
pub fn build_wall_outline_history(maze: &mut Maze)
    requires
        old(maze).wf(),
        old(maze).build_history.deltas().len() + 5 * old(maze).squares().len() <= usize::MAX,
    ensures
        final(maze).wf(),
        final(maze).same_shape(old(maze)),
        final(maze).solve_history == old(maze).solve_history,
        interior_paths(final(maze)),
        forall|r: int, c: int|
            final(maze).in_bounds(r, c) && !(0 < r < final(maze).rows_spec() - 1 && 0 < c < final(maze).cols_spec() - 1)
                ==> spec_is_wall(#[trigger] final(maze).square(r, c)) == spec_is_wall(old(maze).square(r, c)),
        final(maze).build_history.deltas().len() <= old(maze).build_history.deltas().len() + 5 * old(maze).squares().len(),
        old(maze).build_history.deltas().len() == 0 ==> recorded(old(maze), final(maze)),
        old(maze).build_history.deltas().len() == 0 ==> final(maze).build_history.framed(),
        forall|r: int, c: int|
            final(maze).in_bounds(r, c) ==> low_bits(#[trigger] final(maze).square(r, c)) == low_bits(old(maze).square(r, c)),
        forall|r: int, c: int|
            final(maze).in_bounds(r, c) && !(0 < r < final(maze).rows_spec() - 1 && 0 < c < final(maze).cols_spec() - 1)
                ==> spec_is_built(#[trigger] final(maze).square(r, c)),
{
    let ghost m0 = *maze;
    let ghost n0 = m0.build_history.deltas().len() as int;
    let rows = maze.rows();
    let cols = maze.cols();
    proof { lemma_recorded_refl(&m0); }
    let mut deltas: usize = 0;
    let mut r: i32 = 0;
    while r < rows
        invariant
            recorded(&m0, maze),
            m0.wf(),
            rows == maze.rows_spec(),
            cols == maze.cols_spec(),
            0 <= r <= rows,
            m0.squares().len() == rows * cols,
            n0 == m0.build_history.deltas().len(),
            n0 + 5 * m0.squares().len() <= usize::MAX,
            deltas == maze.build_history.deltas().len() - n0,
            deltas <= 5 * (r * cols),
            forall|rr: int, cc: int| maze.in_bounds(rr, cc) && rr < r ==> outline_kept(&m0, maze, rr, cc),
            forall|rr: int, cc: int|
                maze.in_bounds(rr, cc) && rr >= r ==> spec_is_wall(#[trigger] maze.square(rr, cc)) == spec_is_wall(m0.square(rr, cc)),
            forall|rr: int, cc: int|
                maze.in_bounds(rr, cc) ==> low_bits(#[trigger] maze.square(rr, cc)) == low_bits(m0.square(rr, cc)),
            forall|rr: int, cc: int|
                maze.in_bounds(rr, cc) && rr < r && !(0 < rr < rows - 1 && 0 < cc < cols - 1) ==> spec_is_built(
                    #[trigger] maze.square(rr, cc),
                ),
        decreases rows - r,
    {
        let mut c: i32 = 0;
        while c < cols
            invariant
                recorded(&m0, maze),
                m0.wf(),
                rows == maze.rows_spec(),
                cols == maze.cols_spec(),
                0 <= r < rows,
                0 <= c <= cols,
                m0.squares().len() == rows * cols,
                n0 == m0.build_history.deltas().len(),
                n0 + 5 * m0.squares().len() <= usize::MAX,
                deltas == maze.build_history.deltas().len() - n0,
                deltas <= 5 * (r * cols + c),
                forall|rr: int, cc: int|
                    maze.in_bounds(rr, cc) && before_cell(rr, cc, r as int, c as int) ==> outline_kept(&m0, maze, rr, cc),
                forall|rr: int, cc: int|
                    maze.in_bounds(rr, cc) && !before_cell(rr, cc, r as int, c as int) ==> spec_is_wall(
                        #[trigger] maze.square(rr, cc),
                    ) == spec_is_wall(m0.square(rr, cc)),
                forall|rr: int, cc: int|
                    maze.in_bounds(rr, cc) ==> low_bits(#[trigger] maze.square(rr, cc)) == low_bits(m0.square(rr, cc)),
                forall|rr: int, cc: int|
                    maze.in_bounds(rr, cc) && before_cell(rr, cc, r as int, c as int) && !(0 < rr < rows - 1 && 0 < cc
                        < cols - 1) ==> spec_is_built(#[trigger] maze.square(rr, cc)),
            decreases cols - c,
        {
            proof {
                lemma_cell_index_bounds(r as int, c as int, rows as int, cols as int);
                assert(5 * (r * cols + c) + 5 <= 5 * (rows * cols)) by (nonlinear_arith)
                    requires
                        r * cols + c < rows * cols,
                ;
            }
            let p = Point { row: r, col: c };
            let ghost prev = *maze;
            if c == 0 || c == cols - 1 || r == 0 || r == rows - 1 {
                let s = maze.get(r, c);
                maze.set(r, c, s | BUILDER_BIT);
                let ghost mid = *maze;
                proof {
                    prev.maze.lemma_index(r as int, c as int);
                    lemma_recorded_builder_bit(&m0, &prev, maze, prev.maze.index_of(r as int, c as int));
                    assert((s | BUILDER_BIT) & PATH_BIT == s & PATH_BIT) by (bit_vector);
                }
                let burst = build_wall_history_carefully(maze, p);
                deltas = deltas + burst;
                proof {
                    lemma_recorded_trans(&m0, &mid, maze);
                    lemma_wall_joined_paths(&mid, maze, p, 0, true);
                    lemma_wall_linked_low(&mid, maze, p);
                    lemma_low_keep(s, 0);
                    assert forall|rr: int, cc: int| maze.in_bounds(rr, cc) implies low_bits(#[trigger] maze.square(rr, cc))
                        == low_bits(m0.square(rr, cc)) by {
                        prev.maze.lemma_index(rr, cc);
                        if rr != r || cc != c {
                            lemma_cell_index_injective(rr, cc, r as int, c as int, cols as int);
                            assert(mid.square(rr, cc) == prev.square(rr, cc));
                        } else {
                            assert(mid.square(rr, cc) == s | BUILDER_BIT);
                        }
                    }
                    assert forall|rr: int, cc: int|
                        maze.in_bounds(rr, cc) && before_cell(rr, cc, r as int, c + 1) && !(0 < rr < rows - 1 && 0 < cc
                            < cols - 1) implies spec_is_built(#[trigger] maze.square(rr, cc)) by {
                        prev.maze.lemma_index(rr, cc);
                        if rr != r || cc != c {
                            lemma_cell_index_injective(rr, cc, r as int, c as int, cols as int);
                            assert(mid.square(rr, cc) == prev.square(rr, cc));
                            assert(before_cell(rr, cc, r as int, c as int));
                        } else {
                            assert(mid.square(rr, cc) == s | BUILDER_BIT);
                        }
                    }
                    assert forall|rr: int, cc: int| maze.in_bounds(rr, cc) && (rr != r || cc != c) implies #[trigger] mid.square(rr, cc)
                        == prev.square(rr, cc) by {
                        prev.maze.lemma_index(rr, cc);
                        lemma_cell_index_injective(rr, cc, r as int, c as int, cols as int);
                    }
                    assert forall|rr: int, cc: int|
                        maze.in_bounds(rr, cc) && before_cell(rr, cc, r as int, c + 1) implies outline_kept(&m0, maze, rr, cc) by {
                        if rr != r || cc != c {
                            assert(before_cell(rr, cc, r as int, c as int));
                            assert(mid.square(rr, cc) == prev.square(rr, cc));
                        }
                    }
                    assert forall|rr: int, cc: int|
                        maze.in_bounds(rr, cc) && !before_cell(rr, cc, r as int, c + 1) implies spec_is_wall(
                            #[trigger] maze.square(rr, cc),
                        ) == spec_is_wall(m0.square(rr, cc)) by {
                        assert(mid.square(rr, cc) == prev.square(rr, cc));
                    }
                }
            } else {
                let burst = build_path_history(maze, p);
                deltas = deltas + burst;
                proof {
                    lemma_recorded_trans(&m0, &prev, maze);
                    lemma_open_paths(&prev, maze, p, 0);
                    lemma_opened_low(&prev, maze, p);
                    assert forall|rr: int, cc: int|
                        maze.in_bounds(rr, cc) && before_cell(rr, cc, r as int, c + 1) && !(0 < rr < rows - 1 && 0 < cc
                            < cols - 1) implies spec_is_built(#[trigger] maze.square(rr, cc)) by {
                        assert(before_cell(rr, cc, r as int, c as int));
                        assert(spec_is_built(prev.square(rr, cc)));
                    }
                    assert forall|rr: int, cc: int|
                        maze.in_bounds(rr, cc) && before_cell(rr, cc, r as int, c + 1) implies outline_kept(&m0, maze, rr, cc) by {
                        if rr != r || cc != c {
                            assert(before_cell(rr, cc, r as int, c as int));
                        }
                    }
                }
            }
            c = c + 1;
        }
        proof {
            assert(5 * (r * cols + cols) == 5 * ((r + 1) * cols)) by (nonlinear_arith);
        }
        r = r + 1;
    }
    let ghost done = *maze;
    proof {
        assert forall|rr: int, cc: int| done.in_bounds(rr, cc) implies #[trigger] outline_kept(&m0, &done, rr, cc) by {
            assert(outline_kept(&m0, maze, rr, cc));
        }
    }
    if deltas > 0 {
        let ghost before_patch = *maze;
        let mut first = *maze.build_history.index(0);
        first.burst = deltas;
        *maze.build_history.index_mut(0) = first;
        let mut last = *maze.build_history.index(deltas - 1);
        last.burst = deltas;
        *maze.build_history.index_mut(deltas - 1) = last;
        proof {
            let d0 = before_patch.build_history.deltas();
            let d1 = maze.build_history.deltas();
            assert(same_changes(d0, d1));
            if n0 == 0 {
                assert(d1.len() == deltas);
                assert(frames_from(d1, deltas as int));
                assert(frames_from(d1, 0));
                let added0 = d0.subrange(0, d0.len() as int);
                let added1 = d1.subrange(0, d1.len() as int);
                assert(added0 =~= d0);
                assert(added1 =~= d1);
                lemma_replay_same_changes(m0.squares(), m0.cols_spec(), added0, added1);
                assert(d1.subrange(0, 0) =~= d0.subrange(0, 0));
                assert(same_but_builder(replay(m0.squares(), m0.cols_spec(), added1), maze.squares()));
            }
        }
    }
    proof {
        assert(maze.maze == done.maze);
        assert forall|rr: int, cc: int|
            maze.in_bounds(rr, cc) && !(0 < rr < maze.rows_spec() - 1 && 0 < cc < maze.cols_spec() - 1) implies spec_is_built(
            #[trigger] maze.square(rr, cc),
        ) by {
            assert(done.square(rr, cc) == maze.square(rr, cc));
            assert(rr < r);
        }
        assert forall|rr: int, cc: int| maze.in_bounds(rr, cc) implies low_bits(#[trigger] maze.square(rr, cc))
            == low_bits(m0.square(rr, cc)) by {
            assert(done.square(rr, cc) == maze.square(rr, cc));
        }
        assert forall|rr: int, cc: int|
            0 < rr < maze.rows_spec() - 1 && 0 < cc < maze.cols_spec() - 1 implies !spec_is_wall(
            #[trigger] maze.square(rr, cc),
        ) by {
            assert(outline_kept(&m0, &done, rr, cc));
        }
        assert forall|rr: int, cc: int|
            maze.in_bounds(rr, cc) && !(0 < rr < maze.rows_spec() - 1 && 0 < cc < maze.cols_spec() - 1)
                implies spec_is_wall(#[trigger] maze.square(rr, cc)) == spec_is_wall(m0.square(rr, cc)) by {
            assert(outline_kept(&m0, &done, rr, cc));
        }
    }
}

/// The square `(r, c)` of `new` is a path inside the edge of the grid, and on
/// the edge as much a wall as it was in `old`.
pub open spec fn outline_kept(old: &Maze, new: &Maze, r: int, c: int) -> bool {
    if 0 < r < new.rows_spec() - 1 && 0 < c < new.cols_spec() - 1 {
        !spec_is_wall(new.square(r, c))
    } else {
        spec_is_wall(new.square(r, c)) == spec_is_wall(old.square(r, c))
    }
}


/// The first row or column of a point of the given parity.
pub open spec fn parity_start(parity: ParityPoint) -> int {
    match parity {
        ParityPoint::Even => 2,
        ParityPoint::Odd => 1,
    }
}

/// A point inside the edge whose row and column share the parity `parity`.
pub open spec fn parity_point(maze: &Maze, u: Point, parity: ParityPoint) -> bool {
    &&& interior(maze, u)
    &&& u.row % 2 == parity_start(parity) % 2
    &&& u.col % 2 == parity_start(parity) % 2
}

/// `u` comes before `(r, c)` in row-major order.
pub open spec fn scanned_before(u: Point, r: int, c: int) -> bool {
    u.row < r || (u.row == r && u.col < c)
}

/// Scans the rows from `row_start` down, two at a time, for the first point
/// of the given parity that is not built yet.
pub fn choose_point_from_row_start(maze: &Maze, row_start: i32, parity: ParityPoint) -> (found: Option<Point>)
    requires
        maze.wf(),
        0 < row_start,
        row_start % 2 == parity_start(parity) % 2,
    ensures
        match found {
            Some(p) => {
                &&& parity_point(maze, p, parity)
                &&& row_start <= p.row
                &&& !spec_is_built(sq(maze, p))
                &&& forall|u: Point|
                    parity_point(maze, u, parity) && row_start <= u.row && scanned_before(u, p.row as int, p.col as int)
                        ==> spec_is_built(#[trigger] sq(maze, u))
            },
            None => forall|u: Point|
                parity_point(maze, u, parity) && row_start <= u.row ==> spec_is_built(#[trigger] sq(maze, u)),
        },
{
    let init: i32 = match parity {
        ParityPoint::Even => 2,
        ParityPoint::Odd => 1,
    };
    let mut r = row_start;
    while r < maze.rows() - 1
        invariant
            maze.wf(),
            0 < row_start <= r,
            r % 2 == parity_start(parity) % 2,
            init == parity_start(parity),
            forall|u: Point|
                parity_point(maze, u, parity) && row_start <= u.row && u.row < r ==> spec_is_built(#[trigger] sq(maze, u)),
        decreases maze.rows_spec() - r,
    {
        let mut c = init;
        while c < maze.cols() - 1
            invariant
                maze.wf(),
                0 < row_start <= r < maze.rows_spec() - 1,
                r % 2 == parity_start(parity) % 2,
                c % 2 == parity_start(parity) % 2,
                init == parity_start(parity),
                0 < c,
                forall|u: Point|
                    parity_point(maze, u, parity) && row_start <= u.row && scanned_before(u, r as int, c as int)
                        ==> spec_is_built(#[trigger] sq(maze, u)),
            decreases maze.cols_spec() - c,
        {
            if (maze.get(r, c) & BUILDER_BIT) == 0 {
                return Some(Point { row: r, col: c });
            }
            proof {
                assert forall|u: Point|
                    parity_point(maze, u, parity) && row_start <= u.row && scanned_before(u, r as int, c + 2)
                        implies spec_is_built(#[trigger] sq(maze, u)) by {
                    if u.row == r && u.col >= c {
                        assert(u.col == c);
                        assert(u == Point { row: r, col: c });
                    }
                }
            }
            c = c + 2;
        }
        proof {
            assert forall|u: Point|
                parity_point(maze, u, parity) && row_start <= u.row && u.row < r + 2 implies spec_is_built(
                #[trigger] sq(maze, u),
            ) by {
                if u.row >= r {
                    assert(u.row == r);
                    assert(scanned_before(u, r as int, c as int));
                }
            }
        }
        r = r + 2;
    }
    None
}

} // verus!
