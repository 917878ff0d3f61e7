use vstd::prelude::*;
use crate::builders::build_ops::{
    between, can_build_new_square, generate_direction, interior, lemma_marker_bits,
    spec_generate_direction, spec_is_built, spec_marker, sq, BacktrackMarker, MARKERS_MASK,
};
use crate::builders::build_ops::{joined, lemma_opened_bits, opened};
use crate::maze::{cell_index, lemma_cell_index_injective, spec_is_wall, Maze, Point, Square, BUILDER_BIT};

verus! {

/// The point at row `r` and column `c`.
pub open spec fn pt(r: int, c: int) -> Point {
    Point { row: r as i32, col: c as i32 }
}

/// A cell: a square inside the edge of the grid on an odd row and an odd
/// column. Builders carve cells and the walls between them.
pub open spec fn is_cell(maze: &Maze, p: Point) -> bool {
    &&& interior(maze, p)
    &&& p.row % 2 == 1
    &&& p.col % 2 == 1
}

/// `b` lies one cell (two squares along a row or a column) away from `a`.
pub open spec fn is_step(a: Point, b: Point) -> bool {
    ||| a.row == b.row && (b.col == a.col + 2 || b.col == a.col - 2)
    ||| a.col == b.col && (b.row == a.row + 2 || b.row == a.row - 2)
}

/// The point one cell from `p` in the direction `i` of the generator steps.
pub open spec fn step_to(p: Point, i: int) -> Point {
    let d = spec_generate_direction(i);
    Point { row: (p.row + d.row) as i32, col: (p.col + d.col) as i32 }
}

/// The square one cell from `p` in direction `i` is no unbuilt inside square.
pub open spec fn blocked(maze: &Maze, p: Point, i: int) -> bool {
    interior(maze, step_to(p, i)) ==> spec_is_built(sq(maze, step_to(p, i)))
}

/// Every inside square one cell away from `p` is built.
pub open spec fn finished(maze: &Maze, p: Point) -> bool {
    forall|i: int| 0 <= i < 4 ==> #[trigger] blocked(maze, p, i)
}

/// The wall between two cells lies on an even row or an even column, so it
/// is no cell.
pub proof fn lemma_between_parity(a: Point, b: Point)
    requires
        is_step(a, b),
        a.row % 2 == 1,
        a.col % 2 == 1,
    ensures
        between(a, b).row % 2 == 0 || between(a, b).col % 2 == 0,
        between(a, b) == between(b, a),
        between(a, b) != a,
        between(a, b) != b,
        b.row % 2 == 1,
        b.col % 2 == 1,
{
}

/// Bits the builders set when they open a square: the builder bit and a
/// marker.
pub proof fn lemma_extra_bits(y: Square, m: BacktrackMarker)
    requires
        m <= 4,
    ensures
        (y | BUILDER_BIT) & BUILDER_BIT != 0,
        (y | BUILDER_BIT) & MARKERS_MASK == y & MARKERS_MASK,
        (y | (BUILDER_BIT | (y & MARKERS_MASK))) & BUILDER_BIT != 0,
        (y | (BUILDER_BIT | (y & MARKERS_MASK))) & MARKERS_MASK == y & MARKERS_MASK,
        (y | (BUILDER_BIT | m)) & BUILDER_BIT != 0,
        y & MARKERS_MASK == 0 ==> (y | (BUILDER_BIT | m)) & MARKERS_MASK == m,
        (y | m) & BUILDER_BIT == y & BUILDER_BIT,
        (y | m) & crate::maze::PATH_BIT == y & crate::maze::PATH_BIT,
        y & MARKERS_MASK == 0 ==> (y | m) & MARKERS_MASK == m,
        (y & !MARKERS_MASK) & BUILDER_BIT == y & BUILDER_BIT,
        (y & !MARKERS_MASK) & crate::maze::PATH_BIT == y & crate::maze::PATH_BIT,
        (y & !MARKERS_MASK) & MARKERS_MASK == 0,
        crate::builders::build_ops::solver_bits(y | m) == crate::builders::build_ops::solver_bits(y),
        crate::builders::build_ops::solver_bits(y | BUILDER_BIT) == crate::builders::build_ops::solver_bits(y),
        crate::builders::build_ops::solver_bits(y | (BUILDER_BIT | m)) == crate::builders::build_ops::solver_bits(y),
        crate::builders::build_ops::solver_bits(y | (BUILDER_BIT | (y & MARKERS_MASK)))
            == crate::builders::build_ops::solver_bits(y),
        crate::builders::build_ops::solver_bits(y & !MARKERS_MASK) == crate::builders::build_ops::solver_bits(y),
{
    assert(m <= 4u32 ==> {
        &&& (y | m) & 0xC0FF_FFF0u32 == y & 0xC0FF_FFF0u32
        &&& (y | 0x1000_0000u32) & 0xC0FF_FFF0u32 == y & 0xC0FF_FFF0u32
        &&& (y | (0x1000_0000u32 | m)) & 0xC0FF_FFF0u32 == y & 0xC0FF_FFF0u32
        &&& (y | (0x1000_0000u32 | (y & 0xFu32))) & 0xC0FF_FFF0u32 == y & 0xC0FF_FFF0u32
        &&& (y & !0xFu32) & 0xC0FF_FFF0u32 == y & 0xC0FF_FFF0u32
    }) by (bit_vector);
    assert(m <= 4u32 ==> {
        &&& (y | 0x1000_0000u32) & 0x1000_0000u32 != 0
        &&& (y | 0x1000_0000u32) & 0xFu32 == y & 0xFu32
        &&& (y | (0x1000_0000u32 | (y & 0xFu32))) & 0x1000_0000u32 != 0
        &&& (y | (0x1000_0000u32 | (y & 0xFu32))) & 0xFu32 == y & 0xFu32
        &&& (y | (0x1000_0000u32 | m)) & 0x1000_0000u32 != 0
        &&& (y & 0xFu32 == 0 ==> (y | (0x1000_0000u32 | m)) & 0xFu32 == m)
    }) by (bit_vector);
    lemma_marker_bits(y, m);
}

/// A step between two cells, both on the grid with the wall between.
pub open spec fn cell_step(maze: &Maze, cur: Point, next: Point) -> bool {
    &&& is_cell(maze, cur)
    &&& interior(maze, next)
    &&& is_step(cur, next)
}

/// Setting builder bits keeps a cell finished.
pub proof fn lemma_finished_keep(m0: &Maze, m1: &Maze, p: Point)
    requires
        m1.same_shape(m0),
        finished(m0, p),
        forall|r: int, c: int|
            m0.in_bounds(r, c) && spec_is_built(m0.square(r, c)) ==> spec_is_built(
                #[trigger] m1.square(r, c),
            ),
    ensures
        finished(m1, p),
{
    assert forall|i: int| 0 <= i < 4 implies #[trigger] blocked(m1, p, i) by {
        assert(blocked(m0, p, i));
        let q = step_to(p, i);
        if interior(m1, q) {
            assert(m0.in_bounds(q.row as int, q.col as int));
        }
    }
}

/// Every built square is a path.
pub open spec fn built_paths(maze: &Maze) -> bool {
    forall|r: int, c: int|
        maze.in_bounds(r, c) && spec_is_built(#[trigger] maze.square(r, c)) ==> !spec_is_wall(
            maze.square(r, c),
        )
}

/// No square carries a backtracking marker.
pub open spec fn no_markers(maze: &Maze) -> bool {
    forall|r: int, c: int| maze.in_bounds(r, c) ==> spec_marker(#[trigger] maze.square(r, c)) == 0
}

/// Builder bits only grow from `m0` to `m1`.
pub open spec fn built_grows(m0: &Maze, m1: &Maze) -> bool {
    forall|r: int, c: int|
        m0.in_bounds(r, c) && spec_is_built(m0.square(r, c)) ==> spec_is_built(#[trigger] m1.square(r, c))
}

/// The four direction numbers, in any order.
pub open spec fn all_directions(dirs: Seq<usize>) -> bool {
    &&& dirs.len() == 4
    &&& dirs.to_multiset() == seq![0usize, 1, 2, 3].to_multiset()
}

/// Some entry of `dirs` is the direction `i`.
pub open spec fn has_direction(dirs: Seq<usize>, i: int) -> bool {
    exists|j: int| 0 <= j < 4 && dirs[j] == i
}

pub proof fn lemma_directions(dirs: Seq<usize>)
    requires
        all_directions(dirs),
    ensures
        forall|j: int| 0 <= j < 4 ==> #[trigger] dirs[j] < 4,
        forall|i: int| 0 <= i < 4 ==> #[trigger] has_direction(dirs, i),
{
    broadcast use vstd::seq_lib::group_to_multiset_ensures;

    let all = seq![0usize, 1, 2, 3];
    assert forall|j: int| 0 <= j < 4 implies #[trigger] dirs[j] < 4 by {
        assert(dirs.contains(dirs[j]));
        assert(all.to_multiset().count(dirs[j]) > 0);
        assert(all.contains(dirs[j]));
    }
    assert forall|i: int| 0 <= i < 4 implies #[trigger] has_direction(dirs, i) by {
        assert(all[i] == i);
        assert(all.contains(i as usize));
        assert(dirs.to_multiset().count(i as usize) > 0);
        assert(dirs.contains(i as usize));
    }
}

/// The first direction, in the order of `dirs`, that leads from `cur` to an
/// unbuilt square inside the edge of the grid.
pub fn find_branch(maze: &Maze, cur: Point, dirs: &Vec<usize>) -> (r: Option<Point>)
    requires
        maze.wf(),
        is_cell(maze, cur),
        dirs@.len() == 4,
        forall|j: int| 0 <= j < 4 ==> #[trigger] dirs@[j] < 4,
    ensures
        r matches Some(b) ==> cell_step(maze, cur, b) && !spec_is_built(sq(maze, b)),
        r is None ==> forall|j: int| 0 <= j < 4 ==> blocked(maze, cur, #[trigger] dirs@[j] as int),
{
    let mut found: Option<Point> = None;
    let mut j: usize = 0;
    while j < 4
        invariant
            maze.wf(),
            is_cell(maze, cur),
            dirs@.len() == 4,
            forall|jj: int| 0 <= jj < 4 ==> #[trigger] dirs@[jj] < 4,
            j <= 4,
            found matches Some(b) ==> cell_step(maze, cur, b) && !spec_is_built(sq(maze, b)),
            found is None ==> forall|jj: int| 0 <= jj < j ==> blocked(maze, cur, #[trigger] dirs@[jj] as int),
        decreases 4 - j,
    {
        if found.is_none() {
            let d = generate_direction(dirs[j]);
            let branch = Point { row: cur.row + d.row, col: cur.col + d.col };
            assert(branch == step_to(cur, dirs@[j as int] as int));
            if can_build_new_square(maze, branch) {
                found = Some(branch);
            }
        }
        j = j + 1;
    }
    found
}

/// Every square of a freshly walled grid is an unbuilt, unmarked wall.
pub proof fn lemma_walled_bits(rows: int, cols: int, r: int, c: int)
    ensures
        ({
            let x = crate::builders::build_ops::boundary_walls(rows, cols, r, c);
            &&& !spec_is_built(x)
            &&& spec_marker(x) == 0
            &&& spec_is_wall(x)
        }),
{
    let n = if r > 0 { crate::maze::NORTH_WALL } else { 0u32 };
    let so = if r + 1 < rows { crate::maze::SOUTH_WALL } else { 0u32 };
    let w = if c > 0 { crate::maze::WEST_WALL } else { 0u32 };
    let e = if c + 1 < cols { crate::maze::EAST_WALL } else { 0u32 };
    assert((n == 0 || n == 0x0100_0000u32) && (so == 0 || so == 0x0400_0000u32) && (w == 0 || w == 0x0800_0000u32)
        && (e == 0 || e == 0x0200_0000u32) ==> (n | so | w | e) & 0x1000_0000u32 == 0 && (n | so | w | e)
        & 0xFu32 == 0 && (n | so | w | e) & 0x2000_0000u32 == 0) by (bit_vector);
}

/// The odd row (or column) `x` rounds to: `x` itself when odd, else the one after.
pub fn odd_at_or_below(x: i32) -> (o: i32)
    requires
        1 <= x,
    ensures
        o % 2 == 1,
        1 <= o <= x + 1,
        o == if x % 2 == 1 { x as int } else { x + 1 },
{
    2 * (x / 2) + 1
}


/// What joining `cur` and `next` does to one square: the two cells and the
/// wall between become built paths, no other square changes its path or
/// builder bit, and no marker changes.
pub open spec fn join_fields(x0: Square, x1: Square, p: Point, cur: Point, next: Point) -> bool {
    let w = between(cur, next);
    &&& (p == cur || p == next || p == w) ==> spec_is_built(x1) && !spec_is_wall(x1)
    &&& !(p == cur || p == next || p == w) ==> spec_is_built(x1) == spec_is_built(x0)
        && spec_is_wall(x1) == spec_is_wall(x0)
    &&& spec_marker(x1) == spec_marker(x0)
    &&& crate::builders::build_ops::solver_bits(x1) == crate::builders::build_ops::solver_bits(x0)
}

/// Every square of `m1` is `join_fields` of the same square of `m0`.
pub open spec fn joined_from(m0: &Maze, m1: &Maze, cur: Point, next: Point) -> bool {
    forall|r: int, c: int|
        m0.in_bounds(r, c) ==> join_fields(m0.square(r, c), #[trigger] m1.square(r, c), pt(r, c), cur, next)
}

/// A step between two squares of the grid, with the square between them on
/// the grid too.
pub open spec fn grid_step(maze: &Maze, cur: Point, next: Point) -> bool {
    &&& crate::builders::build_ops::point_in(maze, cur)
    &&& crate::builders::build_ops::point_in(maze, next)
    &&& crate::builders::build_ops::point_in(maze, between(cur, next))
    &&& is_step(cur, next)
}

/// `join_squares`, read square by square.
pub proof fn lemma_joined_from(m0: &Maze, m1: &Maze, cur: Point, next: Point)
    requires
        m0.wf(),
        m1.same_shape(m0),
        grid_step(m0, cur, next),
        m1.squares() == joined(m0.squares(), m0.rows_spec(), m0.cols_spec(), cur, next),
    ensures
        joined_from(m0, m1, cur, next),
        built_grows(m0, m1),
        forall|k: int|
            0 <= k < m0.squares().len() && spec_is_built(#[trigger] m0.squares()[k]) ==> spec_is_built(
                m1.squares()[k],
            ),
        spec_is_built(sq(m1, cur)),
        spec_is_built(sq(m1, next)),
{
    let w = between(cur, next);
    let rows = m0.rows_spec();
    let cols = m0.cols_spec();
    let s0 = m0.squares();
    assert(w != cur && w != next);
    m0.maze.lemma_index(cur.row as int, cur.col as int);
    m0.maze.lemma_index(next.row as int, next.col as int);
    m0.maze.lemma_index(w.row as int, w.col as int);
    let s1 = opened(s0, rows, cols, cur, BUILDER_BIT);
    let s2 = opened(s1, rows, cols, w, BUILDER_BIT);
    assert forall|k: int| 0 <= k < s0.len() implies {
        let x = m1.squares()[k];
        let kc = cell_index(cur.row as int, cur.col as int, cols);
        let kn = cell_index(next.row as int, next.col as int, cols);
        let kw = cell_index(w.row as int, w.col as int, cols);
        &&& (k == kc || k == kn || k == kw) ==> spec_is_built(x) && !spec_is_wall(x)
        &&& !(k == kc || k == kn || k == kw) ==> spec_is_built(x) == spec_is_built(#[trigger] s0[k])
            && spec_is_wall(x) == spec_is_wall(s0[k])
        &&& spec_marker(x) == spec_marker(s0[k])
        &&& crate::builders::build_ops::solver_bits(x) == crate::builders::build_ops::solver_bits(s0[k])
    } by {
        assert(forall|y: u32| #![trigger (y | 0x1000_0000u32)] (y | 0x1000_0000u32) & 0xC0FF_FFF0u32 == y & 0xC0FF_FFF0u32) by (bit_vector);
        lemma_opened_bits(s0, rows, cols, cur, BUILDER_BIT, k);
        lemma_extra_bits(s0[k], 0);
        lemma_opened_bits(s1, rows, cols, w, BUILDER_BIT, k);
        lemma_extra_bits(s1[k], 0);
        lemma_opened_bits(s2, rows, cols, next, BUILDER_BIT, k);
        lemma_extra_bits(s2[k], 0);
    }
    assert forall|r: int, c: int| m0.in_bounds(r, c) implies join_fields(
        m0.square(r, c),
        #[trigger] m1.square(r, c),
        pt(r, c),
        cur,
        next,
    ) by {
        m0.maze.lemma_index(r, c);
        let k = cell_index(r, c, cols);
        if r != cur.row || c != cur.col {
            lemma_cell_index_injective(r, c, cur.row as int, cur.col as int, cols);
        }
        if r != next.row || c != next.col {
            lemma_cell_index_injective(r, c, next.row as int, next.col as int, cols);
        }
        if r != w.row || c != w.col {
            lemma_cell_index_injective(r, c, w.row as int, w.col as int, cols);
        }
        assert(s0[k] == m0.square(r, c));
    }
    assert forall|r: int, c: int|
        m0.in_bounds(r, c) && spec_is_built(m0.square(r, c)) implies spec_is_built(
        #[trigger] m1.square(r, c),
    ) by {
        assert(join_fields(m0.square(r, c), m1.square(r, c), pt(r, c), cur, next));
    }
    assert(join_fields(m0.square(cur.row as int, cur.col as int), m1.square(cur.row as int, cur.col as int), pt(cur.row as int, cur.col as int), cur, next));
    assert(join_fields(m0.square(next.row as int, next.col as int), m1.square(next.row as int, next.col as int), pt(next.row as int, next.col as int), cur, next));
}

/// No inside square one cell away from `u` is built.
pub open spec fn isolated(maze: &Maze, u: Point) -> bool {
    forall|i: int|
        0 <= i < 4 ==> (interior(maze, #[trigger] step_to(u, i)) ==> !spec_is_built(sq(maze, step_to(u, i))))
}

/// Where no unbuilt cell touches a built one, an unbuilt cell leaves every
/// cell unbuilt: the cells of the grid are joined by steps.
pub proof fn lemma_unbuilt_spreads(maze: &Maze, u: Point, v: Point)
    requires
        is_cell(maze, u),
        is_cell(maze, v),
        !spec_is_built(sq(maze, u)),
        forall|w: Point| is_cell(maze, w) && !spec_is_built(#[trigger] sq(maze, w)) ==> isolated(maze, w),
    ensures
        !spec_is_built(sq(maze, v)),
    decreases
        (if u.row >= v.row { u.row - v.row } else { v.row - u.row }) + (if u.col >= v.col {
            u.col - v.col
        } else {
            v.col - u.col
        }),
{
    if u != v {
        let i: int = if u.row > v.row {
            0
        } else if u.col < v.col {
            1
        } else if u.row < v.row {
            2
        } else {
            3
        };
        let w = step_to(u, i);
        assert(isolated(maze, u));
        assert(interior(maze, w));
        assert(is_cell(maze, w));
        lemma_unbuilt_spreads(maze, w, v);
    }
}

/// Every cell is built.
pub open spec fn all_cells_built(maze: &Maze) -> bool {
    forall|r: int, c: int|
        maze.in_bounds(r, c) && is_cell(maze, pt(r, c)) ==> spec_is_built(#[trigger] maze.square(r, c))
}

/// No cell is built.
pub open spec fn no_cells_built(maze: &Maze) -> bool {
    forall|r: int, c: int|
        maze.in_bounds(r, c) && is_cell(maze, pt(r, c)) ==> !spec_is_built(#[trigger] maze.square(r, c))
}

/// Where no unbuilt cell touches a built one, the cells are all built or
/// none is.
pub proof fn lemma_all_or_none(maze: &Maze)
    requires
        forall|w: Point| is_cell(maze, w) && !spec_is_built(#[trigger] sq(maze, w)) ==> isolated(maze, w),
    ensures
        all_cells_built(maze) || no_cells_built(maze),
{
    if !all_cells_built(maze) {
        let (ur, uc) = choose|r: int, c: int|
            maze.in_bounds(r, c) && is_cell(maze, pt(r, c)) && !spec_is_built(#[trigger] maze.square(r, c));
        let u = pt(ur, uc);
        assert(sq(maze, u) == maze.square(ur, uc));
        assert forall|r: int, c: int| maze.in_bounds(r, c) && is_cell(maze, pt(r, c)) implies !spec_is_built(
            #[trigger] maze.square(r, c),
        ) by {
            lemma_unbuilt_spreads(maze, u, pt(r, c));
            assert(sq(maze, pt(r, c)) == maze.square(r, c));
        }
    }
}


/// Where every built cell is finished, no unbuilt cell touches a built one.
pub proof fn lemma_finished_isolated(maze: &Maze)
    requires
        forall|u: Point| is_cell(maze, u) && spec_is_built(#[trigger] sq(maze, u)) ==> finished(maze, u),
    ensures
        forall|w: Point| is_cell(maze, w) && !spec_is_built(#[trigger] sq(maze, w)) ==> isolated(maze, w),
{
    assert forall|w: Point| is_cell(maze, w) && !spec_is_built(#[trigger] sq(maze, w)) implies isolated(maze, w) by {
        assert forall|i: int| 0 <= i < 4 implies (interior(maze, #[trigger] step_to(w, i)) ==> !spec_is_built(
            sq(maze, step_to(w, i)),
        )) by {
            let q = step_to(w, i);
            if interior(maze, q) && spec_is_built(sq(maze, q)) {
                assert(is_cell(maze, q));
                let back: int = if i < 2 { i + 2 } else { i - 2 };
                assert(blocked(maze, q, back));
                assert(step_to(q, back) == w);
            }
        }
    }
}

/// `a` and `b` are squares next to each other along a row or a column.
pub open spec fn adjacent(a: Point, b: Point) -> bool {
    ||| a.row == b.row && (b.col == a.col + 1 || b.col == a.col - 1)
    ||| a.col == b.col && (b.row == a.row + 1 || b.row == a.row - 1)
}

/// A walk over open squares of the grid, each next to the one before.
pub open spec fn open_walk(maze: &Maze, path: Seq<Point>) -> bool {
    &&& path.len() >= 1
    &&& forall|j: int| 0 <= j < path.len() ==> maze.in_bounds(#[trigger] path[j].row as int, path[j].col as int)
        && !spec_is_wall(maze.square(path[j].row as int, path[j].col as int))
    &&& forall|j: int| 1 <= j < path.len() ==> adjacent(path[j - 1], #[trigger] path[j])
}

/// Some walk over open squares leads from `a` to `b`.
pub open spec fn reaches(maze: &Maze, a: Point, b: Point) -> bool {
    exists|path: Seq<Point>| open_walk(maze, path) && path[0] == a && path.last() == b
}

/// Every built cell can be reached from `start` over open squares.
pub open spec fn cells_reached(maze: &Maze, start: Point) -> bool {
    forall|u: Point| is_cell(maze, u) && spec_is_built(#[trigger] sq(maze, u)) ==> reaches(maze, start, u)
}

/// Some cell reaches every built cell over open squares.
pub open spec fn one_reaches_all(maze: &Maze) -> bool {
    exists|s: Point| is_cell(maze, s) && cells_reached(maze, s)
}

/// From `m0` to `m1` the cells `cur` and `next` and the square between
/// them became open paths, no open square closed, and no other square became
/// built.
pub open spec fn opened_step(m0: &Maze, m1: &Maze, cur: Point, next: Point) -> bool {
    let w = between(cur, next);
    &&& forall|r: int, c: int|
        m0.in_bounds(r, c) && !spec_is_wall(m0.square(r, c)) ==> !spec_is_wall(#[trigger] m1.square(r, c))
    &&& forall|r: int, c: int|
        m0.in_bounds(r, c) && spec_is_built(#[trigger] m1.square(r, c)) && pt(r, c) != cur && pt(r, c) != next
            && pt(r, c) != w ==> spec_is_built(m0.square(r, c))
    &&& !spec_is_wall(sq(m1, cur))
    &&& !spec_is_wall(sq(m1, w))
    &&& !spec_is_wall(sq(m1, next))
}

/// Joining opens the step and nothing else.
pub proof fn lemma_joined_opened(m0: &Maze, m1: &Maze, cur: Point, next: Point)
    requires
        joined_from(m0, m1, cur, next),
        cell_step(m0, cur, next),
    ensures
        opened_step(m0, m1, cur, next),
{
    let w = between(cur, next);
    lemma_between_parity(cur, next);
    assert forall|r: int, c: int| m0.in_bounds(r, c) && !spec_is_wall(m0.square(r, c)) implies !spec_is_wall(
        #[trigger] m1.square(r, c),
    ) by {
        assert(join_fields(m0.square(r, c), m1.square(r, c), pt(r, c), cur, next));
    }
    assert forall|r: int, c: int|
        m0.in_bounds(r, c) && spec_is_built(#[trigger] m1.square(r, c)) && pt(r, c) != cur && pt(r, c) != next
            && pt(r, c) != w implies spec_is_built(m0.square(r, c)) by {
        assert(join_fields(m0.square(r, c), m1.square(r, c), pt(r, c), cur, next));
    }
    assert(m0.in_bounds(cur.row as int, cur.col as int));
    assert(m0.in_bounds(w.row as int, w.col as int));
    assert(m0.in_bounds(next.row as int, next.col as int));
    assert(join_fields(m0.square(cur.row as int, cur.col as int), m1.square(cur.row as int, cur.col as int), pt(cur.row as int, cur.col as int), cur, next));
    assert(join_fields(m0.square(w.row as int, w.col as int), m1.square(w.row as int, w.col as int), pt(w.row as int, w.col as int), cur, next));
    assert(join_fields(m0.square(next.row as int, next.col as int), m1.square(next.row as int, next.col as int), pt(next.row as int, next.col as int), cur, next));
}

/// Every cell can be reached from `start` over open squares.
pub open spec fn all_cells_reached(maze: &Maze, start: Point) -> bool {
    forall|u: Point| is_cell(maze, u) ==> #[trigger] reaches(maze, start, u)
}

/// Some cell reaches every cell over open squares.
pub open spec fn cells_connected(maze: &Maze) -> bool {
    exists|s: Point| is_cell(maze, s) && all_cells_reached(maze, s)
}

/// Two open squares next to each other reach each other.
pub proof fn lemma_next_reaches(m: &Maze, a: Point, b: Point)
    requires
        adjacent(a, b),
        m.in_bounds(a.row as int, a.col as int),
        m.in_bounds(b.row as int, b.col as int),
        !spec_is_wall(sq(m, a)),
        !spec_is_wall(sq(m, b)),
    ensures
        reaches(m, a, b),
{
    let path = seq![a, b];
    assert(open_walk(m, path) && path[0] == a && path.last() == b);
}

/// An open square reaches itself.
pub proof fn lemma_reaches_self(m: &Maze, a: Point)
    requires
        m.in_bounds(a.row as int, a.col as int),
        !spec_is_wall(sq(m, a)),
    ensures
        reaches(m, a, a),
{
    let path = seq![a];
    assert(open_walk(m, path) && path[0] == a && path.last() == a);
}

/// The square at row `r`, column `c` lies on the grid and is open.
pub open spec fn open_at(m: &Maze, r: int, c: int) -> bool {
    m.in_bounds(r, c) && !spec_is_wall(m.square(r, c))
}

/// Along a stretch of a row of open squares its ends reach each other.
pub proof fn lemma_row_reaches(m: &Maze, r: int, c1: int, c2: int)
    requires
        c1 <= c2,
        forall|c: int| c1 <= c <= c2 ==> #[trigger] open_at(m, r, c),
    ensures
        reaches(m, pt(r, c1), pt(r, c2)),
        reaches(m, pt(r, c2), pt(r, c1)),
    decreases c2 - c1,
{
    assert(open_at(m, r, c2));
    if c1 == c2 {
        lemma_reaches_self(m, pt(r, c1));
    } else {
        assert(open_at(m, r, c2 - 1));
        lemma_row_reaches(m, r, c1, c2 - 1);
        lemma_next_reaches(m, pt(r, c2 - 1), pt(r, c2));
        lemma_reaches_concat(m, pt(r, c1), pt(r, c2 - 1), pt(r, c2));
    }
    lemma_reaches_reverse(m, pt(r, c1), pt(r, c2));
}

/// Along a stretch of a column of open squares its ends reach each other.
pub proof fn lemma_col_reaches(m: &Maze, c: int, r1: int, r2: int)
    requires
        r1 <= r2,
        forall|r: int| r1 <= r <= r2 ==> #[trigger] open_at(m, r, c),
    ensures
        reaches(m, pt(r1, c), pt(r2, c)),
        reaches(m, pt(r2, c), pt(r1, c)),
    decreases r2 - r1,
{
    assert(open_at(m, r2, c));
    if r1 == r2 {
        lemma_reaches_self(m, pt(r1, c));
    } else {
        assert(open_at(m, r2 - 1, c));
        lemma_col_reaches(m, c, r1, r2 - 1);
        lemma_next_reaches(m, pt(r2 - 1, c), pt(r2, c));
        lemma_reaches_concat(m, pt(r1, c), pt(r2 - 1, c), pt(r2, c));
    }
    lemma_reaches_reverse(m, pt(r1, c), pt(r2, c));
}

/// In a rectangle of open squares every square reaches every other.
pub proof fn lemma_rect_reaches(m: &Maze, r0: int, c0: int, r1: int, c1: int, a: Point, b: Point)
    requires
        forall|r: int, c: int| r0 <= r <= r1 && c0 <= c <= c1 ==> #[trigger] open_at(m, r, c),
        r0 <= a.row <= r1,
        c0 <= a.col <= c1,
        r0 <= b.row <= r1,
        c0 <= b.col <= c1,
    ensures
        reaches(m, a, b),
{
    let ar = a.row as int;
    let ac = a.col as int;
    let br = b.row as int;
    let bc = b.col as int;
    assert forall|c: int| (if ac <= bc { ac } else { bc }) <= c <= (if ac <= bc { bc } else { ac }) implies #[trigger] open_at(m, ar, c) by {}
    if ac <= bc {
        lemma_row_reaches(m, ar, ac, bc);
    } else {
        lemma_row_reaches(m, ar, bc, ac);
    }
    assert forall|r: int| (if ar <= br { ar } else { br }) <= r <= (if ar <= br { br } else { ar }) implies #[trigger] open_at(m, r, bc) by {}
    if ar <= br {
        lemma_col_reaches(m, bc, ar, br);
    } else {
        lemma_col_reaches(m, bc, br, ar);
    }
    assert(pt(ar, ac) == a);
    assert(pt(br, bc) == b);
    lemma_reaches_concat(m, a, pt(ar, bc), b);
}

/// A walk read backwards leads back.
pub proof fn lemma_reaches_reverse(m: &Maze, u: Point, v: Point)
    requires
        reaches(m, u, v),
    ensures
        reaches(m, v, u),
{
    let path = choose|path: Seq<Point>| open_walk(m, path) && path[0] == u && path.last() == v;
    let n = path.len();
    let back = Seq::new(n, |j: int| path[n - 1 - j]);
    assert forall|j: int| 0 <= j < back.len() implies m.in_bounds(#[trigger] back[j].row as int, back[j].col as int)
        && !spec_is_wall(m.square(back[j].row as int, back[j].col as int)) by {
        assert(back[j] == path[n - 1 - j]);
    }
    assert forall|j: int| 1 <= j < back.len() implies adjacent(back[j - 1], #[trigger] back[j]) by {
        assert(back[j] == path[n - 1 - j]);
        assert(back[j - 1] == path[n - j]);
        assert(adjacent(path[n - j - 1], path[n - j]));
    }
    assert(open_walk(m, back) && back[0] == v && back.last() == u);
}

/// Two walks that meet make one.
pub proof fn lemma_reaches_concat(m: &Maze, u: Point, v: Point, x: Point)
    requires
        reaches(m, u, v),
        reaches(m, v, x),
    ensures
        reaches(m, u, x),
{
    let p1 = choose|path: Seq<Point>| open_walk(m, path) && path[0] == u && path.last() == v;
    let p2 = choose|path: Seq<Point>| open_walk(m, path) && path[0] == v && path.last() == x;
    let tail = p2.subrange(1, p2.len() as int);
    let joined = p1 + tail;
    assert forall|j: int| 0 <= j < joined.len() implies m.in_bounds(#[trigger] joined[j].row as int, joined[j].col as int)
        && !spec_is_wall(m.square(joined[j].row as int, joined[j].col as int)) by {
        if j < p1.len() {
            assert(joined[j] == p1[j]);
        } else {
            assert(joined[j] == p2[j - p1.len() + 1]);
        }
    }
    assert forall|j: int| 1 <= j < joined.len() implies adjacent(joined[j - 1], #[trigger] joined[j]) by {
        if j < p1.len() {
            assert(joined[j] == p1[j] && joined[j - 1] == p1[j - 1]);
        } else if j == p1.len() {
            assert(joined[j] == p2[1] && joined[j - 1] == p1.last());
            assert(adjacent(p2[0], p2[1]));
        } else {
            assert(joined[j] == p2[j - p1.len() + 1] && joined[j - 1] == p2[j - p1.len()]);
        }
    }
    if p2.len() == 1 {
        assert(joined =~= p1);
    } else {
        assert(joined.last() == p2.last());
    }
    assert(open_walk(m, joined) && joined[0] == u && joined.last() == x);
}

/// A step that opens no closed square keeps every walk.
pub proof fn lemma_reaches_keep(m0: &Maze, m1: &Maze, u: Point, v: Point)
    requires
        m1.same_shape(m0),
        forall|r: int, c: int|
            m0.in_bounds(r, c) && !spec_is_wall(m0.square(r, c)) ==> !spec_is_wall(#[trigger] m1.square(r, c)),
        reaches(m0, u, v),
    ensures
        reaches(m1, u, v),
{
    let path = choose|path: Seq<Point>| open_walk(m0, path) && path[0] == u && path.last() == v;
    lemma_step_keeps_walk(m0, m1, path);
    assert(open_walk(m1, path) && path[0] == u && path.last() == v);
}

/// An open step between two cells is a walk between them.
pub proof fn lemma_step_walk(m: &Maze, a: Point, b: Point)
    requires
        is_step(a, b),
        a.row % 2 == 1,
        a.col % 2 == 1,
        m.in_bounds(a.row as int, a.col as int),
        m.in_bounds(b.row as int, b.col as int),
        m.in_bounds(between(a, b).row as int, between(a, b).col as int),
        !spec_is_wall(sq(m, a)),
        !spec_is_wall(sq(m, between(a, b))),
        !spec_is_wall(sq(m, b)),
    ensures
        reaches(m, a, b),
{
    let w = between(a, b);
    lemma_between_parity(a, b);
    let path = seq![a, w, b];
    assert(adjacent(a, w) && adjacent(w, b));
    assert(open_walk(m, path) && path[0] == a && path.last() == b);
}

/// Opening a step opens it in both directions.
pub proof fn lemma_opened_swap(m0: &Maze, m1: &Maze, a: Point, b: Point)
    requires
        opened_step(m0, m1, a, b),
        is_step(a, b),
        a.row % 2 == 1,
        a.col % 2 == 1,
    ensures
        opened_step(m0, m1, b, a),
{
    lemma_between_parity(a, b);
}

/// A step that opens no closed square keeps every walk over open squares open.
proof fn lemma_step_keeps_walk(m0: &Maze, m1: &Maze, path: Seq<Point>)
    requires
        m1.same_shape(m0),
        forall|r: int, c: int|
            m0.in_bounds(r, c) && !spec_is_wall(m0.square(r, c)) ==> !spec_is_wall(#[trigger] m1.square(r, c)),
        open_walk(m0, path),
    ensures
        open_walk(m1, path),
{
    assert forall|j: int| 0 <= j < path.len() implies m1.in_bounds(#[trigger] path[j].row as int, path[j].col as int)
        && !spec_is_wall(m1.square(path[j].row as int, path[j].col as int)) by {
        let q = path[j];
        assert(m0.in_bounds(q.row as int, q.col as int));
    }
}

/// Leaving every wall and every builder bit as it was keeps every built cell
/// reached from `start`.
pub proof fn lemma_same_walls_reaches(m0: &Maze, m1: &Maze, start: Point)
    requires
        m1.same_shape(m0),
        cells_reached(m0, start),
        forall|r: int, c: int| m0.in_bounds(r, c) ==> spec_is_wall(#[trigger] m1.square(r, c)) == spec_is_wall(m0.square(r, c))
            && spec_is_built(m1.square(r, c)) == spec_is_built(m0.square(r, c)),
    ensures
        cells_reached(m1, start),
{
    assert forall|u: Point| is_cell(m1, u) && spec_is_built(#[trigger] sq(m1, u)) implies reaches(m1, start, u) by {
        assert(m0.in_bounds(u.row as int, u.col as int));
        assert(is_cell(m0, u) && spec_is_built(sq(m0, u)));
        let path = choose|path: Seq<Point>| open_walk(m0, path) && path[0] == start && path.last() == u;
        assert forall|r: int, c: int| m0.in_bounds(r, c) && !spec_is_wall(m0.square(r, c)) implies !spec_is_wall(
            #[trigger] m1.square(r, c),
        ) by {}
        lemma_step_keeps_walk(m0, m1, path);
        assert(open_walk(m1, path) && path[0] == start && path.last() == u);
    }
}

/// Opening the step from a cell that `start` reaches, or from `start`
/// itself, to the cell `next` keeps every built cell reached from `start`.
pub proof fn lemma_step_reaches(m0: &Maze, m1: &Maze, start: Point, cur: Point, next: Point)
    requires
        m1.same_shape(m0),
        opened_step(m0, m1, cur, next),
        cells_reached(m0, start),
        cell_step(m0, cur, next),
        cur == start || spec_is_built(sq(m0, cur)),
    ensures
        cells_reached(m1, start),
{
    let w = between(cur, next);
    lemma_between_parity(cur, next);
    assert(adjacent(cur, w) && adjacent(w, next));
    assert(m0.in_bounds(cur.row as int, cur.col as int));
    assert(m0.in_bounds(w.row as int, w.col as int));
    assert(m0.in_bounds(next.row as int, next.col as int));
    let to_cur: Seq<Point> = if cur == start {
        seq![cur]
    } else {
        choose|path: Seq<Point>| open_walk(m0, path) && path[0] == start && path.last() == cur
    };
    if cur != start {
        assert(is_cell(m0, cur));
        assert(reaches(m0, start, cur));
        lemma_step_keeps_walk(m0, m1, to_cur);
    }
    assert(open_walk(m1, to_cur));
    let to_next = to_cur.push(w).push(next);
    assert(open_walk(m1, to_next)) by {
        assert forall|j: int| 0 <= j < to_next.len() implies m1.in_bounds(#[trigger] to_next[j].row as int, to_next[j].col as int)
            && !spec_is_wall(m1.square(to_next[j].row as int, to_next[j].col as int)) by {
            if j < to_cur.len() {
                assert(to_next[j] == to_cur[j]);
            }
        }
        assert forall|j: int| 1 <= j < to_next.len() implies adjacent(to_next[j - 1], #[trigger] to_next[j]) by {
            if j < to_cur.len() {
                assert(to_next[j] == to_cur[j] && to_next[j - 1] == to_cur[j - 1]);
            } else if j == to_cur.len() {
                assert(to_next[j - 1] == to_cur.last());
            }
        }
    }
    assert(to_next[0] == start && to_next.last() == next);
    assert forall|u: Point| is_cell(m1, u) && spec_is_built(#[trigger] sq(m1, u)) implies reaches(m1, start, u) by {
        if u == next {
            assert(open_walk(m1, to_next) && to_next[0] == start && to_next.last() == next);
        } else if u == cur {
            assert(open_walk(m1, to_cur) && to_cur[0] == start && to_cur.last() == cur);
        } else {
            assert(m0.in_bounds(u.row as int, u.col as int));
            assert(pt(u.row as int, u.col as int) == u);
            assert(u != w);
            assert(spec_is_built(m1.square(u.row as int, u.col as int)));
            assert(is_cell(m0, u) && spec_is_built(sq(m0, u)));
            let path = choose|path: Seq<Point>| open_walk(m0, path) && path[0] == start && path.last() == u;
            lemma_step_keeps_walk(m0, m1, path);
            assert(open_walk(m1, path) && path[0] == start && path.last() == u);
        }
    }
}

/// Joining a cell that `start` reaches, or `start` itself, to the cell
/// `next` keeps every built cell reached from `start`.
pub proof fn lemma_join_reaches(m0: &Maze, m1: &Maze, start: Point, cur: Point, next: Point)
    requires
        m1.same_shape(m0),
        joined_from(m0, m1, cur, next),
        cells_reached(m0, start),
        cell_step(m0, cur, next),
        cur == start || spec_is_built(sq(m0, cur)),
    ensures
        cells_reached(m1, start),
{
    lemma_joined_opened(m0, m1, cur, next);
    lemma_step_reaches(m0, m1, start, cur, next);
}

/// The square at index `k` of a grid `cols` wide lies on a wall slot: one
/// coordinate odd and the other even.
pub open spec fn slot_at(cols: int, k: int) -> bool {
    (k / cols + k % cols) % 2 == 1
}

/// The square at index `k` of a grid `cols` wide lies on a cell.
pub open spec fn cell_at(cols: int, k: int) -> bool {
    (k / cols) % 2 == 1 && (k % cols) % 2 == 1
}

/// One when the square at `k` is an open wall slot, else zero.
pub open spec fn open_slot_one(s: Seq<Square>, cols: int, k: int) -> int {
    if slot_at(cols, k) && !spec_is_wall(s[k]) { 1 } else { 0 }
}

/// One when the square at `k` is a built cell, else zero.
pub open spec fn built_cell_one(s: Seq<Square>, cols: int, k: int) -> int {
    if cell_at(cols, k) && spec_is_built(s[k]) { 1 } else { 0 }
}

/// How many of the first `n` squares are open wall slots.
pub open spec fn open_slots(s: Seq<Square>, cols: int, n: int) -> int
    decreases n,
{
    if n <= 0 { 0 } else { open_slots(s, cols, n - 1) + open_slot_one(s, cols, n - 1) }
}

/// How many of the first `n` squares are built cells.
pub open spec fn built_cells(s: Seq<Square>, cols: int, n: int) -> int
    decreases n,
{
    if n <= 0 { 0 } else { built_cells(s, cols, n - 1) + built_cell_one(s, cols, n - 1) }
}

/// The change at index `x` counted among the first `n` squares.
pub open spec fn slot_change(s0: Seq<Square>, s1: Seq<Square>, cols: int, x: int, n: int) -> int {
    if 0 <= x < n { open_slot_one(s1, cols, x) - open_slot_one(s0, cols, x) } else { 0 }
}

/// The change at index `x` counted among the first `n` squares.
pub open spec fn cell_change(s0: Seq<Square>, s1: Seq<Square>, cols: int, x: int, n: int) -> int {
    if 0 <= x < n { built_cell_one(s1, cols, x) - built_cell_one(s0, cols, x) } else { 0 }
}

/// When only the squares at `a`, `b` and `c` change their wall or builder
/// bit, the counts change by what changes there.
proof fn lemma_counts_three(s0: Seq<Square>, s1: Seq<Square>, cols: int, n: int, a: int, b: int, c: int)
    requires
        0 <= n <= s0.len(),
        s1.len() == s0.len(),
        a != b && a != c && b != c,
        forall|k: int|
            0 <= k < s0.len() && k != a && k != b && k != c ==> spec_is_wall(#[trigger] s1[k]) == spec_is_wall(s0[k])
                && spec_is_built(s1[k]) == spec_is_built(s0[k]),
    ensures
        open_slots(s1, cols, n) == open_slots(s0, cols, n) + slot_change(s0, s1, cols, a, n) + slot_change(s0, s1, cols, b, n)
            + slot_change(s0, s1, cols, c, n),
        built_cells(s1, cols, n) == built_cells(s0, cols, n) + cell_change(s0, s1, cols, a, n) + cell_change(s0, s1, cols, b, n)
            + cell_change(s0, s1, cols, c, n),
    decreases n,
{
    if n > 0 {
        lemma_counts_three(s0, s1, cols, n - 1, a, b, c);
        let k = n - 1;
        if k != a && k != b && k != c {
            assert(spec_is_wall(s1[k]) == spec_is_wall(s0[k]) && spec_is_built(s1[k]) == spec_is_built(s0[k]));
        }
    }
}

/// The index of a square gives back its row and column.
pub proof fn lemma_index_coords(r: int, c: int, cols: int)
    requires
        0 <= r,
        0 <= c < cols,
    ensures
        cell_index(r, c, cols) / cols == r,
        cell_index(r, c, cols) % cols == c,
{
    vstd::arithmetic::div_mod::lemma_fundamental_div_mod_converse(r * cols + c, cols, r, c);
}

/// The wall slots between an unbuilt cell and the cells next to it are
/// walls.
pub open spec fn unbuilt_closed(maze: &Maze) -> bool {
    forall|u: Point, v: Point|
        #![trigger sq(maze, u), between(u, v)]
        is_cell(maze, u) && !spec_is_built(sq(maze, u)) && is_step(u, v) && interior(maze, v)
            ==> spec_is_wall(sq(maze, between(u, v)))
}

/// Open wall slots number one less than built cells, or none are either:
/// the open slots join the built cells as a tree once they are connected.
pub open spec fn tree_count(maze: &Maze) -> bool {
    let s = maze.squares();
    let cols = maze.cols_spec();
    let n = s.len() as int;
    ||| open_slots(s, cols, n) + 1 == built_cells(s, cols, n)
    ||| open_slots(s, cols, n) == 0 && built_cells(s, cols, n) == 0
}

/// From `m0` to `m1` only `cur`, `next` and the square between them changed
/// their wall or builder bit: the two cells are built paths and the square
/// between them a path.
pub open spec fn step_exact(m0: &Maze, m1: &Maze, cur: Point, next: Point) -> bool {
    let w = between(cur, next);
    &&& forall|r: int, c: int|
        m0.in_bounds(r, c) && pt(r, c) != cur && pt(r, c) != next && pt(r, c) != w ==> spec_is_wall(
            #[trigger] m1.square(r, c),
        ) == spec_is_wall(m0.square(r, c)) && spec_is_built(m1.square(r, c)) == spec_is_built(m0.square(r, c))
    &&& spec_is_built(sq(m1, cur)) && !spec_is_wall(sq(m1, cur))
    &&& spec_is_built(sq(m1, next)) && !spec_is_wall(sq(m1, next))
    &&& !spec_is_wall(sq(m1, w))
}

/// Joining touches nothing but the step.
pub proof fn lemma_joined_exact(m0: &Maze, m1: &Maze, cur: Point, next: Point)
    requires
        joined_from(m0, m1, cur, next),
        cell_step(m0, cur, next),
    ensures
        step_exact(m0, m1, cur, next),
{
    let w = between(cur, next);
    lemma_between_parity(cur, next);
    assert forall|r: int, c: int|
        m0.in_bounds(r, c) && pt(r, c) != cur && pt(r, c) != next && pt(r, c) != w implies spec_is_wall(
        #[trigger] m1.square(r, c),
    ) == spec_is_wall(m0.square(r, c)) && spec_is_built(m1.square(r, c)) == spec_is_built(m0.square(r, c)) by {
        assert(join_fields(m0.square(r, c), m1.square(r, c), pt(r, c), cur, next));
    }
    assert(join_fields(m0.square(cur.row as int, cur.col as int), m1.square(cur.row as int, cur.col as int), pt(cur.row as int, cur.col as int), cur, next));
    assert(join_fields(m0.square(w.row as int, w.col as int), m1.square(w.row as int, w.col as int), pt(w.row as int, w.col as int), cur, next));
    assert(join_fields(m0.square(next.row as int, next.col as int), m1.square(next.row as int, next.col as int), pt(next.row as int, next.col as int), cur, next));
}

pub proof fn lemma_counts_nonneg(s: Seq<Square>, cols: int, n: int)
    ensures
        open_slots(s, cols, n) >= 0,
        built_cells(s, cols, n) >= 0,
    decreases n,
{
    if n > 0 {
        lemma_counts_nonneg(s, cols, n - 1);
    }
}

proof fn lemma_cells_positive(s: Seq<Square>, cols: int, n: int, k: int)
    requires
        0 <= k < n,
        cell_at(cols, k) && spec_is_built(s[k]),
    ensures
        built_cells(s, cols, n) >= 1,
    decreases n,
{
    lemma_counts_nonneg(s, cols, n - 1);
    if k < n - 1 {
        lemma_cells_positive(s, cols, n - 1, k);
    }
}

proof fn lemma_counts_same(s0: Seq<Square>, s1: Seq<Square>, cols: int, n: int)
    requires
        0 <= n <= s0.len(),
        s1.len() == s0.len(),
        forall|k: int|
            0 <= k < s0.len() ==> spec_is_wall(#[trigger] s1[k]) == spec_is_wall(s0[k]) && spec_is_built(s1[k])
                == spec_is_built(s0[k]),
    ensures
        open_slots(s1, cols, n) == open_slots(s0, cols, n),
        built_cells(s1, cols, n) == built_cells(s0, cols, n),
    decreases n,
{
    if n > 0 {
        lemma_counts_same(s0, s1, cols, n - 1);
        assert(spec_is_wall(s1[n - 1]) == spec_is_wall(s0[n - 1]));
    }
}

proof fn lemma_counts_zero(s: Seq<Square>, cols: int, n: int)
    requires
        0 <= n <= s.len(),
        forall|k: int| 0 <= k < s.len() ==> spec_is_wall(#[trigger] s[k]) && !spec_is_built(s[k]),
    ensures
        open_slots(s, cols, n) == 0,
        built_cells(s, cols, n) == 0,
    decreases n,
{
    if n > 0 {
        lemma_counts_zero(s, cols, n - 1);
        assert(spec_is_wall(s[n - 1]) && !spec_is_built(s[n - 1]));
    }
}

/// The square at index `k` of a well formed grid, read by row and column.
proof fn lemma_index_square(m: &Maze, k: int)
    requires
        m.wf(),
        0 <= k < m.squares().len(),
    ensures
        m.in_bounds(k / m.cols_spec(), k % m.cols_spec()),
        cell_index(k / m.cols_spec(), k % m.cols_spec(), m.cols_spec()) == k,
        m.square(k / m.cols_spec(), k % m.cols_spec()) == m.squares()[k],
{
    let cols = m.cols_spec();
    let r = k / cols;
    let c = k % cols;
    vstd::arithmetic::div_mod::lemma_fundamental_div_mod(k, cols);
    vstd::arithmetic::mul::lemma_mul_is_commutative(r, cols);
    assert(k == r * cols + c);
    assert(0 <= r < m.rows_spec()) by (nonlinear_arith)
        requires
            k == r * cols + c,
            0 <= c < cols,
            0 <= k < m.rows_spec() * cols,
            cols > 0,
    ;
}

/// Changing no wall and no builder bit keeps the counts and the closed
/// slots.
pub proof fn lemma_same_walls_tree(m0: &Maze, m1: &Maze)
    requires
        m0.wf(),
        m1.same_shape(m0),
        forall|r: int, c: int| m0.in_bounds(r, c) ==> spec_is_wall(#[trigger] m1.square(r, c)) == spec_is_wall(m0.square(r, c))
            && spec_is_built(m1.square(r, c)) == spec_is_built(m0.square(r, c)),
    ensures
        open_slots(m1.squares(), m1.cols_spec(), m1.squares().len() as int) == open_slots(
            m0.squares(),
            m0.cols_spec(),
            m0.squares().len() as int,
        ),
        built_cells(m1.squares(), m1.cols_spec(), m1.squares().len() as int) == built_cells(
            m0.squares(),
            m0.cols_spec(),
            m0.squares().len() as int,
        ),
        tree_count(m0) ==> tree_count(m1),
        unbuilt_closed(m0) ==> unbuilt_closed(m1),
        crate::builders::recursive_subdivision::posts_walled(m0) ==> crate::builders::recursive_subdivision::posts_walled(m1),
{
    if crate::builders::recursive_subdivision::posts_walled(m0) {
        assert forall|r: int, c: int| m1.in_bounds(r, c) && r % 2 == 0 && c % 2 == 0 implies spec_is_wall(
            #[trigger] m1.square(r, c),
        ) by {
            assert(spec_is_wall(m0.square(r, c)));
        }
    }
    let s0 = m0.squares();
    let s1 = m1.squares();
    assert forall|k: int| 0 <= k < s0.len() implies spec_is_wall(#[trigger] s1[k]) == spec_is_wall(s0[k])
        && spec_is_built(s1[k]) == spec_is_built(s0[k]) by {
        lemma_index_square(m0, k);
        let r = k / m0.cols_spec();
        let c = k % m0.cols_spec();
        assert(m1.square(r, c) == s1[k]);
    }
    lemma_counts_same(s0, s1, m0.cols_spec(), s0.len() as int);
    if unbuilt_closed(m0) {
        assert forall|u: Point, v: Point|
            #![trigger sq(m1, u), between(u, v)]
            is_cell(m1, u) && !spec_is_built(sq(m1, u)) && is_step(u, v) && interior(m1, v) implies spec_is_wall(
            sq(m1, between(u, v)),
        ) by {
            lemma_between_parity(u, v);
            assert(m0.in_bounds(u.row as int, u.col as int));
            assert(!spec_is_built(sq(m0, u)));
            assert(spec_is_wall(sq(m0, between(u, v))));
            assert(m0.in_bounds(between(u, v).row as int, between(u, v).col as int));
        }
    }
}

/// A grid of fresh walls counts nothing and has every slot closed.
pub proof fn lemma_walls_tree(m: &Maze)
    requires
        m.wf(),
        forall|r: int, c: int| m.in_bounds(r, c) ==> spec_is_wall(#[trigger] m.square(r, c)) && !spec_is_built(m.square(r, c)),
    ensures
        open_slots(m.squares(), m.cols_spec(), m.squares().len() as int) == 0,
        built_cells(m.squares(), m.cols_spec(), m.squares().len() as int) == 0,
        tree_count(m),
        unbuilt_closed(m),
{
    let s = m.squares();
    assert forall|k: int| 0 <= k < s.len() implies spec_is_wall(#[trigger] s[k]) && !spec_is_built(s[k]) by {
        lemma_index_square(m, k);
    }
    lemma_counts_zero(s, m.cols_spec(), s.len() as int);
    assert forall|u: Point, v: Point|
        #![trigger sq(m, u), between(u, v)]
        is_cell(m, u) && !spec_is_built(sq(m, u)) && is_step(u, v) && interior(m, v) implies spec_is_wall(
        sq(m, between(u, v)),
    ) by {
        lemma_between_parity(u, v);
        assert(m.in_bounds(between(u, v).row as int, between(u, v).col as int));
    }
}

/// A grid just filled with walls counts nothing and has every slot closed.
pub proof fn lemma_filled_tree(m: &Maze)
    requires
        m.wf(),
        crate::builders::build_ops::all_walls(m),
    ensures
        built_cells(m.squares(), m.cols_spec(), m.squares().len() as int) == 0,
        open_slots(m.squares(), m.cols_spec(), m.squares().len() as int) == 0,
        tree_count(m),
        unbuilt_closed(m),
        crate::builders::recursive_subdivision::posts_walled(m),
{
    assert forall|r: int, c: int| m.in_bounds(r, c) implies spec_is_wall(#[trigger] m.square(r, c)) && !spec_is_built(
        m.square(r, c),
    ) by {
        lemma_walled_bits(m.rows_spec(), m.cols_spec(), r, c);
    }
    lemma_walls_tree(m);
}

/// What a builder that grows a tree from `start` keeps: every built cell
/// reached from `start`, the tree count, the slots of unbuilt cells closed,
/// the posts walled, and `start` built once anything is.
#[verifier::opaque]
pub open spec fn tree_grown(maze: &Maze, start: Point) -> bool {
    &&& cells_reached(maze, start)
    &&& tree_count(maze)
    &&& unbuilt_closed(maze)
    &&& crate::builders::recursive_subdivision::posts_walled(maze)
    &&& spec_is_built(sq(maze, start)) || built_cells(maze.squares(), maze.cols_spec(), maze.squares().len() as int) == 0
}

/// What a grown tree gives: every built cell reached from `start`, the
/// tree count and the posts walled.
pub proof fn lemma_grown_facts(m: &Maze, start: Point)
    requires
        tree_grown(m, start),
    ensures
        cells_reached(m, start),
        tree_count(m),
        crate::builders::recursive_subdivision::posts_walled(m),
        spec_is_built(sq(m, start)) || built_cells(m.squares(), m.cols_spec(), m.squares().len() as int) == 0,
{
    reveal(tree_grown);
}

/// A grid just filled with walls has grown nothing yet.
pub proof fn lemma_filled_grown(m: &Maze, start: Point)
    requires
        m.wf(),
        crate::builders::build_ops::all_walls(m),
    ensures
        tree_grown(m, start),
{
    reveal(tree_grown);
    lemma_filled_tree(m);
    assert forall|u: Point| is_cell(m, u) && spec_is_built(#[trigger] sq(m, u)) implies reaches(m, start, u) by {
        assert(m.in_bounds(u.row as int, u.col as int));
        lemma_walled_bits(m.rows_spec(), m.cols_spec(), u.row as int, u.col as int);
    }
}

/// Changing no wall and no builder bit keeps the grown tree.
pub proof fn lemma_same_walls_grown(m0: &Maze, m1: &Maze, start: Point)
    requires
        m0.wf(),
        m1.same_shape(m0),
        tree_grown(m0, start),
        is_cell(m0, start),
        forall|r: int, c: int| m0.in_bounds(r, c) ==> spec_is_wall(#[trigger] m1.square(r, c)) == spec_is_wall(m0.square(r, c))
            && spec_is_built(m1.square(r, c)) == spec_is_built(m0.square(r, c)),
    ensures
        tree_grown(m1, start),
{
    reveal(tree_grown);
    lemma_same_walls_reaches(m0, m1, start);
    lemma_same_walls_tree(m0, m1);
    assert(m0.in_bounds(start.row as int, start.col as int));
}

/// Joining a cell of the tree, or `start` when nothing is built, to an
/// unbuilt cell grows the tree.
pub proof fn lemma_join_grows(m0: &Maze, m1: &Maze, start: Point, cur: Point, next: Point)
    requires
        m0.wf(),
        m1.same_shape(m0),
        tree_grown(m0, start),
        is_cell(m0, start),
        joined_from(m0, m1, cur, next),
        cell_step(m0, cur, next),
        !spec_is_built(sq(m0, next)),
        cur == start || spec_is_built(sq(m0, cur)),
    ensures
        tree_grown(m1, start),
        spec_is_built(sq(m1, start)),
{
    lemma_joined_exact(m0, m1, cur, next);
    lemma_step_grows(m0, m1, start, cur, next);
}

/// Opening a step from a cell of the tree, or from `start` when nothing is
/// built, to an unbuilt cell grows the tree.
pub proof fn lemma_step_grows(m0: &Maze, m1: &Maze, start: Point, cur: Point, next: Point)
    requires
        m0.wf(),
        m1.same_shape(m0),
        tree_grown(m0, start),
        is_cell(m0, start),
        step_exact(m0, m1, cur, next),
        cell_step(m0, cur, next),
        !spec_is_built(sq(m0, next)),
        cur == start || spec_is_built(sq(m0, cur)),
    ensures
        tree_grown(m1, start),
        spec_is_built(sq(m1, start)),
{
    reveal(tree_grown);
    let w = between(cur, next);
    lemma_between_parity(cur, next);
    assert(opened_step(m0, m1, cur, next)) by {
        assert forall|r: int, c: int| m0.in_bounds(r, c) && !spec_is_wall(m0.square(r, c)) implies !spec_is_wall(
            #[trigger] m1.square(r, c),
        ) by {
            if pt(r, c) == cur || pt(r, c) == next || pt(r, c) == w {
                assert(pt(r, c).row == r && pt(r, c).col == c);
            }
        }
        assert forall|r: int, c: int|
            m0.in_bounds(r, c) && spec_is_built(#[trigger] m1.square(r, c)) && pt(r, c) != cur && pt(r, c) != next
                && pt(r, c) != w implies spec_is_built(m0.square(r, c)) by {}
    }
    if cur != start && !spec_is_built(sq(m0, cur)) {
        assert(false);
    }
    if cur == start && !spec_is_built(sq(m0, cur)) {
    } else {
        lemma_built_counts(m0, cur);
    }
    lemma_step_reaches(m0, m1, start, cur, next);
    lemma_step_tree(m0, m1, cur, next);
    assert(m0.in_bounds(start.row as int, start.col as int));
    if start != cur && start != next {
        assert(pt(start.row as int, start.col as int) == start);
        assert(start != w);
        assert(spec_is_built(sq(m0, start)));
    }
}

/// Opening a step adds one open slot when the slot between was closed and
/// nothing when it was open.
pub proof fn lemma_step_slots(m0: &Maze, m1: &Maze, cur: Point, next: Point)
    requires
        m0.wf(),
        m1.same_shape(m0),
        step_exact(m0, m1, cur, next),
        cell_step(m0, cur, next),
    ensures
        open_slots(m1.squares(), m1.cols_spec(), m1.squares().len() as int) == open_slots(
            m0.squares(),
            m0.cols_spec(),
            m0.squares().len() as int,
        ) + if spec_is_wall(sq(m0, between(cur, next))) { 1int } else { 0int },
{
    let w = between(cur, next);
    let cols = m0.cols_spec();
    let s0 = m0.squares();
    let s1 = m1.squares();
    let n = s0.len() as int;
    lemma_between_parity(cur, next);
    assert(is_cell(m0, next));
    assert(m0.in_bounds(cur.row as int, cur.col as int));
    assert(m0.in_bounds(w.row as int, w.col as int));
    assert(m0.in_bounds(next.row as int, next.col as int));
    let kc = m0.maze.index_of(cur.row as int, cur.col as int);
    let kw = m0.maze.index_of(w.row as int, w.col as int);
    let kn = m0.maze.index_of(next.row as int, next.col as int);
    m0.maze.lemma_index(cur.row as int, cur.col as int);
    m0.maze.lemma_index(w.row as int, w.col as int);
    m0.maze.lemma_index(next.row as int, next.col as int);
    crate::maze::lemma_cell_index_injective(cur.row as int, cur.col as int, w.row as int, w.col as int, cols);
    crate::maze::lemma_cell_index_injective(cur.row as int, cur.col as int, next.row as int, next.col as int, cols);
    crate::maze::lemma_cell_index_injective(next.row as int, next.col as int, w.row as int, w.col as int, cols);
    lemma_index_coords(cur.row as int, cur.col as int, cols);
    lemma_index_coords(w.row as int, w.col as int, cols);
    lemma_index_coords(next.row as int, next.col as int, cols);
    assert forall|k: int|
        0 <= k < s0.len() && k != kc && k != kw && k != kn implies spec_is_wall(#[trigger] s1[k]) == spec_is_wall(s0[k])
            && spec_is_built(s1[k]) == spec_is_built(s0[k]) by {
        let r = k / cols;
        let c = k % cols;
        lemma_index_square(m0, k);
        assert(m0.maze.index_of(r, c) == k);
        assert(pt(r, c) != cur && pt(r, c) != next && pt(r, c) != w);
        assert(m1.square(r, c) == s1[k]);
    }
    lemma_counts_three(s0, s1, cols, n, kc, kw, kn);
    assert(slot_at(cols, kw));
    assert(!slot_at(cols, kc) && !slot_at(cols, kn));
    assert(s0[kw] == sq(m0, w) && s1[kw] == sq(m1, w));
}

/// Opening a step leaves every post a wall.
pub proof fn lemma_step_posts(m0: &Maze, m1: &Maze, cur: Point, next: Point)
    requires
        m1.same_shape(m0),
        step_exact(m0, m1, cur, next),
        cell_step(m0, cur, next),
        crate::builders::recursive_subdivision::posts_walled(m0),
    ensures
        crate::builders::recursive_subdivision::posts_walled(m1),
{
    let w = between(cur, next);
    lemma_between_parity(cur, next);
    assert forall|r: int, c: int| m1.in_bounds(r, c) && r % 2 == 0 && c % 2 == 0 implies spec_is_wall(
        #[trigger] m1.square(r, c),
    ) by {
        assert(spec_is_wall(m0.square(r, c)));
        assert(pt(r, c) != cur && pt(r, c) != next && pt(r, c) != w);
    }
}

/// A built cell counts.
pub proof fn lemma_built_counts(m: &Maze, p: Point)
    requires
        m.wf(),
        is_cell(m, p),
        spec_is_built(sq(m, p)),
    ensures
        built_cells(m.squares(), m.cols_spec(), m.squares().len() as int) >= 1,
{
    let k = m.maze.index_of(p.row as int, p.col as int);
    m.maze.lemma_index(p.row as int, p.col as int);
    lemma_index_coords(p.row as int, p.col as int, m.cols_spec());
    assert(cell_at(m.cols_spec(), k));
    lemma_cells_positive(m.squares(), m.cols_spec(), m.squares().len() as int, k);
}

/// A step touches the same squares read in either direction.
pub proof fn lemma_exact_swap(m0: &Maze, m1: &Maze, a: Point, b: Point)
    requires
        step_exact(m0, m1, a, b),
        is_step(a, b),
        a.row % 2 == 1,
        a.col % 2 == 1,
    ensures
        step_exact(m0, m1, b, a),
{
    lemma_between_parity(a, b);
}

/// Opening the step from a built cell, or from the first cell when nothing
/// is built, to an unbuilt cell keeps the tree count and closes no slot of
/// an unbuilt cell.
pub proof fn lemma_step_tree(m0: &Maze, m1: &Maze, cur: Point, next: Point)
    requires
        m0.wf(),
        m1.same_shape(m0),
        step_exact(m0, m1, cur, next),
        cell_step(m0, cur, next),
        !spec_is_built(sq(m0, next)),
        unbuilt_closed(m0),
        tree_count(m0),
        spec_is_built(sq(m0, cur)) || built_cells(m0.squares(), m0.cols_spec(), m0.squares().len() as int) == 0,
    ensures
        unbuilt_closed(m1),
        tree_count(m1),
        open_slots(m1.squares(), m1.cols_spec(), m1.squares().len() as int) + 1 == built_cells(
            m1.squares(),
            m1.cols_spec(),
            m1.squares().len() as int,
        ),
        crate::builders::recursive_subdivision::posts_walled(m0) ==> crate::builders::recursive_subdivision::posts_walled(m1),
{
    let w = between(cur, next);
    let cols = m0.cols_spec();
    if crate::builders::recursive_subdivision::posts_walled(m0) {
        lemma_between_parity(cur, next);
        assert forall|r: int, c: int| m1.in_bounds(r, c) && r % 2 == 0 && c % 2 == 0 implies spec_is_wall(
            #[trigger] m1.square(r, c),
        ) by {
            assert(spec_is_wall(m0.square(r, c)));
            assert(pt(r, c) != cur && pt(r, c) != next && pt(r, c) != w);
        }
    }
    let s0 = m0.squares();
    let s1 = m1.squares();
    let n = s0.len() as int;
    lemma_between_parity(cur, next);
    assert(is_cell(m0, next));
    assert(m0.in_bounds(cur.row as int, cur.col as int));
    assert(m0.in_bounds(w.row as int, w.col as int));
    assert(m0.in_bounds(next.row as int, next.col as int));
    let kc = m0.maze.index_of(cur.row as int, cur.col as int);
    let kw = m0.maze.index_of(w.row as int, w.col as int);
    let kn = m0.maze.index_of(next.row as int, next.col as int);
    m0.maze.lemma_index(cur.row as int, cur.col as int);
    m0.maze.lemma_index(w.row as int, w.col as int);
    m0.maze.lemma_index(next.row as int, next.col as int);
    crate::maze::lemma_cell_index_injective(cur.row as int, cur.col as int, w.row as int, w.col as int, cols);
    crate::maze::lemma_cell_index_injective(cur.row as int, cur.col as int, next.row as int, next.col as int, cols);
    crate::maze::lemma_cell_index_injective(next.row as int, next.col as int, w.row as int, w.col as int, cols);
    lemma_index_coords(cur.row as int, cur.col as int, cols);
    lemma_index_coords(w.row as int, w.col as int, cols);
    lemma_index_coords(next.row as int, next.col as int, cols);
    // the slot between was closed: it borders the unbuilt `next`
    assert(is_step(next, cur));
    assert(between(next, cur) == w);
    assert(spec_is_wall(sq(m0, between(next, cur))));
    assert forall|k: int|
        0 <= k < s0.len() && k != kc && k != kw && k != kn implies spec_is_wall(#[trigger] s1[k]) == spec_is_wall(s0[k])
            && spec_is_built(s1[k]) == spec_is_built(s0[k]) by {
        let r = k / cols;
        let c = k % cols;
        lemma_index_square(m0, k);
        assert(m0.maze.index_of(r, c) == k);
        assert(pt(r, c) != cur && pt(r, c) != next && pt(r, c) != w);
        assert(m1.square(r, c) == s1[k]);
    }
    lemma_counts_three(s0, s1, cols, n, kc, kw, kn);
    lemma_counts_nonneg(s0, cols, n);
    assert(slot_at(cols, kw));
    assert(!slot_at(cols, kc) && !slot_at(cols, kn));
    assert(cell_at(cols, kc) && cell_at(cols, kn) && !cell_at(cols, kw));
    assert(s0[kw] == sq(m0, w) && s1[kw] == sq(m1, w));
    assert(s0[kc] == sq(m0, cur) && s1[kc] == sq(m1, cur));
    assert(s0[kn] == sq(m0, next) && s1[kn] == sq(m1, next));
    if spec_is_built(sq(m0, cur)) {
        lemma_cells_positive(s0, cols, n, kc);
    }
    assert forall|u: Point, v: Point|
        #![trigger sq(m1, u), between(u, v)]
        is_cell(m1, u) && !spec_is_built(sq(m1, u)) && is_step(u, v) && interior(m1, v) implies spec_is_wall(
        sq(m1, between(u, v)),
    ) by {
        let q = between(u, v);
        lemma_between_parity(u, v);
        assert(m0.in_bounds(u.row as int, u.col as int));
        assert(u != cur && u != next);
        assert(pt(u.row as int, u.col as int) == u);
        assert(u != w);
        assert(!spec_is_built(sq(m0, u)));
        assert(spec_is_wall(sq(m0, between(u, v))));
        assert(m0.in_bounds(q.row as int, q.col as int));
        assert(pt(q.row as int, q.col as int) == q);
        if q == w {
            // a slot borders two cells only
            assert(false);
        }
        assert(q != cur && q != next);
    }
}

/// No square carries a bit that no builder writes: no start, no finish and
/// no solver paint.
pub open spec fn clean_bits(maze: &Maze) -> bool {
    forall|r: int, c: int| maze.in_bounds(r, c) ==> crate::builders::build_ops::solver_bits(#[trigger] maze.square(r, c)) == 0
}

/// Joining keeps every square clean.
pub proof fn lemma_join_keeps_clean(m0: &Maze, m1: &Maze, a: Point, b: Point)
    requires
        clean_bits(m0),
        joined_from(m0, m1, a, b),
        m1.same_shape(m0),
    ensures
        clean_bits(m1),
{
    assert forall|r: int, c: int| m1.in_bounds(r, c) implies crate::builders::build_ops::solver_bits(#[trigger] m1.square(r, c)) == 0 by {
        assert(join_fields(m0.square(r, c), m1.square(r, c), pt(r, c), a, b));
    }
}

/// A grid of fresh walls is clean.
pub proof fn lemma_walls_clean(maze: &Maze)
    requires
        crate::builders::build_ops::all_walls(maze),
    ensures
        clean_bits(maze),
{
    assert forall|r: int, c: int| maze.in_bounds(r, c) implies crate::builders::build_ops::solver_bits(#[trigger] maze.square(r, c)) == 0 by {
        let x = maze.square(r, c);
        let n: u32 = if r > 0 { 0x0100_0000u32 } else { 0u32 };
        let so: u32 = if r + 1 < maze.rows_spec() { 0x0400_0000u32 } else { 0u32 };
        let w: u32 = if c > 0 { 0x0800_0000u32 } else { 0u32 };
        let e: u32 = if c + 1 < maze.cols_spec() { 0x0200_0000u32 } else { 0u32 };
        assert(x == n | so | w | e);
        assert((n == 0 || n == 0x0100_0000u32) && (so == 0 || so == 0x0400_0000u32) && (w == 0 || w == 0x0800_0000u32)
            && (e == 0 || e == 0x0200_0000u32) ==> (n | so | w | e) & 0xC0FF_FFF0u32 == 0) by (bit_vector);
    }
}

/// Joining keeps the squares every carving builder keeps clean: built
/// squares stay paths and no marker appears.
pub proof fn lemma_join_clean(m0: &Maze, m1: &Maze, a: Point, b: Point)
    requires
        built_paths(m0),
        no_markers(m0),
        joined_from(m0, m1, a, b),
        m1.same_shape(m0),
    ensures
        built_paths(m1),
        no_markers(m1),
{
    assert forall|r: int, c: int|
        m1.in_bounds(r, c) && spec_is_built(#[trigger] m1.square(r, c)) implies !spec_is_wall(m1.square(r, c)) by {
        assert(join_fields(m0.square(r, c), m1.square(r, c), pt(r, c), a, b));
    }
    assert forall|r: int, c: int| m1.in_bounds(r, c) implies spec_marker(#[trigger] m1.square(r, c)) == 0 by {
        assert(join_fields(m0.square(r, c), m1.square(r, c), pt(r, c), a, b));
    }
}

/// Joining from a cell keeps the edge walled.
pub proof fn lemma_join_perimeter(m0: &Maze, m1: &Maze, a: Point, b: Point)
    requires
        crate::builders::build_ops::perimeter_walls(m0),
        joined_from(m0, m1, a, b),
        m1.same_shape(m0),
        cell_step(m0, a, b),
    ensures
        crate::builders::build_ops::perimeter_walls(m1),
{
    lemma_between_parity(a, b);
    assert forall|r: int, c: int|
        m1.in_bounds(r, c) && !(0 < r < m1.rows_spec() - 1 && 0 < c < m1.cols_spec() - 1) implies spec_is_wall(
        #[trigger] m1.square(r, c),
    ) by {
        assert(join_fields(m0.square(r, c), m1.square(r, c), pt(r, c), a, b));
    }
}

} // verus!
