use vstd::prelude::*;
use crate::builders::build_ops::{
    at_offset, between, build_wall_line, build_wall_outline, interior, origin_marker, point_in,
    reshaped, spec_backtracking_point, sq, spec_is_built, spec_marker, wall_joined, wall_links,
    BacktrackMarker, ParityPoint, MARKERS_MASK,
};
use crate::builders::cells::{is_cell, is_step, pt};
use crate::maze::{
    cell_index, lemma_cell_index_injective, spec_is_wall, Maze, Point, Square, BUILDER_BIT, EAST_WALL, NORTH_WALL,
    PATH_BIT, SOUTH_WALL, WALL_MASK, WEST_WALL,
};

verus! {

/// The bit that marks the squares of the walk in progress.
pub const WALK_BIT: Square = 0b0100_0000_0000_0000;

pub open spec fn on_walk(square: Square) -> bool {
    square & WALK_BIT != 0
}

/// The four fields the builder reads of a square.
pub open spec fn same_fields(x0: Square, x1: Square) -> bool {
    &&& spec_is_built(x1) == spec_is_built(x0)
    &&& spec_is_wall(x1) == spec_is_wall(x0)
    &&& spec_marker(x1) == spec_marker(x0)
    &&& on_walk(x1) == on_walk(x0)
}

/// Setting or clearing the walk bit, clearing the markers or setting a marker
/// changes only that field.
proof fn lemma_field_bits(x: Square, m: BacktrackMarker)
    requires
        m <= 4,
    ensures
        spec_is_built(x | WALK_BIT) == spec_is_built(x) && spec_is_wall(x | WALK_BIT) == spec_is_wall(x)
            && spec_marker(x | WALK_BIT) == spec_marker(x) && on_walk(x | WALK_BIT),
        spec_is_built(x & !WALK_BIT) == spec_is_built(x) && spec_is_wall(x & !WALK_BIT) == spec_is_wall(x)
            && spec_marker(x & !WALK_BIT) == spec_marker(x) && !on_walk(x & !WALK_BIT),
        spec_is_built(x & !MARKERS_MASK) == spec_is_built(x) && spec_is_wall(x & !MARKERS_MASK) == spec_is_wall(x)
            && spec_marker(x & !MARKERS_MASK) == 0 && on_walk(x & !MARKERS_MASK) == on_walk(x),
        spec_is_built(x | m) == spec_is_built(x) && spec_is_wall(x | m) == spec_is_wall(x) && on_walk(x | m)
            == on_walk(x) && (spec_marker(x) == 0 ==> spec_marker(x | m) == m),
        spec_is_built(x & !WALK_BIT & !MARKERS_MASK) == spec_is_built(x) && spec_is_wall(
            x & !WALK_BIT & !MARKERS_MASK,
        ) == spec_is_wall(x) && spec_marker(x & !WALK_BIT & !MARKERS_MASK) == 0 && !on_walk(
            x & !WALK_BIT & !MARKERS_MASK,
        ),
{
    assert(m <= 4u32 ==> {
        &&& (x | 0x4000u32) & 0x1000_0000u32 == x & 0x1000_0000u32
        &&& (x | 0x4000u32) & 0x2000_0000u32 == x & 0x2000_0000u32
        &&& (x | 0x4000u32) & 0xFu32 == x & 0xFu32
        &&& (x | 0x4000u32) & 0x4000u32 != 0
        &&& (x & !0x4000u32) & 0x1000_0000u32 == x & 0x1000_0000u32
        &&& (x & !0x4000u32) & 0x2000_0000u32 == x & 0x2000_0000u32
        &&& (x & !0x4000u32) & 0xFu32 == x & 0xFu32
        &&& (x & !0x4000u32) & 0x4000u32 == 0
        &&& (x & !0xFu32) & 0x1000_0000u32 == x & 0x1000_0000u32
        &&& (x & !0xFu32) & 0x2000_0000u32 == x & 0x2000_0000u32
        &&& (x & !0xFu32) & 0xFu32 == 0
        &&& (x & !0xFu32) & 0x4000u32 == x & 0x4000u32
        &&& (x | m) & 0x1000_0000u32 == x & 0x1000_0000u32
        &&& (x | m) & 0x2000_0000u32 == x & 0x2000_0000u32
        &&& (x | m) & 0x4000u32 == x & 0x4000u32
        &&& (x & 0xFu32 == 0 ==> (x | m) & 0xFu32 == m)
        &&& (x & !0x4000u32 & !0xFu32) & 0x1000_0000u32 == x & 0x1000_0000u32
        &&& (x & !0x4000u32 & !0xFu32) & 0x2000_0000u32 == x & 0x2000_0000u32
        &&& (x & !0x4000u32 & !0xFu32) & 0xFu32 == 0
        &&& (x & !0x4000u32 & !0xFu32) & 0x4000u32 == 0
    }) by (bit_vector);
}

/// Only the square `p` changed, to `v`.
pub open spec fn one_changed(m0: &Maze, m1: &Maze, p: Point, v: Square) -> bool {
    &&& m1.same_shape(m0)
    &&& forall|r: int, c: int|
        m0.in_bounds(r, c) ==> #[trigger] m1.square(r, c) == if r == p.row && c == p.col {
            v
        } else {
            m0.square(r, c)
        }
}

proof fn lemma_one_changed(m0: &Maze, m1: &Maze, p: Point, v: Square)
    requires
        m0.wf(),
        m1.same_shape(m0),
        point_in(m0, p),
        m1.squares() == m0.maze.with_square(p.row as int, p.col as int, v),
    ensures
        one_changed(m0, m1, p, v),
{
    assert forall|r: int, c: int| m0.in_bounds(r, c) implies #[trigger] m1.square(r, c) == if r == p.row && c
        == p.col {
        v
    } else {
        m0.square(r, c)
    } by {
        m0.maze.lemma_index(r, c);
        m0.maze.lemma_index(p.row as int, p.col as int);
        if r != p.row || c != p.col {
            lemma_cell_index_injective(r, c, p.row as int, p.col as int, m0.cols_spec());
        }
    }
}

/// Setting wall bits leaves the builder bit, the markers and the walk bit as
/// they were.
proof fn lemma_wall_or_bits(x: Square)
    ensures
        forall|w: Square|
            #![trigger x | w]
            (w == NORTH_WALL || w == SOUTH_WALL || w == EAST_WALL || w == WEST_WALL) ==> same_fields(x, x | w),
{
    assert forall|w: Square|
        #![trigger x | w]
        (w == NORTH_WALL || w == SOUTH_WALL || w == EAST_WALL || w == WEST_WALL) implies same_fields(x, x | w) by {
        assert((w == 0x0100_0000u32 || w == 0x0400_0000u32 || w == 0x0200_0000u32 || w == 0x0800_0000u32) ==> {
            &&& (x | w) & 0x1000_0000u32 == x & 0x1000_0000u32
            &&& (x | w) & 0x2000_0000u32 == x & 0x2000_0000u32
            &&& (x | w) & 0xFu32 == x & 0xFu32
            &&& (x | w) & 0x4000u32 == x & 0x4000u32
        }) by (bit_vector);
    }
}

/// A wall line at `p`: `p` becomes a built wall and keeps its markers and walk
/// bit; every other square keeps all four fields.
pub open spec fn wall_lined(m0: &Maze, m1: &Maze, p: Point) -> bool {
    &&& m1.same_shape(m0)
    &&& forall|r: int, c: int|
        m0.in_bounds(r, c) && (r != p.row || c != p.col) ==> same_fields(m0.square(r, c), #[trigger] m1.square(r, c))
    &&& spec_is_built(sq(m1, p))
    &&& spec_is_wall(sq(m1, p))
    &&& spec_marker(sq(m1, p)) == spec_marker(sq(m0, p))
    &&& on_walk(sq(m1, p)) == on_walk(sq(m0, p))
}

proof fn lemma_wall_lined(m0: &Maze, m1: &Maze, p: Point)
    requires
        m0.wf(),
        m1.same_shape(m0),
        point_in(m0, p),
        m1.squares() == wall_joined(m0, p, BUILDER_BIT),
    ensures
        wall_lined(m0, m1, p),
{
    let cols = m0.cols_spec();
    crate::builders::build_ops::lemma_wall_joined_paths(m0, m1, p, BUILDER_BIT, false);
    m0.maze.lemma_index(p.row as int, p.col as int);
    let y = sq(m0, p);
    let links = wall_links(m0, p);
    let n = if p.row > 0 && spec_is_wall(at_offset(m0, p, -1, 0)) { NORTH_WALL } else { 0u32 };
    let so = if p.row + 1 < m0.rows_spec() && spec_is_wall(at_offset(m0, p, 1, 0)) { SOUTH_WALL } else { 0u32 };
    let w = if p.col > 0 && spec_is_wall(at_offset(m0, p, 0, -1)) { WEST_WALL } else { 0u32 };
    let e = if p.col + 1 < m0.cols_spec() && spec_is_wall(at_offset(m0, p, 0, 1)) { EAST_WALL } else { 0u32 };
    assert(links == n | so | w | e);
    assert((n == 0 || n == 0x0100_0000u32) && (so == 0 || so == 0x0400_0000u32) && (w == 0 || w == 0x0800_0000u32)
        && (e == 0 || e == 0x0200_0000u32) ==> {
        let l = n | so | w | e;
        &&& ((y | l | 0x1000_0000u32) & !0x2000_0000u32) & 0x1000_0000u32 != 0
        &&& ((y | l | 0x1000_0000u32) & !0x2000_0000u32) & 0xFu32 == y & 0xFu32
        &&& ((y | l | 0x1000_0000u32) & !0x2000_0000u32) & 0x4000u32 == y & 0x4000u32
    }) by (bit_vector);
    assert forall|r: int, c: int|
        m0.in_bounds(r, c) && (r != p.row || c != p.col) implies same_fields(m0.square(r, c), #[trigger] m1.square(r, c)) by {
        m0.maze.lemma_index(r, c);
        lemma_cell_index_injective(r, c, p.row as int, p.col as int, cols);
        let x = m0.square(r, c);
        lemma_wall_or_bits(x);
        let k = cell_index(r, c, cols);
        let kn = cell_index(p.row - 1, p.col as int, cols);
        let ks = cell_index(p.row + 1, p.col as int, cols);
        let kw = cell_index(p.row as int, p.col - 1, cols);
        let ke = cell_index(p.row as int, p.col + 1, cols);
        let sa = wall_joined(m0, p, BUILDER_BIT);
        assert(m1.square(r, c) == sa[k]);
        assert(m0.squares()[k] == x);
        if p.row > 0 && k == kn {
            assert(at_offset(m0, p, -1, 0) == x);
            assert(sa[k] == (if spec_is_wall(x) { x | SOUTH_WALL } else { x }));
        } else if p.row + 1 < m0.rows_spec() && k == ks {
            assert(at_offset(m0, p, 1, 0) == x);
            assert(sa[k] == (if spec_is_wall(x) { x | NORTH_WALL } else { x }));
        } else if p.col > 0 && k == kw {
            assert(at_offset(m0, p, 0, -1) == x);
            assert(sa[k] == (if spec_is_wall(x) { x | EAST_WALL } else { x }));
        } else if p.col + 1 < cols && k == ke {
            assert(at_offset(m0, p, 0, 1) == x);
            assert(sa[k] == (if spec_is_wall(x) { x | WEST_WALL } else { x }));
        } else {
            assert(sa[k] == x);
        }
    }
}


/// A post: a square inside the edge of the grid on an even row and an even
/// column. The walls this builder adds run from post to post.
pub open spec fn is_post(maze: &Maze, p: Point) -> bool {
    &&& interior(maze, p)
    &&& p.row % 2 == 0
    &&& p.col % 2 == 0
}

/// The marker each square carries while the walk stands on `path`: each post
/// after the first carries the side the walk entered it from.
pub open spec fn post_marker(path: Seq<Point>, p: Point) -> BacktrackMarker
    decreases path.len(),
{
    if path.len() < 2 {
        0
    } else if p == path[path.len() - 1] {
        origin_marker(path[path.len() - 2], path[path.len() - 1])
    } else {
        post_marker(path.drop_last(), p)
    }
}

proof fn lemma_post_marker_zero(path: Seq<Point>, p: Point)
    requires
        forall|k: int| 1 <= k < path.len() ==> path[k] != p,
    ensures
        post_marker(path, p) == 0,
    decreases path.len(),
{
    if path.len() >= 2 {
        let q = path.drop_last();
        assert forall|k: int| 1 <= k < q.len() implies q[k] != p by {
            assert(q[k] == path[k]);
        }
        assert(path[path.len() - 1] != p);
        lemma_post_marker_zero(q, p);
    }
}

/// The markers of a walk read on a prefix of it, away from the posts cut off.
proof fn lemma_post_marker_prefix(path: Seq<Point>, j: int, p: Point)
    requires
        0 <= j < path.len(),
        forall|k: int| j < k < path.len() ==> path[k] != p,
    ensures
        post_marker(path, p) == post_marker(path.subrange(0, j + 1), p),
    decreases path.len(),
{
    if j == path.len() - 1 {
        assert(path.subrange(0, j + 1) =~= path);
    } else {
        let q = path.drop_last();
        assert(path[path.len() - 1] != p);
        assert forall|k: int| j < k < q.len() implies q[k] != p by {
            assert(q[k] == path[k]);
        }
        lemma_post_marker_prefix(q, j, p);
        assert(q.subrange(0, j + 1) =~= path.subrange(0, j + 1));
    }
}

/// Every square on the edge of the grid is built.
pub open spec fn edge_built(maze: &Maze) -> bool {
    forall|r: int, c: int|
        maze.in_bounds(r, c) && !(0 < r < maze.rows_spec() - 1 && 0 < c < maze.cols_spec() - 1) ==> spec_is_built(
            #[trigger] maze.square(r, c),
        )
}

/// The posts of a walk: each one step from the one before, none repeated.
pub open spec fn post_walk(maze: &Maze, path: Seq<Point>) -> bool {
    &&& path.len() >= 1
    &&& forall|j: int| 0 <= j < path.len() ==> is_post(maze, #[trigger] path[j])
    &&& forall|j: int| 1 <= j < path.len() ==> is_step(path[j - 1], #[trigger] path[j])
    &&& forall|i: int, j: int| 0 <= i < j < path.len() ==> path[i] != path[j]
}

/// The markers of the maze spell out the walk.
pub open spec fn marks_follow(maze: &Maze, path: Seq<Point>) -> bool {
    forall|r: int, c: int| maze.in_bounds(r, c) ==> spec_marker(#[trigger] maze.square(r, c)) == post_marker(path, pt(r, c))
}

/// Only posts of the walk carry the walk bit, and the first `upto` of them do.
pub open spec fn walk_bits(maze: &Maze, path: Seq<Point>, upto: int) -> bool {
    &&& forall|r: int, c: int| maze.in_bounds(r, c) && on_walk(#[trigger] maze.square(r, c)) ==> path.contains(pt(r, c))
    &&& forall|j: int| 0 <= j < upto ==> on_walk(sq(maze, #[trigger] path[j]))
}

/// Every post on a row above `row` is built.
pub open spec fn posts_done(maze: &Maze, row: int) -> bool {
    forall|u: Point| is_post(maze, u) && u.row < row ==> spec_is_built(#[trigger] sq(maze, u))
}

/// What the wall adder keeps while a walk stands on `path`: the edge walled
/// and built, every cell open, the walk's markers and walk bits in place,
/// and the posts above `row` built.
pub open spec fn wilson_state(maze: &Maze, path: Seq<Point>, row: int, upto: int) -> bool {
    &&& crate::builders::build_ops::perimeter_walls(maze)
    &&& edge_built(maze)
    &&& crate::builders::recursive_subdivision::cells_open(maze)
    &&& post_walk(maze, path)
    &&& marks_follow(maze, path)
    &&& walk_bits(maze, path, upto)
    &&& row % 2 == 0
    &&& 2 <= row
    &&& posts_done(maze, row)
}

/// Changing only the walk bit and markers of one square keeps every other
/// part of the state.
proof fn lemma_field_change_keeps(m0: &Maze, m1: &Maze, p: Point, v: Square, row: int)
    requires
        m0.wf(),
        point_in(m0, p),
        one_changed(m0, m1, p, v),
        spec_is_built(v) == spec_is_built(sq(m0, p)),
        spec_is_wall(v) == spec_is_wall(sq(m0, p)),
        crate::builders::build_ops::perimeter_walls(m0),
        edge_built(m0),
        crate::builders::recursive_subdivision::cells_open(m0),
        posts_done(m0, row),
    ensures
        crate::builders::build_ops::perimeter_walls(m1),
        edge_built(m1),
        crate::builders::recursive_subdivision::cells_open(m1),
        posts_done(m1, row),
        forall|r: int, c: int|
            m0.in_bounds(r, c) ==> spec_is_built(#[trigger] m1.square(r, c)) == spec_is_built(m0.square(r, c)),
{
    assert forall|r: int, c: int|
        m0.in_bounds(r, c) implies spec_is_built(#[trigger] m1.square(r, c)) == spec_is_built(m0.square(r, c))
            && spec_is_wall(m1.square(r, c)) == spec_is_wall(m0.square(r, c)) by {}
    assert forall|u: Point| is_cell(m1, u) implies !spec_is_wall(#[trigger] sq(m1, u)) by {
        assert(m0.in_bounds(u.row as int, u.col as int));
        assert(!spec_is_wall(sq(m0, u)));
    }
    assert forall|u: Point| is_post(m1, u) && u.row < row implies spec_is_built(#[trigger] sq(m1, u)) by {
        assert(m0.in_bounds(u.row as int, u.col as int));
        assert(spec_is_built(sq(m0, u)));
    }
}

/// Sets the walk bit of `p`.
fn set_walk(maze: &mut Maze, p: Point)
    requires
        old(maze).wf(),
        point_in(old(maze), p),
    ensures
        reshaped(final(maze), old(maze)),
        one_changed(old(maze), final(maze), p, sq(old(maze), p) | WALK_BIT),
{
    let ghost m0 = *maze;
    let s = maze.get(p.row, p.col);
    maze.set(p.row, p.col, s | WALK_BIT);
    proof { lemma_one_changed(&m0, maze, p, s | WALK_BIT); }
}

/// Replaces the square `p` by `f` of it, where `f` clears the walk bit,
/// clears the markers, adds a marker, or clears both.
fn update_square(maze: &mut Maze, p: Point, op: u8, m: BacktrackMarker)
    requires
        old(maze).wf(),
        point_in(old(maze), p),
        op < 4,
        m <= 4,
    ensures
        reshaped(final(maze), old(maze)),
        one_changed(old(maze), final(maze), p, op_value(sq(old(maze), p), op, m)),
{
    let ghost m0 = *maze;
    let s = maze.get(p.row, p.col);
    let v = if op == 0 {
        s & !WALK_BIT
    } else if op == 1 {
        s & !MARKERS_MASK
    } else if op == 2 {
        s | m
    } else {
        s & !WALK_BIT & !MARKERS_MASK
    };
    maze.set(p.row, p.col, v);
    proof { lemma_one_changed(&m0, maze, p, v); }
}

/// The square after clearing its walk bit (0), clearing its markers (1),
/// adding the marker `m` (2) or clearing both its walk bit and its markers (3).
pub open spec fn op_value(x: Square, op: u8, m: BacktrackMarker) -> Square {
    if op == 0 {
        x & !WALK_BIT
    } else if op == 1 {
        x & !MARKERS_MASK
    } else if op == 2 {
        x | m
    } else {
        x & !WALK_BIT & !MARKERS_MASK
    }
}


/// Setting the walk bit of the walk's last post puts every post of the walk
/// on it.
proof fn lemma_set_walk_state(m0: &Maze, m1: &Maze, path: Seq<Point>, row: int)
    requires
        m0.wf(),
        wilson_state(m0, path, row, path.len() - 1),
        one_changed(m0, m1, path.last(), sq(m0, path.last()) | WALK_BIT),
    ensures
        wilson_state(m1, path, row, path.len() as int),
{
    let p = path.last();
    let v = sq(m0, p) | WALK_BIT;
    lemma_field_bits(sq(m0, p), 0);
    assert(is_post(m0, path[path.len() - 1]));
    lemma_field_change_keeps(m0, m1, p, v, row);
    assert forall|r: int, c: int| m1.in_bounds(r, c) implies spec_marker(#[trigger] m1.square(r, c)) == post_marker(path, pt(r, c)) by {
        assert(spec_marker(m0.square(r, c)) == post_marker(path, pt(r, c)));
    }
    assert forall|r: int, c: int| m1.in_bounds(r, c) && on_walk(#[trigger] m1.square(r, c)) implies path.contains(pt(r, c)) by {
        if r == p.row && c == p.col {
            assert(pt(r, c) == p);
            assert(path[path.len() - 1] == p);
        } else {
            assert(on_walk(m0.square(r, c)));
        }
    }
    assert forall|j: int| 0 <= j < path.len() implies on_walk(sq(m1, #[trigger] path[j])) by {
        assert(is_post(m0, path[j]));
        assert(m0.in_bounds(path[j].row as int, path[j].col as int));
        if j < path.len() - 1 {
            assert(on_walk(sq(m0, path[j])));
            if path[j] == p {
                assert(path[j] == path[path.len() - 1]);
            }
        }
    }
}

/// A step to an unbuilt post off the walk, marked with the side it was
/// entered from, extends the walk.
proof fn lemma_mark_step_state(m0: &Maze, m1: &Maze, path: Seq<Point>, next: Point, row: int)
    requires
        m0.wf(),
        wilson_state(m0, path, row, path.len() as int),
        point_in(m0, next),
        is_step(path.last(), next),
        !spec_is_built(sq(m0, next)),
        !on_walk(sq(m0, next)),
        one_changed(m0, m1, next, sq(m0, next) | origin_marker(path.last(), next)),
    ensures
        wilson_state(m1, path.push(next), row, path.len() as int),
{
    let cur = path.last();
    let np = path.push(next);
    let m = origin_marker(cur, next);
    crate::builders::recursive_backtracker::lemma_backtrack_undoes(cur, next);
    lemma_field_bits(sq(m0, next), m);
    lemma_field_change_keeps(m0, m1, next, sq(m0, next) | m, row);
    assert(is_post(m0, path[path.len() - 1]));
    assert forall|j: int| 0 <= j < path.len() implies path[j] != next by {
        assert(on_walk(sq(m0, path[j])));
    }
    assert(interior(m0, next)) by {
        assert(m0.in_bounds(next.row as int, next.col as int));
        if !(0 < next.row < m0.rows_spec() - 1 && 0 < next.col < m0.cols_spec() - 1) {
            assert(spec_is_built(m0.square(next.row as int, next.col as int)));
        }
    }
    assert(post_marker(path, next) == 0) by {
        lemma_post_marker_zero(path, next);
    }
    assert(np.drop_last() =~= path);
    assert forall|j: int| 0 <= j < np.len() implies is_post(m1, #[trigger] np[j]) by {
        if j < path.len() {
            assert(np[j] == path[j]);
        }
    }
    assert forall|j: int| 1 <= j < np.len() implies is_step(np[j - 1], #[trigger] np[j]) by {
        if j < path.len() {
            assert(np[j] == path[j] && np[j - 1] == path[j - 1]);
        }
    }
    assert forall|i: int, j: int| 0 <= i < j < np.len() implies np[i] != np[j] by {
        assert(np[i] == path[i]);
        if j < path.len() {
            assert(np[j] == path[j]);
        }
    }
    assert forall|r: int, c: int| m1.in_bounds(r, c) implies spec_marker(#[trigger] m1.square(r, c)) == post_marker(np, pt(r, c)) by {
        assert(spec_marker(m0.square(r, c)) == post_marker(path, pt(r, c)));
        if r == next.row && c == next.col {
            assert(pt(r, c) == next);
        }
    }
    assert forall|r: int, c: int| m1.in_bounds(r, c) && on_walk(#[trigger] m1.square(r, c)) implies np.contains(pt(r, c)) by {
        assert(on_walk(m0.square(r, c)));
        assert(path.contains(pt(r, c)));
        let k = choose|k: int| 0 <= k < path.len() && path[k] == pt(r, c);
        assert(np[k] == pt(r, c));
    }
    assert forall|j: int| 0 <= j < path.len() implies on_walk(sq(m1, #[trigger] np[j])) by {
        assert(np[j] == path[j]);
        assert(on_walk(sq(m0, path[j])));
        assert(m0.in_bounds(path[j].row as int, path[j].col as int));
    }
}


/// Each post of a walk after the first carries the side it was entered from;
/// the first carries nothing.
proof fn lemma_post_marker_at(path: Seq<Point>, k: int)
    requires
        0 <= k < path.len(),
        forall|i: int, j: int| 0 <= i < j < path.len() ==> path[i] != path[j],
    ensures
        post_marker(path, path[k]) == if k == 0 {
            0
        } else {
            origin_marker(path[k - 1], path[k])
        },
    decreases path.len(),
{
    if path.len() >= 2 && k < path.len() - 1 {
        let q = path.drop_last();
        assert(path[k] != path[path.len() - 1]);
        assert forall|i: int, j: int| 0 <= i < j < q.len() implies q[i] != q[j] by {
            assert(q[i] == path[i] && q[j] == path[j]);
        }
        lemma_post_marker_at(q, k);
        assert(q[k] == path[k]);
        if k > 0 {
            assert(q[k - 1] == path[k - 1]);
        }
    }
}

/// The post a marked post of the walk was entered from.
fn back_from(maze: &Maze, p: Point) -> (prev: Point)
    requires
        maze.wf(),
        point_in(maze, p),
        interior(maze, p),
        spec_marker(sq(maze, p)) <= 4,
    ensures
        prev.row == p.row + spec_backtracking_point(spec_marker(sq(maze, p)) as int).row,
        prev.col == p.col + spec_backtracking_point(spec_marker(sq(maze, p)) as int).col,
{
    let dir = maze.get(p.row, p.col) & MARKERS_MASK;
    let back = crate::builders::build_ops::backtracking_point(dir);
    Point { row: p.row + back.row, col: p.col + back.col }
}

/// Clearing the walk bit and the markers of the walk's last post takes it
/// off the walk.
proof fn lemma_pop_state(m0: &Maze, m1: &Maze, path: Seq<Point>, row: int)
    requires
        m0.wf(),
        wilson_state(m0, path, row, path.len() as int),
        path.len() >= 2,
        one_changed(m0, m1, path.last(), op_value(sq(m0, path.last()), 3, 0)),
    ensures
        wilson_state(m1, path.drop_last(), row, path.len() - 1),
{
    let p = path.last();
    let q = path.drop_last();
    let v = op_value(sq(m0, p), 3, 0);
    lemma_field_bits(sq(m0, p), 0);
    assert(is_post(m0, path[path.len() - 1]));
    lemma_field_change_keeps(m0, m1, p, v, row);
    assert forall|j: int| 0 <= j < q.len() implies is_post(m1, #[trigger] q[j]) by {
        assert(q[j] == path[j]);
    }
    assert forall|j: int| 1 <= j < q.len() implies is_step(q[j - 1], #[trigger] q[j]) by {
        assert(q[j] == path[j] && q[j - 1] == path[j - 1]);
    }
    assert forall|i: int, j: int| 0 <= i < j < q.len() implies q[i] != q[j] by {
        assert(q[i] == path[i] && q[j] == path[j]);
    }
    assert forall|r: int, c: int| m1.in_bounds(r, c) implies spec_marker(#[trigger] m1.square(r, c)) == post_marker(q, pt(r, c)) by {
        assert(spec_marker(m0.square(r, c)) == post_marker(path, pt(r, c)));
        if r == p.row && c == p.col {
            assert(pt(r, c) == p);
            assert forall|k: int| 1 <= k < q.len() implies q[k] != p by {
                assert(q[k] == path[k]);
            }
            lemma_post_marker_zero(q, p);
        } else {
            assert(pt(r, c) != p);
        }
    }
    assert forall|r: int, c: int| m1.in_bounds(r, c) && on_walk(#[trigger] m1.square(r, c)) implies q.contains(pt(r, c)) by {
        assert(on_walk(m0.square(r, c)));
        assert(path.contains(pt(r, c)));
        let k = choose|k: int| 0 <= k < path.len() && path[k] == pt(r, c);
        if k == path.len() - 1 {
            assert(pt(r, c) == p);
        }
        assert(q[k] == pt(r, c));
    }
    assert forall|j: int| 0 <= j < q.len() implies on_walk(sq(m1, #[trigger] q[j])) by {
        assert(q[j] == path[j]);
        assert(path[j] != p);
        assert(on_walk(sq(m0, path[j])));
        assert(m0.in_bounds(path[j].row as int, path[j].col as int));
    }
}

/// The walk ran into itself at `path[j]`: takes the posts after it off the
/// walk, newest first.
fn erase_loop(maze: &mut Maze, walk: Point, root: Point, Ghost(path): Ghost<Seq<Point>>, Ghost(j): Ghost<int>, Ghost(row): Ghost<int>)
    requires
        old(maze).wf(),
        wilson_state(old(maze), path, row, path.len() as int),
        0 <= j < path.len(),
        path[j] == root,
        walk == path.last(),
    ensures
        reshaped(final(maze), old(maze)),
        wilson_state(final(maze), path.subrange(0, j + 1), row, j + 1),
{
    let mut w = walk;
    let ghost mut i: int = path.len() - 1;
    assert(path.subrange(0, i + 1) =~= path);
    while w != root
        invariant
            reshaped(maze, old(maze)),
            0 <= j <= i < path.len(),
            w == path[i],
            path[j] == root,
            wilson_state(maze, path.subrange(0, i + 1), row, i + 1),
            wilson_state(old(maze), path, row, path.len() as int),
        decreases i,
    {
        let ghost q = path.subrange(0, i + 1);
        let ghost m0 = *maze;
        proof {
            if i == j {
                assert(w == root);
            }
            assert(q.len() == i + 1);
            assert(q[i] == path[i]);
            assert(q.last() == w);
            assert(is_post(maze, q[i]));
            lemma_post_marker_at(q, i);
            assert(marks_follow(maze, q));
            assert(maze.in_bounds(w.row as int, w.col as int));
            assert(pt(w.row as int, w.col as int) == w);
            assert(q[i - 1] == path[i - 1]);
            assert(is_step(q[i - 1], q[i]));
            crate::builders::recursive_backtracker::lemma_backtrack_undoes(q[i - 1], q[i]);
        }
        let prev = back_from(maze, w);
        update_square(maze, w, 3, 0);
        proof {
            lemma_pop_state(&m0, maze, q, row);
            assert(q.drop_last() =~= path.subrange(0, i));
            i = i - 1;
        }
        w = prev;
    }
}


/// From `m0` to `m1` the markers stay, walk bits are only cleared, and
/// builder bits and walls are only added.
pub open spec fn settled(m0: &Maze, m1: &Maze) -> bool {
    &&& m1.same_shape(m0)
    &&& forall|r: int, c: int|
        m0.in_bounds(r, c) ==> {
            let x0 = m0.square(r, c);
            let x1 = #[trigger] m1.square(r, c);
            &&& spec_marker(x1) == spec_marker(x0)
            &&& on_walk(x1) ==> on_walk(x0)
            &&& spec_is_built(x0) ==> spec_is_built(x1)
            &&& spec_is_wall(x0) ==> spec_is_wall(x1)
        }
}

/// Every square but `a`, `b` and `c` keeps its four fields.
pub open spec fn changed_only(m0: &Maze, m1: &Maze, a: Point, b: Point, c: Point) -> bool {
    forall|r: int, k: int|
        m0.in_bounds(r, k) && (r != a.row || k != a.col) && (r != b.row || k != b.col) && (r != c.row || k
            != c.col) ==> same_fields(m0.square(r, k), #[trigger] m1.square(r, k))
}

proof fn lemma_settled_trans(m0: &Maze, m1: &Maze, m2: &Maze)
    requires
        settled(m0, m1),
        settled(m1, m2),
    ensures
        settled(m0, m2),
{
    assert forall|r: int, c: int| m0.in_bounds(r, c) implies {
        let x0 = m0.square(r, c);
        let x1 = #[trigger] m2.square(r, c);
        &&& spec_marker(x1) == spec_marker(x0)
        &&& on_walk(x1) ==> on_walk(x0)
        &&& spec_is_built(x0) ==> spec_is_built(x1)
        &&& spec_is_wall(x0) ==> spec_is_wall(x1)
    } by {
        assert(m1.in_bounds(r, c));
        let y = m1.square(r, c);
    }
}

/// A wall line settles the maze and changes nothing but its square.
proof fn lemma_lined_settled(m0: &Maze, m1: &Maze, p: Point)
    requires
        wall_lined(m0, m1, p),
        point_in(m0, p),
    ensures
        settled(m0, m1),
        changed_only(m0, m1, p, p, p),
{
    assert forall|r: int, c: int| m0.in_bounds(r, c) implies {
        let x0 = m0.square(r, c);
        let x1 = #[trigger] m1.square(r, c);
        &&& spec_marker(x1) == spec_marker(x0)
        &&& on_walk(x1) ==> on_walk(x0)
        &&& spec_is_built(x0) ==> spec_is_built(x1)
        &&& spec_is_wall(x0) ==> spec_is_wall(x1)
    } by {
        if r == p.row && c == p.col {
            assert(m1.square(r, c) == sq(m1, p));
            assert(m0.square(r, c) == sq(m0, p));
        }
    }
}

/// Clearing a walk bit settles the maze and changes nothing but its square.
proof fn lemma_unwalked_settled(m0: &Maze, m1: &Maze, p: Point)
    requires
        one_changed(m0, m1, p, op_value(sq(m0, p), 0, 0)),
        point_in(m0, p),
    ensures
        settled(m0, m1),
        changed_only(m0, m1, p, p, p),
        spec_is_built(sq(m1, p)) == spec_is_built(sq(m0, p)),
        spec_is_wall(sq(m1, p)) == spec_is_wall(sq(m0, p)),
        !on_walk(sq(m1, p)),
{
    lemma_field_bits(sq(m0, p), 0);
    assert forall|r: int, c: int| m0.in_bounds(r, c) implies {
        let x0 = m0.square(r, c);
        let x1 = #[trigger] m1.square(r, c);
        &&& spec_marker(x1) == spec_marker(x0)
        &&& on_walk(x1) ==> on_walk(x0)
        &&& spec_is_built(x0) ==> spec_is_built(x1)
        &&& spec_is_wall(x0) ==> spec_is_wall(x1)
    } by {
        if r == p.row && c == p.col {
            assert(m1.square(r, c) == sq(m1, p));
            assert(m0.square(r, c) == sq(m0, p));
        }
    }
    assert(m0.in_bounds(p.row as int, p.col as int));
}

/// Builds `cur`, `next` and the wall square between them as walls and takes
/// `cur` and `next` off the walk.
fn build_with_marks(maze: &mut Maze, cur: Point, next: Point)
    requires
        old(maze).wf(),
        crate::builders::build_ops::joinable(old(maze), cur, next),
        is_step(cur, next),
    ensures
        reshaped(final(maze), old(maze)),
        settled(old(maze), final(maze)),
        changed_only(old(maze), final(maze), cur, between(cur, next), next),
        spec_is_built(sq(final(maze), cur)) && spec_is_wall(sq(final(maze), cur)) && !on_walk(sq(final(maze), cur)),
        spec_is_built(sq(final(maze), next)) && spec_is_wall(sq(final(maze), next)) && !on_walk(sq(final(maze), next)),
        spec_is_built(sq(final(maze), between(cur, next))) && spec_is_wall(sq(final(maze), between(cur, next))),
{
    let wall = crate::builders::build_ops::step_toward(cur, next);
    let ghost m0 = *maze;
    update_square(maze, cur, 0, 0);
    let ghost m1 = *maze;
    update_square(maze, next, 0, 0);
    let ghost m2 = *maze;
    build_wall_line(maze, cur);
    let ghost m3 = *maze;
    build_wall_line(maze, wall);
    let ghost m4 = *maze;
    build_wall_line(maze, next);
    proof {
        lemma_unwalked_settled(&m0, &m1, cur);
        lemma_unwalked_settled(&m1, &m2, next);
        lemma_wall_lined(&m2, &m3, cur);
        lemma_lined_settled(&m2, &m3, cur);
        lemma_wall_lined(&m3, &m4, wall);
        lemma_lined_settled(&m3, &m4, wall);
        lemma_wall_lined(&m4, maze, next);
        lemma_lined_settled(&m4, maze, next);
        lemma_settled_trans(&m0, &m1, &m2);
        lemma_settled_trans(&m0, &m2, &m3);
        lemma_settled_trans(&m0, &m3, &m4);
        lemma_settled_trans(&m0, &m4, maze);
        assert(wall != cur && wall != next && cur != next);
        assert(m0.in_bounds(cur.row as int, cur.col as int));
        assert(m0.in_bounds(next.row as int, next.col as int));
        assert(m0.in_bounds(wall.row as int, wall.col as int));
        assert(sq(&m2, cur) == sq(&m1, cur));
        assert(same_fields(sq(&m3, cur), sq(&m4, cur)));
        assert(same_fields(sq(&m4, cur), sq(maze, cur)));
        assert(same_fields(sq(&m2, next), sq(&m3, next)));
        assert(same_fields(sq(&m3, next), sq(&m4, next)));
        assert(same_fields(sq(&m4, wall), sq(maze, wall)));
        assert forall|r: int, k: int|
            m0.in_bounds(r, k) && (r != cur.row || k != cur.col) && (r != wall.row || k != wall.col) && (r != next.row
                || k != next.col) implies same_fields(m0.square(r, k), #[trigger] maze.square(r, k)) by {
            assert(same_fields(m0.square(r, k), m1.square(r, k)));
            assert(same_fields(m1.square(r, k), m2.square(r, k)));
            assert(same_fields(m2.square(r, k), m3.square(r, k)));
            assert(same_fields(m3.square(r, k), m4.square(r, k)));
        }
    }
}


/// While the walk is being joined to the maze, `path[i]` and the posts
/// before it keep their markers, the posts after it are built, and only
/// posts before it are still on the walk.
pub open spec fn conn_state(maze: &Maze, path: Seq<Point>, i: int, row: int) -> bool {
    &&& crate::builders::build_ops::perimeter_walls(maze)
    &&& edge_built(maze)
    &&& crate::builders::recursive_subdivision::cells_open(maze)
    &&& posts_done(maze, row)
    &&& row % 2 == 0
    &&& 2 <= row
    &&& post_walk(maze, path)
    &&& 0 <= i < path.len()
    &&& marks_follow(maze, path.subrange(0, i + 1))
    &&& forall|r: int, c: int|
        maze.in_bounds(r, c) && on_walk(#[trigger] maze.square(r, c)) ==> path.subrange(0, i).contains(pt(r, c))
    &&& forall|k: int| i <= k < path.len() ==> spec_is_built(sq(maze, #[trigger] path[k]))
}

/// No square is marked or on the walk, and the edge, the cells and the posts
/// above `row` are as the builder keeps them.
pub open spec fn clean_state(maze: &Maze, row: int) -> bool {
    &&& crate::builders::build_ops::perimeter_walls(maze)
    &&& edge_built(maze)
    &&& crate::builders::recursive_subdivision::cells_open(maze)
    &&& posts_done(maze, row)
    &&& row % 2 == 0
    &&& 2 <= row
    &&& crate::builders::cells::no_markers(maze)
    &&& forall|r: int, c: int| maze.in_bounds(r, c) ==> !on_walk(#[trigger] maze.square(r, c))
}

/// Building walls away from the cells keeps the edge, the open cells and
/// the built posts.
proof fn lemma_join_keeps(m0: &Maze, m1: &Maze, a: Point, b: Point, c: Point, row: int)
    requires
        settled(m0, m1),
        changed_only(m0, m1, a, b, c),
        a.row % 2 == 0 || a.col % 2 == 0,
        b.row % 2 == 0 || b.col % 2 == 0,
        c.row % 2 == 0 || c.col % 2 == 0,
        crate::builders::build_ops::perimeter_walls(m0),
        edge_built(m0),
        crate::builders::recursive_subdivision::cells_open(m0),
        posts_done(m0, row),
    ensures
        crate::builders::build_ops::perimeter_walls(m1),
        edge_built(m1),
        crate::builders::recursive_subdivision::cells_open(m1),
        posts_done(m1, row),
{
    assert forall|u: Point| is_cell(m1, u) implies !spec_is_wall(#[trigger] sq(m1, u)) by {
        assert(m0.in_bounds(u.row as int, u.col as int));
        assert(!spec_is_wall(sq(m0, u)));
        assert(u != a && u != b && u != c);
        assert(same_fields(sq(m0, u), sq(m1, u)));
    }
    assert forall|u: Point| is_post(m1, u) && u.row < row implies spec_is_built(#[trigger] sq(m1, u)) by {
        assert(m0.in_bounds(u.row as int, u.col as int));
        assert(spec_is_built(sq(m0, u)));
    }
}

/// One step of joining: `path[i]` is joined to the post it was entered from
/// and loses its marker.
proof fn lemma_connect_step(m0: &Maze, m1: &Maze, m2: &Maze, path: Seq<Point>, i: int, row: int)
    requires
        m0.wf(),
        m1.wf(),
        conn_state(m0, path, i, row),
        i >= 1,
        settled(m0, m1),
        changed_only(m0, m1, path[i], between(path[i], path[i - 1]), path[i - 1]),
        spec_is_built(sq(m1, path[i])) && !on_walk(sq(m1, path[i])),
        spec_is_built(sq(m1, path[i - 1])) && !on_walk(sq(m1, path[i - 1])),
        one_changed(m1, m2, path[i], op_value(sq(m1, path[i]), 1, 0)),
    ensures
        conn_state(m2, path, i - 1, row),
{
    let p = path[i];
    let q = path[i - 1];
    let w = between(p, q);
    assert(is_post(m0, p) && is_post(m0, q));
    assert(is_step(path[i - 1], path[i]));
    assert(w.row % 2 == 0 || w.col % 2 == 0);
    lemma_join_keeps(m0, m1, p, w, q, row);
    lemma_field_bits(sq(m1, p), 0);
    assert(m0.in_bounds(p.row as int, p.col as int));
    lemma_field_change_keeps(m1, m2, p, op_value(sq(m1, p), 1, 0), row);
    let a = path.subrange(0, i + 1);
    let b = path.subrange(0, i);
    assert(a.drop_last() =~= b);
    assert forall|x: int, y: int| 0 <= x < y < a.len() implies a[x] != a[y] by {
        assert(a[x] == path[x] && a[y] == path[y]);
    }
    assert forall|r: int, c: int| m2.in_bounds(r, c) implies spec_marker(#[trigger] m2.square(r, c)) == post_marker(b, pt(r, c)) by {
        assert(spec_marker(m0.square(r, c)) == post_marker(a, pt(r, c)));
        assert(spec_marker(m1.square(r, c)) == spec_marker(m0.square(r, c)));
        if r == p.row && c == p.col {
            assert(pt(r, c) == p);
            assert forall|k: int| 1 <= k < b.len() implies b[k] != p by {
                assert(b[k] == path[k]);
            }
            lemma_post_marker_zero(b, p);
        } else {
            assert(pt(r, c) != p);
            assert(a[a.len() - 1] == p);
        }
    }
    assert forall|r: int, c: int| m2.in_bounds(r, c) && on_walk(#[trigger] m2.square(r, c)) implies path.subrange(
        0,
        i - 1,
    ).contains(pt(r, c)) by {
        assert(on_walk(m1.square(r, c)));
        assert(on_walk(m0.square(r, c)));
        assert(b.contains(pt(r, c)));
        let k = choose|k: int| 0 <= k < b.len() && b[k] == pt(r, c);
        assert(b[k] == path[k]);
        if k == i - 1 {
            assert(pt(r, c) == q);
            assert(m1.square(r, c) == sq(m1, q));
        }
        assert(path.subrange(0, i - 1)[k] == pt(r, c));
    }
    assert forall|k: int| i - 1 <= k < path.len() implies spec_is_built(sq(m2, #[trigger] path[k])) by {
        assert(is_post(m0, path[k]));
        assert(m0.in_bounds(path[k].row as int, path[k].col as int));
        if k > i {
            assert(spec_is_built(sq(m0, path[k])));
        }
    }
}

/// Joins the walk ending at `walk` to the maze: each post is joined to the
/// post it was entered from, back to the start of the walk, which is built
/// last.
fn connect_walk(maze: &mut Maze, walk: Point, Ghost(path): Ghost<Seq<Point>>, Ghost(row): Ghost<int>)
    requires
        old(maze).wf(),
        conn_state(old(maze), path, path.len() - 1, row),
        walk == path.last(),
    ensures
        reshaped(final(maze), old(maze)),
        clean_state(final(maze), row),
        forall|k: int| 0 <= k < path.len() ==> spec_is_built(sq(final(maze), #[trigger] path[k])),
        forall|k: int| 0 <= k < path.len() ==> is_post(final(maze), #[trigger] path[k]),
{
    let mut w = walk;
    let ghost mut i: int = path.len() - 1;
    loop
        invariant
            reshaped(maze, old(maze)),
            conn_state(maze, path, i, row),
            w == path[i],
        ensures
            reshaped(maze, old(maze)),
            conn_state(maze, path, i, row),
            w == path[i],
            i == 0,
        decreases i,
    {
        let ghost a = path.subrange(0, i + 1);
        proof {
            assert(a[i] == path[i]);
            assert(is_post(maze, path[i]));
            assert forall|x: int, y: int| 0 <= x < y < a.len() implies a[x] != a[y] by {
                assert(a[x] == path[x] && a[y] == path[y]);
            }
            lemma_post_marker_at(a, i);
            assert(maze.in_bounds(w.row as int, w.col as int));
            assert(pt(w.row as int, w.col as int) == w);
            if i > 0 {
                assert(a[i - 1] == path[i - 1]);
                assert(is_step(path[i - 1], path[i]));
                crate::builders::recursive_backtracker::lemma_backtrack_undoes(path[i - 1], path[i]);
            }
        }
        if !crate::builders::build_ops::is_marked(maze.get(w.row, w.col)) {
            proof {
                assert(marks_follow(maze, a));
                assert(spec_marker(maze.square(w.row as int, w.col as int)) == post_marker(a, w));
            }
            break;
        }
        let next = back_from(maze, w);
        let ghost m0 = *maze;
        proof {
            assert(next == path[i - 1]);
            assert(is_post(maze, path[i - 1]));
            assert(crate::builders::build_ops::interior(maze, between(w, next)));
        }
        build_with_marks(maze, w, next);
        let ghost m1 = *maze;
        update_square(maze, w, 1, 0);
        proof {
            lemma_connect_step(&m0, &m1, maze, path, i, row);
            i = i - 1;
        }
        w = next;
    }
    let ghost m0 = *maze;
    proof {
        assert(is_post(maze, path[0]));
        assert(maze.in_bounds(w.row as int, w.col as int));
    }
    update_square(maze, w, 3, 0);
    let ghost m1 = *maze;
    build_wall_line(maze, w);
    proof {
        lemma_field_bits(sq(&m0, w), 0);
        lemma_field_change_keeps(&m0, &m1, w, op_value(sq(&m0, w), 3, 0), row);
        lemma_wall_lined(&m1, maze, w);
        lemma_lined_settled(&m1, maze, w);
        lemma_join_keeps(&m1, maze, w, w, w, row);
        assert forall|r: int, c: int| maze.in_bounds(r, c) implies spec_marker(#[trigger] maze.square(r, c)) == 0
            && !on_walk(maze.square(r, c)) by {
            assert(spec_marker(m0.square(r, c)) == post_marker(path.subrange(0, 1), pt(r, c)));
            if r == w.row && c == w.col {
                assert(m1.square(r, c) == sq(&m1, w));
                assert(maze.square(r, c) == sq(maze, w));
            } else {
                assert(m1.square(r, c) == m0.square(r, c));
                if on_walk(m0.square(r, c)) {
                    assert(path.subrange(0, 0).contains(pt(r, c)));
                }
            }
        }
        assert forall|k: int| 0 <= k < path.len() implies spec_is_built(sq(maze, #[trigger] path[k])) by {
            assert(is_post(&m0, path[k]));
            assert(m0.in_bounds(path[k].row as int, path[k].col as int));
            if k > 0 {
                assert(spec_is_built(sq(&m0, path[k])));
            }
        }
        assert forall|k: int| 0 <= k < path.len() implies is_post(maze, #[trigger] path[k]) by {
            assert(is_post(&m0, path[k]));
        }
    }
}


/// The walk in progress: the row its starts are scanned from, the post it
/// came from, the post it stands on and the post it tries next.
#[derive(Clone, Copy)]
struct RandomWalk {
    prev_row_start: i32,
    prev: Point,
    walk: Point,
    next: Point,
}

/// Every post of the grid is built, no square is marked or on the walk, the
/// edge is walled and built and every cell is open.
pub open spec fn wilson_done(maze: &Maze) -> bool {
    &&& crate::builders::build_ops::perimeter_walls(maze)
    &&& edge_built(maze)
    &&& crate::builders::recursive_subdivision::cells_open(maze)
    &&& crate::builders::cells::no_markers(maze)
    &&& forall|r: int, c: int| maze.in_bounds(r, c) ==> !on_walk(#[trigger] maze.square(r, c))
    &&& forall|u: Point| is_post(maze, u) ==> spec_is_built(#[trigger] sq(maze, u))
}

proof fn lemma_post_marker_bound(path: Seq<Point>, p: Point)
    ensures
        post_marker(path, p) <= 4,
    decreases path.len(),
{
    if path.len() >= 2 && p != path[path.len() - 1] {
        lemma_post_marker_bound(path.drop_last(), p);
    }
}

/// Joining the walk's last post to a built post starts the joining of the
/// whole walk.
proof fn lemma_connect_start(m0: &Maze, m1: &Maze, path: Seq<Point>, next: Point, row: int)
    requires
        m0.wf(),
        wilson_state(m0, path, row, path.len() as int),
        is_step(path.last(), next),
        settled(m0, m1),
        changed_only(m0, m1, path.last(), between(path.last(), next), next),
        spec_is_built(sq(m1, path.last())) && !on_walk(sq(m1, path.last())),
    ensures
        conn_state(m1, path, path.len() - 1, row),
{
    let cur = path.last();
    let w = between(cur, next);
    assert(is_post(m0, path[path.len() - 1]));
    assert(w.row % 2 == 0 || w.col % 2 == 0);
    lemma_join_keeps(m0, m1, cur, w, next, row);
    assert(path.subrange(0, path.len() as int) =~= path);
    assert forall|r: int, c: int| m1.in_bounds(r, c) implies spec_marker(#[trigger] m1.square(r, c)) == post_marker(
        path,
        pt(r, c),
    ) by {
        assert(spec_marker(m0.square(r, c)) == post_marker(path, pt(r, c)));
    }
    assert forall|r: int, c: int| m1.in_bounds(r, c) && on_walk(#[trigger] m1.square(r, c)) implies path.subrange(
        0,
        path.len() - 1,
    ).contains(pt(r, c)) by {
        assert(on_walk(m0.square(r, c)));
        let k = choose|k: int| 0 <= k < path.len() && path[k] == pt(r, c);
        if k == path.len() - 1 {
            assert(pt(r, c) == cur);
            assert(m1.square(r, c) == sq(m1, cur));
        }
        assert(path.subrange(0, path.len() - 1)[k] == pt(r, c));
    }
    assert forall|j: int| 0 <= j < path.len() implies is_post(m1, #[trigger] path[j]) by {
        assert(is_post(m0, path[j]));
    }
}

/// A new walk starts at `p`, the first post not built yet: every post above
/// its row is built.
proof fn lemma_restart_state(m0: &Maze, m1: &Maze, p: Point, row: int)
    requires
        m0.wf(),
        clean_state(m0, row),
        crate::builders::build_ops::parity_point(m0, p, ParityPoint::Even),
        row <= p.row,
        forall|u: Point|
            crate::builders::build_ops::parity_point(m0, u, ParityPoint::Even) && row <= u.row
                && crate::builders::build_ops::scanned_before(u, p.row as int, p.col as int) ==> spec_is_built(
                #[trigger] sq(m0, u),
            ),
        one_changed(m0, m1, p, op_value(sq(m0, p), 1, 0)),
    ensures
        wilson_state(m1, seq![p], p.row as int, 0),
{
    assert forall|u: Point| is_post(m0, u) && u.row < p.row implies spec_is_built(#[trigger] sq(m0, u)) by {
        if u.row >= row {
            assert(crate::builders::build_ops::parity_point(m0, u, ParityPoint::Even));
        }
    }
    lemma_field_bits(sq(m0, p), 0);
    assert(m0.in_bounds(p.row as int, p.col as int));
    lemma_field_change_keeps(m0, m1, p, op_value(sq(m0, p), 1, 0), p.row as int);
    let path = seq![p];
    assert(is_post(m1, path[0]));
    assert forall|r: int, c: int| m1.in_bounds(r, c) implies spec_marker(#[trigger] m1.square(r, c)) == post_marker(
        path,
        pt(r, c),
    ) by {
        assert(spec_marker(m0.square(r, c)) == 0);
    }
    assert forall|r: int, c: int| m1.in_bounds(r, c) && on_walk(#[trigger] m1.square(r, c)) implies path.contains(
        pt(r, c),
    ) by {
        assert(!on_walk(m0.square(r, c)));
    }
}

/// The last scan found no post left to build: the maze is done.
proof fn lemma_done_state(m: &Maze, row: int)
    requires
        clean_state(m, row),
        forall|u: Point|
            crate::builders::build_ops::parity_point(m, u, ParityPoint::Even) && row <= u.row ==> spec_is_built(
                #[trigger] sq(m, u),
            ),
    ensures
        wilson_done(m),
{
    assert forall|u: Point| is_post(m, u) implies spec_is_built(#[trigger] sq(m, u)) by {
        if u.row >= row {
            assert(crate::builders::build_ops::parity_point(m, u, ParityPoint::Even));
        }
    }
}

/// Takes the walk one step to `walk.next`: joins it to the maze when `next`
/// is built and starts a new walk at the first post left, erases the loop
/// when `next` is on the walk, and marks `next` otherwise.
fn complete_walk(maze: &mut Maze, walk: RandomWalk, Ghost(path): Ghost<Seq<Point>>) -> (r: (
    Option<RandomWalk>,
    Ghost<Seq<Point>>,
))
    requires
        old(maze).wf(),
        wilson_state(old(maze), path, walk.prev_row_start as int, path.len() as int),
        walk.walk == path.last(),
        point_in(old(maze), walk.next),
        is_step(walk.walk, walk.next),
    ensures
        reshaped(final(maze), old(maze)),
        match r.0 {
            Some(w) => {
                &&& wilson_state(final(maze), r.1@, w.prev_row_start as int, r.1@.len() - 1)
                &&& w.walk == r.1@.last()
            },
            None => wilson_done(final(maze)),
        },
{
    let mut walk = walk;
    let cur = walk.walk;
    let next = walk.next;
    let ghost row = walk.prev_row_start as int;
    proof {
        assert(is_post(maze, path[path.len() - 1]));
    }
    if crate::builders::build_ops::has_builder_bit(maze, next) {
        let ghost m0 = *maze;
        proof {
            assert(crate::builders::build_ops::interior(maze, between(cur, next)));
        }
        build_with_marks(maze, cur, next);
        proof {
            lemma_connect_start(&m0, maze, path, next, row);
        }
        connect_walk(maze, cur, Ghost(path), Ghost(row));
        match crate::builders::build_ops::choose_point_from_row_start(maze, walk.prev_row_start, ParityPoint::Even) {
            Some(point) => {
                let ghost m1 = *maze;
                proof {
                    assert(maze.in_bounds(point.row as int, point.col as int));
                }
                update_square(maze, point, 1, 0);
                proof {
                    lemma_restart_state(&m1, maze, point, row);
                }
                walk.prev_row_start = point.row;
                walk.walk = point;
                walk.prev = Point { row: 0, col: 0 };
                let ghost np = seq![point];
                return (Some(walk), Ghost(np));
            },
            None => {
                proof {
                    lemma_done_state(maze, row);
                }
                return (None, Ghost(path));
            },
        }
    }
    if on_walk_at(maze, next) {
        let ghost j = choose|j: int| 0 <= j < path.len() && path[j] == next;
        proof {
            assert(pt(next.row as int, next.col as int) == next);
            assert(path.contains(next));
        }
        erase_loop(maze, cur, next, Ghost(path), Ghost(j), Ghost(row));
        let ghost q = path.subrange(0, j + 1);
        proof {
            assert(q[j] == next);
            assert(is_post(maze, q[j]));
            assert(maze.in_bounds(next.row as int, next.col as int));
            assert(pt(next.row as int, next.col as int) == next);
            lemma_post_marker_bound(q, next);
        }
        walk.walk = next;
        walk.prev = back_from(maze, next);
        return (Some(walk), Ghost(q));
    }
    let ghost m0 = *maze;
    crate::builders::build_ops::mark_origin(maze, cur, next);
    proof {
        m0.maze.lemma_index(next.row as int, next.col as int);
        assert(maze.squares() == m0.maze.with_square(
            next.row as int,
            next.col as int,
            sq(&m0, next) | origin_marker(cur, next),
        ));
        lemma_one_changed(&m0, maze, next, sq(&m0, next) | origin_marker(cur, next));
        lemma_mark_step_state(&m0, maze, path, next, row);
    }
    walk.prev = cur;
    walk.walk = next;
    let ghost np = path.push(next);
    (Some(walk), Ghost(np))
}

/// Whether `p` is on the walk.
fn on_walk_at(maze: &Maze, p: Point) -> (b: bool)
    requires
        maze.wf(),
        point_in(maze, p),
    ensures
        b == on_walk(sq(maze, p)),
{
    (maze.get(p.row, p.col) & WALK_BIT) != 0
}


/// `next` lies on the grid and is not the post the walk just came from.
fn is_valid_step(maze: &Maze, next: Point, prev: Point) -> (b: bool)
    requires
        maze.wf(),
    ensures
        b == (point_in(maze, next) && next != prev),
{
    next.row >= 0 && next.row < maze.rows() && next.col >= 0 && next.col < maze.cols() && next != prev
}

/// Builds a maze by adding walls with loop-erased random walks: each walk
/// starts at a post not built yet and wanders from post to post, erasing
/// any loop it makes, until it reaches a built post; then its posts and the
/// walls between them are built. Walls grow from the edge inward until every
/// post is built. The maze must come fresh, with no square marked or on a
/// walk.
///
/// The walk is random and is given `u64::MAX` steps; the result says
/// whether every post was built within them.
pub fn generate_maze(maze: &mut Maze) -> (finished: bool)
    requires
        old(maze).wf(),
        old(maze).rows_spec() >= 4,
        old(maze).cols_spec() >= 4,
        forall|r: int, c: int|
            old(maze).in_bounds(r, c) ==> spec_marker(#[trigger] old(maze).square(r, c)) == 0 && !on_walk(
                old(maze).square(r, c),
            ),
    ensures
        reshaped(final(maze), old(maze)),
        crate::builders::build_ops::perimeter_walls(final(maze)),
        crate::builders::recursive_subdivision::cells_open(final(maze)),
        finished ==> wilson_done(final(maze)),
{
    build_wall_outline(maze);
    let start = Point {
        row: 2 * (crate::rng::random_range(2, maze.rows() - 1) / 2),
        col: 2 * (crate::rng::random_range(2, maze.cols() - 1) / 2),
    };
    let ghost mut path = seq![start];
    proof {
        assert forall|r: int, c: int| maze.in_bounds(r, c) implies spec_marker(#[trigger] maze.square(r, c))
            == post_marker(path, pt(r, c)) && !on_walk(maze.square(r, c)) by {
            let x = maze.square(r, c);
            let y = old(maze).square(r, c);
            assert(crate::builders::build_ops::low_bits(x) == crate::builders::build_ops::low_bits(y));
            assert(spec_marker(y) == 0 && !on_walk(y));
            assert(x & 0x00FF_FFFFu32 == y & 0x00FF_FFFFu32 && y & 0xFu32 == 0 && y & 0x4000u32 == 0 ==> x & 0xFu32
                == 0 && x & 0x4000u32 == 0) by (bit_vector);
        }
        assert forall|u: Point| is_cell(maze, u) implies !spec_is_wall(#[trigger] sq(maze, u)) by {}
        assert(is_post(maze, path[0]));
    }
    let mut cur = RandomWalk {
        prev_row_start: 2,
        prev: Point { row: 0, col: 0 },
        walk: start,
        next: Point { row: 0, col: 0 },
    };
    let mut indices: Vec<usize> = vec![0, 1, 2, 3];
    assert(indices@ =~= seq![0usize, 1, 2, 3]);
    let mut fuel: u64 = u64::MAX;
    loop
        invariant
            reshaped(maze, old(maze)),
            wilson_state(maze, path, cur.prev_row_start as int, path.len() - 1),
            cur.walk == path.last(),
            crate::builders::cells::all_directions(indices@),
        decreases fuel,
    {
        if fuel == 0 {
            return false;
        }
        fuel = fuel - 1;
        let ghost m0 = *maze;
        proof {
            assert(is_post(maze, path[path.len() - 1]));
        }
        set_walk(maze, cur.walk);
        proof {
            lemma_set_walk_state(&m0, maze, path, cur.prev_row_start as int);
        }
        crate::rng::shuffle(&mut indices);
        proof {
            crate::builders::cells::lemma_directions(indices@);
        }
        let mut k: usize = 0;
        let mut chosen: Option<Point> = None;
        while k < 4 && chosen.is_none()
            invariant
                maze.wf(),
                k <= 4,
                is_post(maze, cur.walk),
                indices@.len() == 4,
                forall|j: int| 0 <= j < 4 ==> #[trigger] indices@[j] < 4,
                chosen matches Some(n) ==> point_in(maze, n) && is_step(cur.walk, n),
            decreases 4 - k,
        {
            let d = crate::builders::build_ops::generate_direction(indices[k]);
            let next = Point { row: cur.walk.row + d.row, col: cur.walk.col + d.col };
            if is_valid_step(maze, next, cur.prev) {
                chosen = Some(next);
            }
            k = k + 1;
        }
        if let Some(next) = chosen {
            cur.next = next;
            let (res, Ghost(np)) = complete_walk(maze, cur, Ghost(path));
            match res {
                Some(w) => {
                    cur = w;
                    proof {
                        path = np;
                    }
                },
                None => {
                    return true;
                },
            }
        }
    }
}


/// The square after a walk enters it from the side `m`: marked with that
/// side and drawn as a wall.
pub open spec fn walk_line_value(x: Square, m: BacktrackMarker) -> Square {
    (x | m) & !PATH_BIT
}

/// Draws the walk's step from `walk` to `next`: the wall square between them
/// and `next` are marked with the side the walk entered from and shown as
/// walls, each change recorded as a frame of its own, in that order.
pub fn mark_line_history(maze: &mut Maze, walk: Point, next: Point)
    requires
        old(maze).wf(),
        crate::builders::build_ops::joinable(old(maze), walk, next),
        old(maze).build_history.deltas().len() + 2 <= usize::MAX,
    ensures
        final(maze).wf(),
        final(maze).same_shape(old(maze)),
        final(maze).solve_history == old(maze).solve_history,
        ({
            let w = between(walk, next);
            let m = origin_marker(walk, next);
            let s1 = old(maze).squares().update(
                old(maze).maze.index_of(w.row as int, w.col as int),
                walk_line_value(sq(old(maze), w), m),
            );
            final(maze).squares() == s1.update(
                old(maze).maze.index_of(next.row as int, next.col as int),
                walk_line_value(s1[old(maze).maze.index_of(next.row as int, next.col as int)], m),
            )
        }),
        ({
            let w = between(walk, next);
            let m = origin_marker(walk, next);
            let s1 = old(maze).squares().update(
                old(maze).maze.index_of(w.row as int, w.col as int),
                walk_line_value(sq(old(maze), w), m),
            );
            let x = s1[old(maze).maze.index_of(next.row as int, next.col as int)];
            final(maze).build_history.deltas() == old(maze).build_history.deltas() + seq![
                crate::maze::Delta { id: w, before: sq(old(maze), w), after: walk_line_value(sq(old(maze), w), m), burst: 1 },
                crate::maze::Delta { id: next, before: x, after: walk_line_value(x, m), burst: 1 },
            ]
        }),
        final(maze).build_history.deltas().len() == old(maze).build_history.deltas().len() + 2,
        between(walk, next) != next ==> crate::maze::recorded(old(maze), final(maze)),
{
    let ghost m0 = *maze;
    let ghost cols = m0.cols_spec();
    let m = crate::builders::build_ops::marker_toward(walk, next);
    let wall = crate::builders::build_ops::step_toward(walk, next);
    let wall_before = maze.get(wall.row, wall.col);
    maze.set(wall.row, wall.col, (wall_before | m) & !PATH_BIT);
    let ghost ms = *maze;
    let next_before = maze.get(next.row, next.col);
    maze.set(next.row, next.col, (next_before | m) & !PATH_BIT);
    let d1 = crate::maze::Delta { id: wall, before: wall_before, after: maze.get(wall.row, wall.col), burst: 1 };
    let d2 = crate::maze::Delta { id: next, before: next_before, after: maze.get(next.row, next.col), burst: 1 };
    maze.build_history.push(d1);
    maze.build_history.push(d2);
    proof {
        let d0 = m0.build_history.deltas();
        let dd = maze.build_history.deltas();
        m0.maze.lemma_index(wall.row as int, wall.col as int);
        m0.maze.lemma_index(next.row as int, next.col as int);
        assert(dd.subrange(0, d0.len() as int) =~= d0);
        assert(dd.subrange(d0.len() as int, dd.len() as int) =~= seq![d1, d2]);
        assert(dd =~= d0 + seq![d1, d2]);
        let iw = m0.maze.index_of(wall.row as int, wall.col as int);
        let inx = m0.maze.index_of(next.row as int, next.col as int);
        let s1 = m0.squares().update(iw, walk_line_value(sq(&m0, wall), m));
        assert(ms.squares() =~= s1);
        assert(next_before == s1[inx]);
        assert(((((wall_before | m) & !0x2000_0000u32) | m) & !0x2000_0000u32) == ((wall_before | m) & !0x2000_0000u32)) by (bit_vector);
        if wall == next {
            assert(d1.after == walk_line_value(next_before, m));
            assert(next_before == walk_line_value(sq(&m0, wall), m));
        } else {
            lemma_cell_index_injective(wall.row as int, wall.col as int, next.row as int, next.col as int, cols);
            assert(d1.after == maze.squares()[iw]);
        }
        if wall != next {
            lemma_cell_index_injective(wall.row as int, wall.col as int, next.row as int, next.col as int, cols);
            crate::maze::lemma_replay_empty(m0.squares(), cols);
            crate::maze::lemma_replay_push(m0.squares(), cols, Seq::<crate::maze::Delta>::empty(), d1);
            assert(Seq::<crate::maze::Delta>::empty().push(d1) =~= seq![d1]);
            crate::maze::lemma_replay_push(m0.squares(), cols, seq![d1], d2);
            assert(seq![d1].push(d2) =~= seq![d1, d2]);
            assert(crate::maze::replay(m0.squares(), cols, seq![d1, d2]) =~= maze.squares());
            crate::maze::lemma_recorded_exactly(&m0, maze);
        }
    }
}


/// Writing `center` into `p` and the given values into its neighbors, each
/// neighbor that is a wall taking a wall bit toward `p`, changes the four
/// fields of no square but `p`, which becomes `center`.
proof fn lemma_around_fields(
    m0: &Maze,
    m1: &Maze,
    p: Point,
    center: Square,
    north: Square,
    east: Square,
    south: Square,
    west: Square,
)
    requires
        m0.wf(),
        m1.same_shape(m0),
        point_in(m0, p),
        m1.squares() == crate::builders::build_ops::around(m0, p, center, north, east, south, west),
        p.row > 0 ==> north == (if spec_is_wall(at_offset(m0, p, -1, 0)) { at_offset(m0, p, -1, 0) | SOUTH_WALL } else { at_offset(m0, p, -1, 0) }),
        p.col + 1 < m0.cols_spec() ==> east == (if spec_is_wall(at_offset(m0, p, 0, 1)) { at_offset(m0, p, 0, 1) | WEST_WALL } else { at_offset(m0, p, 0, 1) }),
        p.row + 1 < m0.rows_spec() ==> south == (if spec_is_wall(at_offset(m0, p, 1, 0)) { at_offset(m0, p, 1, 0) | NORTH_WALL } else { at_offset(m0, p, 1, 0) }),
        p.col > 0 ==> west == (if spec_is_wall(at_offset(m0, p, 0, -1)) { at_offset(m0, p, 0, -1) | EAST_WALL } else { at_offset(m0, p, 0, -1) }),
    ensures
        forall|r: int, c: int|
            m0.in_bounds(r, c) && (r != p.row || c != p.col) ==> same_fields(m0.square(r, c), #[trigger] m1.square(r, c)),
        sq(m1, p) == center,
{
    let cols = m0.cols_spec();
    crate::builders::build_ops::lemma_around_cells(m0, p);
    m0.maze.lemma_index(p.row as int, p.col as int);
    assert forall|r: int, c: int|
        m0.in_bounds(r, c) && (r != p.row || c != p.col) implies same_fields(m0.square(r, c), #[trigger] m1.square(r, c)) by {
        m0.maze.lemma_index(r, c);
        lemma_cell_index_injective(r, c, p.row as int, p.col as int, cols);
        let x = m0.square(r, c);
        lemma_wall_or_bits(x);
        let k = cell_index(r, c, cols);
        let kn = cell_index(p.row - 1, p.col as int, cols);
        let ks = cell_index(p.row + 1, p.col as int, cols);
        let kw = cell_index(p.row as int, p.col - 1, cols);
        let ke = cell_index(p.row as int, p.col + 1, cols);
        let sa = crate::builders::build_ops::around(m0, p, center, north, east, south, west);
        assert(m1.square(r, c) == sa[k]);
        assert(m0.squares()[k] == x);
        if p.row > 0 && k == kn {
            assert(at_offset(m0, p, -1, 0) == x);
        } else if p.row + 1 < m0.rows_spec() && k == ks {
            assert(at_offset(m0, p, 1, 0) == x);
        } else if p.col > 0 && k == kw {
            assert(at_offset(m0, p, 0, -1) == x);
        } else if p.col + 1 < cols && k == ke {
            assert(at_offset(m0, p, 0, 1) == x);
        } else {
            assert(sa[k] == x);
        }
    }
}

/// `p` became a built wall off the walk with no marker; every other square
/// keeps its four fields.
pub open spec fn walk_lined(m0: &Maze, m1: &Maze, p: Point) -> bool {
    &&& m1.same_shape(m0)
    &&& forall|r: int, c: int|
        m0.in_bounds(r, c) && (r != p.row || c != p.col) ==> same_fields(m0.square(r, c), #[trigger] m1.square(r, c))
    &&& spec_is_built(sq(m1, p))
    &&& spec_is_wall(sq(m1, p))
    &&& spec_marker(sq(m1, p)) == 0
    &&& !on_walk(sq(m1, p))
}

/// Turns `p` into a built wall joined to the walls around it, off the walk
/// and unmarked, recorded as one frame.
/// A neighbor of a wall line at `p`, `dr` rows and `dc` columns away: a
/// wall gets the wall bit `back` that points at `p`, a path stays as it is.
pub open spec fn linked_neighbor(maze: &Maze, p: Point, dr: int, dc: int, back: Square) -> Square {
    if spec_is_wall(at_offset(maze, p, dr, dc)) {
        at_offset(maze, p, dr, dc) | back
    } else {
        at_offset(maze, p, dr, dc)
    }
}

/// The square a walk line leaves at `p`: joined by wall bits to each
/// neighbor that is a wall, built, a wall, off the walk and unmarked.
pub open spec fn walk_line_center(maze: &Maze, p: Point) -> Square {
    ((sq(maze, p) | crate::builders::build_ops::wall_links(maze, p) | BUILDER_BIT) & !PATH_BIT) & !WALK_BIT
        & !MARKERS_MASK
}

fn build_walk_line_history(maze: &mut Maze, p: Point)
    requires
        old(maze).wf(),
        point_in(old(maze), p),
        old(maze).build_history.deltas().len() + 5 <= usize::MAX,
    ensures
        final(maze).wf(),
        final(maze).solve_history == old(maze).solve_history,
        final(maze).build_history.deltas().len() <= old(maze).build_history.deltas().len() + 5,
        walk_lined(old(maze), final(maze), p),
        crate::maze::recorded(old(maze), final(maze)),
        final(maze).squares() == crate::builders::build_ops::around(
            old(maze),
            p,
            walk_line_center(old(maze), p),
            linked_neighbor(old(maze), p, -1, 0, SOUTH_WALL),
            linked_neighbor(old(maze), p, 0, 1, WEST_WALL),
            linked_neighbor(old(maze), p, 1, 0, NORTH_WALL),
            linked_neighbor(old(maze), p, 0, -1, EAST_WALL),
        ),
        final(maze).build_history.deltas() == old(maze).build_history.deltas() + crate::builders::build_ops::around_deltas(
            old(maze),
            p,
            walk_line_center(old(maze), p),
            linked_neighbor(old(maze), p, -1, 0, SOUTH_WALL),
            linked_neighbor(old(maze), p, 0, 1, WEST_WALL),
            linked_neighbor(old(maze), p, 1, 0, NORTH_WALL),
            linked_neighbor(old(maze), p, 0, -1, EAST_WALL),
            p.row > 0 && spec_is_wall(at_offset(old(maze), p, -1, 0)),
            p.row + 1 < old(maze).rows_spec() && spec_is_wall(at_offset(old(maze), p, 1, 0)),
            p.col > 0 && spec_is_wall(at_offset(old(maze), p, 0, -1)),
            p.col + 1 < old(maze).cols_spec() && spec_is_wall(at_offset(old(maze), p, 0, 1)),
            true,
        ),
{
    let ghost m0 = *maze;
    let (north, east, south, west, wall, tn, ts, tw, te) = crate::builders::build_ops::wall_neighbors(maze, p);
    let x = maze.get(p.row, p.col);
    let center = ((x | wall | BUILDER_BIT) & !PATH_BIT) & !WALK_BIT & !MARKERS_MASK;
    crate::builders::build_ops::record_around(maze, p, center, north, east, south, west, tn, ts, tw, te, true);
    proof {
        assert(maze.squares() =~= crate::builders::build_ops::around(
            &m0,
            p,
            walk_line_center(&m0, p),
            linked_neighbor(&m0, p, -1, 0, SOUTH_WALL),
            linked_neighbor(&m0, p, 0, 1, WEST_WALL),
            linked_neighbor(&m0, p, 1, 0, NORTH_WALL),
            linked_neighbor(&m0, p, 0, -1, EAST_WALL),
        ));
        assert(crate::maze::recorded(&m0, maze));
        lemma_around_fields(&m0, maze, p, center, north, east, south, west);
        let n = if p.row > 0 && spec_is_wall(at_offset(&m0, p, -1, 0)) { NORTH_WALL } else { 0u32 };
        let so = if p.row + 1 < m0.rows_spec() && spec_is_wall(at_offset(&m0, p, 1, 0)) { SOUTH_WALL } else { 0u32 };
        let w = if p.col > 0 && spec_is_wall(at_offset(&m0, p, 0, -1)) { WEST_WALL } else { 0u32 };
        let e = if p.col + 1 < m0.cols_spec() && spec_is_wall(at_offset(&m0, p, 0, 1)) { EAST_WALL } else { 0u32 };
        assert(wall == n | so | w | e);
        assert((n == 0 || n == 0x0100_0000u32) && (so == 0 || so == 0x0400_0000u32) && (w == 0 || w == 0x0800_0000u32)
            && (e == 0 || e == 0x0200_0000u32) ==> {
            let l = n | so | w | e;
            let v = ((x | l | 0x1000_0000u32) & !0x2000_0000u32) & !0x4000u32 & !0xFu32;
            &&& v & 0x1000_0000u32 != 0
            &&& v & 0x2000_0000u32 == 0
            &&& v & 0xFu32 == 0
            &&& v & 0x4000u32 == 0
        }) by (bit_vector);
    }
}

/// Writes `v` into `p` and records the change as a frame of its own.
fn record_set(maze: &mut Maze, p: Point, v: Square)
    requires
        old(maze).wf(),
        point_in(old(maze), p),
        old(maze).build_history.deltas().len() + 1 <= usize::MAX,
    ensures
        final(maze).wf(),
        final(maze).solve_history == old(maze).solve_history,
        final(maze).build_history.deltas().len() == old(maze).build_history.deltas().len() + 1,
        one_changed(old(maze), final(maze), p, v),
{
    let ghost m0 = *maze;
    let before = maze.get(p.row, p.col);
    maze.build_history.push(crate::maze::Delta { id: p, before, after: v, burst: 1 });
    maze.set(p.row, p.col, v);
    proof {
        lemma_one_changed(&m0, maze, p, v);
    }
}


/// `q` is the wall square between two posts the walk stepped between.
pub open spec fn step_between(path: Seq<Point>, q: Point) -> bool {
    exists|k: int| 1 <= k < path.len() && q == between(path[k - 1], #[trigger] path[k])
}

/// While a recorded walk stands on `path`, each square on an even row and
/// column carries the marker of the walk, and of the other squares only the
/// walls between posts the walk stepped between may carry one.
pub open spec fn marks_shown(maze: &Maze, path: Seq<Point>) -> bool {
    forall|r: int, c: int|
        maze.in_bounds(r, c) ==> {
            let x = #[trigger] maze.square(r, c);
            &&& (r % 2 == 0 && c % 2 == 0) ==> spec_marker(x) == post_marker(path, pt(r, c))
            &&& (!(r % 2 == 0 && c % 2 == 0) && spec_marker(x) != 0) ==> step_between(path, pt(r, c))
        }
}

/// What the recorded wall adder keeps while a walk stands on `path`.
pub open spec fn shown_state(maze: &Maze, path: Seq<Point>, row: int, upto: int) -> bool {
    &&& crate::builders::build_ops::perimeter_walls(maze)
    &&& edge_built(maze)
    &&& crate::builders::recursive_subdivision::cells_open(maze)
    &&& post_walk(maze, path)
    &&& marks_shown(maze, path)
    &&& walk_bits(maze, path, upto)
    &&& row % 2 == 0
    &&& 2 <= row
    &&& posts_done(maze, row)
}

/// The wall square between two posts one step apart lies on an odd row or
/// an odd column, and names the two posts.
proof fn lemma_between_unique(a: Point, b: Point, c: Point, d: Point)
    requires
        is_step(a, b),
        is_step(c, d),
        a.row % 2 == 0 && a.col % 2 == 0,
        c.row % 2 == 0 && c.col % 2 == 0,
        0 <= a.row && 0 <= a.col && 0 <= c.row && 0 <= c.col,
        a.row < 0x4000_0000 && a.col < 0x4000_0000 && c.row < 0x4000_0000 && c.col < 0x4000_0000,
        between(a, b) == between(c, d),
    ensures
        (a == c && b == d) || (a == d && b == c),
        !(between(a, b).row % 2 == 0 && between(a, b).col % 2 == 0),
{
}

/// The marks of an unrecorded walk, on its posts alone, are marks a
/// recorded walk may show.
proof fn lemma_follow_shown(maze: &Maze, path: Seq<Point>, row: int, upto: int)
    requires
        wilson_state(maze, path, row, upto),
    ensures
        shown_state(maze, path, row, upto),
{
    assert forall|r: int, c: int| maze.in_bounds(r, c) implies {
        let x = #[trigger] maze.square(r, c);
        &&& (r % 2 == 0 && c % 2 == 0) ==> spec_marker(x) == post_marker(path, pt(r, c))
        &&& (!(r % 2 == 0 && c % 2 == 0) && spec_marker(x) != 0) ==> step_between(path, pt(r, c))
    } by {
        if !(r % 2 == 0 && c % 2 == 0) {
            assert forall|k: int| 1 <= k < path.len() implies path[k] != pt(r, c) by {
                assert(is_post(maze, path[k]));
            }
            lemma_post_marker_zero(path, pt(r, c));
        }
    }
}

/// Setting the walk bit of the walk's last post puts every post of the
/// walk on it.
proof fn lemma_set_walk_shown(m0: &Maze, m1: &Maze, path: Seq<Point>, row: int)
    requires
        m0.wf(),
        shown_state(m0, path, row, path.len() - 1),
        one_changed(m0, m1, path.last(), sq(m0, path.last()) | WALK_BIT),
    ensures
        shown_state(m1, path, row, path.len() as int),
{
    let p = path.last();
    let v = sq(m0, p) | WALK_BIT;
    lemma_field_bits(sq(m0, p), 0);
    assert(is_post(m0, path[path.len() - 1]));
    lemma_field_change_keeps(m0, m1, p, v, row);
    assert forall|r: int, c: int| m1.in_bounds(r, c) implies {
        let x = #[trigger] m1.square(r, c);
        &&& (r % 2 == 0 && c % 2 == 0) ==> spec_marker(x) == post_marker(path, pt(r, c))
        &&& (!(r % 2 == 0 && c % 2 == 0) && spec_marker(x) != 0) ==> step_between(path, pt(r, c))
    } by {
        let y = m0.square(r, c);
    }
    assert forall|r: int, c: int| m1.in_bounds(r, c) && on_walk(#[trigger] m1.square(r, c)) implies path.contains(pt(r, c)) by {
        if r == p.row && c == p.col {
            assert(pt(r, c) == p);
            assert(path[path.len() - 1] == p);
        } else {
            assert(on_walk(m0.square(r, c)));
        }
    }
    assert forall|j: int| 0 <= j < path.len() implies on_walk(sq(m1, #[trigger] path[j])) by {
        assert(is_post(m0, path[j]));
        assert(m0.in_bounds(path[j].row as int, path[j].col as int));
        if j < path.len() - 1 {
            assert(on_walk(sq(m0, path[j])));
            if path[j] == p {
                assert(path[j] == path[path.len() - 1]);
            }
        }
    }
}


proof fn lemma_line_value_bits(x: Square, m: BacktrackMarker)
    requires
        1 <= m <= 4,
    ensures
        spec_is_built(walk_line_value(x, m)) == spec_is_built(x),
        spec_is_wall(walk_line_value(x, m)),
        on_walk(walk_line_value(x, m)) == on_walk(x),
        spec_marker(x) == 0 ==> spec_marker(walk_line_value(x, m)) == m,
{
    assert(1 <= m <= 4 ==> {
        let v = (x | m) & !0x2000_0000u32;
        &&& v & 0x1000_0000u32 == x & 0x1000_0000u32
        &&& v & 0x2000_0000u32 == 0
        &&& v & 0x4000u32 == x & 0x4000u32
        &&& (x & 0xFu32 == 0 ==> v & 0xFu32 == m)
    }) by (bit_vector);
}

/// The squares after two writes, at `a` and then at `b`, read square by square.
proof fn lemma_two_writes(m0: &Maze, m1: &Maze, a: Point, va: Square, b: Point, vb: Square)
    requires
        m0.wf(),
        m1.same_shape(m0),
        point_in(m0, a),
        point_in(m0, b),
        a != b,
        m1.squares() == m0.squares().update(m0.maze.index_of(a.row as int, a.col as int), va).update(
            m0.maze.index_of(b.row as int, b.col as int),
            vb,
        ),
    ensures
        forall|r: int, c: int|
            m0.in_bounds(r, c) ==> #[trigger] m1.square(r, c) == if r == b.row && c == b.col {
                vb
            } else if r == a.row && c == a.col {
                va
            } else {
                m0.square(r, c)
            },
{
    let cols = m0.cols_spec();
    m0.maze.lemma_index(a.row as int, a.col as int);
    m0.maze.lemma_index(b.row as int, b.col as int);
    lemma_cell_index_injective(a.row as int, a.col as int, b.row as int, b.col as int, cols);
    assert forall|r: int, c: int| m0.in_bounds(r, c) implies #[trigger] m1.square(r, c) == if r == b.row && c == b.col {
        vb
    } else if r == a.row && c == a.col {
        va
    } else {
        m0.square(r, c)
    } by {
        m0.maze.lemma_index(r, c);
        if r != a.row || c != a.col {
            lemma_cell_index_injective(r, c, a.row as int, a.col as int, cols);
        }
        if r != b.row || c != b.col {
            lemma_cell_index_injective(r, c, b.row as int, b.col as int, cols);
        }
    }
}

/// Before a recorded step to an unbuilt post off the walk: the post lies
/// inside the edge, and neither it nor the wall before it is marked.
#[verifier::rlimit(40)]
proof fn lemma_line_prior(m0: &Maze, path: Seq<Point>, next: Point)
    requires
        m0.wf(),
        edge_built(m0),
        post_walk(m0, path),
        marks_shown(m0, path),
        walk_bits(m0, path, path.len() as int),
        point_in(m0, next),
        is_step(path.last(), next),
        !spec_is_built(sq(m0, next)),
        !on_walk(sq(m0, next)),
    ensures
        interior(m0, next),
        interior(m0, between(path.last(), next)),
        between(path.last(), next) != next,
        between(path.last(), next) != path.last(),
        !(between(path.last(), next).row % 2 == 0 && between(path.last(), next).col % 2 == 0),
        spec_marker(sq(m0, next)) == 0,
        spec_marker(sq(m0, between(path.last(), next))) == 0,
        forall|j: int| 0 <= j < path.len() ==> path[j] != next,
        1 <= origin_marker(path.last(), next) <= 4,
        is_post(m0, path.last()),
{
    let cur = path.last();
    let w = between(cur, next);
    assert(is_post(m0, path[path.len() - 1]));
    crate::builders::recursive_backtracker::lemma_backtrack_undoes(cur, next);
    assert(interior(m0, next)) by {
        assert(m0.in_bounds(next.row as int, next.col as int));
        if !(0 < next.row < m0.rows_spec() - 1 && 0 < next.col < m0.cols_spec() - 1) {
            assert(spec_is_built(m0.square(next.row as int, next.col as int)));
        }
    }
    assert forall|j: int| 0 <= j < path.len() implies path[j] != next by {
        assert(on_walk(sq(m0, path[j])));
    }
    assert(m0.square(next.row as int, next.col as int) == sq(m0, next));
    assert(pt(next.row as int, next.col as int) == next);
    lemma_post_marker_zero(path, next);
    assert(interior(m0, w));
    lemma_wall_unmarked(m0, path, next);
}

/// The wall before a post off the walk carries no marker.
#[verifier::rlimit(40)]
#[verifier::spinoff_prover]
proof fn lemma_wall_unmarked(m0: &Maze, path: Seq<Point>, next: Point)
    requires
        marks_shown(m0, path),
        post_walk(m0, path),
        is_step(path.last(), next),
        next.row % 2 == 0 && next.col % 2 == 0,
        forall|j: int| 0 <= j < path.len() ==> path[j] != next,
        interior(m0, between(path.last(), next)),
    ensures
        spec_marker(sq(m0, between(path.last(), next))) == 0,
{
    let cur = path.last();
    let w = between(cur, next);
    assert(is_post(m0, path[path.len() - 1]));
    lemma_marks_at(m0, path, w.row as int, w.col as int);
    assert(pt(w.row as int, w.col as int) == w);
    if spec_marker(sq(m0, w)) != 0 {
        assert(step_between(path, w));
        let k = choose|k: int| 1 <= k < path.len() && w == between(path[k - 1], #[trigger] path[k]);
        lemma_step_posts(m0, path, k);
        lemma_between_unique(cur, next, path[k - 1], path[k]);
    }
}

/// What the marks of a recorded walk say of one square.
proof fn lemma_marks_at(m: &Maze, path: Seq<Point>, r: int, c: int)
    requires
        marks_shown(m, path),
        m.in_bounds(r, c),
    ensures
        (r % 2 == 0 && c % 2 == 0) ==> spec_marker(m.square(r, c)) == post_marker(path, pt(r, c)),
        (!(r % 2 == 0 && c % 2 == 0) && spec_marker(m.square(r, c)) != 0) ==> step_between(path, pt(r, c)),
{
    let x = m.square(r, c);
}

/// Two posts of a walk one after the other.
proof fn lemma_step_posts(m: &Maze, path: Seq<Point>, k: int)
    requires
        post_walk(m, path),
        1 <= k < path.len(),
    ensures
        is_post(m, path[k - 1]),
        is_post(m, path[k]),
        is_step(path[k - 1], path[k]),
{
}

/// Changes to squares away from the cells and the edge, keeping builder
/// bits, keep the edge, the open cells and the built posts.
proof fn lemma_line_keeps(m0: &Maze, m1: &Maze, a: Point, b: Point, row: int)
    requires
        m1.same_shape(m0),
        interior(m0, a),
        interior(m0, b),
        !is_cell(m0, a),
        !is_cell(m0, b),
        forall|r: int, c: int|
            m0.in_bounds(r, c) && (r != a.row || c != a.col) && (r != b.row || c != b.col) ==> same_fields(
                m0.square(r, c),
                #[trigger] m1.square(r, c),
            ),
        spec_is_built(sq(m0, a)) ==> spec_is_built(sq(m1, a)),
        spec_is_built(sq(m0, b)) ==> spec_is_built(sq(m1, b)),
        crate::builders::build_ops::perimeter_walls(m0),
        edge_built(m0),
        crate::builders::recursive_subdivision::cells_open(m0),
        posts_done(m0, row),
    ensures
        crate::builders::build_ops::perimeter_walls(m1),
        edge_built(m1),
        crate::builders::recursive_subdivision::cells_open(m1),
        posts_done(m1, row),
{
    assert forall|r: int, c: int|
        m1.in_bounds(r, c) && !(0 < r < m1.rows_spec() - 1 && 0 < c < m1.cols_spec() - 1) implies spec_is_wall(#[trigger] m1.square(r, c))
            && spec_is_built(m1.square(r, c)) by {
        assert(same_fields(m0.square(r, c), m1.square(r, c)));
    }
    assert forall|u: Point| is_cell(m1, u) implies !spec_is_wall(#[trigger] sq(m1, u)) by {
        assert(m0.in_bounds(u.row as int, u.col as int));
        assert(!spec_is_wall(sq(m0, u)));
        assert(u != a && u != b);
    }
    assert forall|u: Point| is_post(m1, u) && u.row < row implies spec_is_built(#[trigger] sq(m1, u)) by {
        assert(m0.in_bounds(u.row as int, u.col as int));
        assert(spec_is_built(sq(m0, u)));
    }
}

/// A recorded step to an unbuilt post off the walk marks the post and the
/// wall before it and extends the walk.
#[verifier::rlimit(40)]
proof fn lemma_mark_line_shown(m0: &Maze, m1: &Maze, path: Seq<Point>, next: Point, row: int)
    requires
        m0.wf(),
        m1.same_shape(m0),
        shown_state(m0, path, row, path.len() as int),
        point_in(m0, next),
        is_step(path.last(), next),
        !spec_is_built(sq(m0, next)),
        !on_walk(sq(m0, next)),
        ({
            let cur = path.last();
            let w = between(cur, next);
            let m = origin_marker(cur, next);
            let s1 = m0.squares().update(m0.maze.index_of(w.row as int, w.col as int), walk_line_value(sq(m0, w), m));
            m1.squares() == s1.update(
                m0.maze.index_of(next.row as int, next.col as int),
                walk_line_value(s1[m0.maze.index_of(next.row as int, next.col as int)], m),
            )
        }),
    ensures
        shown_state(m1, path.push(next), row, path.len() as int),
{
    let cur = path.last();
    let w = between(cur, next);
    let m = origin_marker(cur, next);
    let np = path.push(next);
    lemma_line_prior(m0, path, next);
    m0.maze.lemma_index(w.row as int, w.col as int);
    m0.maze.lemma_index(next.row as int, next.col as int);
    lemma_cell_index_injective(w.row as int, w.col as int, next.row as int, next.col as int, m0.cols_spec());
    let s1 = m0.squares().update(m0.maze.index_of(w.row as int, w.col as int), walk_line_value(sq(m0, w), m));
    assert(s1[m0.maze.index_of(next.row as int, next.col as int)] == sq(m0, next));
    lemma_two_writes(m0, m1, w, walk_line_value(sq(m0, w), m), next, walk_line_value(sq(m0, next), m));
    lemma_line_value_bits(sq(m0, w), m);
    lemma_line_value_bits(sq(m0, next), m);
    assert(m1.square(w.row as int, w.col as int) == sq(m1, w));
    assert(m1.square(next.row as int, next.col as int) == sq(m1, next));
    lemma_line_keeps(m0, m1, w, next, row);
    lemma_line_walk(m0, m1, path, next, w, m);
}

/// The walk, its markers and its walk bits after a recorded step.
proof fn lemma_line_walk(m0: &Maze, m1: &Maze, path: Seq<Point>, next: Point, w: Point, m: BacktrackMarker)
    requires
        m1.same_shape(m0),
        post_walk(m0, path),
        marks_shown(m0, path),
        walk_bits(m0, path, path.len() as int),
        is_post(m0, next),
        is_step(path.last(), next),
        w == between(path.last(), next),
        m == origin_marker(path.last(), next),
        !(w.row % 2 == 0 && w.col % 2 == 0),
        forall|j: int| 0 <= j < path.len() ==> path[j] != next,
        forall|r: int, c: int|
            m0.in_bounds(r, c) ==> #[trigger] m1.square(r, c) == if r == next.row && c == next.col {
                walk_line_value(m0.square(r, c), m)
            } else if r == w.row && c == w.col {
                walk_line_value(m0.square(r, c), m)
            } else {
                m0.square(r, c)
            },
        m1.square(w.row as int, w.col as int) == sq(m1, w),
        m1.square(next.row as int, next.col as int) == sq(m1, next),
        spec_marker(sq(m1, next)) == m,
        spec_marker(sq(m1, w)) == m,
        1 <= m <= 4,
        on_walk(sq(m1, w)) == on_walk(sq(m0, w)),
        on_walk(sq(m1, next)) == on_walk(sq(m0, next)),
        interior(m0, w),
        point_in(m0, next),
    ensures
        post_walk(m1, path.push(next)),
        marks_shown(m1, path.push(next)),
        walk_bits(m1, path.push(next), path.len() as int),
{
    let np = path.push(next);
    let cur = path.last();
    assert(np.drop_last() =~= path);
    assert forall|j: int| 0 <= j < np.len() implies is_post(m1, #[trigger] np[j]) by {
        if j < path.len() {
            assert(np[j] == path[j]);
        }
    }
    assert forall|j: int| 1 <= j < np.len() implies is_step(np[j - 1], #[trigger] np[j]) by {
        if j < path.len() {
            assert(np[j] == path[j] && np[j - 1] == path[j - 1]);
        }
    }
    assert forall|i: int, j: int| 0 <= i < j < np.len() implies np[i] != np[j] by {
        assert(np[i] == path[i]);
        if j < path.len() {
            assert(np[j] == path[j]);
        }
    }
    assert forall|r: int, c: int| m1.in_bounds(r, c) implies {
        let x = #[trigger] m1.square(r, c);
        &&& (r % 2 == 0 && c % 2 == 0) ==> spec_marker(x) == post_marker(np, pt(r, c))
        &&& (!(r % 2 == 0 && c % 2 == 0) && spec_marker(x) != 0) ==> step_between(np, pt(r, c))
    } by {
        let y = m0.square(r, c);
        if r == next.row && c == next.col {
            assert(pt(r, c) == next);
        } else if r == w.row && c == w.col {
            assert(pt(r, c) == w);
            assert(np[path.len() as int] == next);
            assert(np[path.len() - 1] == cur);
            assert(w == between(np[path.len() - 1], np[path.len() as int]));
        } else {
            assert(pt(r, c) != next);
            if !(r % 2 == 0 && c % 2 == 0) && spec_marker(y) != 0 {
                assert(step_between(path, pt(r, c)));
                let k = choose|k: int| 1 <= k < path.len() && pt(r, c) == between(path[k - 1], #[trigger] path[k]);
                assert(np[k] == path[k] && np[k - 1] == path[k - 1]);
            }
        }
    }
    assert forall|r: int, c: int| m1.in_bounds(r, c) && on_walk(#[trigger] m1.square(r, c)) implies np.contains(pt(r, c)) by {
        if r == w.row && c == w.col {
            assert(on_walk(sq(m0, w)));
            assert(m0.square(r, c) == sq(m0, w));
        } else if r == next.row && c == next.col {
            assert(m0.square(r, c) == sq(m0, next));
        }
        assert(on_walk(m0.square(r, c)));
        assert(path.contains(pt(r, c)));
        let k = choose|k: int| 0 <= k < path.len() && path[k] == pt(r, c);
        assert(np[k] == pt(r, c));
    }
    assert forall|j: int| 0 <= j < path.len() implies on_walk(sq(m1, #[trigger] np[j])) by {
        assert(np[j] == path[j]);
        assert(on_walk(sq(m0, path[j])));
        assert(is_post(m0, path[j]));
        assert(m0.in_bounds(path[j].row as int, path[j].col as int));
        assert(path[j] != w);
    }
}


/// A post taken off a recorded walk: a path again, unmarked, off the walk.
pub open spec fn erased_post(x: Square) -> Square {
    (((x & !WALK_BIT) & !WALL_MASK) & !MARKERS_MASK) | PATH_BIT
}

/// A wall square taken off a recorded walk: a path again and unmarked.
pub open spec fn erased_wall(x: Square) -> Square {
    ((x & !MARKERS_MASK) & !WALL_MASK) | PATH_BIT
}

proof fn lemma_erased_bits(x: Square)
    ensures
        spec_is_built(erased_post(x)) == spec_is_built(x),
        !spec_is_wall(erased_post(x)),
        spec_marker(erased_post(x)) == 0,
        !on_walk(erased_post(x)),
        spec_is_built(erased_wall(x)) == spec_is_built(x),
        !spec_is_wall(erased_wall(x)),
        spec_marker(erased_wall(x)) == 0,
        on_walk(erased_wall(x)) == on_walk(x),
{
    assert({
        let v = (((x & !0x4000u32) & !0x0F00_0000u32) & !0xFu32) | 0x2000_0000u32;
        let u = ((x & !0xFu32) & !0x0F00_0000u32) | 0x2000_0000u32;
        &&& v & 0x1000_0000u32 == x & 0x1000_0000u32
        &&& v & 0x2000_0000u32 != 0
        &&& v & 0xFu32 == 0
        &&& v & 0x4000u32 == 0
        &&& u & 0x1000_0000u32 == x & 0x1000_0000u32
        &&& u & 0x2000_0000u32 != 0
        &&& u & 0xFu32 == 0
        &&& u & 0x4000u32 == x & 0x4000u32
    }) by (bit_vector);
}

/// Taking the last post of a recorded walk and the wall before it off the
/// walk shortens the walk by one post.
#[verifier::rlimit(40)]
proof fn lemma_pop_shown(m0: &Maze, m1: &Maze, m2: &Maze, q: Seq<Point>, row: int)
    requires
        m0.wf(),
        m1.wf(),
        shown_state(m0, q, row, q.len() as int),
        q.len() >= 2,
        one_changed(m0, m1, q.last(), erased_post(sq(m0, q.last()))),
        one_changed(m1, m2, between(q[q.len() - 2], q.last()), erased_wall(sq(m1, between(q[q.len() - 2], q.last())))),
    ensures
        shown_state(m2, q.drop_last(), row, q.len() - 1),
{
    let p = q.last();
    let half = between(q[q.len() - 2], p);
    let dl = q.drop_last();
    assert(is_post(m0, q[q.len() - 1]) && is_post(m0, q[q.len() - 2]));
    assert(is_step(q[q.len() - 2], q[q.len() - 1]));
    assert(interior(m0, half));
    assert(!(half.row % 2 == 0 && half.col % 2 == 0));
    assert(half != p);
    lemma_erased_bits(sq(m0, p));
    lemma_erased_bits(sq(m1, half));
    assert(m0.in_bounds(p.row as int, p.col as int));
    assert(m0.in_bounds(half.row as int, half.col as int));
    assert(sq(m1, half) == sq(m0, half));
    assert(sq(m2, p) == sq(m1, p));
    assert forall|r: int, c: int|
        m0.in_bounds(r, c) && (r != p.row || c != p.col) && (r != half.row || c != half.col) implies same_fields(
        m0.square(r, c),
        #[trigger] m2.square(r, c),
    ) by {
        assert(m1.square(r, c) == m0.square(r, c));
    }
    assert(!is_cell(m0, p) && !is_cell(m0, half));
    lemma_line_keeps(m0, m2, p, half, row);
    assert forall|j: int| 0 <= j < dl.len() implies is_post(m2, #[trigger] dl[j]) by {
        assert(dl[j] == q[j]);
    }
    assert forall|j: int| 1 <= j < dl.len() implies is_step(dl[j - 1], #[trigger] dl[j]) by {
        assert(dl[j] == q[j] && dl[j - 1] == q[j - 1]);
    }
    assert forall|i: int, j: int| 0 <= i < j < dl.len() implies dl[i] != dl[j] by {
        assert(dl[i] == q[i] && dl[j] == q[j]);
    }
    assert forall|r: int, c: int| m2.in_bounds(r, c) implies {
        let x = #[trigger] m2.square(r, c);
        &&& (r % 2 == 0 && c % 2 == 0) ==> spec_marker(x) == post_marker(dl, pt(r, c))
        &&& (!(r % 2 == 0 && c % 2 == 0) && spec_marker(x) != 0) ==> step_between(dl, pt(r, c))
    } by {
        let y = m0.square(r, c);
        let y1 = m1.square(r, c);
        if r == p.row && c == p.col {
            assert(pt(r, c) == p);
            assert forall|k: int| 1 <= k < dl.len() implies dl[k] != p by {
                assert(dl[k] == q[k]);
            }
            lemma_post_marker_zero(dl, p);
        } else if r == half.row && c == half.col {
        } else {
            assert(pt(r, c) != p);
            assert(q[q.len() - 1] == p);
            if !(r % 2 == 0 && c % 2 == 0) && spec_marker(y) != 0 {
                assert(step_between(q, pt(r, c)));
                let k = choose|k: int| 1 <= k < q.len() && pt(r, c) == between(q[k - 1], #[trigger] q[k]);
                if k == q.len() - 1 {
                    assert(pt(r, c) == half);
                }
                assert(dl[k] == q[k] && dl[k - 1] == q[k - 1]);
            }
        }
    }
    assert forall|r: int, c: int| m2.in_bounds(r, c) && on_walk(#[trigger] m2.square(r, c)) implies dl.contains(pt(r, c)) by {
        let y1 = m1.square(r, c);
        assert(on_walk(m0.square(r, c)));
        assert(q.contains(pt(r, c)));
        let k = choose|k: int| 0 <= k < q.len() && q[k] == pt(r, c);
        if k == q.len() - 1 {
            assert(pt(r, c) == p);
        }
        assert(dl[k] == pt(r, c));
    }
    assert forall|j: int| 0 <= j < dl.len() implies on_walk(sq(m2, #[trigger] dl[j])) by {
        assert(dl[j] == q[j]);
        assert(q[j] != p);
        assert(is_post(m0, q[j]));
        assert(on_walk(sq(m0, q[j])));
        assert(m0.in_bounds(q[j].row as int, q[j].col as int));
        assert(q[j] != half);
    }
}

/// The recorded walk ran into itself at `path[j]`: takes the posts after it,
/// and the walls before them, off the walk, newest first.
fn erase_loop_history(
    maze: &mut Maze,
    walk: Point,
    root: Point,
    Ghost(path): Ghost<Seq<Point>>,
    Ghost(j): Ghost<int>,
    Ghost(row): Ghost<int>,
) -> (removed: usize)
    requires
        old(maze).wf(),
        shown_state(old(maze), path, row, path.len() as int),
        0 <= j < path.len(),
        path[j] == root,
        walk == path.last(),
        old(maze).build_history.deltas().len() + 2 * path.len() <= usize::MAX,
    ensures
        final(maze).wf(),
        final(maze).same_shape(old(maze)),
        final(maze).solve_history == old(maze).solve_history,
        final(maze).build_history.deltas().len() <= old(maze).build_history.deltas().len() + 2 * path.len(),
        shown_state(final(maze), path.subrange(0, j + 1), row, j + 1),
        removed == path.len() - (j + 1),
{
    let mut w = walk;
    let mut removed: usize = 0;
    let ghost mut i: int = path.len() - 1;
    assert(path.subrange(0, i + 1) =~= path);
    while w != root
        invariant
            maze.wf(),
            maze.same_shape(old(maze)),
            maze.solve_history == old(maze).solve_history,
            maze.build_history.deltas().len() + 2 * i <= old(maze).build_history.deltas().len() + 2 * (path.len() - 1),
            old(maze).build_history.deltas().len() + 2 * path.len() <= usize::MAX,
            0 <= j <= i < path.len(),
            w == path[i],
            path[j] == root,
            shown_state(maze, path.subrange(0, i + 1), row, i + 1),
            removed == path.len() - 1 - i,
        decreases i,
    {
        let ghost q = path.subrange(0, i + 1);
        let ghost m0 = *maze;
        proof {
            if i == j {
                assert(w == root);
            }
            assert(q.len() == i + 1);
            assert(q[i] == path[i]);
            assert(q.last() == w);
            assert(is_post(maze, q[i]));
            lemma_post_marker_at(q, i);
            assert(maze.in_bounds(w.row as int, w.col as int));
            assert(pt(w.row as int, w.col as int) == w);
            assert(q[i - 1] == path[i - 1]);
            assert(is_step(q[i - 1], q[i]));
            crate::builders::recursive_backtracker::lemma_backtrack_undoes(q[i - 1], q[i]);
            lemma_post_marker_bound(q, w);
        }
        let dir = maze.get(w.row, w.col) & MARKERS_MASK;
        let back = crate::builders::build_ops::backtracking_point(dir);
        let half = crate::builders::build_ops::backtracking_half_point(dir);
        let half_step = Point { row: w.row + half.row, col: w.col + half.col };
        let prev = Point { row: w.row + back.row, col: w.col + back.col };
        proof {
            assert(half_step == between(q[i - 1], q[i]));
            assert(interior(maze, half_step));
        }
        let ws = maze.get(w.row, w.col);
        record_set(maze, w, (((ws & !WALK_BIT) & !WALL_MASK) & !MARKERS_MASK) | PATH_BIT);
        let ghost m1 = *maze;
        let hs = maze.get(half_step.row, half_step.col);
        record_set(maze, half_step, ((hs & !MARKERS_MASK) & !WALL_MASK) | PATH_BIT);
        proof {
            lemma_pop_shown(&m0, &m1, maze, q, row);
            assert(q.drop_last() =~= path.subrange(0, i));
            i = i - 1;
        }
        removed = removed + 1;
        w = prev;
    }
    removed
}


/// While a recorded walk is being joined to the maze: `path[i]` and the
/// posts before it keep their markers, the posts after it are built, and
/// only posts up to it are still on the walk.
pub open spec fn conn_shown(maze: &Maze, path: Seq<Point>, i: int, row: int) -> bool {
    &&& crate::builders::build_ops::perimeter_walls(maze)
    &&& edge_built(maze)
    &&& crate::builders::recursive_subdivision::cells_open(maze)
    &&& posts_done(maze, row)
    &&& row % 2 == 0
    &&& 2 <= row
    &&& post_walk(maze, path)
    &&& 0 <= i < path.len()
    &&& marks_shown(maze, path.subrange(0, i + 1))
    &&& forall|r: int, c: int|
        maze.in_bounds(r, c) && on_walk(#[trigger] maze.square(r, c)) ==> path.subrange(0, i + 1).contains(pt(r, c))
    &&& forall|k: int| i < k < path.len() ==> spec_is_built(sq(maze, #[trigger] path[k]))
}

/// Building the wall between the walk's last post and a built post starts
/// the joining of the recorded walk.
#[verifier::rlimit(40)]
proof fn lemma_bridge_shown(m0: &Maze, m1: &Maze, path: Seq<Point>, next: Point, row: int)
    requires
        m0.wf(),
        shown_state(m0, path, row, path.len() as int),
        is_step(path.last(), next),
        point_in(m0, next),
        walk_lined(m0, m1, between(path.last(), next)),
    ensures
        conn_shown(m1, path, path.len() - 1, row),
{
    let cur = path.last();
    let w = between(cur, next);
    assert(is_post(m0, path[path.len() - 1]));
    assert(interior(m0, w));
    assert(!is_cell(m0, w));
    assert(m0.in_bounds(w.row as int, w.col as int));
    lemma_line_keeps(m0, m1, w, w, row);
    assert(path.subrange(0, path.len() as int) =~= path);
    assert forall|j: int| 0 <= j < path.len() implies is_post(m1, #[trigger] path[j]) by {
        assert(is_post(m0, path[j]));
    }
    assert forall|r: int, c: int| m1.in_bounds(r, c) implies {
        let x = #[trigger] m1.square(r, c);
        &&& (r % 2 == 0 && c % 2 == 0) ==> spec_marker(x) == post_marker(path, pt(r, c))
        &&& (!(r % 2 == 0 && c % 2 == 0) && spec_marker(x) != 0) ==> step_between(path, pt(r, c))
    } by {
        let y = m0.square(r, c);
        if r == w.row && c == w.col {
            assert(m1.square(r, c) == sq(m1, w));
        }
    }
    assert forall|r: int, c: int| m1.in_bounds(r, c) && on_walk(#[trigger] m1.square(r, c)) implies path.subrange(
        0,
        path.len() as int,
    ).contains(pt(r, c)) by {
        if r == w.row && c == w.col {
            assert(m1.square(r, c) == sq(m1, w));
        }
        assert(on_walk(m0.square(r, c)));
    }
}

/// One step of joining a recorded walk: `path[i]` and the wall before it
/// are built and lose their markers.
#[verifier::rlimit(40)]
proof fn lemma_connect_shown(m0: &Maze, m1: &Maze, m2: &Maze, path: Seq<Point>, i: int, row: int)
    requires
        m0.wf(),
        conn_shown(m0, path, i, row),
        i >= 1,
        walk_lined(m0, m1, path[i]),
        walk_lined(m1, m2, between(path[i - 1], path[i])),
    ensures
        conn_shown(m2, path, i - 1, row),
{
    let p = path[i];
    let half = between(path[i - 1], p);
    let a = path.subrange(0, i + 1);
    let b = path.subrange(0, i);
    assert(is_post(m0, p) && is_post(m0, path[i - 1]));
    assert(is_step(path[i - 1], path[i]));
    assert(interior(m0, half));
    assert(!(half.row % 2 == 0 && half.col % 2 == 0));
    assert(half != p);
    assert(!is_cell(m0, p) && !is_cell(m0, half));
    assert(m0.in_bounds(p.row as int, p.col as int));
    assert(m0.in_bounds(half.row as int, half.col as int));
    assert forall|r: int, c: int|
        m0.in_bounds(r, c) && (r != p.row || c != p.col) && (r != half.row || c != half.col) implies same_fields(
        m0.square(r, c),
        #[trigger] m2.square(r, c),
    ) by {
        assert(same_fields(m0.square(r, c), m1.square(r, c)));
    }
    assert(same_fields(sq(m1, p), sq(m2, p)));
    lemma_line_keeps(m0, m2, p, half, row);
    assert(a.drop_last() =~= b);
    assert forall|x: int, y: int| 0 <= x < y < a.len() implies a[x] != a[y] by {
        assert(a[x] == path[x] && a[y] == path[y]);
    }
    assert forall|j: int| 0 <= j < path.len() implies is_post(m2, #[trigger] path[j]) by {
        assert(is_post(m0, path[j]));
    }
    assert forall|r: int, c: int| m2.in_bounds(r, c) implies {
        let x = #[trigger] m2.square(r, c);
        &&& (r % 2 == 0 && c % 2 == 0) ==> spec_marker(x) == post_marker(b, pt(r, c))
        &&& (!(r % 2 == 0 && c % 2 == 0) && spec_marker(x) != 0) ==> step_between(b, pt(r, c))
    } by {
        let y = m0.square(r, c);
        let y1 = m1.square(r, c);
        if r == p.row && c == p.col {
            assert(pt(r, c) == p);
            assert(m2.square(r, c) == sq(m2, p));
            assert forall|k: int| 1 <= k < b.len() implies b[k] != p by {
                assert(b[k] == path[k]);
            }
            lemma_post_marker_zero(b, p);
        } else if r == half.row && c == half.col {
            assert(m2.square(r, c) == sq(m2, half));
        } else {
            assert(pt(r, c) != p);
            assert(a[a.len() - 1] == p);
            if !(r % 2 == 0 && c % 2 == 0) && spec_marker(y) != 0 {
                assert(step_between(a, pt(r, c)));
                let k = choose|k: int| 1 <= k < a.len() && pt(r, c) == between(a[k - 1], #[trigger] a[k]);
                assert(a[k] == path[k] && a[k - 1] == path[k - 1]);
                if k == i {
                    assert(pt(r, c) == half);
                }
                assert(b[k] == path[k] && b[k - 1] == path[k - 1]);
            }
        }
    }
    assert forall|r: int, c: int| m2.in_bounds(r, c) && on_walk(#[trigger] m2.square(r, c)) implies b.contains(pt(r, c)) by {
        let y1 = m1.square(r, c);
        if r == p.row && c == p.col {
            assert(m2.square(r, c) == sq(m2, p));
        } else if r == half.row && c == half.col {
            assert(m2.square(r, c) == sq(m2, half));
        } else {
            assert(on_walk(m0.square(r, c)));
            assert(a.contains(pt(r, c)));
            let k = choose|k: int| 0 <= k < a.len() && a[k] == pt(r, c);
            assert(a[k] == path[k]);
            assert(k != i);
            assert(b[k] == pt(r, c));
        }
    }
    assert forall|k: int| i - 1 < k < path.len() implies spec_is_built(sq(m2, #[trigger] path[k])) by {
        assert(is_post(m0, path[k]));
        assert(m0.in_bounds(path[k].row as int, path[k].col as int));
        if k > i {
            assert(spec_is_built(sq(m0, path[k])));
            assert(path[k] != half);
            assert(path[k] != p);
        } else {
            assert(sq(m2, p) == sq(m2, path[k]));
        }
    }
}

/// Joins the recorded walk ending at `walk` to the maze: each post and the
/// wall before it are built, back to the start of the walk, which is built
/// last.
fn connect_walk_history(maze: &mut Maze, walk: Point, Ghost(path): Ghost<Seq<Point>>, Ghost(row): Ghost<int>)
    requires
        old(maze).wf(),
        conn_shown(old(maze), path, path.len() - 1, row),
        walk == path.last(),
        old(maze).build_history.deltas().len() + 10 * path.len() + 5 <= usize::MAX,
    ensures
        final(maze).wf(),
        final(maze).same_shape(old(maze)),
        final(maze).solve_history == old(maze).solve_history,
        final(maze).build_history.deltas().len() <= old(maze).build_history.deltas().len() + 10 * path.len() + 5,
        clean_state(final(maze), row),
        forall|k: int| 0 <= k < path.len() ==> spec_is_built(sq(final(maze), #[trigger] path[k])),
        forall|k: int| 0 <= k < path.len() ==> is_post(final(maze), #[trigger] path[k]),
{
    let mut w = walk;
    let ghost mut i: int = path.len() - 1;
    loop
        invariant
            maze.wf(),
            maze.same_shape(old(maze)),
            maze.solve_history == old(maze).solve_history,
            maze.build_history.deltas().len() + 10 * i <= old(maze).build_history.deltas().len() + 10 * (path.len() - 1),
            old(maze).build_history.deltas().len() + 10 * path.len() + 5 <= usize::MAX,
            conn_shown(maze, path, i, row),
            w == path[i],
        ensures
            maze.wf(),
            maze.same_shape(old(maze)),
            maze.solve_history == old(maze).solve_history,
            maze.build_history.deltas().len() <= old(maze).build_history.deltas().len() + 10 * (path.len() - 1),
            conn_shown(maze, path, i, row),
            w == path[i],
            i == 0,
        decreases i,
    {
        let ghost a = path.subrange(0, i + 1);
        proof {
            assert(a[i] == path[i]);
            assert(is_post(maze, path[i]));
            assert forall|x: int, y: int| 0 <= x < y < a.len() implies a[x] != a[y] by {
                assert(a[x] == path[x] && a[y] == path[y]);
            }
            lemma_post_marker_at(a, i);
            assert(maze.in_bounds(w.row as int, w.col as int));
            assert(pt(w.row as int, w.col as int) == w);
            if i > 0 {
                assert(a[i - 1] == path[i - 1]);
                assert(is_step(path[i - 1], path[i]));
                crate::builders::recursive_backtracker::lemma_backtrack_undoes(path[i - 1], path[i]);
            }
            lemma_post_marker_bound(a, w);
            assert(spec_marker(maze.square(w.row as int, w.col as int)) == post_marker(a, w));
        }
        let dir = maze.get(w.row, w.col) & MARKERS_MASK;
        if dir == 0 {
            break;
        }
        let back = crate::builders::build_ops::backtracking_point(dir);
        let half = crate::builders::build_ops::backtracking_half_point(dir);
        let half_step = Point { row: w.row + half.row, col: w.col + half.col };
        let next = Point { row: w.row + back.row, col: w.col + back.col };
        proof {
            assert(next == path[i - 1]);
            assert(half_step == between(path[i - 1], path[i]));
            assert(interior(maze, half_step));
        }
        let ghost m0 = *maze;
        build_walk_line_history(maze, w);
        let ghost m1 = *maze;
        build_walk_line_history(maze, half_step);
        proof {
            lemma_connect_shown(&m0, &m1, maze, path, i, row);
            i = i - 1;
        }
        w = next;
    }
    let ghost m0 = *maze;
    proof {
        assert(is_post(maze, path[0]));
        assert(maze.in_bounds(w.row as int, w.col as int));
    }
    build_walk_line_history(maze, w);
    proof {
        assert(!is_cell(&m0, w));
        lemma_line_keeps(&m0, maze, w, w, row);
        assert forall|r: int, c: int| maze.in_bounds(r, c) implies spec_marker(#[trigger] maze.square(r, c)) == 0
            && !on_walk(maze.square(r, c)) by {
            let y = m0.square(r, c);
            if r == w.row && c == w.col {
                assert(maze.square(r, c) == sq(maze, w));
            } else {
                assert(same_fields(y, maze.square(r, c)));
                if on_walk(y) {
                    assert(path.subrange(0, 1).contains(pt(r, c)));
                    assert(path.subrange(0, 1)[0] == path[0]);
                }
                if !(r % 2 == 0 && c % 2 == 0) && spec_marker(y) != 0 {
                    assert(step_between(path.subrange(0, 1), pt(r, c)));
                }
            }
        }
        assert forall|k: int| 0 <= k < path.len() implies spec_is_built(sq(maze, #[trigger] path[k])) by {
            assert(is_post(&m0, path[k]));
            assert(m0.in_bounds(path[k].row as int, path[k].col as int));
            if k > 0 {
                assert(spec_is_built(sq(&m0, path[k])));
            }
        }
        assert forall|k: int| 0 <= k < path.len() implies is_post(maze, #[trigger] path[k]) by {
            assert(is_post(&m0, path[k]));
        }
    }
}


/// The recorded form of `complete_walk`: the walk's steps are drawn as walls
/// while it wanders, erased when it loops, and built when it joins the
/// maze; `len` is the number of posts on the walk and comes back updated.
fn complete_walk_history(maze: &mut Maze, walk: RandomWalk, len: usize, Ghost(path): Ghost<Seq<Point>>) -> (r: (
    Option<RandomWalk>,
    usize,
    Ghost<Seq<Point>>,
))
    requires
        old(maze).wf(),
        shown_state(old(maze), path, walk.prev_row_start as int, path.len() as int),
        len == path.len(),
        walk.walk == path.last(),
        point_in(old(maze), walk.next),
        is_step(walk.walk, walk.next),
        old(maze).build_history.deltas().len() + 10 * path.len() + 20 <= usize::MAX,
    ensures
        final(maze).wf(),
        final(maze).same_shape(old(maze)),
        final(maze).solve_history == old(maze).solve_history,
        final(maze).build_history.deltas().len() <= old(maze).build_history.deltas().len() + 10 * path.len() + 20,
        match r.0 {
            Some(w) => {
                &&& shown_state(final(maze), r.2@, w.prev_row_start as int, r.2@.len() - 1)
                &&& w.walk == r.2@.last()
                &&& r.1 == r.2@.len()
            },
            None => wilson_done(final(maze)),
        },
{
    let mut walk = walk;
    let cur = walk.walk;
    let next = walk.next;
    let ghost row = walk.prev_row_start as int;
    proof {
        assert(is_post(maze, path[path.len() - 1]));
    }
    if crate::builders::build_ops::has_builder_bit(maze, next) {
        let ghost m0 = *maze;
        let wall = crate::builders::build_ops::step_toward(cur, next);
        proof {
            assert(interior(maze, wall));
        }
        build_walk_line_history(maze, wall);
        proof {
            lemma_bridge_shown(&m0, maze, path, next, row);
        }
        connect_walk_history(maze, cur, Ghost(path), Ghost(row));
        match crate::builders::build_ops::choose_point_from_row_start(maze, walk.prev_row_start, ParityPoint::Even) {
            Some(point) => {
                let ghost m1 = *maze;
                proof {
                    assert(maze.in_bounds(point.row as int, point.col as int));
                }
                update_square(maze, point, 1, 0);
                proof {
                    lemma_restart_state(&m1, maze, point, row);
                    lemma_follow_shown(maze, seq![point], point.row as int, 0);
                }
                walk.prev_row_start = point.row;
                walk.walk = point;
                walk.prev = Point { row: 0, col: 0 };
                let ghost np = seq![point];
                return (Some(walk), 1, Ghost(np));
            },
            None => {
                proof {
                    lemma_done_state(maze, row);
                }
                return (None, len, Ghost(path));
            },
        }
    }
    if on_walk_at(maze, next) {
        let ghost j = choose|j: int| 0 <= j < path.len() && path[j] == next;
        proof {
            assert(pt(next.row as int, next.col as int) == next);
            assert(path.contains(next));
        }
        let removed = erase_loop_history(maze, cur, next, Ghost(path), Ghost(j), Ghost(row));
        let ghost q = path.subrange(0, j + 1);
        proof {
            assert(q[j] == next);
            assert(is_post(maze, q[j]));
            assert(maze.in_bounds(next.row as int, next.col as int));
            assert(pt(next.row as int, next.col as int) == next);
            lemma_post_marker_bound(q, next);
        }
        let new_len = len - removed;
        walk.walk = next;
        walk.prev = back_from(maze, next);
        return (Some(walk), new_len, Ghost(q));
    }
    let ghost m0 = *maze;
    proof {
        assert(crate::builders::build_ops::interior(maze, between(cur, next)));
        assert(len < usize::MAX);
    }
    mark_line_history(maze, cur, next);
    proof {
        lemma_mark_line_shown(&m0, maze, path, next, row);
    }
    walk.prev = cur;
    walk.walk = next;
    let ghost np = path.push(next);
    (Some(walk), len + 1, Ghost(np))
}


/// The recorded form of `generate_maze`, on a maze whose squares are all
/// zero: the outline, every step of each walk, each erased loop and each
/// joined walk go into the build history as the walk goes; the walk bit of
/// the post the walk stands on is set without a record. The walk is given
/// `u64::MAX` steps, and stops early rather than let the history outgrow
/// the machine; the result says whether every post was built.
pub fn generate_history(maze: &mut Maze) -> (finished: bool)
    requires
        old(maze).wf(),
        old(maze).rows_spec() >= 4,
        old(maze).cols_spec() >= 4,
        crate::builders::build_ops::all_zero(old(maze)),
        old(maze).build_history.deltas().len() + 5 * old(maze).squares().len() <= usize::MAX,
    ensures
        final(maze).wf(),
        final(maze).same_shape(old(maze)),
        final(maze).solve_history == old(maze).solve_history,
        crate::builders::build_ops::perimeter_walls(final(maze)),
        crate::builders::recursive_subdivision::cells_open(final(maze)),
        finished ==> wilson_done(final(maze)),
{
    crate::builders::build_ops::build_wall_outline_history(maze);
    let start = Point {
        row: 2 * (crate::rng::random_range(2, maze.rows() - 1) / 2),
        col: 2 * (crate::rng::random_range(2, maze.cols() - 1) / 2),
    };
    let ghost mut path = seq![start];
    proof {
        lemma_history_begins(old(maze), maze, start);
    }
    let mut cur = RandomWalk {
        prev_row_start: 2,
        prev: Point { row: 0, col: 0 },
        walk: start,
        next: Point { row: 0, col: 0 },
    };
    let mut len: usize = 1;
    let mut indices: Vec<usize> = vec![0, 1, 2, 3];
    assert(indices@ =~= seq![0usize, 1, 2, 3]);
    let mut fuel: u64 = u64::MAX;
    loop
        invariant
            maze.wf(),
            maze.same_shape(old(maze)),
            maze.solve_history == old(maze).solve_history,
            shown_state(maze, path, cur.prev_row_start as int, path.len() - 1),
            cur.walk == path.last(),
            len == path.len(),
            crate::builders::cells::all_directions(indices@),
        decreases fuel,
    {
        if fuel == 0 {
            return false;
        }
        fuel = fuel - 1;
        if len > (usize::MAX - 20) / 10 || maze.build_history.len() > usize::MAX - 20 - 10 * len {
            return false;
        }
        let ghost m0 = *maze;
        proof {
            assert(is_post(maze, path[path.len() - 1]));
        }
        set_walk(maze, cur.walk);
        proof {
            lemma_set_walk_shown(&m0, maze, path, cur.prev_row_start as int);
        }
        crate::rng::shuffle(&mut indices);
        proof {
            crate::builders::cells::lemma_directions(indices@);
        }
        let mut k: usize = 0;
        let mut chosen: Option<Point> = None;
        while k < 4 && chosen.is_none()
            invariant
                maze.wf(),
                k <= 4,
                is_post(maze, cur.walk),
                indices@.len() == 4,
                forall|j: int| 0 <= j < 4 ==> #[trigger] indices@[j] < 4,
                chosen matches Some(n) ==> point_in(maze, n) && is_step(cur.walk, n),
            decreases 4 - k,
        {
            let d = crate::builders::build_ops::generate_direction(indices[k]);
            let next = Point { row: cur.walk.row + d.row, col: cur.walk.col + d.col };
            if is_valid_step(maze, next, cur.prev) {
                chosen = Some(next);
            }
            k = k + 1;
        }
        if let Some(next) = chosen {
            cur.next = next;
            let (res, new_len, Ghost(np)) = complete_walk_history(maze, cur, len, Ghost(path));
            match res {
                Some(w) => {
                    cur = w;
                    len = new_len;
                    proof {
                        path = np;
                    }
                },
                None => {
                    return true;
                },
            }
        }
    }
}

/// After the recorded outline of a maze that was all zero, a walk standing
/// on one post starts.
proof fn lemma_history_begins(m0: &Maze, m1: &Maze, start: Point)
    requires
        m0.wf(),
        m0.rows_spec() >= 4,
        m0.cols_spec() >= 4,
        crate::builders::build_ops::all_zero(m0),
        m1.wf(),
        m1.same_shape(m0),
        crate::builders::build_ops::interior_paths(m1),
        forall|r: int, c: int|
            m1.in_bounds(r, c) && !(0 < r < m1.rows_spec() - 1 && 0 < c < m1.cols_spec() - 1)
                ==> spec_is_wall(#[trigger] m1.square(r, c)) == spec_is_wall(m0.square(r, c)),
        forall|r: int, c: int|
            m1.in_bounds(r, c) ==> crate::builders::build_ops::low_bits(#[trigger] m1.square(r, c))
                == crate::builders::build_ops::low_bits(m0.square(r, c)),
        forall|r: int, c: int|
            m1.in_bounds(r, c) && !(0 < r < m1.rows_spec() - 1 && 0 < c < m1.cols_spec() - 1)
                ==> spec_is_built(#[trigger] m1.square(r, c)),
        start.row % 2 == 0 && start.col % 2 == 0,
        2 <= start.row <= m0.rows_spec() - 2,
        2 <= start.col <= m0.cols_spec() - 2,
    ensures
        shown_state(m1, seq![start], 2, 0),
{
    let path = seq![start];
    assert forall|r: int, c: int| m1.in_bounds(r, c) implies spec_marker(#[trigger] m1.square(r, c)) == 0 && !on_walk(
        m1.square(r, c),
    ) by {
        let x = m1.square(r, c);
        let y = m0.square(r, c);
        m0.maze.lemma_index(r, c);
        assert(m0.squares()[m0.maze.index_of(r, c)] == 0);
        assert(y == 0);
        assert(x & 0x00FF_FFFFu32 == y & 0x00FF_FFFFu32 && y == 0 ==> x & 0xFu32 == 0 && x & 0x4000u32 == 0) by (bit_vector);
    }
    assert forall|r: int, c: int|
        m1.in_bounds(r, c) && !(0 < r < m1.rows_spec() - 1 && 0 < c < m1.cols_spec() - 1) implies spec_is_wall(
        #[trigger] m1.square(r, c),
    ) by {
        m0.maze.lemma_index(r, c);
        assert(m0.squares()[m0.maze.index_of(r, c)] == 0);
        assert(m0.square(r, c) == 0);
        assert(0u32 & 0x2000_0000u32 == 0) by (bit_vector);
    }
    assert forall|u: Point| is_cell(m1, u) implies !spec_is_wall(#[trigger] sq(m1, u)) by {}
    assert(is_post(m1, path[0]));
    assert forall|r: int, c: int| m1.in_bounds(r, c) implies {
        let x = #[trigger] m1.square(r, c);
        &&& (r % 2 == 0 && c % 2 == 0) ==> spec_marker(x) == post_marker(path, pt(r, c))
        &&& (!(r % 2 == 0 && c % 2 == 0) && spec_marker(x) != 0) ==> step_between(path, pt(r, c))
    } by {}
}

} // verus!
