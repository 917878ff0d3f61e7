use vstd::prelude::*;
use crate::builders::build_ops::{
    between, interior, joinable, lemma_marker_bits, lemma_opened_bits, opened, or_at,
    origin_marker, point_in, spec_generate_direction, spec_is_built, spec_marker, sq,
    BacktrackMarker, MARKERS_MASK, generate_direction, can_build_new_square,
};
use crate::rng::shuffle;
use crate::builders::cells::{
    all_directions, blocked, built_grows, built_paths, cell_step, find_branch, finished,
    has_direction, is_cell, is_step, lemma_between_parity, lemma_directions, lemma_extra_bits,
    lemma_finished_keep, lemma_walled_bits, no_markers, odd_at_or_below, pt, step_to,
};
use crate::maze::{
    cell_index, lemma_cell_index_injective, lemma_recorded_exactly, lemma_recorded_trans,
    lemma_replay_empty, lemma_replay_push, recorded, replay, spec_is_wall, Delta, Maze, Point,
    Square, BUILDER_BIT,
};

verus! {








/// The marker each square carries while a depth-first walk stands on `path`:
/// every cell after the first, and the wall before it, carries the side the
/// walk entered from; every other square carries none.
pub open spec fn walk_marker(path: Seq<Point>, p: Point) -> BacktrackMarker
    decreases path.len(),
{
    if path.len() < 2 {
        0
    } else {
        let a = path[path.len() - 2];
        let b = path[path.len() - 1];
        if p == b || p == between(a, b) {
            origin_marker(a, b)
        } else {
            walk_marker(path.drop_last(), p)
        }
    }
}

/// A square that is no cell of the walk after its first and no wall between
/// two of its cells carries no marker.
proof fn lemma_walk_marker_zero(path: Seq<Point>, p: Point)
    requires
        forall|j: int| 1 <= j < path.len() ==> path[j] != p,
        forall|j: int| 1 <= j < path.len() ==> #[trigger] between(path[j - 1], path[j]) != p,
    ensures
        walk_marker(path, p) == 0,
    decreases path.len(),
{
    if path.len() >= 2 {
        let q = path.drop_last();
        assert forall|j: int| 1 <= j < q.len() implies #[trigger] between(q[j - 1], q[j]) != p by {
            assert(q[j - 1] == path[j - 1] && q[j] == path[j]);
        }
        assert forall|j: int| 1 <= j < q.len() implies q[j] != p by {
            assert(q[j] == path[j]);
        }
        let j = path.len() - 1;
        assert(path[j] != p);
        assert(between(path[j - 1], path[j]) != p);
        lemma_walk_marker_zero(q, p);
    }
}

/// The wall between two cells one step apart names the pair.
proof fn lemma_between_pair(a: Point, b: Point, c: Point, d: Point)
    requires
        is_step(a, b),
        is_step(c, d),
        a.row % 2 == 1,
        a.col % 2 == 1,
        c.row % 2 == 1,
        c.col % 2 == 1,
        between(a, b) == between(c, d),
    ensures
        (a == c && b == d) || (a == d && b == c),
{
}


/// The backtracking tables undo a step: from `b`, the marker of a walk that
/// came from `a` leads back to `a`, through the wall between.
pub proof fn lemma_backtrack_undoes(a: Point, b: Point)
    requires
        is_step(a, b),
    ensures
        origin_marker(a, b) <= 4,
        origin_marker(a, b) != 0,
        ({
            let m = origin_marker(a, b) as int;
            let back = crate::builders::build_ops::spec_backtracking_point(m);
            let half = crate::builders::build_ops::spec_backtracking_half_point(m);
            &&& b.row + back.row == a.row
            &&& b.col + back.col == a.col
            &&& b.row + half.row == between(a, b).row
            &&& b.col + half.col == between(a, b).col
        }),
{
}


/// What a carve that marks the way back changes, square by square: the two
/// cells and the wall between become built paths, the far cell and the wall
/// take the marker of the step where they had none, and nothing else
/// changes a path, builder or marker bit.
pub open spec fn carve_fields(x0: Square, x1: Square, k: int, kc: int, kn: int, kw: int, m: BacktrackMarker) -> bool {
    &&& (k == kc || k == kn || k == kw) ==> spec_is_built(x1) && !spec_is_wall(x1)
    &&& !(k == kc || k == kn || k == kw) ==> spec_is_built(x1) == spec_is_built(x0)
        && spec_is_wall(x1) == spec_is_wall(x0)
    &&& (k == kn || k == kw) ==> (spec_marker(x0) == 0 ==> spec_marker(x1) == m)
    &&& !(k == kn || k == kw) ==> spec_marker(x1) == spec_marker(x0)
    &&& crate::builders::build_ops::solver_bits(x1) == crate::builders::build_ops::solver_bits(x0)
}

/// The buffer after `carve_path_markings` from `cur` to `next`.
pub open spec fn marked_carve(s: Seq<Square>, rows: int, cols: int, cur: Point, next: Point) -> Seq<Square> {
    let m = origin_marker(cur, next);
    let w = between(cur, next);
    let s1 = or_at(or_at(s, cols, w, m), cols, next, m);
    opened(opened(opened(s1, rows, cols, cur, BUILDER_BIT), rows, cols, next, BUILDER_BIT), rows, cols, w, BUILDER_BIT)
}

/// The buffer after `carve_path_history` from `cur` to `next`.
pub open spec fn history_carve(s: Seq<Square>, rows: int, cols: int, cur: Point, next: Point) -> Seq<Square> {
    let m = origin_marker(cur, next);
    let w = between(cur, next);
    let kc = cell_index(cur.row as int, cur.col as int, cols);
    let s1 = opened(s, rows, cols, cur, BUILDER_BIT | (s[kc] & MARKERS_MASK));
    let s2 = opened(s1, rows, cols, w, BUILDER_BIT | m);
    opened(s2, rows, cols, next, BUILDER_BIT | m)
}

proof fn lemma_or_at_bits(s: Seq<Square>, cols: int, p: Point, m: BacktrackMarker, k: int)
    requires
        0 <= k < s.len(),
        0 <= cell_index(p.row as int, p.col as int, cols) < s.len(),
        m <= 4,
    ensures
        or_at(s, cols, p, m).len() == s.len(),
        ({
            let x = or_at(s, cols, p, m)[k];
            let kp = cell_index(p.row as int, p.col as int, cols);
            &&& spec_is_built(x) == spec_is_built(s[k])
            &&& spec_is_wall(x) == spec_is_wall(s[k])
            &&& k != kp ==> spec_marker(x) == spec_marker(s[k])
            &&& k == kp ==> (spec_marker(s[k]) == 0 ==> spec_marker(x) == m)
            &&& crate::builders::build_ops::solver_bits(x) == crate::builders::build_ops::solver_bits(s[k])
        }),
{
    lemma_extra_bits(s[k], m);
}

/// The fields of `marked_carve`, by index.
proof fn lemma_marked_carve_bits(s: Seq<Square>, rows: int, cols: int, cur: Point, next: Point, k: int)
    requires
        0 <= k < s.len(),
        is_step(cur, next),
        ({
            let kc = cell_index(cur.row as int, cur.col as int, cols);
            let kn = cell_index(next.row as int, next.col as int, cols);
            let kw = cell_index(between(cur, next).row as int, between(cur, next).col as int, cols);
            &&& kc != kn && kc != kw && kn != kw
            &&& 0 <= kn < s.len()
            &&& 0 <= kw < s.len()
        }),
    ensures
        marked_carve(s, rows, cols, cur, next).len() == s.len(),
        carve_fields(
            s[k],
            marked_carve(s, rows, cols, cur, next)[k],
            k,
            cell_index(cur.row as int, cur.col as int, cols),
            cell_index(next.row as int, next.col as int, cols),
            cell_index(between(cur, next).row as int, between(cur, next).col as int, cols),
            origin_marker(cur, next),
        ),
{
    let m = origin_marker(cur, next);
    let w = between(cur, next);
    lemma_backtrack_undoes(cur, next);
    let s1a = or_at(s, cols, w, m);
    lemma_or_at_bits(s, cols, w, m, k);
    let s1 = or_at(s1a, cols, next, m);
    lemma_or_at_bits(s1a, cols, next, m, k);
    let s2 = opened(s1, rows, cols, cur, BUILDER_BIT);
    lemma_opened_bits(s1, rows, cols, cur, BUILDER_BIT, k);
    lemma_extra_bits(s1[k], m);
    let s3 = opened(s2, rows, cols, next, BUILDER_BIT);
    lemma_opened_bits(s2, rows, cols, next, BUILDER_BIT, k);
    lemma_extra_bits(s2[k], m);
    lemma_opened_bits(s3, rows, cols, w, BUILDER_BIT, k);
    lemma_extra_bits(s3[k], m);
}

/// The fields of `history_carve`, by index.
proof fn lemma_history_carve_bits(s: Seq<Square>, rows: int, cols: int, cur: Point, next: Point, k: int)
    requires
        0 <= k < s.len(),
        is_step(cur, next),
        0 <= cell_index(cur.row as int, cur.col as int, cols) < s.len(),
        ({
            let kc = cell_index(cur.row as int, cur.col as int, cols);
            let kn = cell_index(next.row as int, next.col as int, cols);
            let kw = cell_index(between(cur, next).row as int, between(cur, next).col as int, cols);
            kc != kn && kc != kw && kn != kw
        }),
    ensures
        history_carve(s, rows, cols, cur, next).len() == s.len(),
        carve_fields(
            s[k],
            history_carve(s, rows, cols, cur, next)[k],
            k,
            cell_index(cur.row as int, cur.col as int, cols),
            cell_index(next.row as int, next.col as int, cols),
            cell_index(between(cur, next).row as int, between(cur, next).col as int, cols),
            origin_marker(cur, next),
        ),
{
    let m = origin_marker(cur, next);
    let w = between(cur, next);
    lemma_backtrack_undoes(cur, next);
    let kc = cell_index(cur.row as int, cur.col as int, cols);
    let own = BUILDER_BIT | (s[kc] & MARKERS_MASK);
    let s1 = opened(s, rows, cols, cur, own);
    lemma_opened_bits(s, rows, cols, cur, own, k);
    lemma_extra_bits(s[k], m);
    let s2 = opened(s1, rows, cols, w, BUILDER_BIT | m);
    lemma_opened_bits(s1, rows, cols, w, BUILDER_BIT | m, k);
    lemma_extra_bits(s1[k], m);
    lemma_opened_bits(s2, rows, cols, next, BUILDER_BIT | m, k);
    lemma_extra_bits(s2[k], m);
}


/// `carve_fields` read at the point of each square: `cur`, `next` and the
/// wall between are carved, and `next` and the wall take the step's marker.
pub open spec fn point_fields(x0: Square, x1: Square, p: Point, cur: Point, next: Point) -> bool {
    let w = between(cur, next);
    let m = origin_marker(cur, next);
    &&& (p == cur || p == next || p == w) ==> spec_is_built(x1) && !spec_is_wall(x1)
    &&& !(p == cur || p == next || p == w) ==> spec_is_built(x1) == spec_is_built(x0)
        && spec_is_wall(x1) == spec_is_wall(x0)
    &&& (p == next || p == w) ==> (spec_marker(x0) == 0 ==> spec_marker(x1) == m)
    &&& !(p == next || p == w) ==> spec_marker(x1) == spec_marker(x0)
    &&& crate::builders::build_ops::solver_bits(x1) == crate::builders::build_ops::solver_bits(x0)
}

/// Every square of `m1` is `point_fields` of the same square of `m0`.
pub open spec fn carved_from(m0: &Maze, m1: &Maze, cur: Point, next: Point) -> bool {
    forall|r: int, c: int|
        m0.in_bounds(r, c) ==> point_fields(
            m0.square(r, c),
            #[trigger] m1.square(r, c),
            pt(r, c),
            cur,
            next,
        )
}


/// Both carves, read square by square.
proof fn lemma_carved_from(m0: &Maze, m1: &Maze, cur: Point, next: Point, marked: bool)
    requires
        m0.wf(),
        m1.same_shape(m0),
        cell_step(m0, cur, next),
        marked ==> m1.squares() == marked_carve(m0.squares(), m0.rows_spec(), m0.cols_spec(), cur, next),
        !marked ==> m1.squares() == history_carve(m0.squares(), m0.rows_spec(), m0.cols_spec(), cur, next),
    ensures
        carved_from(m0, m1, cur, next),
        joinable(m0, cur, next),
        forall|k: int|
            0 <= k < m0.squares().len() && spec_is_built(#[trigger] m0.squares()[k]) ==> spec_is_built(
                m1.squares()[k],
            ),
        spec_is_built(sq(m1, next)),
        m0.maze.index_of(next.row as int, next.col as int) < m0.squares().len(),
        0 <= m0.maze.index_of(next.row as int, next.col as int),
{
    let w = between(cur, next);
    let rows = m0.rows_spec();
    let cols = m0.cols_spec();
    lemma_between_parity(cur, next);
    m0.maze.lemma_index(cur.row as int, cur.col as int);
    m0.maze.lemma_index(next.row as int, next.col as int);
    m0.maze.lemma_index(w.row as int, w.col as int);
    let kc = cell_index(cur.row as int, cur.col as int, cols);
    let kn = cell_index(next.row as int, next.col as int, cols);
    let kw = cell_index(w.row as int, w.col as int, cols);
    lemma_cell_index_injective(cur.row as int, cur.col as int, next.row as int, next.col as int, cols);
    lemma_cell_index_injective(cur.row as int, cur.col as int, w.row as int, w.col as int, cols);
    lemma_cell_index_injective(next.row as int, next.col as int, w.row as int, w.col as int, cols);
    assert forall|r: int, c: int| m0.in_bounds(r, c) implies point_fields(
        m0.square(r, c),
        #[trigger] m1.square(r, c),
        pt(r, c),
        cur,
        next,
    ) by {
        m0.maze.lemma_index(r, c);
        let k = cell_index(r, c, cols);
        if r != cur.row || c != cur.col {
            lemma_cell_index_injective(r, c, cur.row as int, cur.col as int, cols);
        }
        if r != next.row || c != next.col {
            lemma_cell_index_injective(r, c, next.row as int, next.col as int, cols);
        }
        if r != w.row || c != w.col {
            lemma_cell_index_injective(r, c, w.row as int, w.col as int, cols);
        }
        if marked {
            lemma_marked_carve_bits(m0.squares(), rows, cols, cur, next, k);
        } else {
            lemma_history_carve_bits(m0.squares(), rows, cols, cur, next, k);
        }
    }
    assert forall|k: int|
        0 <= k < m0.squares().len() && spec_is_built(#[trigger] m0.squares()[k]) implies spec_is_built(
        m1.squares()[k],
    ) by {
        if marked {
            lemma_marked_carve_bits(m0.squares(), rows, cols, cur, next, k);
        } else {
            lemma_history_carve_bits(m0.squares(), rows, cols, cur, next, k);
        }
    }
    assert(m1.square(next.row as int, next.col as int) == m1.square(next.row as int, next.col as int));
}



/// Both carves open the step and nothing else.
proof fn lemma_carved_opened(m0: &Maze, m1: &Maze, cur: Point, next: Point)
    requires
        carved_from(m0, m1, cur, next),
        cell_step(m0, cur, next),
    ensures
        crate::builders::cells::opened_step(m0, m1, cur, next),
{
    let w = between(cur, next);
    lemma_between_parity(cur, next);
    assert forall|r: int, c: int| m0.in_bounds(r, c) && !spec_is_wall(m0.square(r, c)) implies !spec_is_wall(
        #[trigger] m1.square(r, c),
    ) by {
        assert(point_fields(m0.square(r, c), m1.square(r, c), pt(r, c), cur, next));
    }
    assert forall|r: int, c: int|
        m0.in_bounds(r, c) && spec_is_built(#[trigger] m1.square(r, c)) && pt(r, c) != cur && pt(r, c) != next
            && pt(r, c) != w implies spec_is_built(m0.square(r, c)) by {
        assert(point_fields(m0.square(r, c), m1.square(r, c), pt(r, c), cur, next));
    }
    assert(m0.in_bounds(cur.row as int, cur.col as int));
    assert(m0.in_bounds(w.row as int, w.col as int));
    assert(m0.in_bounds(next.row as int, next.col as int));
    assert(point_fields(m0.square(cur.row as int, cur.col as int), m1.square(cur.row as int, cur.col as int), pt(cur.row as int, cur.col as int), cur, next));
    assert(point_fields(m0.square(w.row as int, w.col as int), m1.square(w.row as int, w.col as int), pt(w.row as int, w.col as int), cur, next));
    assert(point_fields(m0.square(next.row as int, next.col as int), m1.square(next.row as int, next.col as int), pt(next.row as int, next.col as int), cur, next));
}

/// Both carves touch nothing but the step.
proof fn lemma_carved_exact(m0: &Maze, m1: &Maze, cur: Point, next: Point)
    requires
        carved_from(m0, m1, cur, next),
        cell_step(m0, cur, next),
    ensures
        crate::builders::cells::step_exact(m0, m1, cur, next),
{
    let w = between(cur, next);
    lemma_between_parity(cur, next);
    assert forall|r: int, c: int|
        m0.in_bounds(r, c) && pt(r, c) != cur && pt(r, c) != next && pt(r, c) != w implies spec_is_wall(
        #[trigger] m1.square(r, c),
    ) == spec_is_wall(m0.square(r, c)) && spec_is_built(m1.square(r, c)) == spec_is_built(m0.square(r, c)) by {
        assert(point_fields(m0.square(r, c), m1.square(r, c), pt(r, c), cur, next));
    }
    assert(m0.in_bounds(cur.row as int, cur.col as int));
    assert(m0.in_bounds(w.row as int, w.col as int));
    assert(m0.in_bounds(next.row as int, next.col as int));
    assert(point_fields(m0.square(cur.row as int, cur.col as int), m1.square(cur.row as int, cur.col as int), pt(cur.row as int, cur.col as int), cur, next));
    assert(point_fields(m0.square(w.row as int, w.col as int), m1.square(w.row as int, w.col as int), pt(w.row as int, w.col as int), cur, next));
    assert(point_fields(m0.square(next.row as int, next.col as int), m1.square(next.row as int, next.col as int), pt(next.row as int, next.col as int), cur, next));
}

/// Clearing markers keeps the tree count and the closed slots.
proof fn lemma_cleared_tree(m0: &Maze, m1: &Maze, a: Point, b: Point)
    requires
        m0.wf(),
        m1.same_shape(m0),
        cleared_from(m0, m1, a, b),
    ensures
        crate::builders::cells::built_cells(m1.squares(), m1.cols_spec(), m1.squares().len() as int)
            == crate::builders::cells::built_cells(m0.squares(), m0.cols_spec(), m0.squares().len() as int),
        crate::builders::recursive_subdivision::posts_walled(m0) ==> crate::builders::recursive_subdivision::posts_walled(m1),
        crate::builders::cells::tree_count(m0) ==> crate::builders::cells::tree_count(m1),
        crate::builders::cells::unbuilt_closed(m0) ==> crate::builders::cells::unbuilt_closed(m1),
{
    assert forall|r: int, c: int| m0.in_bounds(r, c) implies spec_is_wall(#[trigger] m1.square(r, c)) == spec_is_wall(
        m0.square(r, c),
    ) && spec_is_built(m1.square(r, c)) == spec_is_built(m0.square(r, c)) by {
        assert(clear_fields(m0.square(r, c), m1.square(r, c), pt(r, c), a, b));
    }
    crate::builders::cells::lemma_same_walls_tree(m0, m1);
}

/// Clearing markers keeps every built cell reached from `start`.
proof fn lemma_cleared_reaches(m0: &Maze, m1: &Maze, a: Point, b: Point, start: Point)
    requires
        m1.same_shape(m0),
        cleared_from(m0, m1, a, b),
        crate::builders::cells::cells_reached(m0, start),
    ensures
        crate::builders::cells::cells_reached(m1, start),
{
    assert forall|r: int, c: int| m0.in_bounds(r, c) implies spec_is_wall(#[trigger] m1.square(r, c)) == spec_is_wall(
        m0.square(r, c),
    ) && spec_is_built(m1.square(r, c)) == spec_is_built(m0.square(r, c)) by {
        assert(clear_fields(m0.square(r, c), m1.square(r, c), pt(r, c), a, b));
    }
    crate::builders::cells::lemma_same_walls_reaches(m0, m1, start);
}

/// The cells of a depth-first walk: each a cell one step from the one
/// before, none repeated, all built but the first while it stands alone.
pub open spec fn is_walk(maze: &Maze, path: Seq<Point>) -> bool {
    &&& path.len() >= 1
    &&& forall|j: int| 0 <= j < path.len() ==> is_cell(maze, #[trigger] path[j])
    &&& forall|j: int| 1 <= j < path.len() ==> spec_is_built(sq(maze, #[trigger] path[j]))
    &&& path.len() >= 2 ==> spec_is_built(sq(maze, path[0]))
    &&& forall|j: int| 1 <= j < path.len() ==> is_step(path[j - 1], #[trigger] path[j])
    &&& forall|i: int, j: int| 0 <= i < j < path.len() ==> path[i] != path[j]
}



/// The state of a depth-first builder standing on `path`: the edge is
/// walled, the markers spell out the walk, every built square is a path, no
/// square carries a bit that no builder writes, and
/// every built cell the walk has left has no unbuilt cell next to it.
pub open spec fn dfs_state(maze: &Maze, path: Seq<Point>) -> bool {
    &&& is_walk(maze, path)
    &&& crate::builders::build_ops::perimeter_walls(maze)
    &&& forall|r: int, c: int|
        maze.in_bounds(r, c) ==> spec_marker(#[trigger] maze.square(r, c)) == walk_marker(path, pt(r, c))
    &&& built_paths(maze)
    &&& crate::builders::cells::clean_bits(maze)
    &&& forall|r: int, c: int|
        maze.in_bounds(r, c) && is_cell(maze, pt(r, c)) && spec_is_built(#[trigger] maze.square(r, c))
            && !path.contains(pt(r, c)) ==> finished(maze, pt(r, c))
}

/// A finished depth-first build from `start`: `start` is a cell, built unless
/// no cell lies next to it, and every other built cell has no unbuilt cell
/// next to it.
pub open spec fn depth_first_done(maze: &Maze, start: Point) -> bool {
    &&& is_cell(maze, start)
    &&& spec_is_built(sq(maze, start)) || finished(maze, start)
    &&& forall|r: int, c: int|
        maze.in_bounds(r, c) && is_cell(maze, pt(r, c)) && spec_is_built(#[trigger] maze.square(r, c))
            && pt(r, c) != start ==> finished(maze, pt(r, c))
}


proof fn lemma_carve_grows(m0: &Maze, m1: &Maze, cur: Point, next: Point)
    requires
        carved_from(m0, m1, cur, next),
    ensures
        built_grows(m0, m1),
{
    assert forall|r: int, c: int|
        m0.in_bounds(r, c) && spec_is_built(m0.square(r, c)) implies spec_is_built(
        #[trigger] m1.square(r, c),
    ) by {
        assert(point_fields(m0.square(r, c), m1.square(r, c), pt(r, c), cur, next));
    }
}

/// Carving from the end of the walk to an unbuilt cell extends the walk.
proof fn lemma_carve_walk(m0: &Maze, m1: &Maze, path: Seq<Point>, next: Point)
    requires
        m0.wf(),
        m1.same_shape(m0),
        is_walk(m0, path),
        cell_step(m0, path.last(), next),
        !spec_is_built(sq(m0, next)),
        spec_is_built(sq(m1, next)),
        spec_is_built(sq(m1, path.last())),
        built_grows(m0, m1),
    ensures
        is_walk(m1, path.push(next)),
        forall|j: int| 0 <= j < path.len() ==> path[j] != next,
{
    let cur = path.last();
    let np = path.push(next);
    lemma_between_parity(cur, next);
    assert forall|j: int| 0 <= j < path.len() implies path[j] != next by {
        if j >= 1 {
            assert(spec_is_built(sq(m0, path[j])));
        } else if path.len() >= 2 {
            assert(spec_is_built(sq(m0, path[0])));
        }
    }
    assert forall|j: int| 1 <= j < np.len() implies spec_is_built(sq(m1, #[trigger] np[j])) by {
        if j < path.len() {
            assert(np[j] == path[j]);
            assert(spec_is_built(sq(m0, path[j])));
            assert(is_cell(m0, path[j]));
            assert(m0.in_bounds(path[j].row as int, path[j].col as int));
        }
    }
    assert forall|j: int| 0 <= j < np.len() implies is_cell(m1, #[trigger] np[j]) by {
        if j < path.len() {
            assert(np[j] == path[j]);
        }
    }
    assert forall|j: int| 1 <= j < np.len() implies is_step(np[j - 1], #[trigger] np[j]) by {
        if j < path.len() {
            assert(np[j] == path[j] && np[j - 1] == path[j - 1]);
        }
    }
    assert forall|i: int, j: int| 0 <= i < j < np.len() implies np[i] != np[j] by {
        if j < path.len() {
            assert(np[i] == path[i] && np[j] == path[j]);
        } else {
            assert(np[i] == path[i]);
        }
    }
    if path.len() == 1 {
        assert(np[0] == cur);
    } else {
        assert(spec_is_built(sq(m0, path[0])));
        assert(is_cell(m0, path[0]));
        assert(m0.in_bounds(path[0].row as int, path[0].col as int));
    }
}

/// No wall between two cells of a walk is the wall before a cell that is
/// not on the walk.
proof fn lemma_fresh_wall(m0: &Maze, path: Seq<Point>, next: Point, j: int)
    requires
        is_walk(m0, path),
        cell_step(m0, path.last(), next),
        forall|i: int| 0 <= i < path.len() ==> path[i] != next,
        1 <= j < path.len(),
    ensures
        between(path[j - 1], path[j]) != between(path.last(), next),
{
    let cur = path.last();
    if between(path[j - 1], path[j]) == between(cur, next) {
        assert(is_step(path[j - 1], path[j]));
        assert(is_cell(m0, path[j - 1]));
        lemma_between_pair(path[j - 1], path[j], cur, next);
        assert(path[j - 1] != next);
        assert(path[j] != next);
    }
}

/// Neither the unbuilt cell a walk steps to nor the wall before it carries a
/// marker of the walk.
proof fn lemma_fresh_marks(m0: &Maze, path: Seq<Point>, next: Point)
    requires
        is_walk(m0, path),
        cell_step(m0, path.last(), next),
        forall|j: int| 0 <= j < path.len() ==> path[j] != next,
    ensures
        walk_marker(path, next) == 0,
        walk_marker(path, between(path.last(), next)) == 0,
{
    let cur = path.last();
    let w = between(cur, next);
    lemma_between_parity(cur, next);
    assert forall|j: int| 1 <= j < path.len() implies #[trigger] between(path[j - 1], path[j]) != next by {
        assert(is_cell(m0, path[j - 1]));
        assert(is_step(path[j - 1], path[j]));
        lemma_between_parity(path[j - 1], path[j]);
    }
    lemma_walk_marker_zero(path, next);
    assert forall|j: int| 1 <= j < path.len() implies #[trigger] between(path[j - 1], path[j]) != w by {
        lemma_fresh_wall(m0, path, next, j);
    }
    assert forall|j: int| 1 <= j < path.len() implies path[j] != w by {
        assert(is_cell(m0, path[j]));
    }
    lemma_walk_marker_zero(path, w);
}

/// After the carve, the markers spell out the longer walk.
proof fn lemma_carve_markers(m0: &Maze, m1: &Maze, path: Seq<Point>, next: Point)
    requires
        m1.same_shape(m0),
        path.len() >= 1,
        forall|r: int, c: int|
            m0.in_bounds(r, c) ==> spec_marker(#[trigger] m0.square(r, c)) == walk_marker(path, pt(r, c)),
        walk_marker(path, next) == 0,
        walk_marker(path, between(path.last(), next)) == 0,
        carved_from(m0, m1, path.last(), next),
    ensures
        forall|r: int, c: int|
            m1.in_bounds(r, c) ==> spec_marker(#[trigger] m1.square(r, c)) == walk_marker(
                path.push(next),
                pt(r, c),
            ),
{
    let cur = path.last();
    let np = path.push(next);
    assert(np.drop_last() =~= path);
    assert(np[np.len() - 2] == cur && np[np.len() - 1] == next);
    assert forall|r: int, c: int| m1.in_bounds(r, c) implies spec_marker(#[trigger] m1.square(r, c))
        == walk_marker(np, pt(r, c)) by {
        assert(point_fields(m0.square(r, c), m1.square(r, c), pt(r, c), cur, next));
    }
}

/// After the carve, the edge is still walled, built squares are paths, and
/// the cells the walk has left stay finished.
proof fn lemma_carve_rest(m0: &Maze, m1: &Maze, path: Seq<Point>, next: Point)
    requires
        m0.wf(),
        m1.same_shape(m0),
        dfs_state(m0, path),
        cell_step(m0, path.last(), next),
        carved_from(m0, m1, path.last(), next),
        built_grows(m0, m1),
    ensures
        crate::builders::build_ops::perimeter_walls(m1),
        built_paths(m1),
        forall|r: int, c: int|
            m1.in_bounds(r, c) && is_cell(m1, pt(r, c)) && spec_is_built(#[trigger] m1.square(r, c))
                && !path.push(next).contains(pt(r, c)) ==> finished(m1, pt(r, c)),
{
    let cur = path.last();
    let np = path.push(next);
    lemma_between_parity(cur, next);
    assert forall|r: int, c: int|
        m1.in_bounds(r, c) && !(0 < r < m1.rows_spec() - 1 && 0 < c < m1.cols_spec() - 1) implies spec_is_wall(
        #[trigger] m1.square(r, c),
    ) by {
        assert(point_fields(m0.square(r, c), m1.square(r, c), pt(r, c), cur, next));
    }
    assert forall|r: int, c: int|
        m1.in_bounds(r, c) && spec_is_built(#[trigger] m1.square(r, c)) implies !spec_is_wall(m1.square(r, c)) by {
        assert(point_fields(m0.square(r, c), m1.square(r, c), pt(r, c), cur, next));
    }
    assert forall|r: int, c: int|
        m1.in_bounds(r, c) && is_cell(m1, pt(r, c)) && spec_is_built(#[trigger] m1.square(r, c))
            && !np.contains(pt(r, c)) implies finished(m1, pt(r, c)) by {
        let p = pt(r, c);
        assert(point_fields(m0.square(r, c), m1.square(r, c), p, cur, next));
        assert(np[path.len() - 1] == cur);
        assert(np[path.len() as int] == next);
        if path.contains(p) {
            let i = choose|i: int| 0 <= i < path.len() && path[i] == p;
            assert(np[i] == p);
        }
        lemma_finished_keep(m0, m1, p);
    }
}

/// Carving from the end of the walk to an unbuilt cell extends the walk.
proof fn lemma_carve_state(m0: &Maze, m1: &Maze, path: Seq<Point>, next: Point)
    requires
        m0.wf(),
        m1.same_shape(m0),
        dfs_state(m0, path),
        cell_step(m0, path.last(), next),
        !spec_is_built(sq(m0, next)),
        spec_is_built(sq(m1, next)),
        carved_from(m0, m1, path.last(), next),
    ensures
        dfs_state(m1, path.push(next)),
{
    let cur = path.last();
    lemma_carve_grows(m0, m1, cur, next);
    assert(m0.in_bounds(cur.row as int, cur.col as int));
    assert(point_fields(m0.square(cur.row as int, cur.col as int), m1.square(cur.row as int, cur.col as int), pt(cur.row as int, cur.col as int), cur, next));
    lemma_carve_walk(m0, m1, path, next);
    lemma_fresh_marks(m0, path, next);
    lemma_carve_markers(m0, m1, path, next);
    lemma_carve_rest(m0, m1, path, next);
}


/// The buffer with the markers of `a`, and then of `b`, cleared.
pub open spec fn cleared(s: Seq<Square>, cols: int, a: Point, b: Point) -> Seq<Square> {
    let ka = cell_index(a.row as int, a.col as int, cols);
    let kb = cell_index(b.row as int, b.col as int, cols);
    let s1 = s.update(ka, s[ka] & !MARKERS_MASK);
    s1.update(kb, s1[kb] & !MARKERS_MASK)
}

/// Clears the markers of `a` and then of `b`.
fn clear_marks(maze: &mut Maze, a: Point, b: Point)
    requires
        old(maze).wf(),
        point_in(old(maze), a),
        point_in(old(maze), b),
    ensures
        crate::builders::build_ops::reshaped(final(maze), old(maze)),
        final(maze).squares() == cleared(old(maze).squares(), old(maze).cols_spec(), a, b),
{
    let x = maze.get(a.row, a.col);
    maze.set(a.row, a.col, x & !MARKERS_MASK);
    let y = maze.get(b.row, b.col);
    maze.set(b.row, b.col, y & !MARKERS_MASK);
}

/// What clearing the markers of `a` and `b` does to one square.
pub open spec fn clear_fields(x0: Square, x1: Square, p: Point, a: Point, b: Point) -> bool {
    &&& spec_is_built(x1) == spec_is_built(x0)
    &&& spec_is_wall(x1) == spec_is_wall(x0)
    &&& (p == a || p == b) ==> spec_marker(x1) == 0
    &&& !(p == a || p == b) ==> spec_marker(x1) == spec_marker(x0)
    &&& crate::builders::build_ops::solver_bits(x1) == crate::builders::build_ops::solver_bits(x0)
}

pub open spec fn cleared_from(m0: &Maze, m1: &Maze, a: Point, b: Point) -> bool {
    forall|r: int, c: int|
        m0.in_bounds(r, c) ==> clear_fields(m0.square(r, c), #[trigger] m1.square(r, c), pt(r, c), a, b)
}

proof fn lemma_cleared_from(m0: &Maze, m1: &Maze, a: Point, b: Point)
    requires
        m0.wf(),
        m1.same_shape(m0),
        point_in(m0, a),
        point_in(m0, b),
        m1.squares() == cleared(m0.squares(), m0.cols_spec(), a, b),
    ensures
        cleared_from(m0, m1, a, b),
        forall|k: int|
            0 <= k < m0.squares().len() ==> spec_is_built(#[trigger] m1.squares()[k]) == spec_is_built(
                m0.squares()[k],
            ),
{
    let cols = m0.cols_spec();
    m0.maze.lemma_index(a.row as int, a.col as int);
    m0.maze.lemma_index(b.row as int, b.col as int);
    let s = m0.squares();
    let ka = cell_index(a.row as int, a.col as int, cols);
    let kb = cell_index(b.row as int, b.col as int, cols);
    assert forall|k: int| 0 <= k < s.len() implies {
        &&& spec_is_built(#[trigger] m1.squares()[k]) == spec_is_built(s[k])
        &&& spec_is_wall(m1.squares()[k]) == spec_is_wall(s[k])
        &&& (k == ka || k == kb) ==> spec_marker(m1.squares()[k]) == 0
        &&& !(k == ka || k == kb) ==> spec_marker(m1.squares()[k]) == spec_marker(s[k])
        &&& crate::builders::build_ops::solver_bits(m1.squares()[k]) == crate::builders::build_ops::solver_bits(s[k])
    } by {
        lemma_extra_bits(s[k], 0);
        lemma_extra_bits(s[k] & !MARKERS_MASK, 0);
    }
    assert forall|r: int, c: int| m0.in_bounds(r, c) implies clear_fields(
        m0.square(r, c),
        #[trigger] m1.square(r, c),
        pt(r, c),
        a,
        b,
    ) by {
        m0.maze.lemma_index(r, c);
        if r != a.row || c != a.col {
            lemma_cell_index_injective(r, c, a.row as int, a.col as int, cols);
        }
        if r != b.row || c != b.col {
            lemma_cell_index_injective(r, c, b.row as int, b.col as int, cols);
        }
        assert(m1.squares()[cell_index(r, c, cols)] == m1.square(r, c));
    }
}

/// Clearing markers leaves every builder bit as it was.
proof fn lemma_clear_grows(m0: &Maze, m1: &Maze, a: Point, b: Point)
    requires
        cleared_from(m0, m1, a, b),
    ensures
        built_grows(m0, m1),
{
    assert forall|r: int, c: int|
        m0.in_bounds(r, c) && spec_is_built(m0.square(r, c)) implies spec_is_built(
        #[trigger] m1.square(r, c),
    ) by {
        assert(clear_fields(m0.square(r, c), m1.square(r, c), pt(r, c), a, b));
    }
}

/// Stepping back from the end of a walk of two cells or more, after clearing
/// the markers of its last cell and of the wall before it.
proof fn lemma_pop_markers(m0: &Maze, m1: &Maze, path: Seq<Point>)
    requires
        m1.same_shape(m0),
        is_walk(m0, path),
        path.len() >= 2,
        forall|r: int, c: int|
            m0.in_bounds(r, c) ==> spec_marker(#[trigger] m0.square(r, c)) == walk_marker(path, pt(r, c)),
        cleared_from(m0, m1, path.last(), between(path[path.len() - 2], path.last())),
    ensures
        forall|r: int, c: int|
            m1.in_bounds(r, c) ==> spec_marker(#[trigger] m1.square(r, c)) == walk_marker(
                path.drop_last(),
                pt(r, c),
            ),
{
    let n = path.len();
    let q = path.drop_last();
    let cur = path[n - 1];
    let a = path[n - 2];
    let w = between(a, cur);
    assert(is_step(path[n - 2], path[n - 1]));
    assert(is_cell(m0, a));
    assert(is_cell(m0, cur));
    lemma_between_parity(a, cur);
    assert forall|j: int| 1 <= j < q.len() implies #[trigger] between(q[j - 1], q[j]) != cur && between(q[j - 1], q[j]) != w && q[j] != cur && q[j] != w by {
        assert(q[j] == path[j] && q[j - 1] == path[j - 1]);
        assert(is_step(path[j - 1], path[j]));
        assert(is_cell(m0, path[j - 1]));
        assert(is_cell(m0, path[j]));
        lemma_between_parity(path[j - 1], path[j]);
        if between(q[j - 1], q[j]) == w {
            lemma_between_pair(path[j - 1], path[j], a, cur);
            assert(path[j] != cur);
            assert(path[j - 1] != cur);
            assert(path[j] == a);
            assert(j == n - 2);
            assert(path[j - 1] == cur);
        }
    }
    assert forall|j: int| 1 <= j < q.len() implies q[j] != cur by {}
    assert forall|j: int| 1 <= j < q.len() implies q[j] != w by {}
    assert forall|j: int| 1 <= j < q.len() implies #[trigger] between(q[j - 1], q[j]) != cur by {}
    assert forall|j: int| 1 <= j < q.len() implies #[trigger] between(q[j - 1], q[j]) != w by {}
    lemma_walk_marker_zero(q, cur);
    lemma_walk_marker_zero(q, w);
    assert forall|r: int, c: int| m1.in_bounds(r, c) implies spec_marker(#[trigger] m1.square(r, c))
        == walk_marker(q, pt(r, c)) by {
        assert(clear_fields(m0.square(r, c), m1.square(r, c), pt(r, c), cur, w));
    }
}

proof fn lemma_pop_rest(m0: &Maze, m1: &Maze, path: Seq<Point>)
    requires
        m1.same_shape(m0),
        dfs_state(m0, path),
        path.len() >= 2,
        finished(m0, path.last()),
        cleared_from(m0, m1, path.last(), between(path[path.len() - 2], path.last())),
    ensures
        is_walk(m1, path.drop_last()),
        crate::builders::build_ops::perimeter_walls(m1),
        built_paths(m1),
        forall|r: int, c: int|
            m1.in_bounds(r, c) && is_cell(m1, pt(r, c)) && spec_is_built(#[trigger] m1.square(r, c))
                && !path.drop_last().contains(pt(r, c)) ==> finished(m1, pt(r, c)),
{
    let n = path.len();
    let q = path.drop_last();
    let cur = path[n - 1];
    let w = between(path[n - 2], cur);
    lemma_clear_grows(m0, m1, cur, w);
    assert forall|j: int| 0 <= j < q.len() implies spec_is_built(sq(m1, #[trigger] q[j])) || j == 0 by {
        assert(q[j] == path[j]);
        assert(is_cell(m0, path[j]));
        assert(m0.in_bounds(path[j].row as int, path[j].col as int));
    }
    assert forall|j: int| 0 <= j < q.len() implies is_cell(m1, #[trigger] q[j]) by {
        assert(q[j] == path[j]);
    }
    assert forall|j: int| 1 <= j < q.len() implies is_step(q[j - 1], #[trigger] q[j]) by {
        assert(q[j] == path[j] && q[j - 1] == path[j - 1]);
    }
    assert forall|i: int, j: int| 0 <= i < j < q.len() implies q[i] != q[j] by {
        assert(q[i] == path[i] && q[j] == path[j]);
    }
    if q.len() >= 2 {
        assert(q[0] == path[0]);
        assert(is_cell(m0, path[0]));
        assert(m0.in_bounds(path[0].row as int, path[0].col as int));
    }
    assert forall|r: int, c: int|
        m1.in_bounds(r, c) && !(0 < r < m1.rows_spec() - 1 && 0 < c < m1.cols_spec() - 1) implies spec_is_wall(
        #[trigger] m1.square(r, c),
    ) by {
        assert(clear_fields(m0.square(r, c), m1.square(r, c), pt(r, c), cur, w));
    }
    assert forall|r: int, c: int|
        m1.in_bounds(r, c) && spec_is_built(#[trigger] m1.square(r, c)) implies !spec_is_wall(m1.square(r, c)) by {
        assert(clear_fields(m0.square(r, c), m1.square(r, c), pt(r, c), cur, w));
    }
    assert forall|r: int, c: int|
        m1.in_bounds(r, c) && is_cell(m1, pt(r, c)) && spec_is_built(#[trigger] m1.square(r, c))
            && !q.contains(pt(r, c)) implies finished(m1, pt(r, c)) by {
        let p = pt(r, c);
        assert(clear_fields(m0.square(r, c), m1.square(r, c), p, cur, w));
        if p != cur {
            if path.contains(p) {
                let i = choose|i: int| 0 <= i < path.len() && path[i] == p;
                assert(i < n - 1);
                assert(q[i] == p);
            }
        }
        lemma_finished_keep(m0, m1, p);
    }
}

/// Stepping back from the end of a walk of two cells or more.
proof fn lemma_pop_state(m0: &Maze, m1: &Maze, path: Seq<Point>)
    requires
        m1.same_shape(m0),
        dfs_state(m0, path),
        path.len() >= 2,
        finished(m0, path.last()),
        cleared_from(m0, m1, path.last(), between(path[path.len() - 2], path.last())),
    ensures
        dfs_state(m1, path.drop_last()),
{
    lemma_pop_markers(m0, m1, path);
    lemma_pop_rest(m0, m1, path);
}

/// Clearing the unmarked first cell of a lone walk changes nothing the state
/// speaks of.
proof fn lemma_stay_state(m0: &Maze, m1: &Maze, path: Seq<Point>)
    requires
        m1.same_shape(m0),
        dfs_state(m0, path),
        path.len() == 1,
        cleared_from(m0, m1, path[0], path[0]),
    ensures
        dfs_state(m1, path),
{
    let cur = path[0];
    lemma_clear_grows(m0, m1, cur, cur);
    assert(is_cell(m0, cur));
    assert(m0.in_bounds(cur.row as int, cur.col as int));
    assert(clear_fields(m0.square(cur.row as int, cur.col as int), m1.square(cur.row as int, cur.col as int), pt(cur.row as int, cur.col as int), cur, cur));
    assert forall|r: int, c: int| m1.in_bounds(r, c) implies spec_marker(#[trigger] m1.square(r, c))
        == walk_marker(path, pt(r, c)) by {
        assert(clear_fields(m0.square(r, c), m1.square(r, c), pt(r, c), cur, cur));
    }
    assert forall|r: int, c: int|
        m1.in_bounds(r, c) && !(0 < r < m1.rows_spec() - 1 && 0 < c < m1.cols_spec() - 1) implies spec_is_wall(
        #[trigger] m1.square(r, c),
    ) by {
        assert(clear_fields(m0.square(r, c), m1.square(r, c), pt(r, c), cur, cur));
    }
    assert forall|r: int, c: int|
        m1.in_bounds(r, c) && spec_is_built(#[trigger] m1.square(r, c)) implies !spec_is_wall(m1.square(r, c)) by {
        assert(clear_fields(m0.square(r, c), m1.square(r, c), pt(r, c), cur, cur));
    }
    assert forall|r: int, c: int|
        m1.in_bounds(r, c) && is_cell(m1, pt(r, c)) && spec_is_built(#[trigger] m1.square(r, c))
            && !path.contains(pt(r, c)) implies finished(m1, pt(r, c)) by {
        assert(clear_fields(m0.square(r, c), m1.square(r, c), pt(r, c), cur, cur));
        lemma_finished_keep(m0, m1, pt(r, c));
    }
}







/// A walled grid is the state of a walk that stands alone on `start`.
proof fn lemma_start_state(maze: &Maze, start: Point)
    requires
        maze.wf(),
        crate::builders::build_ops::all_walls(maze),
        is_cell(maze, start),
    ensures
        dfs_state(maze, seq![start]),
        crate::builders::cells::cells_reached(maze, start),
        crate::builders::cells::tree_count(maze),
        crate::builders::cells::unbuilt_closed(maze),
        crate::builders::cells::built_cells(maze.squares(), maze.cols_spec(), maze.squares().len() as int) == 0,
        crate::builders::recursive_subdivision::posts_walled(maze),
{
    crate::builders::cells::lemma_filled_tree(maze);
    crate::builders::build_ops::lemma_all_walls_perimeter(maze);
    crate::builders::cells::lemma_walls_clean(maze);
    assert forall|r: int, c: int| maze.in_bounds(r, c) implies {
        &&& !spec_is_built(#[trigger] maze.square(r, c))
        &&& spec_marker(maze.square(r, c)) == 0
    } by {
        lemma_walled_bits(maze.rows_spec(), maze.cols_spec(), r, c);
    }
    assert forall|u: Point| is_cell(maze, u) && spec_is_built(#[trigger] sq(maze, u)) implies crate::builders::cells::reaches(
        maze,
        start,
        u,
    ) by {
        assert(maze.in_bounds(u.row as int, u.col as int));
    }
}


/// A depth-first maze: from a random cell, the builder carves to a random
/// unbuilt neighbor cell while it has one, marking each square it enters
/// with the way back, and otherwise steps back along the marks, clearing
/// them, until it stands on the first cell again.
#[verifier::rlimit(60)]
pub fn generate_maze(maze: &mut Maze)
    requires
        old(maze).wf(),
        old(maze).rows_spec() >= 4,
        old(maze).cols_spec() >= 4,
    ensures
        crate::builders::build_ops::reshaped(final(maze), old(maze)),
        crate::builders::build_ops::perimeter_walls(final(maze)),
        built_paths(final(maze)),
        no_markers(final(maze)),
        crate::builders::cells::clean_bits(final(maze)),
        exists|start: Point| #[trigger] depth_first_done(final(maze), start),
        crate::builders::cells::one_reaches_all(final(maze)),
        crate::builders::cells::tree_count(final(maze)),
        crate::builders::recursive_subdivision::posts_walled(final(maze)),
{
    crate::builders::build_ops::fill_maze_with_walls(maze);
    let start = Point {
        row: odd_at_or_below(crate::rng::random_range(1, maze.rows() - 2)),
        col: odd_at_or_below(crate::rng::random_range(1, maze.cols() - 2)),
    };
    proof { lemma_start_state(maze, start); }
    let mut dirs: Vec<usize> = vec![0, 1, 2, 3];
    assert(dirs@ =~= seq![0usize, 1, 2, 3]);
    let mut cur = start;
    let ghost mut path: Seq<Point> = seq![start];
    loop
        invariant
            crate::builders::build_ops::reshaped(maze, old(maze)),
            dfs_state(maze, path),
            crate::builders::cells::cells_reached(maze, start),
            crate::builders::cells::tree_count(maze),
            crate::builders::cells::unbuilt_closed(maze),
            crate::builders::recursive_subdivision::posts_walled(maze),
            spec_is_built(sq(maze, start)) || crate::builders::cells::built_cells(
                maze.squares(),
                maze.cols_spec(),
                maze.squares().len() as int,
            ) == 0,
            path[0] == start,
            path.last() == cur,
            all_directions(dirs@),
        decreases crate::builders::build_ops::unbuilt_count(maze.squares()), path.len(),
    {
        shuffle(&mut dirs);
        proof { lemma_directions(dirs@); }
        assert(is_cell(maze, cur));
        match find_branch(maze, cur, &dirs) {
            Some(branch) => {
                let ghost m0 = *maze;
                crate::builders::build_ops::carve_path_markings(maze, cur, branch);
                proof {
                    lemma_carved_from(&m0, maze, cur, branch, true);
                    lemma_carve_state(&m0, maze, path, branch);
                    lemma_carved_opened(&m0, maze, cur, branch);
                    assert(cur == start || spec_is_built(sq(&m0, cur))) by {
                        if path.len() >= 2 {
                            assert(spec_is_built(sq(&m0, path[path.len() - 1])));
                        }
                    }
                    crate::builders::cells::lemma_step_reaches(&m0, maze, start, cur, branch);
                    lemma_carved_exact(&m0, maze, cur, branch);
                    crate::builders::cells::lemma_step_tree(&m0, maze, cur, branch);
                    if cur != start {
                        assert(m0.in_bounds(start.row as int, start.col as int));
                    }
                    crate::builders::build_ops::lemma_unbuilt_count(
                        m0.squares(),
                        maze.squares(),
                        m0.maze.index_of(branch.row as int, branch.col as int),
                    );
                    path = path.push(branch);
                }
                cur = branch;
            },
            None => {
                let ghost m0 = *maze;
                proof {
                    assert forall|i: int| 0 <= i < 4 implies #[trigger] blocked(&m0, cur, i) by {
                        assert(has_direction(dirs@, i));
                        let j = choose|j: int| 0 <= j < 4 && dirs@[j] == i;
                        assert(blocked(&m0, cur, dirs@[j] as int));
                    }
                    assert(finished(&m0, cur));
                }
                let dir = maze.get(cur.row, cur.col) & MARKERS_MASK;
                proof {
                    assert(pt(cur.row as int, cur.col as int) == cur);
                    if path.len() >= 2 {
                        assert(is_step(path[path.len() - 2], path[path.len() - 1]));
                        lemma_backtrack_undoes(path[path.len() - 2], cur);
                    }
                }
                let half = crate::builders::build_ops::backtracking_half_point(dir);
                let back = crate::builders::build_ops::backtracking_point(dir);
                let half_step = Point { row: cur.row + half.row, col: cur.col + half.col };
                clear_marks(maze, cur, half_step);
                proof {
                    lemma_cleared_from(&m0, maze, cur, half_step);
                    lemma_cleared_reaches(&m0, maze, cur, half_step, start);
                    lemma_cleared_tree(&m0, maze, cur, half_step);
                    assert(m0.in_bounds(start.row as int, start.col as int));
                    assert(clear_fields(m0.square(start.row as int, start.col as int), maze.square(start.row as int, start.col as int), pt(start.row as int, start.col as int), cur, half_step));
                    crate::builders::build_ops::lemma_unbuilt_count(m0.squares(), maze.squares(), 0);
                    crate::builders::build_ops::lemma_unbuilt_count(maze.squares(), m0.squares(), 0);
                }
                let ghost prev = cur;
                cur = Point { row: cur.row + back.row, col: cur.col + back.col };
                proof {
                    if path.len() >= 2 {
                        lemma_pop_state(&m0, maze, path);
                        path = path.drop_last();
                    } else {
                        lemma_stay_state(&m0, maze, path);
                        lemma_finished_keep(&m0, maze, cur);
                    }
                }
                if cur == start {
                    proof {
                        assert(path.len() == 1);
                        assert(depth_first_done(maze, start));
                        assert(is_cell(maze, start) && crate::builders::cells::cells_reached(maze, start));
                    }
                    return;
                }
            },
        }
    }
}


/// `clear_marks`, with the two changes recorded as two single-square frames;
/// each delta reads its square before either is cleared.
fn clear_marks_history(maze: &mut Maze, a: Point, b: Point)
    requires
        old(maze).wf(),
        point_in(old(maze), a),
        point_in(old(maze), b),
        a == b ==> spec_marker(sq(old(maze), a)) == 0,
        old(maze).build_history.deltas().len() + 2 <= usize::MAX,
    ensures
        final(maze).squares() == cleared(old(maze).squares(), old(maze).cols_spec(), a, b),
        final(maze).build_history.deltas().len() == old(maze).build_history.deltas().len() + 2,
        recorded(old(maze), final(maze)),
{
    let ghost m0 = *maze;
    let ghost cols = m0.cols_spec();
    let square = maze.get(a.row, a.col);
    let half_square = maze.get(b.row, b.col);
    let d1 = Delta { id: a, before: square, after: square & !MARKERS_MASK, burst: 1 };
    let d2 = Delta { id: b, before: half_square, after: half_square & !MARKERS_MASK, burst: 1 };
    maze.build_history.push(d1);
    maze.build_history.push(d2);
    let x = maze.get(a.row, a.col);
    maze.set(a.row, a.col, x & !MARKERS_MASK);
    let y = maze.get(b.row, b.col);
    maze.set(b.row, b.col, y & !MARKERS_MASK);
    proof {
        let d0 = m0.build_history.deltas();
        let dd = maze.build_history.deltas();
        m0.maze.lemma_index(a.row as int, a.col as int);
        m0.maze.lemma_index(b.row as int, b.col as int);
        assert(dd.subrange(0, d0.len() as int) =~= d0);
        assert(dd.subrange(d0.len() as int, dd.len() as int) =~= seq![d1, d2]);
        if a != b {
            lemma_cell_index_injective(a.row as int, a.col as int, b.row as int, b.col as int, cols);
        }
        assert((square & !MARKERS_MASK) & !MARKERS_MASK == square & !MARKERS_MASK && (square & MARKERS_MASK == 0
            ==> square & !MARKERS_MASK == square)) by (bit_vector);
        lemma_replay_empty(m0.squares(), cols);
        lemma_replay_push(m0.squares(), cols, Seq::<Delta>::empty(), d1);
        assert(Seq::<Delta>::empty().push(d1) =~= seq![d1]);
        lemma_replay_push(m0.squares(), cols, seq![d1], d2);
        assert(seq![d1].push(d2) =~= seq![d1, d2]);
        assert(replay(m0.squares(), cols, seq![d1, d2]) =~= maze.squares());
        lemma_recorded_exactly(&m0, maze);
    }
}

pub proof fn lemma_unbuilt_count_len(s: Seq<Square>)
    ensures
        crate::builders::build_ops::unbuilt_count(s) <= s.len(),
    decreases s.len(),
{
    if s.len() > 0 {
        lemma_unbuilt_count_len(s.drop_last());
    }
}

/// `generate_maze`, recorded: every carve and every step back is recorded in
/// the build history; on a fresh maze the history replays to the maze from
/// the empty grid, frame by frame.
#[verifier::rlimit(60)]
pub fn generate_history(maze: &mut Maze)
    requires
        old(maze).wf(),
        old(maze).rows_spec() >= 4,
        old(maze).cols_spec() >= 4,
        old(maze).build_history.deltas().len() + 20 * old(maze).squares().len() + 20 <= usize::MAX,
    ensures
        final(maze).wf(),
        final(maze).same_shape(old(maze)),
        final(maze).solve_history == old(maze).solve_history,
        crate::builders::build_ops::perimeter_walls(final(maze)),
        built_paths(final(maze)),
        no_markers(final(maze)),
        crate::builders::cells::clean_bits(final(maze)),
        exists|start: Point| #[trigger] depth_first_done(final(maze), start),
        crate::builders::cells::one_reaches_all(final(maze)),
        crate::builders::cells::tree_count(final(maze)),
        crate::builders::recursive_subdivision::posts_walled(final(maze)),
        crate::builders::arena::fresh(old(maze)) ==> recorded(old(maze), final(maze)),
        crate::builders::arena::fresh(old(maze)) ==> final(maze).build_history.framed(),
{
    let ghost m00 = *maze;
    let ghost n = m00.squares().len() as int;
    let ghost d0 = m00.build_history.deltas().len() as int;
    crate::builders::build_ops::fill_maze_history_with_walls(maze);
    let ghost m1 = *maze;
    let start = Point {
        row: odd_at_or_below(crate::rng::random_range(1, maze.rows() - 2)),
        col: odd_at_or_below(crate::rng::random_range(1, maze.cols() - 2)),
    };
    proof {
        lemma_start_state(maze, start);
        lemma_unbuilt_count_len(maze.squares());
    }
    let mut dirs: Vec<usize> = vec![0, 1, 2, 3];
    assert(dirs@ =~= seq![0usize, 1, 2, 3]);
    let mut cur = start;
    let ghost mut path: Seq<Point> = seq![start];
    let ghost mut carves: int = 0;
    let ghost mut pops: int = 0;
    loop
        invariant
            maze.wf(),
            maze.same_shape(&m00),
            m00 == *old(maze),
            maze.solve_history == m00.solve_history,
            n == maze.squares().len(),
            dfs_state(maze, path),
            crate::builders::cells::cells_reached(maze, start),
            crate::builders::cells::tree_count(maze),
            crate::builders::cells::unbuilt_closed(maze),
            crate::builders::recursive_subdivision::posts_walled(maze),
            spec_is_built(sq(maze, start)) || crate::builders::cells::built_cells(
                maze.squares(),
                maze.cols_spec(),
                maze.squares().len() as int,
            ) == 0,
            path[0] == start,
            path.last() == cur,
            all_directions(dirs@),
            path.len() + pops == carves + 1,
            0 <= pops,
            carves + crate::builders::build_ops::unbuilt_count(maze.squares()) <= n,
            maze.build_history.deltas().len() <= d0 + n + 15 * carves + 2 * pops,
            d0 + 20 * n + 20 <= usize::MAX,
            crate::builders::arena::fresh(&m00) ==> recorded(&m00, maze),
            crate::builders::arena::fresh(&m00) ==> maze.build_history.framed(),
        decreases crate::builders::build_ops::unbuilt_count(maze.squares()), path.len(),
    {
        shuffle(&mut dirs);
        proof { lemma_directions(dirs@); }
        assert(is_cell(maze, cur));
        match find_branch(maze, cur, &dirs) {
            Some(branch) => {
                let ghost m0 = *maze;
                crate::builders::build_ops::carve_path_history(maze, cur, branch);
                proof {
                    lemma_carved_from(&m0, maze, cur, branch, false);
                    lemma_carve_state(&m0, maze, path, branch);
                    lemma_carved_opened(&m0, maze, cur, branch);
                    assert(cur == start || spec_is_built(sq(&m0, cur))) by {
                        if path.len() >= 2 {
                            assert(spec_is_built(sq(&m0, path[path.len() - 1])));
                        }
                    }
                    crate::builders::cells::lemma_step_reaches(&m0, maze, start, cur, branch);
                    lemma_carved_exact(&m0, maze, cur, branch);
                    crate::builders::cells::lemma_step_tree(&m0, maze, cur, branch);
                    if cur != start {
                        assert(m0.in_bounds(start.row as int, start.col as int));
                    }
                    crate::builders::build_ops::lemma_unbuilt_count(
                        m0.squares(),
                        maze.squares(),
                        m0.maze.index_of(branch.row as int, branch.col as int),
                    );
                    if crate::builders::arena::fresh(&m00) {
                        lemma_recorded_trans(&m00, &m0, maze);
                    }
                    path = path.push(branch);
                    carves = carves + 1;
                }
                cur = branch;
            },
            None => {
                let ghost m0 = *maze;
                proof {
                    assert forall|i: int| 0 <= i < 4 implies #[trigger] blocked(&m0, cur, i) by {
                        assert(has_direction(dirs@, i));
                        let j = choose|j: int| 0 <= j < 4 && dirs@[j] == i;
                        assert(blocked(&m0, cur, dirs@[j] as int));
                    }
                    assert(finished(&m0, cur));
                }
                let dir = maze.get(cur.row, cur.col) & MARKERS_MASK;
                proof {
                    assert(pt(cur.row as int, cur.col as int) == cur);
                    if path.len() >= 2 {
                        assert(is_step(path[path.len() - 2], path[path.len() - 1]));
                        lemma_backtrack_undoes(path[path.len() - 2], cur);
                    }
                }
                let half = crate::builders::build_ops::backtracking_half_point(dir);
                let back = crate::builders::build_ops::backtracking_point(dir);
                let half_step = Point { row: cur.row + half.row, col: cur.col + half.col };
                proof {
                    if path.len() >= 2 {
                        lemma_between_parity(path[path.len() - 2], cur);
                    }
                }
                clear_marks_history(maze, cur, half_step);
                proof {
                    lemma_cleared_from(&m0, maze, cur, half_step);
                    lemma_cleared_reaches(&m0, maze, cur, half_step, start);
                    lemma_cleared_tree(&m0, maze, cur, half_step);
                    assert(m0.in_bounds(start.row as int, start.col as int));
                    assert(clear_fields(m0.square(start.row as int, start.col as int), maze.square(start.row as int, start.col as int), pt(start.row as int, start.col as int), cur, half_step));
                    crate::builders::build_ops::lemma_unbuilt_count(m0.squares(), maze.squares(), 0);
                    crate::builders::build_ops::lemma_unbuilt_count(maze.squares(), m0.squares(), 0);
                    if crate::builders::arena::fresh(&m00) {
                        lemma_recorded_trans(&m00, &m0, maze);
                    }
                }
                cur = Point { row: cur.row + back.row, col: cur.col + back.col };
                proof {
                    if path.len() >= 2 {
                        lemma_pop_state(&m0, maze, path);
                        path = path.drop_last();
                        pops = pops + 1;
                    } else {
                        lemma_stay_state(&m0, maze, path);
                        lemma_finished_keep(&m0, maze, cur);
                    }
                }
                if cur == start {
                    proof {
                        assert(path.len() == 1);
                        assert(depth_first_done(maze, start));
                        assert(is_cell(maze, start) && crate::builders::cells::cells_reached(maze, start));
                    }
                    return;
                }
            },
        }
    }
}

} // verus!
