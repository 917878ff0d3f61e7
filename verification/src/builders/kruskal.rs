use vstd::prelude::*;
use crate::builders::build_ops::{
    between, fill_maze_history_with_walls, fill_maze_with_walls, interior, join_squares,
    join_squares_history, lemma_all_walls_perimeter, perimeter_walls, reshaped, spec_is_built,
    spec_marker, sq,
};
use crate::builders::cells::{
    built_paths, is_cell, lemma_join_clean, lemma_join_perimeter, lemma_joined_from,
    lemma_walled_bits, no_markers, step_to,
};
use crate::builders::disjoint::DisjointSet;
use crate::maze::{lemma_cell_index_bounds, lemma_cell_index_injective, lemma_recorded_trans, recorded, Maze, Point};
use crate::rng::shuffle;

verus! {

/// Dimensions on which every wall between two cells has a cell on each
/// side: an even dimension leaves walls beside the edge with no cell beyond.
pub open spec fn tagged_dims(rows: int, cols: int) -> bool {
    &&& !(rows % 2 == 0 && rows >= 4 && cols >= 3)
    &&& !(cols % 2 == 0 && cols >= 4 && rows >= 3)
}

/// A wall square that may stand between two cells: on an odd row and an
/// even column, or on an even row and an odd column, inside the edge.
pub open spec fn is_wall_slot(maze: &Maze, w: Point) -> bool {
    let rows = maze.rows_spec();
    let cols = maze.cols_spec();
    ||| w.row % 2 == 1 && w.col % 2 == 0 && 1 <= w.row <= rows - 2 && 2 <= w.col <= cols - 2
    ||| w.row % 2 == 0 && w.col % 2 == 1 && 2 <= w.row <= rows - 2 && 1 <= w.col <= cols - 2
}

/// The cell above (or left of) the wall `w`.
pub open spec fn first_side(w: Point) -> Point {
    if w.row % 2 == 0 {
        Point { row: (w.row - 1) as i32, col: w.col }
    } else {
        Point { row: w.row, col: (w.col - 1) as i32 }
    }
}

/// The cell below (or right of) the wall `w`.
pub open spec fn second_side(w: Point) -> Point {
    if w.row % 2 == 0 {
        Point { row: (w.row + 1) as i32, col: w.col }
    } else {
        Point { row: w.row, col: (w.col + 1) as i32 }
    }
}

/// The number of a cell, counting the cells row by row from zero.
pub open spec fn id_of(cols: int, p: Point) -> int {
    ((p.row - 1) / 2) * ((cols - 1) / 2) + (p.col - 1) / 2
}

/// How many cells the grid has.
pub open spec fn cell_count(maze: &Maze) -> int {
    ((maze.rows_spec() - 1) / 2) * ((maze.cols_spec() - 1) / 2)
}

proof fn lemma_id_range(maze: &Maze, p: Point)
    requires
        maze.wf(),
        is_cell(maze, p),
    ensures
        0 <= id_of(maze.cols_spec(), p) < cell_count(maze),
        cell_count(maze) <= maze.rows_spec() * maze.cols_spec(),
{
    let rows = maze.rows_spec();
    let cols = maze.cols_spec();
    lemma_cell_index_bounds((p.row - 1) / 2, (p.col - 1) / 2, (rows - 1) / 2, (cols - 1) / 2);
    assert(((rows - 1) / 2) * ((cols - 1) / 2) <= rows * cols) by (nonlinear_arith)
        requires
            0 <= (rows - 1) / 2 <= rows,
            0 <= (cols - 1) / 2 <= cols,
    ;
}

proof fn lemma_id_injective(maze: &Maze, p: Point, q: Point)
    requires
        maze.wf(),
        is_cell(maze, p),
        is_cell(maze, q),
        p != q,
    ensures
        id_of(maze.cols_spec(), p) != id_of(maze.cols_spec(), q),
{
    lemma_cell_index_injective(
        (p.row - 1) / 2,
        (p.col - 1) / 2,
        (q.row - 1) / 2,
        (q.col - 1) / 2,
        (maze.cols_spec() - 1) / 2,
    );
}

/// The number of the cell `p`.
fn cell_id(maze: &Maze, p: Point) -> (id: usize)
    requires
        maze.wf(),
        is_cell(maze, p),
    ensures
        id == id_of(maze.cols_spec(), p),
        id < cell_count(maze),
{
    proof { lemma_id_range(maze, p); }
    (((p.row - 1) / 2) * ((maze.cols() - 1) / 2) + (p.col - 1) / 2) as usize
}

/// Every wall square between two cells, in random order.
fn load_shuffled_walls(maze: &Maze) -> (walls: Vec<Point>)
    requires
        maze.wf(),
    ensures
        forall|j: int| 0 <= j < walls@.len() ==> is_wall_slot(maze, #[trigger] walls@[j]),
        forall|w: Point| is_wall_slot(maze, w) ==> #[trigger] walls@.contains(w),
        walls@.len() <= 2 * maze.squares().len(),
{
    let rows = maze.rows();
    let cols = maze.cols();
    let mut walls: Vec<Point> = Vec::new();
    let mut r: i32 = 1;
    while r < rows - 1
        invariant
            rows == maze.rows_spec(),
            cols == maze.cols_spec(),
            maze.wf(),
            r % 2 == 1,
            1 <= r,
            r <= rows || r == 1,
            walls@.len() <= (r - 1) * cols,
            forall|j: int| 0 <= j < walls@.len() ==> is_wall_slot(maze, #[trigger] walls@[j]),
            forall|w: Point|
                is_wall_slot(maze, w) && w.row % 2 == 1 && w.row < r ==> #[trigger] walls@.contains(w),
        decreases rows - r,
    {
        let mut c: i32 = 2;
        while c < cols - 1
            invariant
                rows == maze.rows_spec(),
                cols == maze.cols_spec(),
                maze.wf(),
                r % 2 == 1,
                1 <= r < rows - 1,
                c % 2 == 0,
                2 <= c,
                c - 2 <= cols,
                walls@.len() <= (r - 1) * cols + c - 2,
                forall|j: int| 0 <= j < walls@.len() ==> is_wall_slot(maze, #[trigger] walls@[j]),
                forall|w: Point|
                    is_wall_slot(maze, w) && w.row % 2 == 1 && (w.row < r || (w.row == r && w.col < c))
                        ==> #[trigger] walls@.contains(w),
            decreases cols - c,
        {
            let ghost old_walls = walls@;
            walls.push(Point { row: r, col: c });
            proof {
                assert(walls@[walls@.len() - 1] == Point { row: r, col: c });
                assert forall|w: Point|
                    is_wall_slot(maze, w) && w.row % 2 == 1 && (w.row < r || (w.row == r && w.col < c + 2))
                        implies #[trigger] walls@.contains(w) by {
                    if w.row < r || (w.row == r && w.col < c) {
                        assert(old_walls.contains(w));
                        let k = choose|k: int| 0 <= k < old_walls.len() && old_walls[k] == w;
                        assert(walls@[k] == w);
                    }
                }
            }
            c = c + 2;
        }
        proof {
            assert((r - 1) * cols + cols <= (r + 1) * cols) by (nonlinear_arith)
                requires
                    cols >= 1,
            ;
        }
        r = r + 2;
    }
    proof {
        assert((r - 1) * cols <= rows * cols) by (nonlinear_arith)
            requires
                r <= rows || r == 1,
                cols >= 1,
                rows >= 1,
                r >= 1,
        ;
    }
    let ghost first_len = walls@.len();
    let mut r: i32 = 2;
    while r < rows - 1
        invariant
            rows == maze.rows_spec(),
            cols == maze.cols_spec(),
            maze.wf(),
            r % 2 == 0,
            2 <= r,
            r <= rows + 1,
            first_len <= rows * cols,
            walls@.len() <= first_len + (r - 2) * cols,
            forall|j: int| 0 <= j < walls@.len() ==> is_wall_slot(maze, #[trigger] walls@[j]),
            forall|w: Point| is_wall_slot(maze, w) && w.row % 2 == 1 ==> #[trigger] walls@.contains(w),
            forall|w: Point|
                is_wall_slot(maze, w) && w.row % 2 == 0 && w.row < r ==> #[trigger] walls@.contains(w),
        decreases rows - r,
    {
        let mut c: i32 = 1;
        while c < cols - 1
            invariant
                rows == maze.rows_spec(),
                cols == maze.cols_spec(),
                maze.wf(),
                r % 2 == 0,
                2 <= r < rows - 1,
                c % 2 == 1,
                1 <= c,
                c - 1 <= cols,
                first_len <= rows * cols,
                walls@.len() <= first_len + (r - 2) * cols + c - 1,
                forall|j: int| 0 <= j < walls@.len() ==> is_wall_slot(maze, #[trigger] walls@[j]),
                forall|w: Point| is_wall_slot(maze, w) && w.row % 2 == 1 ==> #[trigger] walls@.contains(w),
                forall|w: Point|
                    is_wall_slot(maze, w) && w.row % 2 == 0 && (w.row < r || (w.row == r && w.col < c))
                        ==> #[trigger] walls@.contains(w),
            decreases cols - c,
        {
            let ghost old_walls = walls@;
            walls.push(Point { row: r, col: c });
            proof {
                assert(walls@[walls@.len() - 1] == Point { row: r, col: c });
                assert forall|w: Point|
                    is_wall_slot(maze, w) && (w.row % 2 == 1 || w.row < r || (w.row == r && w.col < c + 2))
                        implies #[trigger] walls@.contains(w) by {
                    if w.row % 2 == 1 || w.row < r || (w.row == r && w.col < c) {
                        assert(old_walls.contains(w));
                        let k = choose|k: int| 0 <= k < old_walls.len() && old_walls[k] == w;
                        assert(walls@[k] == w);
                    }
                }
            }
            c = c + 2;
        }
        proof {
            assert((r - 2) * cols + cols <= r * cols) by (nonlinear_arith)
                requires
                    cols >= 1,
            ;
        }
        r = r + 2;
    }
    proof {
        assert((r - 2) * cols <= rows * cols) by (nonlinear_arith)
            requires
                r <= rows + 1,
                r >= 2,
                cols >= 1,
        ;
    }
    let ghost before = walls@;
    shuffle(&mut walls);
    proof {
        broadcast use vstd::seq_lib::group_to_multiset_ensures;

        assert forall|j: int| 0 <= j < walls@.len() implies is_wall_slot(maze, #[trigger] walls@[j]) by {
            assert(walls@.contains(walls@[j]));
            assert(before.to_multiset().count(walls@[j]) > 0);
            assert(before.contains(walls@[j]));
        }
        assert forall|w: Point| is_wall_slot(maze, w) implies #[trigger] walls@.contains(w) by {
            assert(before.contains(w));
            assert(walls@.to_multiset().count(w) > 0);
        }
    }
    walls
}

/// Two distinct cells whose numbers share a set.
pub open spec fn set_mates(maze: &Maze, sets: &DisjointSet, u: Point, v: Point) -> bool {
    &&& is_cell(maze, u)
    &&& is_cell(maze, v)
    &&& u != v
    &&& sets.same(id_of(maze.cols_spec(), u), id_of(maze.cols_spec(), v))
}

/// The state of the builder: the maze kept clean, one set per cell number,
/// an unbuilt cell alone in its set, and the two sides of each wall looked at
/// so far in one set, any two cells of one set joined by a walk over open
/// squares, and the two sides of every open wall in one set.
pub open spec fn kruskal_state(maze: &Maze, sets: &DisjointSet, walls: Seq<Point>, done: int) -> bool {
    &&& perimeter_walls(maze)
    &&& crate::builders::recursive_subdivision::posts_walled(maze)
    &&& forall|w: Point| #[trigger] is_wall_slot(maze, w) && !crate::maze::spec_is_wall(sq(maze, w)) ==> sets.same(
        id_of(maze.cols_spec(), first_side(w)),
        id_of(maze.cols_spec(), second_side(w)),
    )
    &&& forall|u: Point, v: Point| #[trigger] set_mates(maze, sets, u, v) ==> crate::builders::cells::reaches(maze, u, v)
    &&& built_paths(maze)
    &&& no_markers(maze)
    &&& crate::builders::cells::clean_bits(maze)
    &&& sets@.len() == cell_count(maze)
    &&& forall|u: Point, j: int|
        #![trigger sq(maze, u), sets@[j]]
        is_cell(maze, u) && !spec_is_built(sq(maze, u)) && 0 <= j < sets@.len() && sets.same(
            j,
            id_of(maze.cols_spec(), u),
        ) ==> j == id_of(maze.cols_spec(), u)
    &&& forall|k: int|
        0 <= k < done ==> sets.same(
            id_of(maze.cols_spec(), first_side(#[trigger] walls[k])),
            id_of(maze.cols_spec(), second_side(walls[k])),
        )
}

/// Both sides of a wall slot are cells one step apart.
proof fn lemma_slot_sides(maze: &Maze, w: Point)
    requires
        is_wall_slot(maze, w),
        tagged_dims(maze.rows_spec(), maze.cols_spec()),
    ensures
        is_cell(maze, first_side(w)),
        is_cell(maze, second_side(w)),
        crate::builders::cells::is_step(second_side(w), first_side(w)),
        crate::builders::cells::is_step(first_side(w), second_side(w)),
        first_side(w) != second_side(w),
{
}

/// Joining the cells `a` and `b` of two sets, and opening the step between
/// them, joins every two cells of the merged set by a walk.
proof fn lemma_kruskal_reach(
    m0: &Maze,
    m1: &Maze,
    s0: &DisjointSet,
    s1: &DisjointSet,
    joined: bool,
    a: Point,
    b: Point,
)
    requires
        m0.wf(),
        m1.same_shape(m0),
        s0@.len() == cell_count(m0),
        forall|u: Point, v: Point| #[trigger] set_mates(m0, s0, u, v) ==> crate::builders::cells::reaches(m0, u, v),
        is_cell(m0, a),
        is_cell(m0, b),
        crate::builders::cells::is_step(a, b),
        joined == !s0.same(id_of(m0.cols_spec(), a), id_of(m0.cols_spec(), b)),
        s1@.len() == s0@.len(),
        forall|i: int|
            0 <= i < s0@.len() ==> #[trigger] s1@[i] == if joined && s0@[i] == s0@[id_of(m0.cols_spec(), b)] {
                s0@[id_of(m0.cols_spec(), a)]
            } else {
                s0@[i]
            },
        joined ==> crate::builders::cells::opened_step(m0, m1, a, b),
        !joined ==> m1.squares() == m0.squares(),
    ensures
        forall|u: Point, v: Point| #[trigger] set_mates(m1, s1, u, v) ==> crate::builders::cells::reaches(m1, u, v),
{
    let cols = m0.cols_spec();
    let ia = id_of(cols, a);
    let ib = id_of(cols, b);
    lemma_id_range(m0, a);
    lemma_id_range(m0, b);
    let keeps = forall|r: int, c: int|
        m0.in_bounds(r, c) && !crate::maze::spec_is_wall(m0.square(r, c)) ==> !crate::maze::spec_is_wall(#[trigger] m1.square(r, c));
    assert(keeps) by {
        if !joined {
            assert forall|r: int, c: int| m0.in_bounds(r, c) && !crate::maze::spec_is_wall(m0.square(r, c)) implies !crate::maze::spec_is_wall(
                #[trigger] m1.square(r, c),
            ) by {
                m0.maze.lemma_index(r, c);
            }
        }
    }
    if joined {
        crate::builders::cells::lemma_between_parity(a, b);
        assert(m0.in_bounds(between(a, b).row as int, between(a, b).col as int));
        crate::builders::cells::lemma_step_walk(m1, a, b);
        crate::builders::cells::lemma_reaches_reverse(m1, a, b);
    }
    assert forall|u: Point, v: Point| #[trigger] set_mates(m1, s1, u, v) implies crate::builders::cells::reaches(m1, u, v) by {
        let iu = id_of(cols, u);
        let iv = id_of(cols, v);
        lemma_id_range(m0, u);
        lemma_id_range(m0, v);
        if !joined || (s0@[iu] == s0@[ib]) == (s0@[iv] == s0@[ib]) {
            assert(set_mates(m0, s0, u, v));
            crate::builders::cells::lemma_reaches_keep(m0, m1, u, v);
        } else if s0@[iu] == s0@[ib] {
            // u lies with b, v with a.
            assert(s0@[iv] == s0@[ia]);
            if u != b {
                assert(set_mates(m0, s0, u, b));
                crate::builders::cells::lemma_reaches_keep(m0, m1, u, b);
                crate::builders::cells::lemma_reaches_concat(m1, u, b, a);
            }
            if a != v {
                assert(set_mates(m0, s0, a, v));
                crate::builders::cells::lemma_reaches_keep(m0, m1, a, v);
                crate::builders::cells::lemma_reaches_concat(m1, u, a, v);
            }
        } else {
            // u lies with a, v with b.
            assert(s0@[iu] == s0@[ia]);
            if u != a {
                assert(set_mates(m0, s0, u, a));
                crate::builders::cells::lemma_reaches_keep(m0, m1, u, a);
                crate::builders::cells::lemma_reaches_concat(m1, u, a, b);
            }
            if b != v {
                assert(set_mates(m0, s0, b, v));
                crate::builders::cells::lemma_reaches_keep(m0, m1, b, v);
                crate::builders::cells::lemma_reaches_concat(m1, u, b, v);
            }
        }
    }
}

/// Merging the set of `b` into the set of `a`, two different sets, leaves
/// one set fewer.
proof fn lemma_merge_labels(s0: Seq<usize>, s1: Seq<usize>, ia: int, ib: int)
    requires
        0 <= ia < s0.len(),
        0 <= ib < s0.len(),
        s0[ia] != s0[ib],
        s1.len() == s0.len(),
        forall|i: int| 0 <= i < s0.len() ==> #[trigger] s1[i] == if s0[i] == s0[ib] { s0[ia] } else { s0[i] },
    ensures
        s1.to_set().len() + 1 == s0.to_set().len(),
{
    broadcast use {vstd::set::group_set_axioms, vstd::seq_lib::seq_to_set_is_finite};

    let lb = s0[ib];
    assert(s1.to_set() =~= s0.to_set().remove(lb)) by {
        assert forall|x: usize| s1.to_set().contains(x) implies s0.to_set().remove(lb).contains(x) by {
            let i = choose|i: int| 0 <= i < s1.len() && s1[i] == x;
            if s0[i] == lb {
                assert(s0.contains(s0[ia]));
            } else {
                assert(s0[i] == x);
                assert(s0.contains(x));
            }
        }
        assert forall|x: usize| s0.to_set().remove(lb).contains(x) implies s1.to_set().contains(x) by {
            let i = choose|i: int| 0 <= i < s0.len() && s0[i] == x;
            assert(s1[i] == x);
            assert(s1.contains(x));
        }
    }
    assert(s0.contains(lb));
}

/// The labels of cells each alone in their sets number the cells.
proof fn lemma_fresh_labels(s: Seq<usize>)
    requires
        forall|i: int, j: int| 0 <= i < s.len() && 0 <= j < s.len() ==> (s[i] == s[j] <==> i == j),
    ensures
        s.to_set().len() == s.len(),
{
    assert(s.no_duplicates());
    s.unique_seq_to_set();
}

/// Labels all equal to one make one set.
proof fn lemma_one_label(s: Seq<usize>, x: usize)
    requires
        s.len() > 0,
        forall|i: int| 0 <= i < s.len() ==> #[trigger] s[i] == x,
    ensures
        s.to_set().len() == 1,
{
    broadcast use {vstd::set::group_set_axioms, vstd::seq_lib::seq_to_set_is_finite};

    assert(s.to_set() =~= Set::<usize>::empty().insert(x)) by {
        assert(s[0] == x);
        assert(s.contains(x));
    }
}

/// Cells each alone in their sets share a set with no other cell.
proof fn lemma_kruskal_fresh_sets(maze: &Maze, sets: &DisjointSet)
    requires
        maze.wf(),
        sets@.len() == cell_count(maze),
        forall|i: int, j: int| 0 <= i < sets@.len() && 0 <= j < sets@.len() ==> (sets.same(i, j) <==> i == j),
    ensures
        forall|u: Point, v: Point| #[trigger] set_mates(maze, sets, u, v) ==> crate::builders::cells::reaches(maze, u, v),
{
    assert forall|u: Point, v: Point| #[trigger] set_mates(maze, sets, u, v) implies crate::builders::cells::reaches(maze, u, v) by {
        lemma_id_range(maze, u);
        lemma_id_range(maze, v);
        lemma_id_injective(maze, u, v);
    }
}

/// One wall looked at: the two sides of every open wall share a set, one
/// wall more is open when the sets were joined, and there is one set fewer.
proof fn lemma_kruskal_open_sides(
    m0: &Maze,
    m1: &Maze,
    s0: &DisjointSet,
    s1: &DisjointSet,
    walls: Seq<Point>,
    done: int,
    joined: bool,
    a: Point,
    b: Point,
    flip: bool,
)
    requires
        m0.wf(),
        m1.same_shape(m0),
        kruskal_state(m0, s0, walls, done),
        0 <= done < walls.len(),
        tagged_dims(m0.rows_spec(), m0.cols_spec()),
        forall|j: int| 0 <= j < walls.len() ==> is_wall_slot(m0, #[trigger] walls[j]),
        (a == first_side(walls[done]) && b == second_side(walls[done])) || (a == second_side(walls[done]) && b == first_side(walls[done])),
        is_cell(m0, a),
        is_cell(m0, b),
        crate::builders::cells::is_step(a, b),
        joined == !s0.same(id_of(m0.cols_spec(), a), id_of(m0.cols_spec(), b)),
        s1@.len() == s0@.len(),
        forall|i: int|
            0 <= i < s0@.len() ==> #[trigger] s1@[i] == if joined && s0@[i] == s0@[id_of(m0.cols_spec(), b)] {
                s0@[id_of(m0.cols_spec(), a)]
            } else {
                s0@[i]
            },
        joined && flip ==> m1.squares() == crate::builders::build_ops::joined(m0.squares(), m0.rows_spec(), m0.cols_spec(), b, a),
        joined && !flip ==> m1.squares() == crate::builders::build_ops::joined(m0.squares(), m0.rows_spec(), m0.cols_spec(), a, b),
        !joined ==> m1.squares() == m0.squares(),
    ensures
        crate::builders::recursive_subdivision::posts_walled(m1),
        forall|w: Point| #[trigger] is_wall_slot(m1, w) && !crate::maze::spec_is_wall(sq(m1, w)) ==> s1.same(
            id_of(m1.cols_spec(), first_side(w)),
            id_of(m1.cols_spec(), second_side(w)),
        ),
        crate::builders::cells::open_slots(m1.squares(), m1.cols_spec(), m1.squares().len() as int)
            == crate::builders::cells::open_slots(m0.squares(), m0.cols_spec(), m0.squares().len() as int) + if joined {
            1int
        } else {
            0int
        },
        s1@.to_set().len() + (if joined { 1int } else { 0int }) == s0@.to_set().len(),
{
    let cols = m0.cols_spec();
    let ia = id_of(cols, a);
    let ib = id_of(cols, b);
    lemma_id_range(m0, a);
    lemma_id_range(m0, b);
    let wd = walls[done];
    lemma_slot_sides(m0, wd);
    crate::builders::cells::lemma_between_parity(a, b);
    assert(between(a, b) == wd);
    if joined {
        let (ja, jb) = if flip { (b, a) } else { (a, b) };
        lemma_joined_from(m0, m1, ja, jb);
        crate::builders::cells::lemma_joined_exact(m0, m1, ja, jb);
        crate::builders::cells::lemma_between_parity(ja, jb);
        assert(between(ja, jb) == wd);
        crate::builders::cells::lemma_step_slots(m0, m1, ja, jb);
        crate::builders::cells::lemma_step_posts(m0, m1, ja, jb);
        // the wall between two sets was closed
        assert(m0.in_bounds(wd.row as int, wd.col as int));
        if !crate::maze::spec_is_wall(sq(m0, wd)) {
            assert(is_wall_slot(m0, wd));
            assert(s0.same(id_of(cols, first_side(wd)), id_of(cols, second_side(wd))));
            assert(false);
        }
        lemma_merge_labels(s0@, s1@, ia, ib);
        assert forall|w: Point| #[trigger] is_wall_slot(m1, w) && !crate::maze::spec_is_wall(sq(m1, w)) implies s1.same(
            id_of(cols, first_side(w)),
            id_of(cols, second_side(w)),
        ) by {
            lemma_slot_sides(m0, w);
            let x = id_of(cols, first_side(w));
            let y = id_of(cols, second_side(w));
            lemma_id_range(m0, first_side(w));
            lemma_id_range(m0, second_side(w));
            if w == wd {
                assert(s1@[ib] == s0@[ia] && s1@[ia] == s0@[ia]);
            } else {
                assert(m0.in_bounds(w.row as int, w.col as int));
                assert(crate::builders::cells::pt(w.row as int, w.col as int) == w);
                assert(w != ja && w != jb);
                assert(!crate::maze::spec_is_wall(sq(m0, w)));
                assert(is_wall_slot(m0, w));
                assert(s0.same(x, y));
            }
        }
    } else {
        assert(s1@ =~= s0@);
        assert forall|r: int, c: int| m1.in_bounds(r, c) && r % 2 == 0 && c % 2 == 0 implies crate::maze::spec_is_wall(
            #[trigger] m1.square(r, c),
        ) by {
            m0.maze.lemma_index(r, c);
            assert(crate::maze::spec_is_wall(m0.square(r, c)));
        }
        assert forall|w: Point| #[trigger] is_wall_slot(m1, w) && !crate::maze::spec_is_wall(sq(m1, w)) implies s1.same(
            id_of(cols, first_side(w)),
            id_of(cols, second_side(w)),
        ) by {
            assert(m0.in_bounds(w.row as int, w.col as int));
            m0.maze.lemma_index(w.row as int, w.col as int);
            assert(sq(m1, w) == sq(m0, w));
            assert(is_wall_slot(m0, w));
            lemma_slot_sides(m0, w);
            lemma_id_range(m0, first_side(w));
            lemma_id_range(m0, second_side(w));
            assert(s0.same(id_of(cols, first_side(w)), id_of(cols, second_side(w))));
        }
    }
}

/// One wall looked at: its sides' sets joined when they differ, and the
/// maze joined through the wall when they were.
proof fn lemma_kruskal_step(
    m0: &Maze,
    m1: &Maze,
    s0: &DisjointSet,
    s1: &DisjointSet,
    walls: Seq<Point>,
    done: int,
    joined: bool,
    a: Point,
    b: Point,
    flip: bool,
)
    requires
        m0.wf(),
        m1.same_shape(m0),
        kruskal_state(m0, s0, walls, done),
        0 <= done < walls.len(),
        tagged_dims(m0.rows_spec(), m0.cols_spec()),
        forall|j: int| 0 <= j < walls.len() ==> is_wall_slot(m0, #[trigger] walls[j]),
        (a == first_side(walls[done]) && b == second_side(walls[done])) || (a == second_side(walls[done]) && b == first_side(walls[done])),
        is_cell(m0, a),
        is_cell(m0, b),
        crate::builders::cells::is_step(a, b),
        joined == !s0.same(id_of(m0.cols_spec(), a), id_of(m0.cols_spec(), b)),
        s1@.len() == s0@.len(),
        forall|i: int|
            0 <= i < s0@.len() ==> #[trigger] s1@[i] == if joined && s0@[i] == s0@[id_of(m0.cols_spec(), b)] {
                s0@[id_of(m0.cols_spec(), a)]
            } else {
                s0@[i]
            },
        joined && flip ==> m1.squares() == crate::builders::build_ops::joined(m0.squares(), m0.rows_spec(), m0.cols_spec(), b, a),
        joined && !flip ==> m1.squares() == crate::builders::build_ops::joined(m0.squares(), m0.rows_spec(), m0.cols_spec(), a, b),
        !joined ==> m1.squares() == m0.squares(),
    ensures
        kruskal_state(m1, s1, walls, done + 1),
        crate::builders::cells::open_slots(m1.squares(), m1.cols_spec(), m1.squares().len() as int)
            == crate::builders::cells::open_slots(m0.squares(), m0.cols_spec(), m0.squares().len() as int) + if joined {
            1int
        } else {
            0int
        },
        s1@.to_set().len() + (if joined { 1int } else { 0int }) == s0@.to_set().len(),
{
    let cols = m0.cols_spec();
    let ia = id_of(cols, a);
    let ib = id_of(cols, b);
    lemma_id_range(m0, a);
    lemma_id_range(m0, b);
    lemma_id_injective(m0, a, b);
    let (ja, jb) = if flip { (b, a) } else { (a, b) };
    lemma_kruskal_open_sides(m0, m1, s0, s1, walls, done, joined, a, b, flip);
    if joined {
        crate::builders::cells::lemma_between_parity(a, b);
        lemma_joined_from(m0, m1, ja, jb);
        crate::builders::cells::lemma_joined_opened(m0, m1, ja, jb);
        if flip {
            crate::builders::cells::lemma_opened_swap(m0, m1, b, a);
        }
    }
    lemma_kruskal_reach(m0, m1, s0, s1, joined, a, b);
    if joined {
        lemma_joined_from(m0, m1, ja, jb);
        lemma_join_clean(m0, m1, ja, jb);
        crate::builders::cells::lemma_join_keeps_clean(m0, m1, ja, jb);
        lemma_join_perimeter(m0, m1, ja, jb);
    } else {
        assert(m1.maze.buf@ == m0.maze.buf@);
        assert forall|r: int, c: int| #[trigger] m1.square(r, c) == m0.square(r, c) by {}
        assert(perimeter_walls(m1));
        assert(built_paths(m1));
        assert(no_markers(m1));
    }
    assert forall|u: Point, j: int|
        #![trigger sq(m1, u), s1@[j]]
        is_cell(m1, u) && !spec_is_built(sq(m1, u)) && 0 <= j < s1@.len() && s1.same(j, id_of(cols, u))
            implies j == id_of(cols, u) by {
        let iu = id_of(cols, u);
        lemma_id_range(m0, u);
        if joined {
            assert(m0.in_bounds(u.row as int, u.col as int));
            assert(crate::builders::cells::join_fields(
                m0.square(u.row as int, u.col as int),
                m1.square(u.row as int, u.col as int),
                crate::builders::cells::pt(u.row as int, u.col as int),
                ja,
                jb,
            ));
            crate::builders::cells::lemma_between_parity(ja, jb);
            assert(crate::builders::cells::pt(u.row as int, u.col as int) == u);
            assert(u != a && u != b);
            assert(!spec_is_built(sq(m0, u)));
            lemma_id_injective(m0, u, a);
            lemma_id_injective(m0, u, b);
            assert(!s0.same(iu, ib));
            assert(!s0.same(iu, ia));
            if s0@[j] == s0@[ib] {
                assert(s1@[j] == s0@[ia]);
                assert(s1@[iu] == s0@[iu]);
            } else {
                assert(s0.same(j, iu));
            }
        } else {
            assert(sq(m1, u) == sq(m0, u));
        }
    }
    assert forall|k: int| 0 <= k < done + 1 implies s1.same(
        id_of(cols, first_side(#[trigger] walls[k])),
        id_of(cols, second_side(walls[k])),
    ) by {
        let x = id_of(cols, first_side(walls[k]));
        let y = id_of(cols, second_side(walls[k]));
        lemma_slot_sides(m0, walls[k]);
        lemma_id_range(m0, first_side(walls[k]));
        lemma_id_range(m0, second_side(walls[k]));
        if k < done {
            assert(s0.same(x, y));
        } else {
            assert(k == done);
            assert(s1@[ia] == s0@[ia]);
            if joined {
                assert(s1@[ib] == s0@[ia]);
            } else {
                assert(s1@[ib] == s0@[ib]);
            }
        }
    }
}

/// A randomized Kruskal maze: every wall between two cells, in random order,
/// is opened when the cells on its two sides are not yet joined.
pub fn generate_maze(maze: &mut Maze)
    requires
        old(maze).wf(),
        tagged_dims(old(maze).rows_spec(), old(maze).cols_spec()),
    ensures
        reshaped(final(maze), old(maze)),
        perimeter_walls(final(maze)),
        built_paths(final(maze)),
        no_markers(final(maze)),
        crate::builders::cells::clean_bits(final(maze)),
        forall|u: Point, i: int|
            is_cell(final(maze), u) && 0 <= i < 4 && interior(final(maze), #[trigger] step_to(u, i))
                ==> spec_is_built(sq(final(maze), u)),
        final(maze).rows_spec() >= 3 && final(maze).cols_spec() >= 3 ==> crate::builders::cells::one_reaches_all(final(maze)),
        final(maze).rows_spec() >= 3 && final(maze).cols_spec() >= 3 ==> crate::builders::cells::open_slots(
            final(maze).squares(),
            final(maze).cols_spec(),
            final(maze).squares().len() as int,
        ) + 1 == cell_count(final(maze)),
        crate::builders::recursive_subdivision::posts_walled(final(maze)),
{
    fill_maze_with_walls(maze);
    let walls = load_shuffled_walls(maze);
    proof {
        lemma_kruskal_start(maze);
        let rows = maze.rows_spec();
        let cols = maze.cols_spec();
        assert(((rows - 1) / 2) * ((cols - 1) / 2) <= rows * cols) by (nonlinear_arith)
            requires
                1 <= rows,
                1 <= cols,
                0 <= (rows - 1) / 2 <= rows,
                0 <= (cols - 1) / 2 <= cols,
        ;
        assert(0 <= ((rows - 1) / 2) * ((cols - 1) / 2)) by (nonlinear_arith)
            requires
                0 <= (rows - 1) / 2,
                0 <= (cols - 1) / 2,
        ;
    }
    let n = ((maze.rows() - 1) / 2) as usize * ((maze.cols() - 1) / 2) as usize;
    proof {
        assert(n == cell_count(maze)) by (nonlinear_arith)
            requires
                n == ((maze.rows_spec() - 1) / 2) * ((maze.cols_spec() - 1) / 2),
        ;
    }
    let mut sets = DisjointSet::new(n);
    let ghost mut joins: int = 0;
    proof {
        lemma_kruskal_fresh_sets(maze, &sets);
        assert forall|i: int, j: int| 0 <= i < sets@.len() && 0 <= j < sets@.len() implies (sets@[i] == sets@[j] <==> i == j) by {
            assert(sets.same(i, j) <==> i == j);
        }
        lemma_fresh_labels(sets@);
        assert forall|u: Point, j: int|
            #![trigger sq(maze, u), sets@[j]]
            is_cell(maze, u) && !spec_is_built(sq(maze, u)) && 0 <= j < sets@.len() && sets.same(
                j,
                id_of(maze.cols_spec(), u),
            ) implies j == id_of(maze.cols_spec(), u) by {
            lemma_id_range(maze, u);
        }
    }
    let mut idx: usize = 0;
    while idx < walls.len()
        invariant
            reshaped(maze, old(maze)),
            tagged_dims(maze.rows_spec(), maze.cols_spec()),
            forall|j: int| 0 <= j < walls@.len() ==> is_wall_slot(maze, #[trigger] walls@[j]),
            forall|w: Point| is_wall_slot(maze, w) ==> #[trigger] walls@.contains(w),
            idx <= walls@.len(),
            kruskal_state(maze, &sets, walls@, idx as int),
            crate::builders::cells::open_slots(maze.squares(), maze.cols_spec(), maze.squares().len() as int) == joins,
            sets@.to_set().len() + joins == cell_count(maze),
        decreases walls@.len() - idx,
    {
        let w = walls[idx];
        proof { lemma_slot_sides(maze, w); }
        let ghost m0 = *maze;
        let ghost s0 = sets;
        if w.row % 2 == 0 {
            let above = Point { row: w.row - 1, col: w.col };
            let below = Point { row: w.row + 1, col: w.col };
            let a_id = cell_id(maze, above);
            let b_id = cell_id(maze, below);
            let joined = sets.made_union(a_id, b_id);
            if joined {
                join_squares(maze, above, below);
            }
            proof {
                lemma_kruskal_step(&m0, maze, &s0, &sets, walls@, idx as int, joined, above, below, false);
                if joined {
                    joins = joins + 1;
                }
            }
        } else {
            let left = Point { row: w.row, col: w.col - 1 };
            let right = Point { row: w.row, col: w.col + 1 };
            let l_id = cell_id(maze, left);
            let r_id = cell_id(maze, right);
            let joined = sets.made_union(l_id, r_id);
            if joined {
                join_squares(maze, right, left);
            }
            proof {
                lemma_kruskal_step(&m0, maze, &s0, &sets, walls@, idx as int, joined, left, right, true);
                if joined {
                    joins = joins + 1;
                }
            }
        }
        idx = idx + 1;
    }
    proof { lemma_kruskal_done(maze, &sets, walls@); }
}

/// `generate_maze`, recorded: each join is recorded in the build history;
/// on a fresh maze the history replays to the maze from the empty grid.
pub fn generate_history(maze: &mut Maze)
    requires
        old(maze).wf(),
        tagged_dims(old(maze).rows_spec(), old(maze).cols_spec()),
        old(maze).build_history.deltas().len() + 31 * old(maze).squares().len() + 15 <= usize::MAX,
    ensures
        final(maze).wf(),
        final(maze).same_shape(old(maze)),
        final(maze).solve_history == old(maze).solve_history,
        crate::builders::arena::fresh(old(maze)) ==> recorded(old(maze), final(maze)),
        crate::builders::arena::fresh(old(maze)) ==> final(maze).build_history.framed(),
        perimeter_walls(final(maze)),
        built_paths(final(maze)),
        no_markers(final(maze)),
        crate::builders::cells::clean_bits(final(maze)),
        forall|u: Point, i: int|
            is_cell(final(maze), u) && 0 <= i < 4 && interior(final(maze), #[trigger] step_to(u, i))
                ==> spec_is_built(sq(final(maze), u)),
        final(maze).rows_spec() >= 3 && final(maze).cols_spec() >= 3 ==> crate::builders::cells::one_reaches_all(final(maze)),
        final(maze).rows_spec() >= 3 && final(maze).cols_spec() >= 3 ==> crate::builders::cells::open_slots(
            final(maze).squares(),
            final(maze).cols_spec(),
            final(maze).squares().len() as int,
        ) + 1 == cell_count(final(maze)),
        crate::builders::recursive_subdivision::posts_walled(final(maze)),
{
    let ghost m00 = *maze;
    let ghost n0 = m00.squares().len() as int;
    let ghost d0 = m00.build_history.deltas().len() as int;
    fill_maze_history_with_walls(maze);
    let walls = load_shuffled_walls(maze);
    proof {
        lemma_kruskal_start(maze);
        let rows = maze.rows_spec();
        let cols = maze.cols_spec();
        assert(((rows - 1) / 2) * ((cols - 1) / 2) <= rows * cols) by (nonlinear_arith)
            requires
                1 <= rows,
                1 <= cols,
                0 <= (rows - 1) / 2 <= rows,
                0 <= (cols - 1) / 2 <= cols,
        ;
        assert(0 <= ((rows - 1) / 2) * ((cols - 1) / 2)) by (nonlinear_arith)
            requires
                0 <= (rows - 1) / 2,
                0 <= (cols - 1) / 2,
        ;
    }
    let n = ((maze.rows() - 1) / 2) as usize * ((maze.cols() - 1) / 2) as usize;
    proof {
        assert(n == cell_count(maze)) by (nonlinear_arith)
            requires
                n == ((maze.rows_spec() - 1) / 2) * ((maze.cols_spec() - 1) / 2),
        ;
    }
    let mut sets = DisjointSet::new(n);
    let ghost mut joins: int = 0;
    proof {
        lemma_kruskal_fresh_sets(maze, &sets);
        assert forall|i: int, j: int| 0 <= i < sets@.len() && 0 <= j < sets@.len() implies (sets@[i] == sets@[j] <==> i == j) by {
            assert(sets.same(i, j) <==> i == j);
        }
        lemma_fresh_labels(sets@);
        assert forall|u: Point, j: int|
            #![trigger sq(maze, u), sets@[j]]
            is_cell(maze, u) && !spec_is_built(sq(maze, u)) && 0 <= j < sets@.len() && sets.same(
                j,
                id_of(maze.cols_spec(), u),
            ) implies j == id_of(maze.cols_spec(), u) by {
            lemma_id_range(maze, u);
        }
    }
    let mut idx: usize = 0;
    while idx < walls.len()
        invariant
            maze.wf(),
            maze.same_shape(&m00),
            m00 == *old(maze),
            maze.solve_history == m00.solve_history,
            n0 == maze.squares().len(),
            walls@.len() <= 2 * n0,
            maze.build_history.deltas().len() <= d0 + n0 + 15 * idx,
            d0 + 31 * n0 + 15 <= usize::MAX,
            crate::builders::arena::fresh(&m00) ==> recorded(&m00, maze),
            crate::builders::arena::fresh(&m00) ==> maze.build_history.framed(),
            tagged_dims(maze.rows_spec(), maze.cols_spec()),
            forall|j: int| 0 <= j < walls@.len() ==> is_wall_slot(maze, #[trigger] walls@[j]),
            forall|w: Point| is_wall_slot(maze, w) ==> #[trigger] walls@.contains(w),
            idx <= walls@.len(),
            kruskal_state(maze, &sets, walls@, idx as int),
            crate::builders::cells::open_slots(maze.squares(), maze.cols_spec(), maze.squares().len() as int) == joins,
            sets@.to_set().len() + joins == cell_count(maze),
        decreases walls@.len() - idx,
    {
        let w = walls[idx];
        proof { lemma_slot_sides(maze, w); }
        let ghost m0 = *maze;
        let ghost s0 = sets;
        if w.row % 2 == 0 {
            let above = Point { row: w.row - 1, col: w.col };
            let below = Point { row: w.row + 1, col: w.col };
            let a_id = cell_id(maze, above);
            let b_id = cell_id(maze, below);
            let joined = sets.made_union(a_id, b_id);
            if joined {
                join_squares_history(maze, above, below);
                proof {
                    if crate::builders::arena::fresh(&m00) {
                        lemma_recorded_trans(&m00, &m0, maze);
                    }
                }
            }
            proof {
                lemma_kruskal_step(&m0, maze, &s0, &sets, walls@, idx as int, joined, above, below, false);
                if joined {
                    joins = joins + 1;
                }
            }
        } else {
            let left = Point { row: w.row, col: w.col - 1 };
            let right = Point { row: w.row, col: w.col + 1 };
            let l_id = cell_id(maze, left);
            let r_id = cell_id(maze, right);
            let joined = sets.made_union(l_id, r_id);
            if joined {
                join_squares_history(maze, right, left);
                proof {
                    if crate::builders::arena::fresh(&m00) {
                        lemma_recorded_trans(&m00, &m0, maze);
                    }
                }
            }
            proof {
                lemma_kruskal_step(&m0, maze, &s0, &sets, walls@, idx as int, joined, left, right, true);
                if joined {
                    joins = joins + 1;
                }
            }
        }
        idx = idx + 1;
    }
    proof { lemma_kruskal_done(maze, &sets, walls@); }
}

/// A walled grid with every cell alone in its set.
proof fn lemma_kruskal_start(maze: &Maze)
    requires
        maze.wf(),
        crate::builders::build_ops::all_walls(maze),
    ensures
        perimeter_walls(maze),
        built_paths(maze),
        no_markers(maze),
        crate::builders::cells::clean_bits(maze),
        forall|u: Point| is_cell(maze, u) ==> !spec_is_built(#[trigger] sq(maze, u)),
        forall|w: Point| #[trigger] is_wall_slot(maze, w) ==> crate::maze::spec_is_wall(sq(maze, w)),
        crate::builders::cells::open_slots(maze.squares(), maze.cols_spec(), maze.squares().len() as int) == 0,
        crate::builders::recursive_subdivision::posts_walled(maze),
{
    lemma_all_walls_perimeter(maze);
    crate::builders::cells::lemma_filled_tree(maze);
    assert forall|w: Point| #[trigger] is_wall_slot(maze, w) implies crate::maze::spec_is_wall(sq(maze, w)) by {
        assert(maze.in_bounds(w.row as int, w.col as int));
        lemma_walled_bits(maze.rows_spec(), maze.cols_spec(), w.row as int, w.col as int);
    }
    crate::builders::cells::lemma_walls_clean(maze);
    assert forall|r: int, c: int| maze.in_bounds(r, c) implies {
        &&& !spec_is_built(#[trigger] maze.square(r, c))
        &&& spec_marker(maze.square(r, c)) == 0
    } by {
        lemma_walled_bits(maze.rows_spec(), maze.cols_spec(), r, c);
    }
    assert forall|u: Point| is_cell(maze, u) implies !spec_is_built(#[trigger] sq(maze, u)) by {
        assert(maze.in_bounds(u.row as int, u.col as int));
    }
}

/// Every number below the cell count is the number of a cell.
proof fn lemma_cell_of_id(maze: &Maze, i: int) -> (u: Point)
    requires
        maze.wf(),
        0 <= i < cell_count(maze),
    ensures
        is_cell(maze, u),
        id_of(maze.cols_spec(), u) == i,
{
    let cw = (maze.cols_spec() - 1) / 2;
    let rh = (maze.rows_spec() - 1) / 2;
    assert(cw > 0 && rh > 0) by (nonlinear_arith)
        requires
            0 <= i < rh * cw,
            rh >= 0,
            cw >= 0,
    ;
    let q = i / cw;
    let r = i % cw;
    vstd::arithmetic::div_mod::lemma_fundamental_div_mod(i, cw);
    vstd::arithmetic::mul::lemma_mul_is_commutative(q, cw);
    assert(0 <= q < rh) by (nonlinear_arith)
        requires
            i == q * cw + r,
            0 <= r < cw,
            0 <= i < rh * cw,
            cw > 0,
    ;
    let u = Point { row: (2 * q + 1) as i32, col: (2 * r + 1) as i32 };
    assert(u.row <= maze.rows_spec() - 2);
    assert(u.col <= maze.cols_spec() - 2);
    assert((u.row - 1) / 2 == q);
    assert((u.col - 1) / 2 == r);
    u
}

/// After every wall has been looked at, every cell shares a set with the
/// first cell: a chain of walls leads to it along the first column and then
/// along its row.
proof fn lemma_all_one_set(maze: &Maze, sets: &DisjointSet, walls: Seq<Point>, u: Point)
    requires
        maze.wf(),
        tagged_dims(maze.rows_spec(), maze.cols_spec()),
        forall|w: Point| is_wall_slot(maze, w) ==> #[trigger] walls.contains(w),
        kruskal_state(maze, sets, walls, walls.len() as int),
        is_cell(maze, u),
    ensures
        sets.same(id_of(maze.cols_spec(), Point { row: 1, col: 1 }), id_of(maze.cols_spec(), u)),
    decreases u.row, u.col,
{
    let cols = maze.cols_spec();
    if u.col >= 3 {
        let left = Point { row: u.row, col: (u.col - 2) as i32 };
        lemma_all_one_set(maze, sets, walls, left);
        let w = Point { row: u.row, col: (u.col - 1) as i32 };
        assert(is_wall_slot(maze, w));
        assert(walls.contains(w));
        let k = choose|k: int| 0 <= k < walls.len() && walls[k] == w;
        assert(sets.same(id_of(cols, first_side(walls[k])), id_of(cols, second_side(walls[k]))));
        assert(first_side(w) == left && second_side(w) == u);
        assert(sets.same(id_of(cols, left), id_of(cols, u)));
    } else if u.row >= 3 {
        let up = Point { row: (u.row - 2) as i32, col: u.col };
        lemma_all_one_set(maze, sets, walls, up);
        let w = Point { row: (u.row - 1) as i32, col: u.col };
        assert(is_wall_slot(maze, w));
        assert(walls.contains(w));
        let k = choose|k: int| 0 <= k < walls.len() && walls[k] == w;
        assert(sets.same(id_of(cols, first_side(walls[k])), id_of(cols, second_side(walls[k]))));
        assert(first_side(w) == up && second_side(w) == u);
        assert(sets.same(id_of(cols, up), id_of(cols, u)));
    } else {
        assert(u == Point { row: 1, col: 1 });
    }
}

/// After every wall has been looked at, each cell with a neighbor is built.
proof fn lemma_kruskal_done(maze: &Maze, sets: &DisjointSet, walls: Seq<Point>)
    requires
        maze.wf(),
        tagged_dims(maze.rows_spec(), maze.cols_spec()),
        forall|w: Point| is_wall_slot(maze, w) ==> #[trigger] walls.contains(w),
        kruskal_state(maze, sets, walls, walls.len() as int),
    ensures
        forall|u: Point, i: int|
            is_cell(maze, u) && 0 <= i < 4 && interior(maze, #[trigger] step_to(u, i)) ==> spec_is_built(sq(maze, u)),
        maze.rows_spec() >= 3 && maze.cols_spec() >= 3 ==> crate::builders::cells::one_reaches_all(maze),
        maze.rows_spec() >= 3 && maze.cols_spec() >= 3 ==> sets@.to_set().len() == 1,
{
    let cols = maze.cols_spec();
    if maze.rows_spec() >= 3 && maze.cols_spec() >= 3 {
        let s = Point { row: 1, col: 1 };
        assert(is_cell(maze, s));
        lemma_id_range(maze, s);
        let x = sets@[id_of(cols, s)];
        assert forall|i: int| 0 <= i < sets@.len() implies #[trigger] sets@[i] == x by {
            let u = lemma_cell_of_id(maze, i);
            lemma_all_one_set(maze, sets, walls, u);
        }
        lemma_one_label(sets@, x);
        assert forall|u: Point| is_cell(maze, u) && spec_is_built(#[trigger] sq(maze, u)) implies crate::builders::cells::reaches(
            maze,
            s,
            u,
        ) by {
            if u == s {
                assert(maze.in_bounds(s.row as int, s.col as int));
                assert(!crate::maze::spec_is_wall(sq(maze, s)));
                let path = seq![s];
                assert(crate::builders::cells::open_walk(maze, path) && path[0] == s && path.last() == s);
            } else {
                lemma_all_one_set(maze, sets, walls, u);
                assert(set_mates(maze, sets, s, u));
            }
        }
        assert(crate::builders::cells::cells_reached(maze, s));
    }
    assert forall|u: Point, i: int|
        is_cell(maze, u) && 0 <= i < 4 && interior(maze, #[trigger] step_to(u, i)) implies spec_is_built(sq(maze, u)) by {
        let v = step_to(u, i);
        assert(is_cell(maze, v));
        let w = between(u, v);
        assert(is_wall_slot(maze, w));
        assert(walls.contains(w));
        let k = choose|k: int| 0 <= k < walls.len() && walls[k] == w;
        assert(sets.same(id_of(cols, first_side(walls[k])), id_of(cols, second_side(walls[k]))));
        lemma_slot_sides(maze, w);
        assert((first_side(w) == u && second_side(w) == v) || (first_side(w) == v && second_side(w) == u));
        lemma_id_injective(maze, u, v);
        lemma_id_range(maze, u);
        lemma_id_range(maze, v);
        if !spec_is_built(sq(maze, u)) {
            assert(sets.same(id_of(cols, v), id_of(cols, u)));
        }
    }
}

} // verus!
