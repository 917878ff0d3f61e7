use vstd::prelude::*;
use crate::builders::build_ops::{
    fill_maze_with_walls, generate_direction, interior, is_built, is_square_within_perimeter_walls,
    join_squares, lemma_all_walls_perimeter, lemma_unbuilt_count, perimeter_walls, reshaped,
    spec_is_built, spec_marker, sq, unbuilt_count,
};
use crate::builders::cells::{
    all_cells_built, all_directions, blocked, built_paths, has_direction, cell_step, find_branch, is_cell, step_to as step_to_cell,
    isolated, joined_from, join_fields, lemma_all_or_none, lemma_directions, lemma_joined_from,
    lemma_walled_bits, no_cells_built, no_markers, odd_at_or_below, pt, step_to,
};
use crate::maze::{
    cell_index, consistent, lemma_cell_index_injective, lemma_recorded_exactly, lemma_recorded_trans,
    lemma_replay_empty, lemma_replay_push, lemma_replay_same_changes, recorded, replay,
    same_changes, spec_is_wall, Delta, Maze, Point, Square, BUILDER_BIT, PATH_BIT, WALL_MASK,
};
use crate::builders::build_ops::{
    around_deltas, at_offset, lemma_opened_bits, opened, point_in, record_around, neighbor_or_zero, BacktrackMarker,
    MARKERS_MASK, FROM_EAST, FROM_NORTH, FROM_SOUTH, FROM_WEST,
};
use crate::rng::{random_range, shuffle};

verus! {

/// Every cell on a row above `row` is built.
pub open spec fn rows_built(maze: &Maze, row: int) -> bool {
    forall|u: Point| is_cell(maze, u) && u.row < row ==> spec_is_built(#[trigger] sq(maze, u))
}

/// The state of the hunt-and-kill builder: the edge walled, built squares
/// paths, no markers, no bit that no builder writes, and every cell above the row where the hunt starts
/// built.
pub open spec fn hunt_state(maze: &Maze, row: int) -> bool {
    &&& perimeter_walls(maze)
    &&& built_paths(maze)
    &&& no_markers(maze)
    &&& crate::builders::cells::clean_bits(maze)
    &&& row % 2 == 1
    &&& 1 <= row
    &&& rows_built(maze, row)
}

/// The first built inside square one cell from `cand`, in the order of the
/// generator steps.
fn built_neighbor(maze: &Maze, cand: Point) -> (r: Option<Point>)
    requires
        maze.wf(),
        is_cell(maze, cand),
    ensures
        r matches Some(nb) ==> cell_step(maze, cand, nb) && spec_is_built(sq(maze, nb)),
        r is None ==> isolated(maze, cand),
{
    let mut i: usize = 0;
    while i < 4
        invariant
            maze.wf(),
            is_cell(maze, cand),
            i <= 4,
            forall|j: int|
                0 <= j < i ==> (interior(maze, #[trigger] step_to(cand, j)) ==> !spec_is_built(
                    sq(maze, step_to(cand, j)),
                )),
        decreases 4 - i,
    {
        let d = generate_direction(i);
        let next = Point { row: cand.row + d.row, col: cand.col + d.col };
        assert(next == step_to(cand, i as int));
        if is_square_within_perimeter_walls(maze, next) && is_built(maze.get(next.row, next.col)) {
            return Some(next);
        }
        i = i + 1;
    }
    None
}

/// The hunt: scans the cells row by row from `row`, and returns the first
/// unbuilt cell that has a built neighbor, with that neighbor, and the first
/// row on which it met an unbuilt cell (or `row` if it met none).
fn hunt(maze: &Maze, row: i32) -> (r: (Option<(Point, Point)>, i32))
    requires
        maze.wf(),
        row % 2 == 1,
        1 <= row,
        rows_built(maze, row as int),
    ensures
        r.1 % 2 == 1,
        1 <= r.1,
        r.1 == row || r.1 < maze.rows_spec() - 1,
        rows_built(maze, r.1 as int),
        r.0 matches Some((cand, nb)) ==> {
            &&& is_cell(maze, cand)
            &&& !spec_is_built(sq(maze, cand))
            &&& cell_step(maze, cand, nb)
            &&& spec_is_built(sq(maze, nb))
        },
        r.0 is None ==> forall|u: Point|
            is_cell(maze, u) && !spec_is_built(#[trigger] sq(maze, u)) ==> isolated(maze, u),
        r.1 != row ==> exists|u: Point| is_cell(maze, u) && !spec_is_built(#[trigger] sq(maze, u)),
{
    let rows = maze.rows();
    let cols = maze.cols();
    let mut first = row;
    let mut found_first = false;
    let mut r = row;
    while r < rows - 1
        invariant
            maze.wf(),
            rows == maze.rows_spec(),
            cols == maze.cols_spec(),
            row % 2 == 1,
            1 <= row,
            rows_built(maze, row as int),
            r % 2 == 1,
            row <= r,
            forall|u: Point|
                is_cell(maze, u) && u.row < r && !spec_is_built(#[trigger] sq(maze, u)) ==> isolated(maze, u),
            !found_first ==> first == row && rows_built(maze, r as int),
            found_first ==> first % 2 == 1 && 1 <= first && rows_built(maze, first as int) && first < rows - 1,
            found_first ==> exists|u: Point| is_cell(maze, u) && !spec_is_built(#[trigger] sq(maze, u)),
        decreases rows - r,
    {
        let mut c: i32 = 1;
        while c < cols - 1
            invariant
                maze.wf(),
                rows == maze.rows_spec(),
                cols == maze.cols_spec(),
                row % 2 == 1,
                1 <= row,
                rows_built(maze, row as int),
                r % 2 == 1,
                row <= r < rows - 1,
                c % 2 == 1,
                1 <= c <= cols,
                forall|u: Point|
                    is_cell(maze, u) && (u.row < r || (u.row == r && u.col < c)) && !spec_is_built(
                        #[trigger] sq(maze, u),
                    ) ==> isolated(maze, u),
                !found_first ==> first == row && rows_built(maze, r as int) && forall|u: Point|
                    is_cell(maze, u) && u.row == r && u.col < c ==> spec_is_built(#[trigger] sq(maze, u)),
                found_first ==> first % 2 == 1 && 1 <= first && rows_built(maze, first as int) && first < rows - 1,
                found_first ==> exists|u: Point| is_cell(maze, u) && !spec_is_built(#[trigger] sq(maze, u)),
            decreases cols - c,
        {
            let cand = Point { row: r, col: c };
            if !is_built(maze.get(r, c)) {
                assert(is_cell(maze, cand) && !spec_is_built(sq(maze, cand)));
                if !found_first {
                    first = r;
                    found_first = true;
                }
                match built_neighbor(maze, cand) {
                    Some(nb) => {
                        return (Some((cand, nb)), first);
                    },
                    None => {},
                }
            }
            c = c + 2;
        }
        r = r + 2;
    }
    (None, first)
}

/// A hunt-and-kill maze: random walks from cell to unbuilt cell, and when a
/// walk is stuck, a scan from the top for an unbuilt cell beside a built one
/// to start the next walk from, until no such cell is left.
#[verifier::rlimit(80)]
pub fn generate_maze(maze: &mut Maze)
    requires
        old(maze).wf(),
        old(maze).rows_spec() >= 4,
        old(maze).cols_spec() >= 4,
    ensures
        reshaped(final(maze), old(maze)),
        perimeter_walls(final(maze)),
        built_paths(final(maze)),
        no_markers(final(maze)),
        crate::builders::cells::clean_bits(final(maze)),
        all_cells_built(final(maze)) || no_cells_built(final(maze)),
        final(maze).rows_spec() > 4 || final(maze).cols_spec() > 4 ==> all_cells_built(final(maze)),
        final(maze).rows_spec() > 4 || final(maze).cols_spec() > 4 ==> crate::builders::cells::one_reaches_all(final(maze)),
        crate::builders::cells::tree_count(final(maze)),
        crate::builders::recursive_subdivision::posts_walled(final(maze)),
{
    fill_maze_with_walls(maze);
    let start = Point {
        row: odd_at_or_below(random_range(1, maze.rows() - 2)),
        col: odd_at_or_below(random_range(1, maze.cols() - 2)),
    };
    proof {
        lemma_all_walls_perimeter(maze);
        crate::builders::cells::lemma_walls_clean(maze);
        assert forall|r: int, c: int| maze.in_bounds(r, c) implies {
            &&& !spec_is_built(#[trigger] maze.square(r, c))
            &&& spec_marker(maze.square(r, c)) == 0
        } by {
            lemma_walled_bits(maze.rows_spec(), maze.cols_spec(), r, c);
        }
    }
    let mut dirs: Vec<usize> = vec![0, 1, 2, 3];
    assert(dirs@ =~= seq![0usize, 1, 2, 3]);
    let mut cur = start;
    let mut highest_completed_row: i32 = 1;
    proof {
        assert(is_cell(maze, start));
        assert forall|u: Point| is_cell(maze, u) implies !spec_is_built(#[trigger] sq(maze, u)) by {}
        crate::builders::cells::lemma_filled_grown(maze, start);
    }
    loop
        invariant
            reshaped(maze, old(maze)),
            hunt_state(maze, highest_completed_row as int),
            is_cell(maze, cur),
            is_cell(maze, start),
            all_directions(dirs@),
            spec_is_built(sq(maze, start)) || (cur == start && forall|u: Point|
                is_cell(maze, u) ==> !spec_is_built(#[trigger] sq(maze, u))),
            crate::builders::cells::tree_grown(maze, start),
            cur == start || spec_is_built(sq(maze, cur)),
        decreases unbuilt_count(maze.squares()),
    {
        shuffle(&mut dirs);
        proof { lemma_directions(dirs@); }
        match find_branch(maze, cur, &dirs) {
            Some(branch) => {
                let ghost m0 = *maze;
                join_squares(maze, cur, branch);
                proof {
                    lemma_join_state(&m0, maze, cur, branch, highest_completed_row as int);
                    lemma_joined_from(&m0, maze, cur, branch);
                    assert(m0.in_bounds(start.row as int, start.col as int));
                    assert(crate::builders::cells::tree_grown(maze, start)) by {
                        crate::builders::cells::lemma_join_grows(&m0, maze, start, cur, branch);
                    }
                }
                cur = branch;
            },
            None => {
                let ghost before_hunt = cur;
                let (found, row) = hunt(maze, highest_completed_row);
                highest_completed_row = row;
                match found {
                    Some((cand, nb)) => {
                        let ghost m0 = *maze;
                        proof {
                            assert(is_cell(maze, nb));
                        }
                        join_squares(maze, cand, nb);
                        proof {
                            lemma_join_state(&m0, maze, cand, nb, highest_completed_row as int);
                            lemma_joined_from(&m0, maze, cand, nb);
                            assert(m0.in_bounds(start.row as int, start.col as int));
                            assert(crate::builders::cells::tree_grown(maze, start)) by {
                                crate::builders::cells::lemma_between_parity(cand, nb);
                                crate::builders::cells::lemma_joined_exact(&m0, maze, cand, nb);
                                crate::builders::cells::lemma_exact_swap(&m0, maze, cand, nb);
                                crate::builders::cells::lemma_step_grows(&m0, maze, start, nb, cand);
                            }
                        }
                        cur = cand;
                    },
                    None => {
                        proof {
                            lemma_all_or_none(maze);
                            if (maze.rows_spec() > 4 || maze.cols_spec() > 4) && !spec_is_built(sq(maze, start)) {
                                let i: int = if maze.cols_spec() > 4 {
                                    if start.col + 2 < maze.cols_spec() - 1 { 1 } else { 3 }
                                } else {
                                    if start.row + 2 < maze.rows_spec() - 1 { 2 } else { 0 }
                                };
                                assert(has_direction(dirs@, i));
                                let j = choose|j: int| 0 <= j < 4 && dirs@[j] == i;
                                assert(blocked(maze, start, dirs@[j] as int));
                                assert(interior(maze, step_to(start, i)));
                                assert(is_cell(maze, step_to(start, i)));
                                assert(false);
                            }
                            crate::builders::cells::lemma_grown_facts(maze, start);
                            if maze.rows_spec() > 4 || maze.cols_spec() > 4 {
                                assert(is_cell(maze, start) && crate::builders::cells::cells_reached(maze, start));
                            }
                        }
                        return;
                    },
                }
            },
        }
    }
}

/// Joining a cell to an unbuilt or built neighbor keeps the state of the
/// hunt, and builds one cell more.
proof fn lemma_join_state(m0: &Maze, m1: &Maze, a: Point, b: Point, row: int)
    requires
        m0.wf(),
        m1.wf(),
        m1.same_shape(m0),
        hunt_state(m0, row),
        cell_step(m0, a, b),
        !spec_is_built(sq(m0, a)) || !spec_is_built(sq(m0, b)),
        m1.squares() == crate::builders::build_ops::joined(
            m0.squares(),
            m0.rows_spec(),
            m0.cols_spec(),
            a,
            b,
        ),
    ensures
        hunt_state(m1, row),
        unbuilt_count(m1.squares()) < unbuilt_count(m0.squares()),
{
    lemma_joined_from(m0, m1, a, b);
    crate::builders::cells::lemma_join_keeps_clean(m0, m1, a, b);
    assert forall|r: int, c: int|
        m1.in_bounds(r, c) && !(0 < r < m1.rows_spec() - 1 && 0 < c < m1.cols_spec() - 1) implies spec_is_wall(
        #[trigger] m1.square(r, c),
    ) by {
        assert(join_fields(m0.square(r, c), m1.square(r, c), pt(r, c), a, b));
    }
    assert forall|r: int, c: int|
        m1.in_bounds(r, c) && spec_is_built(#[trigger] m1.square(r, c)) implies !spec_is_wall(m1.square(r, c)) by {
        assert(join_fields(m0.square(r, c), m1.square(r, c), pt(r, c), a, b));
    }
    assert forall|r: int, c: int| m1.in_bounds(r, c) implies spec_marker(#[trigger] m1.square(r, c)) == 0 by {
        assert(join_fields(m0.square(r, c), m1.square(r, c), pt(r, c), a, b));
    }
    assert forall|u: Point| is_cell(m1, u) && u.row < row implies spec_is_built(#[trigger] sq(m1, u)) by {
        assert(spec_is_built(sq(m0, u)));
    }
    m0.maze.lemma_index(a.row as int, a.col as int);
    m0.maze.lemma_index(b.row as int, b.col as int);
    if !spec_is_built(sq(m0, a)) {
        lemma_unbuilt_count(m0.squares(), m1.squares(), m0.maze.index_of(a.row as int, a.col as int));
    } else {
        lemma_unbuilt_count(m0.squares(), m1.squares(), m0.maze.index_of(b.row as int, b.col as int));
    }
}


/// Directions a hunt-and-kill walk marks its squares with.
pub const GOING_NORTH: BacktrackMarker = FROM_NORTH;
pub const GOING_EAST: BacktrackMarker = FROM_EAST;
pub const GOING_SOUTH: BacktrackMarker = FROM_SOUTH;
pub const GOING_WEST: BacktrackMarker = FROM_WEST;

/// The buffer after carving `p` forward: `p` becomes a built path whose
/// markers are replaced by `d`, and the walls of its neighbors that pointed at
/// it are removed.
pub open spec fn forward_opened(s: Seq<Square>, rows: int, cols: int, p: Point, d: BacktrackMarker) -> Seq<Square> {
    let k = cell_index(p.row as int, p.col as int, cols);
    opened(s, rows, cols, p, 0).update(k, (((s[k] & !MARKERS_MASK) & !WALL_MASK) | PATH_BIT | BUILDER_BIT) | d)
}

/// Carves `p` as a built path marked `direction` when it lies below
/// `min_row`, unmarked otherwise, recorded as one frame.
fn carve_forward_wall_history(maze: &mut Maze, p: Point, direction: BacktrackMarker, min_row: i32)
    requires
        old(maze).wf(),
        point_in(old(maze), p),
        old(maze).build_history.deltas().len() + 5 <= usize::MAX,
    ensures
        recorded(old(maze), final(maze)),
        final(maze).squares() == forward_opened(
            old(maze).squares(),
            old(maze).rows_spec(),
            old(maze).cols_spec(),
            p,
            if p.row > min_row { direction } else { 0 },
        ),
        final(maze).build_history.deltas().len() <= old(maze).build_history.deltas().len() + 5,
        final(maze).build_history.deltas() == old(maze).build_history.deltas() + around_deltas(
            old(maze),
            p,
            (((sq(old(maze), p) & !MARKERS_MASK) & !WALL_MASK) | PATH_BIT | BUILDER_BIT) | (if p.row > min_row {
                direction
            } else {
                0
            }),
            at_offset(old(maze), p, -1, 0) & !crate::maze::SOUTH_WALL,
            at_offset(old(maze), p, 0, 1) & !crate::maze::WEST_WALL,
            at_offset(old(maze), p, 1, 0) & !crate::maze::NORTH_WALL,
            at_offset(old(maze), p, 0, -1) & !crate::maze::EAST_WALL,
            p.row > 0,
            p.row + 1 < old(maze).rows_spec(),
            p.col > 0,
            p.col + 1 < old(maze).cols_spec(),
            false,
        ),
        final(maze).solve_history == old(maze).solve_history,
{
    let ghost m0 = *maze;
    let before = maze.get(p.row, p.col);
    let mut after = ((before & !MARKERS_MASK) & !WALL_MASK) | PATH_BIT | BUILDER_BIT;
    if p.row > min_row {
        after = after | direction;
    }
    let north = neighbor_or_zero(maze, p, -1, 0) & !crate::maze::SOUTH_WALL;
    let east = neighbor_or_zero(maze, p, 0, 1) & !crate::maze::WEST_WALL;
    let south = neighbor_or_zero(maze, p, 1, 0) & !crate::maze::NORTH_WALL;
    let west = neighbor_or_zero(maze, p, 0, -1) & !crate::maze::EAST_WALL;
    record_around(
        maze,
        p,
        after,
        north,
        east,
        south,
        west,
        p.row > 0,
        p.row + 1 < maze.rows(),
        p.col > 0,
        p.col + 1 < maze.cols(),
        false,
    );
    proof {
        let d: BacktrackMarker = if p.row > min_row { direction } else { 0 };
        assert((((before & !MARKERS_MASK) & !WALL_MASK) | PATH_BIT | BUILDER_BIT) | 0u32 == ((before
            & !MARKERS_MASK) & !WALL_MASK) | PATH_BIT | BUILDER_BIT) by (bit_vector);
        assert(after == (((before & !MARKERS_MASK) & !WALL_MASK) | PATH_BIT | BUILDER_BIT) | d);
        m0.maze.lemma_index(p.row as int, p.col as int);
    }
    assert(maze.squares() =~= forward_opened(
        m0.squares(),
        m0.rows_spec(),
        m0.cols_spec(),
        p,
        if p.row > min_row { direction } else { 0 },
    ));
}

/// The fields of `forward_opened`: `p` becomes a built path; every other
/// square keeps its path and builder bits.
proof fn lemma_forward_bits(s: Seq<Square>, rows: int, cols: int, p: Point, d: BacktrackMarker, k: int)
    requires
        0 <= k < s.len(),
        0 <= cell_index(p.row as int, p.col as int, cols) < s.len(),
    ensures
        forward_opened(s, rows, cols, p, d).len() == s.len(),
        k == cell_index(p.row as int, p.col as int, cols) ==> {
            let x = forward_opened(s, rows, cols, p, d)[k];
            spec_is_built(x) && !spec_is_wall(x)
        },
        k != cell_index(p.row as int, p.col as int, cols) ==> {
            let x = forward_opened(s, rows, cols, p, d)[k];
            &&& spec_is_built(x) == spec_is_built(s[k])
            &&& spec_is_wall(x) == spec_is_wall(s[k])
        },
{
    lemma_opened_bits(s, rows, cols, p, 0, k);
    let y = s[k];
    assert(((((y & !0xFu32) & !0x0F00_0000u32) | 0x2000_0000u32 | 0x1000_0000u32) | d) & 0x1000_0000u32 != 0
        && ((((y & !0xFu32) & !0x0F00_0000u32) | 0x2000_0000u32 | 0x1000_0000u32) | d) & 0x2000_0000u32 != 0)
        by (bit_vector);
    assert((y | 0u32) & 0x1000_0000u32 == y & 0x1000_0000u32) by (bit_vector);
}

/// Carving `p` forward keeps the state of the hunt and never unbuilds a
/// square.
proof fn lemma_forward_state(m0: &Maze, m1: &Maze, p: Point, d: BacktrackMarker, row: int)
    requires
        m0.wf(),
        m1.same_shape(m0),
        interior(m0, p),
        perimeter_walls(m0),
        built_paths(m0),
        rows_built(m0, row),
        m1.squares() == forward_opened(m0.squares(), m0.rows_spec(), m0.cols_spec(), p, d),
    ensures
        perimeter_walls(m1),
        built_paths(m1),
        rows_built(m1, row),
        spec_is_built(sq(m1, p)),
        forall|k: int|
            0 <= k < m0.squares().len() && spec_is_built(#[trigger] m0.squares()[k]) ==> spec_is_built(m1.squares()[k]),
        forall|r: int, c: int| m0.in_bounds(r, c) ==> {
            &&& (r == p.row && c == p.col) ==> spec_is_built(#[trigger] m1.square(r, c)) && !spec_is_wall(m1.square(r, c))
            &&& !(r == p.row && c == p.col) ==> spec_is_built(m1.square(r, c)) == spec_is_built(m0.square(r, c))
                && spec_is_wall(m1.square(r, c)) == spec_is_wall(m0.square(r, c))
        },
{
    let cols = m0.cols_spec();
    let rows = m0.rows_spec();
    m0.maze.lemma_index(p.row as int, p.col as int);
    let kp = cell_index(p.row as int, p.col as int, cols);
    assert forall|k: int| 0 <= k < m0.squares().len() && spec_is_built(#[trigger] m0.squares()[k]) implies spec_is_built(
        m1.squares()[k],
    ) by {
        lemma_forward_bits(m0.squares(), rows, cols, p, d, k);
    }
    lemma_forward_bits(m0.squares(), rows, cols, p, d, kp);
    assert forall|r: int, c: int| m0.in_bounds(r, c) implies {
        &&& (r == p.row && c == p.col) ==> spec_is_built(#[trigger] m1.square(r, c)) && !spec_is_wall(m1.square(r, c))
        &&& !(r == p.row && c == p.col) ==> spec_is_built(m1.square(r, c)) == spec_is_built(m0.square(r, c))
            && spec_is_wall(m1.square(r, c)) == spec_is_wall(m0.square(r, c))
    } by {
        m0.maze.lemma_index(r, c);
        if r != p.row || c != p.col {
            lemma_cell_index_injective(r, c, p.row as int, p.col as int, cols);
        }
        lemma_forward_bits(m0.squares(), rows, cols, p, d, cell_index(r, c, cols));
    }
    assert forall|u: Point| is_cell(m1, u) && u.row < row implies spec_is_built(#[trigger] sq(m1, u)) by {
        assert(spec_is_built(sq(m0, u)));
        assert(m0.in_bounds(u.row as int, u.col as int));
    }
}

/// Carves `cur`, the wall toward `next` and `next` forward, each marked with
/// the direction of the step where it lies below `min_row`.
fn carve_forward_history(maze: &mut Maze, cur: Point, next: Point, min_row: i32, Ghost(row): Ghost<int>)
    requires
        old(maze).wf(),
        cell_step(old(maze), cur, next),
        perimeter_walls(old(maze)),
        built_paths(old(maze)),
        rows_built(old(maze), row),
        old(maze).build_history.deltas().len() + 15 <= usize::MAX,
    ensures
        recorded(old(maze), final(maze)),
        perimeter_walls(final(maze)),
        built_paths(final(maze)),
        rows_built(final(maze), row),
        spec_is_built(sq(final(maze), cur)),
        spec_is_built(sq(final(maze), next)),
        forall|k: int|
            0 <= k < old(maze).squares().len() && spec_is_built(#[trigger] old(maze).squares()[k])
                ==> spec_is_built(final(maze).squares()[k]),
        final(maze).build_history.deltas().len() <= old(maze).build_history.deltas().len() + 15,
        crate::builders::cells::step_exact(old(maze), final(maze), cur, next),
{
    let ghost m0 = *maze;
    proof { crate::builders::cells::lemma_between_parity(cur, next); }
    let mut wall = cur;
    let direction = if next.row < cur.row {
        wall.row = wall.row - 1;
        GOING_NORTH
    } else if next.row > cur.row {
        wall.row = wall.row + 1;
        GOING_SOUTH
    } else if next.col < cur.col {
        wall.col = wall.col - 1;
        GOING_WEST
    } else {
        wall.col = wall.col + 1;
        GOING_EAST
    };
    assert(wall == crate::builders::build_ops::between(cur, next));
    carve_forward_wall_history(maze, cur, direction, min_row);
    let ghost m1 = *maze;
    proof { lemma_forward_state(&m0, &m1, cur, if cur.row > min_row { direction } else { 0 }, row); }
    carve_forward_wall_history(maze, wall, direction, min_row);
    let ghost m2 = *maze;
    proof {
        lemma_forward_state(&m1, &m2, wall, if wall.row > min_row { direction } else { 0 }, row);
        lemma_recorded_trans(&m0, &m1, &m2);
    }
    carve_forward_wall_history(maze, next, direction, min_row);
    proof {
        lemma_forward_state(&m2, maze, next, if next.row > min_row { direction } else { 0 }, row);
        lemma_recorded_trans(&m0, &m2, maze);
        m0.maze.lemma_index(cur.row as int, cur.col as int);
        assert(spec_is_built(m2.squares()[m0.maze.index_of(cur.row as int, cur.col as int)]));
        let w = wall;
        assert(m0.in_bounds(cur.row as int, cur.col as int));
        assert(m0.in_bounds(w.row as int, w.col as int));
        assert(m0.in_bounds(next.row as int, next.col as int));
        assert forall|r: int, c: int|
            m0.in_bounds(r, c) && crate::builders::cells::pt(r, c) != cur && crate::builders::cells::pt(r, c) != next
                && crate::builders::cells::pt(r, c) != w implies spec_is_wall(#[trigger] maze.square(r, c)) == spec_is_wall(
            m0.square(r, c),
        ) && spec_is_built(maze.square(r, c)) == spec_is_built(m0.square(r, c)) by {
            assert(m1.square(r, c) == m1.square(r, c));
            assert(m2.square(r, c) == m2.square(r, c));
        }
        assert(spec_is_built(sq(&m1, cur)) && !spec_is_wall(sq(&m1, cur)));
        assert(spec_is_built(sq(&m2, cur)) && !spec_is_wall(sq(&m2, cur)));
        assert(!spec_is_wall(sq(&m2, w)));
        assert(!spec_is_wall(sq(maze, w)));
        assert(spec_is_built(sq(maze, next)) && !spec_is_wall(sq(maze, next)));
        assert(spec_is_built(sq(maze, cur)) && !spec_is_wall(sq(maze, cur)));
    }
}

/// The buffer with the markers of row `row` (and of the row below when
/// `two_rows`) replaced by `mark`.
pub open spec fn row_marked(maze: &Maze, new: &Maze, row: int, two_rows: bool, mark: BacktrackMarker) -> bool {
    forall|r: int, c: int|
        maze.in_bounds(r, c) ==> {
            let x0 = maze.square(r, c);
            let x1 = #[trigger] new.square(r, c);
            if r == row || (two_rows && r == row + 1) {
                &&& x1 == (x0 & !MARKERS_MASK) | mark
                &&& spec_is_built(x1) == spec_is_built(x0)
                &&& spec_is_wall(x1) == spec_is_wall(x0)
                &&& spec_marker(x1) == mark
            } else {
                x1 == x0
            }
        }
}

/// Replaces the markers of row `row`, and of the row below when `two_rows`,
/// by `mark`, recorded as one frame whose deltas go column by column.
fn row_marks_history(maze: &mut Maze, row: i32, two_rows: bool, mark: BacktrackMarker)
    requires
        old(maze).wf(),
        0 <= row < old(maze).rows_spec(),
        two_rows ==> row + 1 < old(maze).rows_spec(),
        mark <= 4,
        old(maze).build_history.deltas().len() + 2 * old(maze).cols_spec() <= usize::MAX,
    ensures
        recorded(old(maze), final(maze)),
        row_marked(old(maze), final(maze), row as int, two_rows, mark),
        final(maze).build_history.deltas().len() <= old(maze).build_history.deltas().len() + 2 * old(maze).cols_spec(),
{
    let ghost m0 = *maze;
    let ghost cols_i = m0.cols_spec();
    let cols = maze.cols();
    let mut frame: Vec<Delta> = Vec::new();
    let mut c: i32 = 0;
    proof { lemma_replay_empty(m0.squares(), cols_i); }
    while c < cols
        invariant
            maze.wf(),
            maze.same_shape(&m0),
            maze.build_history == m0.build_history,
            maze.solve_history == m0.solve_history,
            m0.wf(),
            cols == m0.cols_spec(),
            0 <= row < m0.rows_spec(),
            two_rows ==> row + 1 < m0.rows_spec(),
            mark <= 4,
            0 <= c <= cols,
            frame@.len() == (if two_rows { 2 * c } else { c as int }),
            consistent(m0.squares(), cols as int, frame@),
            replay(m0.squares(), cols as int, frame@) == maze.squares(),
            forall|r: int, cc: int|
                m0.in_bounds(r, cc) ==> {
                    let x0 = m0.square(r, cc);
                    let x1 = #[trigger] maze.square(r, cc);
                    if (r == row || (two_rows && r == row + 1)) && cc < c {
                        x1 == (x0 & !MARKERS_MASK) | mark
                    } else {
                        x1 == x0
                    }
                },
        decreases cols - c,
    {
        let ghost mb = *maze;
        let p = Point { row, col: c };
        let s0 = maze.get(row, c);
        let d1 = Delta { id: p, before: s0, after: (s0 & !MARKERS_MASK) | mark, burst: 1 };
        maze.set(row, c, (s0 & !MARKERS_MASK) | mark);
        proof {
            m0.maze.lemma_index(row as int, c as int);
            lemma_replay_push(m0.squares(), cols as int, frame@, d1);
            assert forall|r: int, cc: int| m0.in_bounds(r, cc) && (r != row || cc != c) implies #[trigger] maze.square(r, cc)
                == mb.square(r, cc) by {
                m0.maze.lemma_index(r, cc);
                lemma_cell_index_injective(r, cc, row as int, c as int, cols as int);
            }
        }
        frame.push(d1);
        if two_rows {
            let ghost mc = *maze;
            let ghost f1 = frame@;
            let q = Point { row: row + 1, col: c };
            let s1 = maze.get(row + 1, c);
            let d2 = Delta { id: q, before: s1, after: (s1 & !MARKERS_MASK) | mark, burst: 1 };
            maze.set(row + 1, c, (s1 & !MARKERS_MASK) | mark);
            proof {
                m0.maze.lemma_index(row + 1, c as int);
                lemma_replay_push(m0.squares(), cols as int, f1, d2);
                assert forall|r: int, cc: int| m0.in_bounds(r, cc) && (r != row + 1 || cc != c) implies #[trigger] maze.square(r, cc)
                    == mc.square(r, cc) by {
                    m0.maze.lemma_index(r, cc);
                    lemma_cell_index_injective(r, cc, row + 1, c as int, cols as int);
                }
            }
            frame.push(d2);
        }
        c = c + 1;
    }
    let ghost after_loop = *maze;
    let len = frame.len();
    if len > 0 {
        let ghost f0 = frame@;
        let mut first = frame[0];
        first.burst = len;
        frame.set(0, first);
        let mut last = frame[len - 1];
        last.burst = len;
        frame.set(len - 1, last);
        proof {
            assert(same_changes(f0, frame@));
            lemma_replay_same_changes(m0.squares(), cols as int, f0, frame@);
        }
    }
    maze.build_history.push_burst(frame.as_slice());
    proof {
        let d0 = m0.build_history.deltas();
        let d1 = maze.build_history.deltas();
        assert(d1.subrange(d0.len() as int, d1.len() as int) =~= frame@);
        assert(d1.subrange(0, d0.len() as int) =~= d0);
        lemma_recorded_exactly(&m0, maze);
        assert forall|r: int, cc: int| m0.in_bounds(r, cc) implies {
            let x0 = m0.square(r, cc);
            let x1 = #[trigger] maze.square(r, cc);
            if r == row || (two_rows && r == row + 1) {
                &&& x1 == (x0 & !MARKERS_MASK) | mark
                &&& spec_is_built(x1) == spec_is_built(x0)
                &&& spec_is_wall(x1) == spec_is_wall(x0)
                &&& spec_marker(x1) == mark
            } else {
                x1 == x0
            }
        } by {
            let x0 = m0.square(r, cc);
            assert(after_loop.square(r, cc) == maze.square(r, cc));
            crate::builders::cells::lemma_extra_bits(x0 & !MARKERS_MASK, mark);
            crate::builders::cells::lemma_extra_bits(x0, mark);
        }
    }
}

/// Marks the row the hunt scans from.
fn hunter_laser_history(maze: &mut Maze, current_row: i32)
    requires
        old(maze).wf(),
        0 <= current_row < old(maze).rows_spec(),
        old(maze).build_history.deltas().len() + 2 * old(maze).cols_spec() <= usize::MAX,
    ensures
        recorded(old(maze), final(maze)),
        row_marked(old(maze), final(maze), current_row as int, false, FROM_SOUTH),
        final(maze).build_history.deltas().len() <= old(maze).build_history.deltas().len() + 2 * old(maze).cols_spec(),
{
    row_marks_history(maze, current_row, false, FROM_SOUTH);
}

/// Clears the marks of the row the hunt scanned from, and of the row below
/// it unless it is the last row.
fn reset_hunter_laser_history(maze: &mut Maze, current_row: i32)
    requires
        old(maze).wf(),
        0 <= current_row < old(maze).rows_spec(),
        old(maze).build_history.deltas().len() + 2 * old(maze).cols_spec() <= usize::MAX,
    ensures
        recorded(old(maze), final(maze)),
        row_marked(old(maze), final(maze), current_row as int, current_row != old(maze).rows_spec() - 1, 0),
        final(maze).build_history.deltas().len() <= old(maze).build_history.deltas().len() + 2 * old(maze).cols_spec(),
{
    let two = current_row != maze.rows() - 1;
    row_marks_history(maze, current_row, two, 0);
}


/// Replacing markers keeps the edge, the built squares and the rows the hunt
/// has completed as they were.
proof fn lemma_marks_state(m0: &Maze, m1: &Maze, row: int, two_rows: bool, mark: BacktrackMarker)
    requires
        m0.wf(),
        m1.same_shape(m0),
        row_marked(m0, m1, row, two_rows, mark),
    ensures
        perimeter_walls(m0) ==> perimeter_walls(m1),
        built_paths(m0) ==> built_paths(m1),
        forall|r: int, c: int|
            m0.in_bounds(r, c) ==> spec_is_built(#[trigger] m1.square(r, c)) == spec_is_built(m0.square(r, c))
                && spec_is_wall(m1.square(r, c)) == spec_is_wall(m0.square(r, c)),
        forall|k: int|
            0 <= k < m0.squares().len() ==> spec_is_built(#[trigger] m1.squares()[k]) == spec_is_built(m0.squares()[k]),
        forall|h: int| rows_built(m0, h) ==> rows_built(m1, h),
{
    assert forall|r: int, c: int|
        m0.in_bounds(r, c) implies spec_is_built(#[trigger] m1.square(r, c)) == spec_is_built(m0.square(r, c))
            && spec_is_wall(m1.square(r, c)) == spec_is_wall(m0.square(r, c)) by {}
    assert forall|k: int|
        0 <= k < m0.squares().len() implies spec_is_built(#[trigger] m1.squares()[k]) == spec_is_built(m0.squares()[k]) by {
        let r = k / m0.cols_spec();
        let c = k % m0.cols_spec();
        assert(k == r * m0.cols_spec() + c) by (nonlinear_arith)
            requires
                m0.cols_spec() > 0,
                r == k / m0.cols_spec(),
                c == k % m0.cols_spec(),
        ;
        assert(0 <= r < m0.rows_spec()) by (nonlinear_arith)
            requires
                m0.cols_spec() > 0,
                0 <= k < m0.rows_spec() * m0.cols_spec(),
                r == k / m0.cols_spec(),
        ;
        assert(m0.in_bounds(r, c));
        assert(m1.square(r, c) == m1.squares()[k]);
    }
    if perimeter_walls(m0) {
        assert forall|r: int, c: int|
            m1.in_bounds(r, c) && !(0 < r < m1.rows_spec() - 1 && 0 < c < m1.cols_spec() - 1) implies spec_is_wall(
            #[trigger] m1.square(r, c),
        ) by {
            assert(spec_is_wall(m0.square(r, c)));
        }
    }
    assert forall|h: int| rows_built(m0, h) implies rows_built(m1, h) by {
        assert forall|u: Point| is_cell(m1, u) && u.row < h implies spec_is_built(#[trigger] sq(m1, u)) by {
            assert(spec_is_built(sq(m0, u)));
            assert(m0.in_bounds(u.row as int, u.col as int));
        }
    }
}

/// `generate_maze`, recorded: each carve is recorded, each cell marked with
/// the direction it was entered from once it lies below the row after the
/// one the hunt scans from, and that row is marked while the hunt scans from
/// it; on a fresh maze the history replays to the maze from the empty grid.
#[verifier::rlimit(40)]
#[verifier::rlimit(100)]
pub fn generate_history(maze: &mut Maze)
    requires
        old(maze).wf(),
        old(maze).rows_spec() >= 4,
        old(maze).cols_spec() >= 4,
        old(maze).build_history.deltas().len() + (20 + 4 * old(maze).cols_spec()) * (old(maze).squares().len() + 2)
            <= usize::MAX,
    ensures
        final(maze).wf(),
        final(maze).same_shape(old(maze)),
        final(maze).solve_history == old(maze).solve_history,
        perimeter_walls(final(maze)),
        built_paths(final(maze)),
        all_cells_built(final(maze)) || no_cells_built(final(maze)),
        crate::builders::cells::one_reaches_all(final(maze)),
        crate::builders::cells::tree_count(final(maze)),
        crate::builders::recursive_subdivision::posts_walled(final(maze)),
        crate::builders::arena::fresh(old(maze)) ==> recorded(old(maze), final(maze)),
        crate::builders::arena::fresh(old(maze)) ==> final(maze).build_history.framed(),
{
    let ghost m00 = *maze;
    let ghost n = m00.squares().len() as int;
    let ghost d0 = m00.build_history.deltas().len() as int;
    let ghost cols = m00.cols_spec();
    let ghost k = 15 + 4 * cols;
    proof {
        assert(n + 2 * cols + k * n + 2 * cols <= (20 + 4 * cols) * (n + 2)) by (nonlinear_arith)
            requires
                k == 15 + 4 * cols,
                n >= 0,
                cols >= 0,
        ;
    }
    crate::builders::build_ops::fill_maze_history_with_walls(maze);
    let start = Point {
        row: odd_at_or_below(random_range(1, maze.rows() - 2)),
        col: odd_at_or_below(random_range(1, maze.cols() - 2)),
    };
    proof {
        lemma_all_walls_perimeter(maze);
        assert forall|r: int, c: int| maze.in_bounds(r, c) implies {
            &&& !spec_is_built(#[trigger] maze.square(r, c))
            &&& spec_marker(maze.square(r, c)) == 0
        } by {
            lemma_walled_bits(maze.rows_spec(), maze.cols_spec(), r, c);
        }
        crate::builders::recursive_backtracker::lemma_unbuilt_count_len(maze.squares());
        crate::builders::cells::lemma_filled_grown(maze, start);
    }
    let mut dirs: Vec<usize> = vec![0, 1, 2, 3];
    assert(dirs@ =~= seq![0usize, 1, 2, 3]);
    let mut cur = start;
    let mut highest_completed_row: i32 = 1;
    let ghost m1 = *maze;
    hunter_laser_history(maze, highest_completed_row);
    proof {
        lemma_marks_state(&m1, maze, 1, false, FROM_SOUTH);
        assert(is_cell(&m1, start));
        crate::builders::cells::lemma_same_walls_grown(&m1, maze, start);
        if crate::builders::arena::fresh(&m00) {
            lemma_recorded_trans(&m00, &m1, maze);
        }
        lemma_unbuilt_count(m1.squares(), maze.squares(), 0);
        lemma_unbuilt_count(maze.squares(), m1.squares(), 0);
        let u = unbuilt_count(maze.squares());
        assert(k * u <= k * n) by (nonlinear_arith)
            requires
                0 <= u <= n,
                k >= 0,
        ;
    }
    loop
        invariant
            maze.wf(),
            maze.same_shape(&m00),
            m00 == *old(maze),
            maze.solve_history == m00.solve_history,
            n == maze.squares().len(),
            cols == maze.cols_spec(),
            k == 15 + 4 * cols,
            perimeter_walls(maze),
            built_paths(maze),
            highest_completed_row % 2 == 1,
            1 <= highest_completed_row < maze.rows_spec(),
            rows_built(maze, highest_completed_row as int),
            is_cell(maze, cur),
            is_cell(maze, start),
            crate::builders::cells::tree_grown(maze, start),
            cur == start || spec_is_built(sq(maze, cur)),
            all_directions(dirs@),
            0 <= unbuilt_count(maze.squares()) <= n,
            maze.build_history.deltas().len() + k * unbuilt_count(maze.squares()) <= d0 + n + 2 * cols + k * n,
            d0 + n + 2 * cols + k * n + 2 * cols <= usize::MAX,
            crate::builders::arena::fresh(&m00) ==> recorded(&m00, maze),
            crate::builders::arena::fresh(&m00) ==> maze.build_history.framed(),
        decreases unbuilt_count(maze.squares()),
    {
        shuffle(&mut dirs);
        proof { lemma_directions(dirs@); }
        match find_branch(maze, cur, &dirs) {
            Some(branch) => {
                let ghost ma = *maze;
                let ghost ua = unbuilt_count(ma.squares());
                proof {
                    ma.maze.lemma_index(branch.row as int, branch.col as int);
                    lemma_unbuilt_pos(ma.squares(), ma.maze.index_of(branch.row as int, branch.col as int));
                    assert(k * ua >= k) by (nonlinear_arith)
                        requires
                            ua >= 1,
                            k >= 0,
                    ;
                }
                carve_forward_history(maze, cur, branch, highest_completed_row + 1, Ghost(highest_completed_row as int));
                proof {
                    assert(crate::builders::cells::tree_grown(maze, start)) by {
                        crate::builders::cells::lemma_step_grows(&ma, maze, start, cur, branch);
                    }
                    ma.maze.lemma_index(branch.row as int, branch.col as int);
                    lemma_unbuilt_count(ma.squares(), maze.squares(), ma.maze.index_of(branch.row as int, branch.col as int));
                    let ub = unbuilt_count(maze.squares());
                    assert(k * ub <= k * ua - k) by (nonlinear_arith)
                        requires
                            ub <= ua - 1,
                            k >= 0,
                    ;
                    if crate::builders::arena::fresh(&m00) {
                        lemma_recorded_trans(&m00, &ma, maze);
                    }
                }
                cur = branch;
            },
            None => {
                let (found, row) = hunt(maze, highest_completed_row);
                let ghost ma = *maze;
                if row != highest_completed_row {
                    proof {
                        let u = choose|u: Point| is_cell(&ma, u) && !spec_is_built(#[trigger] sq(&ma, u));
                        ma.maze.lemma_index(u.row as int, u.col as int);
                        lemma_unbuilt_pos(ma.squares(), ma.maze.index_of(u.row as int, u.col as int));
                        let ua = unbuilt_count(ma.squares());
                        assert(k * ua >= k) by (nonlinear_arith)
                            requires
                                ua >= 1,
                                k >= 0,
                        ;
                    }
                    reset_hunter_laser_history(maze, highest_completed_row);
                    let ghost mb = *maze;
                    hunter_laser_history(maze, row);
                    proof {
                        lemma_marks_state(&ma, &mb, highest_completed_row as int, highest_completed_row != ma.rows_spec() - 1, 0);
                        lemma_marks_state(&mb, maze, row as int, false, FROM_SOUTH);
                        crate::builders::cells::lemma_same_walls_grown(&ma, &mb, start);
                        crate::builders::cells::lemma_same_walls_grown(&mb, maze, start);
                        if crate::builders::arena::fresh(&m00) {
                            lemma_recorded_trans(&m00, &ma, &mb);
                            lemma_recorded_trans(&m00, &mb, maze);
                        }
                    }
                }
                highest_completed_row = row;
                let ghost mc = *maze;
                match found {
                    Some((cand, nb)) => {
                        proof {
                            assert(ma.in_bounds(cand.row as int, cand.col as int));
                            assert(ma.in_bounds(nb.row as int, nb.col as int));
                            assert(spec_is_built(sq(&ma, cand)) == spec_is_built(sq(&mc, cand)));
                            assert(spec_is_built(sq(&ma, nb)) == spec_is_built(sq(&mc, nb)));
                            let ua = unbuilt_count(mc.squares());
                            assert(unbuilt_count(mc.squares()) == unbuilt_count(ma.squares())) by {
                                lemma_unbuilt_count(ma.squares(), mc.squares(), 0);
                                lemma_unbuilt_count(mc.squares(), ma.squares(), 0);
                            }
                            assert(ua >= 1) by {
                                mc.maze.lemma_index(cand.row as int, cand.col as int);
                                lemma_unbuilt_count(mc.squares(), mc.squares(), mc.maze.index_of(cand.row as int, cand.col as int));
                                crate::builders::recursive_backtracker::lemma_unbuilt_count_len(mc.squares());
                                lemma_unbuilt_pos(mc.squares(), mc.maze.index_of(cand.row as int, cand.col as int));
                            }
                            assert(k * ua >= k) by (nonlinear_arith)
                                requires
                                    ua >= 1,
                                    k >= 0,
                            ;
                        }
                        let ghost md = *maze;
                        carve_forward_history(maze, cand, nb, highest_completed_row + 1, Ghost(highest_completed_row as int));
                        proof {
                            assert(crate::builders::cells::tree_grown(maze, start)) by {
                                crate::builders::cells::lemma_between_parity(cand, nb);
                                crate::builders::cells::lemma_exact_swap(&md, maze, cand, nb);
                                crate::builders::cells::lemma_step_grows(&md, maze, start, nb, cand);
                            }
                            md.maze.lemma_index(cand.row as int, cand.col as int);
                            lemma_unbuilt_count(md.squares(), maze.squares(), md.maze.index_of(cand.row as int, cand.col as int));
                            let ua = unbuilt_count(md.squares());
                            let ub = unbuilt_count(maze.squares());
                            assert(k * ub <= k * ua - k) by (nonlinear_arith)
                                requires
                                    ub <= ua - 1,
                                    k >= 0,
                            ;
                            if crate::builders::arena::fresh(&m00) {
                                lemma_recorded_trans(&m00, &md, maze);
                            }
                        }
                        cur = cand;
                    },
                    None => {
                        proof {
                            assert(forall|u: Point|
                                is_cell(&mc, u) && !spec_is_built(#[trigger] sq(&mc, u)) ==> isolated(&mc, u)) by {
                                assert forall|u: Point| is_cell(&mc, u) && !spec_is_built(#[trigger] sq(&mc, u)) implies isolated(&mc, u) by {
                                    assert(mc.in_bounds(u.row as int, u.col as int));
                                    assert(sq(&ma, u) == sq(&mc, u) || spec_is_built(sq(&ma, u)) == spec_is_built(sq(&mc, u)));
                                    assert(isolated(&ma, u));
                                    assert forall|i: int| 0 <= i < 4 implies (interior(&mc, #[trigger] step_to(u, i)) ==> !spec_is_built(
                                        sq(&mc, step_to(u, i)),
                                    )) by {
                                        let q = step_to(u, i);
                                        if interior(&mc, q) {
                                            assert(mc.in_bounds(q.row as int, q.col as int));
                                        }
                                    }
                                }
                            }
                        }
                        reset_hunter_laser_history(maze, highest_completed_row);
                        proof {
                            lemma_marks_state(&mc, maze, highest_completed_row as int, highest_completed_row != mc.rows_spec() - 1, 0);
                            crate::builders::cells::lemma_same_walls_grown(&mc, maze, start);
                            crate::builders::cells::lemma_grown_facts(maze, start);
                                assert(is_cell(maze, start) && crate::builders::cells::cells_reached(maze, start));
                            if crate::builders::arena::fresh(&m00) {
                                lemma_recorded_trans(&m00, &mc, maze);
                            }
                            assert forall|u: Point| is_cell(maze, u) && !spec_is_built(#[trigger] sq(maze, u)) implies isolated(maze, u) by {
                                assert(mc.in_bounds(u.row as int, u.col as int));
                                assert(spec_is_built(maze.square(u.row as int, u.col as int)) == spec_is_built(mc.square(u.row as int, u.col as int)));
                                assert(!spec_is_built(sq(&mc, u)));
                                assert(isolated(&mc, u));
                                assert forall|i: int| 0 <= i < 4 implies (interior(maze, #[trigger] step_to(u, i)) ==> !spec_is_built(
                                    sq(maze, step_to(u, i)),
                                )) by {
                                    let q = step_to(u, i);
                                    if interior(maze, q) {
                                        assert(mc.in_bounds(q.row as int, q.col as int));
                                    }
                                }
                            }
                            lemma_all_or_none(maze);
                        }
                        return;
                    },
                }
            },
        }
    }
}

proof fn lemma_unbuilt_pos(s: Seq<Square>, k0: int)
    requires
        0 <= k0 < s.len(),
        !spec_is_built(s[k0]),
    ensures
        unbuilt_count(s) >= 1,
    decreases s.len(),
{
    if k0 < s.len() - 1 {
        lemma_unbuilt_pos(s.drop_last(), k0);
    }
}

} // verus!
