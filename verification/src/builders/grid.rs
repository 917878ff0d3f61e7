use vstd::prelude::*;
use crate::builders::build_ops::{
    can_build_new_square, fill_maze_history_with_walls, fill_maze_with_walls, generate_direction,
    interior, is_square_within_perimeter_walls, join_squares, join_squares_history,
    lemma_all_walls_perimeter, lemma_unbuilt_count, perimeter_walls, point_in, reshaped,
    spec_generate_direction, spec_is_built, spec_marker, sq, unbuilt_count,
};
use crate::builders::cells::{
    all_cells_built, all_directions, blocked, built_grows, built_paths, finished, has_direction,
    is_cell, lemma_all_or_none, lemma_directions, lemma_finished_isolated, lemma_finished_keep,
    lemma_join_clean, lemma_join_perimeter, lemma_joined_from, lemma_walled_bits, no_cells_built,
    no_markers, odd_at_or_below, pt, step_to,
};
use crate::maze::{lemma_recorded_trans, recorded, Maze, Point};
use crate::rng::{random_range, shuffle};

verus! {

/// The longest run of cells a grid builder carves in one direction.
pub const RUN_LIMIT: i32 = 4;

/// Where a run starts and the step it repeats.
pub struct RunStart {
    pub cur: Point,
    pub dir: Point,
}

/// Both dimensions are odd, as `Maze::new` makes them.
pub open spec fn odd_dims(maze: &Maze) -> bool {
    maze.rows_spec() % 2 == 1 && maze.cols_spec() % 2 == 1
}

/// A square on the grid on an odd row and an odd column, inside the edge
/// when the dimensions are odd.
pub open spec fn odd_point(maze: &Maze, p: Point) -> bool {
    &&& point_in(maze, p)
    &&& p.row % 2 == 1
    &&& p.col % 2 == 1
    &&& odd_dims(maze) ==> is_cell(maze, p)
}

/// The state of the grid builder with the points of `stack` still to
/// revisit: built squares are paths, no square is marked or carries a bit
/// that no builder writes, the edge is walled
/// when the dimensions are odd, and every built cell off the stack has no
/// unbuilt cell next to it.
pub open spec fn grid_state(maze: &Maze, stack: Seq<Point>) -> bool {
    &&& built_paths(maze)
    &&& no_markers(maze)
    &&& crate::builders::cells::clean_bits(maze)
    &&& odd_dims(maze) ==> perimeter_walls(maze)
    &&& forall|j: int| 0 <= j < stack.len() ==> odd_point(maze, #[trigger] stack[j])
    &&& forall|u: Point|
        is_cell(maze, u) && spec_is_built(#[trigger] sq(maze, u)) && !stack.contains(u) ==> finished(maze, u)
}

/// The first direction, in the order of `dirs`, that leads from `cur` to an
/// unbuilt square inside the edge.
fn find_direction(maze: &Maze, cur: Point, dirs: &Vec<usize>) -> (r: Option<usize>)
    requires
        maze.wf(),
        maze.rows_spec() >= 3,
        maze.cols_spec() >= 3,
        point_in(maze, cur),
        dirs@.len() == 4,
        forall|j: int| 0 <= j < 4 ==> #[trigger] dirs@[j] < 4,
    ensures
        r matches Some(i) ==> i < 4 && interior(maze, step_to(cur, i as int)) && !spec_is_built(
            sq(maze, step_to(cur, i as int)),
        ),
        r is None ==> forall|j: int| 0 <= j < 4 ==> blocked(maze, cur, #[trigger] dirs@[j] as int),
{
    let mut j: usize = 0;
    while j < 4
        invariant
            maze.wf(),
            maze.rows_spec() >= 3,
            maze.cols_spec() >= 3,
            point_in(maze, cur),
            dirs@.len() == 4,
            forall|jj: int| 0 <= jj < 4 ==> #[trigger] dirs@[jj] < 4,
            j <= 4,
            forall|jj: int| 0 <= jj < j ==> blocked(maze, cur, #[trigger] dirs@[jj] as int),
        decreases 4 - j,
    {
        assert(maze.rows_spec() * maze.cols_spec() <= i32::MAX);
        assert(maze.rows_spec() <= i32::MAX / 3) by (nonlinear_arith)
            requires
                maze.rows_spec() * maze.cols_spec() <= i32::MAX,
                maze.cols_spec() >= 3,
        ;
        assert(maze.cols_spec() <= i32::MAX / 3) by (nonlinear_arith)
            requires
                maze.rows_spec() * maze.cols_spec() <= i32::MAX,
                maze.rows_spec() >= 3,
        ;
        let i = dirs[j];
        let d = generate_direction(i);
        let next = Point { row: cur.row + d.row, col: cur.col + d.col };
        assert(next == step_to(cur, i as int));
        if can_build_new_square(maze, next) {
            return Some(i);
        }
        j = j + 1;
    }
    None
}

/// Joining a stacked point to a square one step away and stacking that
/// square keeps the state of the grid builder.
proof fn lemma_run_step(m0: &Maze, m1: &Maze, stack: Seq<Point>, cur: Point, next: Point)
    requires
        m0.wf(),
        m1.same_shape(m0),
        grid_state(m0, stack),
        stack.contains(cur),
        odd_point(m0, cur),
        interior(m0, next),
        crate::builders::cells::is_step(cur, next),
        m1.squares() == crate::builders::build_ops::joined(m0.squares(), m0.rows_spec(), m0.cols_spec(), cur, next),
    ensures
        grid_state(m1, stack.push(next)),
        built_grows(m0, m1),
        spec_is_built(sq(m1, next)),
        spec_is_built(sq(m1, cur)),
        forall|k: int|
            0 <= k < m0.squares().len() && spec_is_built(#[trigger] m0.squares()[k]) ==> spec_is_built(
                m1.squares()[k],
            ),
{
    let ns = stack.push(next);
    lemma_joined_from(m0, m1, cur, next);
    lemma_join_clean(m0, m1, cur, next);
    crate::builders::cells::lemma_join_keeps_clean(m0, m1, cur, next);
    crate::builders::cells::lemma_between_parity(cur, next);
    if odd_dims(m0) {
        lemma_join_perimeter(m0, m1, cur, next);
    }
    assert forall|j: int| 0 <= j < ns.len() implies odd_point(m1, #[trigger] ns[j]) by {
        if j < stack.len() {
            assert(ns[j] == stack[j]);
        }
    }
    assert forall|u: Point|
        is_cell(m1, u) && spec_is_built(#[trigger] sq(m1, u)) && !ns.contains(u) implies finished(m1, u) by {
        assert(m0.in_bounds(u.row as int, u.col as int));
        assert(crate::builders::cells::join_fields(
            m0.square(u.row as int, u.col as int),
            m1.square(u.row as int, u.col as int),
            crate::builders::cells::pt(u.row as int, u.col as int),
            cur,
            next,
        ));
        assert(ns[ns.len() - 1] == next);
        if stack.contains(u) {
            let i = choose|i: int| 0 <= i < stack.len() && stack[i] == u;
            assert(ns[i] == u);
        }
        let ic = choose|i: int| 0 <= i < stack.len() && stack[i] == cur;
        assert(ns[ic] == cur);
        assert(u != cur);
        assert(u != next);
        assert(u != crate::builders::build_ops::between(cur, next));
        assert(crate::builders::cells::pt(u.row as int, u.col as int) == u);
        assert(spec_is_built(sq(m0, u)));
        assert(finished(m0, u));
        lemma_finished_keep(m0, m1, u);
    }
}

/// Carves a run of up to `RUN_LIMIT` cells from `run.cur` in the direction
/// `run.dir`, stopping at the edge, and stacks each cell of the run.
/// With odd dimensions: every built cell is reached from `start` over open
/// squares, and each point of the stack is `start` or built.
pub open spec fn reach_state(maze: &Maze, stack: Seq<Point>, start: Point) -> bool {
    odd_dims(maze) ==> {
        &&& crate::builders::cells::cells_reached(maze, start)
        &&& forall|j: int| 0 <= j < stack.len() ==> #[trigger] stack[j] == start || spec_is_built(sq(maze, stack[j]))
    }
}

/// One join of a run keeps every built cell reached from `start`.
proof fn lemma_run_reach(m0: &Maze, m1: &Maze, stack: Seq<Point>, cur: Point, next: Point, start: Point)
    requires
        m0.wf(),
        m1.same_shape(m0),
        grid_state(m0, stack),
        reach_state(m0, stack, start),
        stack.contains(cur),
        odd_point(m0, cur),
        interior(m0, next),
        crate::builders::cells::is_step(cur, next),
        m1.squares() == crate::builders::build_ops::joined(m0.squares(), m0.rows_spec(), m0.cols_spec(), cur, next),
        built_grows(m0, m1),
        spec_is_built(sq(m1, next)),
    ensures
        reach_state(m1, stack.push(next), start),
{
    if odd_dims(m0) {
        let j0 = choose|j: int| 0 <= j < stack.len() && stack[j] == cur;
        assert(stack[j0] == start || spec_is_built(sq(m0, stack[j0])));
        crate::builders::cells::lemma_between_parity(cur, next);
        lemma_joined_from(m0, m1, cur, next);
        crate::builders::cells::lemma_join_reaches(m0, m1, start, cur, next);
        let ns = stack.push(next);
        assert forall|j: int| 0 <= j < ns.len() implies #[trigger] ns[j] == start || spec_is_built(sq(m1, ns[j])) by {
            if j < stack.len() {
                assert(ns[j] == stack[j]);
                let q = stack[j];
                if q != start {
                    assert(odd_point(m0, q));
                    assert(m0.in_bounds(q.row as int, q.col as int));
                }
            }
        }
    }
}

/// Leaving the top of the stack keeps the reach state.
proof fn lemma_pop_reach(maze: &Maze, stack: Seq<Point>, start: Point)
    requires
        reach_state(maze, stack, start),
        stack.len() > 0,
    ensures
        reach_state(maze, stack.drop_last(), start),
{
    let rest = stack.drop_last();
    if odd_dims(maze) {
        assert forall|j: int| 0 <= j < rest.len() implies #[trigger] rest[j] == start || spec_is_built(sq(maze, rest[j])) by {
            assert(rest[j] == stack[j]);
        }
    }
}

/// How many cells lie past `p` in direction `i` (north, east, south, west)
/// before the edge of the grid.
pub open spec fn cells_left(maze: &Maze, p: Point, i: int) -> int {
    if i == 0 {
        (p.row - 1) / 2
    } else if i == 1 {
        (maze.cols_spec() - 2 - p.col) / 2
    } else if i == 2 {
        (maze.rows_spec() - 2 - p.row) / 2
    } else {
        (p.col - 1) / 2
    }
}

/// The cell `k` cells past `p` in direction `i`.
pub open spec fn run_cell(p: Point, i: int, k: int) -> Point {
    if i == 0 {
        pt(p.row - 2 * k, p.col as int)
    } else if i == 1 {
        pt(p.row as int, p.col + 2 * k)
    } else if i == 2 {
        pt(p.row + 2 * k, p.col as int)
    } else {
        pt(p.row as int, p.col - 2 * k)
    }
}

/// How many cells a run from `p` in direction `i` carves: `RUN_LIMIT`, or
/// fewer when the edge comes first.
pub open spec fn run_length(maze: &Maze, p: Point, i: int) -> int {
    if cells_left(maze, p, i) < RUN_LIMIT { cells_left(maze, p, i) } else { RUN_LIMIT as int }
}

/// The `k`th cell of a run is inside the walls exactly while `k` is at
/// most the cells left, and one more step from it is the next cell.
proof fn lemma_run_cell(maze: &Maze, p: Point, i: int, k: int)
    requires
        maze.wf(),
        0 <= i < 4,
        0 <= k,
        point_in(maze, p),
        interior(maze, step_to(p, i)),
        k <= cells_left(maze, p, i),
    ensures
        step_to(run_cell(p, i, k), i) == run_cell(p, i, k + 1),
        interior(maze, run_cell(p, i, k + 1)) == (k + 1 <= cells_left(maze, p, i)),
        point_in(maze, run_cell(p, i, k)),
        run_cell(p, i, 0) == p,
{
}

fn complete_run(maze: &mut Maze, dfs: &mut Vec<Point>, run: RunStart, Ghost(i): Ghost<int>, Ghost(start): Ghost<Point>)
    requires
        old(maze).wf(),
        old(maze).rows_spec() >= 3,
        old(maze).cols_spec() >= 3,
        grid_state(old(maze), old(dfs)@),
        old(dfs)@.contains(run.cur),
        odd_point(old(maze), run.cur),
        0 <= i < 4,
        run.dir == spec_generate_direction(i),
        interior(old(maze), step_to(run.cur, i)),
        !spec_is_built(sq(old(maze), step_to(run.cur, i))),
        reach_state(old(maze), old(dfs)@, start),
    ensures
        reshaped(final(maze), old(maze)),
        grid_state(final(maze), final(dfs)@),
        reach_state(final(maze), final(dfs)@, start),
        unbuilt_count(final(maze).squares()) < unbuilt_count(old(maze).squares()),
        built_grows(old(maze), final(maze)),
        spec_is_built(sq(final(maze), run.cur)),
        final(dfs)@.len() == old(dfs)@.len() + run_length(old(maze), run.cur, i),
        final(dfs)@.subrange(0, old(dfs)@.len() as int) == old(dfs)@,
        forall|k: int|
            1 <= k <= run_length(old(maze), run.cur, i) ==> final(dfs)@[old(dfs)@.len() + k - 1] == run_cell(run.cur, i, k)
                && spec_is_built(sq(final(maze), #[trigger] run_cell(run.cur, i, k))),
{
    let ghost m00 = *maze;
    let mut cur = run.cur;
    let mut next = Point { row: run.cur.row + run.dir.row, col: run.cur.col + run.dir.col };
    let mut cur_run: i32 = 0;
    let ghost d0 = dfs@;
    assert(next == step_to(cur, i));
    proof {
        lemma_run_cell(&m00, run.cur, i, 0);
    }
    while is_square_within_perimeter_walls(maze, next) && cur_run < RUN_LIMIT
        invariant
            reshaped(maze, &m00),
            m00.rows_spec() >= 3,
            m00.cols_spec() >= 3,
            grid_state(maze, dfs@),
            reach_state(maze, dfs@, start),
            dfs@.contains(cur),
            odd_point(maze, cur),
            0 <= i < 4,
            run.dir == spec_generate_direction(i),
            next == step_to(cur, i),
            0 <= cur_run <= RUN_LIMIT,
            cur_run == 0 ==> cur == run.cur && maze.squares() == m00.squares(),
            cur_run > 0 ==> unbuilt_count(maze.squares()) < unbuilt_count(m00.squares()),
            cur_run == 0 ==> interior(maze, next) && !spec_is_built(sq(maze, next)),
            built_grows(&m00, maze),
            cur_run > 0 ==> spec_is_built(sq(maze, run.cur)),
            point_in(&m00, run.cur),
            m00.wf(),
            interior(&m00, step_to(run.cur, i)),
            maze.same_shape(&m00),
            dfs@.len() == d0.len() + cur_run,
            dfs@.subrange(0, d0.len() as int) == d0,
            cur == run_cell(run.cur, i, cur_run as int),
            cur_run <= cells_left(&m00, run.cur, i),
            forall|k: int|
                1 <= k <= cur_run ==> dfs@[d0.len() + k - 1] == run_cell(run.cur, i, k) && spec_is_built(
                    sq(maze, #[trigger] run_cell(run.cur, i, k)),
                ),
        decreases RUN_LIMIT - cur_run,
    {
        proof {
            lemma_run_cell(&m00, run.cur, i, cur_run as int);
        }
        let ghost m0 = *maze;
        let ghost dpre = dfs@;
        join_squares(maze, cur, next);
        proof {
            lemma_run_step(&m0, maze, dfs@, cur, next);
            lemma_run_reach(&m0, maze, dfs@, cur, next, start);
            assert forall|r: int, c: int|
                m00.in_bounds(r, c) && spec_is_built(m00.square(r, c)) implies spec_is_built(#[trigger] maze.square(r, c)) by {
                assert(spec_is_built(m0.square(r, c)));
            }
            assert(m0.in_bounds(run.cur.row as int, run.cur.col as int));
            m0.maze.lemma_index(next.row as int, next.col as int);
            lemma_unbuilt_count(m0.squares(), maze.squares(), m0.maze.index_of(next.row as int, next.col as int));
        }
        dfs.push(next);
        proof {
            assert(dfs@[dfs@.len() - 1] == next);
            assert(dfs@.subrange(0, d0.len() as int) =~= dpre.subrange(0, d0.len() as int));
            assert forall|k: int| 1 <= k <= cur_run + 1 implies dfs@[d0.len() + k - 1] == run_cell(run.cur, i, k)
                && spec_is_built(sq(maze, #[trigger] run_cell(run.cur, i, k))) by {
                if k <= cur_run {
                    assert(dfs@[d0.len() + k - 1] == dpre[d0.len() + k - 1]);
                    lemma_run_cell(&m00, run.cur, i, k);
                    let q = run_cell(run.cur, i, k);
                    assert(m0.in_bounds(q.row as int, q.col as int));
                    assert(spec_is_built(sq(&m0, q)));
                }
            }
        }
        cur = next;
        next = Point { row: next.row + run.dir.row, col: next.col + run.dir.col };
        cur_run = cur_run + 1;
    }    proof {
        lemma_run_cell(&m00, run.cur, i, cur_run as int);
    }
}

/// A cell of an odd grid wider or taller than one cell has a cell next to
/// it, so when it is blocked some cell is built.
proof fn lemma_start_not_blocked(maze: &Maze, first: Point, dirs: Seq<usize>)
    requires
        odd_dims(maze),
        maze.rows_spec() > 3 || maze.cols_spec() > 3,
        is_cell(maze, first),
        forall|j: int| 0 <= j < 4 ==> blocked(maze, first, #[trigger] dirs[j] as int),
        forall|i: int| 0 <= i < 4 ==> #[trigger] has_direction(dirs, i),
    ensures
        exists|u: Point| is_cell(maze, u) && spec_is_built(#[trigger] sq(maze, u)),
{
    let i: int = if maze.cols_spec() > 3 {
        if first.col + 2 < maze.cols_spec() - 1 { 1 } else { 3 }
    } else {
        if first.row + 2 < maze.rows_spec() - 1 { 2 } else { 0 }
    };
    assert(has_direction(dirs, i));
    let j = choose|j: int| 0 <= j < 4 && dirs[j] == i;
    assert(blocked(maze, first, dirs[j] as int));
    assert(interior(maze, step_to(first, i)));
    assert(is_cell(maze, step_to(first, i)));
    assert(spec_is_built(sq(maze, step_to(first, i))));
}

/// No cell of the grid is built while one is.
proof fn lemma_not_none(maze: &Maze, first: Point)
    requires
        is_cell(maze, first),
        spec_is_built(sq(maze, first)),
        all_cells_built(maze) || no_cells_built(maze),
    ensures
        all_cells_built(maze),
{
    if no_cells_built(maze) {
        assert(maze.in_bounds(first.row as int, first.col as int));
        assert(crate::builders::cells::pt(first.row as int, first.col as int) == first);
        assert(!spec_is_built(maze.square(first.row as int, first.col as int)));
    }
}

/// A grid maze: runs of up to four cells in one random direction from the
/// cell on top of a stack, each carved cell stacked, until the stack is
/// empty.
pub fn generate_maze(maze: &mut Maze)
    requires
        old(maze).wf(),
        old(maze).rows_spec() >= 3,
        old(maze).cols_spec() >= 3,
    ensures
        reshaped(final(maze), old(maze)),
        built_paths(final(maze)),
        no_markers(final(maze)),
        crate::builders::cells::clean_bits(final(maze)),
        odd_dims(final(maze)) ==> perimeter_walls(final(maze)),
        all_cells_built(final(maze)) || no_cells_built(final(maze)),
        odd_dims(final(maze)) && (final(maze).rows_spec() > 3 || final(maze).cols_spec() > 3) ==> all_cells_built(
            final(maze),
        ),
        odd_dims(final(maze)) && (final(maze).rows_spec() > 3 || final(maze).cols_spec() > 3)
            ==> crate::builders::cells::one_reaches_all(final(maze)),
{
    fill_maze_with_walls(maze);
    let first = Point {
        row: odd_at_or_below(random_range(1, maze.rows() - 1)),
        col: odd_at_or_below(random_range(1, maze.cols() - 1)),
    };
    let mut dfs: Vec<Point> = vec![first];
    assert(dfs@ =~= seq![first]);
    proof {
        lemma_grid_start(maze, first, dfs@);
        assert forall|u: Point| is_cell(maze, u) && spec_is_built(#[trigger] sq(maze, u)) implies crate::builders::cells::reaches(
            maze,
            first,
            u,
        ) by {}
        assert(reach_state(maze, dfs@, first));
    }
    let mut dirs: Vec<usize> = vec![0, 1, 2, 3];
    assert(dirs@ =~= seq![0usize, 1, 2, 3]);
    while dfs.len() > 0
        invariant
            reshaped(maze, old(maze)),
            maze.rows_spec() >= 3,
            maze.cols_spec() >= 3,
            grid_state(maze, dfs@),
            all_directions(dirs@),
            reach_state(maze, dfs@, first),
            odd_dims(maze) && (maze.rows_spec() > 3 || maze.cols_spec() > 3) ==> is_cell(maze, first) && (spec_is_built(
                sq(maze, first),
            ) || (dfs@ == seq![first] && forall|u: Point| is_cell(maze, u) ==> !spec_is_built(#[trigger] sq(maze, u)))),
        decreases unbuilt_count(maze.squares()), dfs@.len(),
    {
        let run = dfs[dfs.len() - 1];
        proof { assert(dfs@.contains(run)); }
        shuffle(&mut dirs);
        proof { lemma_directions(dirs@); }
        match find_direction(maze, run, &dirs) {
            Some(i) => {
                let p = generate_direction(i);
                let ghost mb = *maze;
                complete_run(maze, &mut dfs, RunStart { cur: run, dir: p }, Ghost(i as int), Ghost(first));
                proof {
                    if odd_dims(maze) && (maze.rows_spec() > 3 || maze.cols_spec() > 3) {
                        assert(mb.in_bounds(first.row as int, first.col as int));
                    }
                }
            },
            None => {
                let ghost old_dfs = dfs@;
                proof {
                    lemma_pop_finished(maze, dfs@, run, dirs@);
                    if odd_dims(maze) && (maze.rows_spec() > 3 || maze.cols_spec() > 3) && !spec_is_built(sq(maze, first)) {
                        assert(run == first);
                        lemma_start_not_blocked(maze, first, dirs@);
                    }
                }
                proof { lemma_pop_reach(maze, dfs@, first); }
                dfs.pop();
                proof { assert(dfs@ =~= old_dfs.drop_last()); }
            },
        }
    }
    proof {
        lemma_finished_isolated(maze);
        lemma_all_or_none(maze);
        if odd_dims(maze) && (maze.rows_spec() > 3 || maze.cols_spec() > 3) {
            lemma_not_none(maze, first);
            assert(is_cell(maze, first) && crate::builders::cells::cells_reached(maze, first));
        }
    }
}

/// A walled grid is the state of a grid builder with one odd point stacked.
proof fn lemma_grid_start(maze: &Maze, first: Point, stack: Seq<Point>)
    requires
        maze.wf(),
        crate::builders::build_ops::all_walls(maze),
        stack == seq![first],
        1 <= first.row <= maze.rows_spec() - 1,
        1 <= first.col <= maze.cols_spec() - 1,
        first.row % 2 == 1,
        first.col % 2 == 1,
    ensures
        grid_state(maze, stack),
        forall|u: Point| is_cell(maze, u) ==> !spec_is_built(#[trigger] sq(maze, u)),
{
    lemma_all_walls_perimeter(maze);
    crate::builders::cells::lemma_walls_clean(maze);
    assert forall|r: int, c: int| maze.in_bounds(r, c) implies {
        &&& !spec_is_built(#[trigger] maze.square(r, c))
        &&& spec_marker(maze.square(r, c)) == 0
    } by {
        lemma_walled_bits(maze.rows_spec(), maze.cols_spec(), r, c);
    }
    assert forall|u: Point| is_cell(maze, u) implies !spec_is_built(#[trigger] sq(maze, u)) by {
        assert(maze.in_bounds(u.row as int, u.col as int));
    }
}

/// The top of the stack, with no unbuilt cell next to it, can leave.
proof fn lemma_pop_finished(maze: &Maze, stack: Seq<Point>, top: Point, dirs: Seq<usize>)
    requires
        grid_state(maze, stack),
        stack.len() > 0,
        top == stack[stack.len() - 1],
        forall|j: int| 0 <= j < 4 ==> blocked(maze, top, #[trigger] dirs[j] as int),
        forall|i: int| 0 <= i < 4 ==> #[trigger] has_direction(dirs, i),
    ensures
        grid_state(maze, stack.drop_last()),
{
    let q = stack.drop_last();
    assert forall|i: int| 0 <= i < 4 implies #[trigger] blocked(maze, top, i) by {
        assert(has_direction(dirs, i));
        let j = choose|j: int| 0 <= j < 4 && dirs[j] == i;
        assert(blocked(maze, top, dirs[j] as int));
    }
    assert forall|j: int| 0 <= j < q.len() implies odd_point(maze, #[trigger] q[j]) by {
        assert(q[j] == stack[j]);
    }
    assert forall|u: Point|
        is_cell(maze, u) && spec_is_built(#[trigger] sq(maze, u)) && !q.contains(u) implies finished(maze, u) by {
        if u != top && stack.contains(u) {
            let i = choose|i: int| 0 <= i < stack.len() && stack[i] == u;
            assert(q[i] == u);
        }
    }
}


/// `complete_run`, with each join recorded in the build history.
fn complete_run_history(maze: &mut Maze, dfs: &mut Vec<Point>, run: RunStart, Ghost(i): Ghost<int>, Ghost(start): Ghost<Point>)
    requires
        old(maze).wf(),
        old(maze).rows_spec() >= 3,
        old(maze).cols_spec() >= 3,
        grid_state(old(maze), old(dfs)@),
        old(dfs)@.contains(run.cur),
        odd_point(old(maze), run.cur),
        0 <= i < 4,
        run.dir == spec_generate_direction(i),
        interior(old(maze), step_to(run.cur, i)),
        !spec_is_built(sq(old(maze), step_to(run.cur, i))),
        reach_state(old(maze), old(dfs)@, start),
        old(maze).build_history.deltas().len() + 60 <= usize::MAX,
    ensures
        recorded(old(maze), final(maze)),
        grid_state(final(maze), final(dfs)@),
        reach_state(final(maze), final(dfs)@, start),
        unbuilt_count(final(maze).squares()) < unbuilt_count(old(maze).squares()),
        built_grows(old(maze), final(maze)),
        spec_is_built(sq(final(maze), run.cur)),
        final(dfs)@.len() == old(dfs)@.len() + run_length(old(maze), run.cur, i),
        final(dfs)@.subrange(0, old(dfs)@.len() as int) == old(dfs)@,
        forall|k: int|
            1 <= k <= run_length(old(maze), run.cur, i) ==> final(dfs)@[old(dfs)@.len() + k - 1] == run_cell(run.cur, i, k)
                && spec_is_built(sq(final(maze), #[trigger] run_cell(run.cur, i, k))),
        final(maze).build_history.deltas().len() <= old(maze).build_history.deltas().len() + 60,
{
    let ghost m00 = *maze;
    proof { crate::maze::lemma_recorded_refl(maze); }
    let mut cur = run.cur;
    let mut next = Point { row: run.cur.row + run.dir.row, col: run.cur.col + run.dir.col };
    let mut cur_run: i32 = 0;
    let ghost d0 = dfs@;
    assert(next == step_to(cur, i));
    proof {
        lemma_run_cell(&m00, run.cur, i, 0);
    }
    while is_square_within_perimeter_walls(maze, next) && cur_run < RUN_LIMIT
        invariant
            recorded(&m00, maze),
            m00.wf(),
            m00.rows_spec() >= 3,
            m00.cols_spec() >= 3,
            grid_state(maze, dfs@),
            reach_state(maze, dfs@, start),
            dfs@.contains(cur),
            odd_point(maze, cur),
            0 <= i < 4,
            run.dir == spec_generate_direction(i),
            next == step_to(cur, i),
            0 <= cur_run <= RUN_LIMIT,
            cur_run == 0 ==> cur == run.cur && maze.squares() == m00.squares(),
            cur_run > 0 ==> unbuilt_count(maze.squares()) < unbuilt_count(m00.squares()),
            cur_run == 0 ==> interior(maze, next) && !spec_is_built(sq(maze, next)),
            built_grows(&m00, maze),
            cur_run > 0 ==> spec_is_built(sq(maze, run.cur)),
            point_in(&m00, run.cur),
            m00.wf(),
            interior(&m00, step_to(run.cur, i)),
            maze.same_shape(&m00),
            dfs@.len() == d0.len() + cur_run,
            dfs@.subrange(0, d0.len() as int) == d0,
            cur == run_cell(run.cur, i, cur_run as int),
            cur_run <= cells_left(&m00, run.cur, i),
            forall|k: int|
                1 <= k <= cur_run ==> dfs@[d0.len() + k - 1] == run_cell(run.cur, i, k) && spec_is_built(
                    sq(maze, #[trigger] run_cell(run.cur, i, k)),
                ),
            maze.build_history.deltas().len() <= m00.build_history.deltas().len() + 15 * cur_run,
            m00.build_history.deltas().len() + 60 <= usize::MAX,
        decreases RUN_LIMIT - cur_run,
    {
        proof {
            lemma_run_cell(&m00, run.cur, i, cur_run as int);
        }
        let ghost m0 = *maze;
        let ghost dpre = dfs@;
        join_squares_history(maze, cur, next);
        proof {
            lemma_run_step(&m0, maze, dfs@, cur, next);
            lemma_run_reach(&m0, maze, dfs@, cur, next, start);
            assert forall|r: int, c: int|
                m00.in_bounds(r, c) && spec_is_built(m00.square(r, c)) implies spec_is_built(#[trigger] maze.square(r, c)) by {
                assert(spec_is_built(m0.square(r, c)));
            }
            assert(m0.in_bounds(run.cur.row as int, run.cur.col as int));
            m0.maze.lemma_index(next.row as int, next.col as int);
            lemma_unbuilt_count(m0.squares(), maze.squares(), m0.maze.index_of(next.row as int, next.col as int));
            lemma_recorded_trans(&m00, &m0, maze);
        }
        dfs.push(next);
        proof {
            assert(dfs@[dfs@.len() - 1] == next);
            assert(dfs@.subrange(0, d0.len() as int) =~= dpre.subrange(0, d0.len() as int));
            assert forall|k: int| 1 <= k <= cur_run + 1 implies dfs@[d0.len() + k - 1] == run_cell(run.cur, i, k)
                && spec_is_built(sq(maze, #[trigger] run_cell(run.cur, i, k))) by {
                if k <= cur_run {
                    assert(dfs@[d0.len() + k - 1] == dpre[d0.len() + k - 1]);
                    lemma_run_cell(&m00, run.cur, i, k);
                    let q = run_cell(run.cur, i, k);
                    assert(m0.in_bounds(q.row as int, q.col as int));
                    assert(spec_is_built(sq(&m0, q)));
                }
            }
        }
        cur = next;
        next = Point { row: next.row + run.dir.row, col: next.col + run.dir.col };
        cur_run = cur_run + 1;
    }    proof {
        lemma_run_cell(&m00, run.cur, i, cur_run as int);
    }
}

/// `generate_maze`, recorded: each join is recorded in the build history;
/// on a fresh maze the history replays to the maze from the empty grid.
pub fn generate_history(maze: &mut Maze)
    requires
        old(maze).wf(),
        old(maze).rows_spec() >= 3,
        old(maze).cols_spec() >= 3,
        old(maze).build_history.deltas().len() + 61 * old(maze).squares().len() + 60 <= usize::MAX,
    ensures
        final(maze).wf(),
        final(maze).same_shape(old(maze)),
        final(maze).solve_history == old(maze).solve_history,
        built_paths(final(maze)),
        no_markers(final(maze)),
        crate::builders::cells::clean_bits(final(maze)),
        odd_dims(final(maze)) ==> perimeter_walls(final(maze)),
        all_cells_built(final(maze)) || no_cells_built(final(maze)),
        odd_dims(final(maze)) && (final(maze).rows_spec() > 3 || final(maze).cols_spec() > 3) ==> all_cells_built(
            final(maze),
        ),
        odd_dims(final(maze)) && (final(maze).rows_spec() > 3 || final(maze).cols_spec() > 3)
            ==> crate::builders::cells::one_reaches_all(final(maze)),
        crate::builders::arena::fresh(old(maze)) ==> recorded(old(maze), final(maze)),
        crate::builders::arena::fresh(old(maze)) ==> final(maze).build_history.framed(),
{
    let ghost m00 = *maze;
    let ghost n = m00.squares().len() as int;
    let ghost d0 = m00.build_history.deltas().len() as int;
    fill_maze_history_with_walls(maze);
    let first = Point {
        row: odd_at_or_below(random_range(1, maze.rows() - 1)),
        col: odd_at_or_below(random_range(1, maze.cols() - 1)),
    };
    let mut dfs: Vec<Point> = vec![first];
    assert(dfs@ =~= seq![first]);
    proof {
        lemma_grid_start(maze, first, dfs@);
        assert forall|u: Point| is_cell(maze, u) && spec_is_built(#[trigger] sq(maze, u)) implies crate::builders::cells::reaches(
            maze,
            first,
            u,
        ) by {}
        assert(reach_state(maze, dfs@, first));
        crate::builders::recursive_backtracker::lemma_unbuilt_count_len(maze.squares());
    }
    let mut dirs: Vec<usize> = vec![0, 1, 2, 3];
    assert(dirs@ =~= seq![0usize, 1, 2, 3]);
    while dfs.len() > 0
        invariant
            maze.wf(),
            maze.same_shape(&m00),
            m00 == *old(maze),
            maze.solve_history == m00.solve_history,
            maze.rows_spec() >= 3,
            maze.cols_spec() >= 3,
            n == maze.squares().len(),
            grid_state(maze, dfs@),
            all_directions(dirs@),
            reach_state(maze, dfs@, first),
            odd_dims(maze) && (maze.rows_spec() > 3 || maze.cols_spec() > 3) ==> is_cell(maze, first) && (spec_is_built(
                sq(maze, first),
            ) || (dfs@ == seq![first] && forall|u: Point| is_cell(maze, u) ==> !spec_is_built(#[trigger] sq(maze, u)))),
            maze.build_history.deltas().len() + 60 * unbuilt_count(maze.squares()) <= d0 + 61 * n,
            d0 + 61 * n + 60 <= usize::MAX,
            crate::builders::arena::fresh(&m00) ==> recorded(&m00, maze),
            crate::builders::arena::fresh(&m00) ==> maze.build_history.framed(),
        decreases unbuilt_count(maze.squares()), dfs@.len(),
    {
        let run = dfs[dfs.len() - 1];
        proof { assert(dfs@.contains(run)); }
        shuffle(&mut dirs);
        proof { lemma_directions(dirs@); }
        match find_direction(maze, run, &dirs) {
            Some(i) => {
                let p = generate_direction(i);
                let ghost m0 = *maze;
                complete_run_history(maze, &mut dfs, RunStart { cur: run, dir: p }, Ghost(i as int), Ghost(first));
                proof {
                    if odd_dims(maze) && (maze.rows_spec() > 3 || maze.cols_spec() > 3) {
                        assert(m0.in_bounds(first.row as int, first.col as int));
                    }
                    if crate::builders::arena::fresh(&m00) {
                        lemma_recorded_trans(&m00, &m0, maze);
                    }
                }
            },
            None => {
                let ghost old_dfs = dfs@;
                proof {
                    lemma_pop_finished(maze, dfs@, run, dirs@);
                    if odd_dims(maze) && (maze.rows_spec() > 3 || maze.cols_spec() > 3) && !spec_is_built(sq(maze, first)) {
                        assert(run == first);
                        lemma_start_not_blocked(maze, first, dirs@);
                    }
                }
                proof { lemma_pop_reach(maze, dfs@, first); }
                dfs.pop();
                proof { assert(dfs@ =~= old_dfs.drop_last()); }
            },
        }
    }
    proof {
        lemma_finished_isolated(maze);
        lemma_all_or_none(maze);
        if odd_dims(maze) && (maze.rows_spec() > 3 || maze.cols_spec() > 3) {
            lemma_not_none(maze, first);
            assert(is_cell(maze, first) && crate::builders::cells::cells_reached(maze, first));
        }
    }
}

} // verus!
