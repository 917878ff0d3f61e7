use vstd::prelude::*;
use crate::builders::build_ops::{
    can_build_new_square, fill_maze_history_with_walls, fill_maze_with_walls, generate_direction,
    interior, join_squares, join_squares_history, lemma_all_walls_perimeter, lemma_unbuilt_count,
    perimeter_walls, reshaped, spec_is_built, spec_marker, sq, unbuilt_count,
};
use crate::builders::cells::{
    all_cells_built, blocked, built_paths, cell_step, finished, is_cell, lemma_all_or_none,
    lemma_finished_isolated, lemma_finished_keep, lemma_join_clean, lemma_join_perimeter,
    lemma_joined_from, lemma_walled_bits, no_cells_built, no_markers, step_to,
};
use crate::maze::{lemma_recorded_trans, recorded, Maze, Point};
use crate::rng::{random_range, random_range_inclusive};

verus! {

/// A cell waiting in the frontier, with the weight it was drawn.
#[derive(Clone, Copy)]
pub struct PriorityPoint {
    pub priority: u8,
    pub p: Point,
}

/// The cells of a frontier, in its order.
pub open spec fn points(pq: Seq<PriorityPoint>) -> Seq<Point> {
    pq.map_values(|x: PriorityPoint| x.p)
}

/// The state of the builder with the frontier `pq`: the edge walled, built
/// squares paths, no marker and no bit that no builder writes, every frontier entry a cell, and every built
/// cell that has left the frontier without an unbuilt cell next to it.
pub open spec fn prim_state(maze: &Maze, pq: Seq<PriorityPoint>) -> bool {
    &&& perimeter_walls(maze)
    &&& built_paths(maze)
    &&& no_markers(maze)
    &&& crate::builders::cells::clean_bits(maze)
    &&& forall|j: int| 0 <= j < pq.len() ==> is_cell(maze, #[trigger] pq[j].p)
    &&& forall|u: Point|
        is_cell(maze, u) && spec_is_built(#[trigger] sq(maze, u)) && !points(pq).contains(u) ==> finished(maze, u)
}

/// The position of the first entry of greatest weight, which a max-heap
/// hands out first.
fn peek_max(pq: &Vec<PriorityPoint>) -> (i: usize)
    requires
        pq@.len() > 0,
    ensures
        i < pq@.len(),
        forall|j: int| 0 <= j < pq@.len() ==> #[trigger] pq@[j].priority <= pq@[i as int].priority,
{
    let mut best: usize = 0;
    let mut j: usize = 1;
    while j < pq.len()
        invariant
            pq@.len() > 0,
            best < pq@.len(),
            1 <= j <= pq@.len(),
            forall|k: int| 0 <= k < j ==> #[trigger] pq@[k].priority <= pq@[best as int].priority,
        decreases pq@.len() - j,
    {
        if pq[j].priority > pq[best].priority {
            best = j;
        }
        j = j + 1;
    }
    best
}

/// The weight of a cell: the one drawn before, or a new draw from 1 to 100,
/// kept for the next time.
fn weight_of(maze: &Maze, weights: &mut Vec<u8>, p: Point) -> (w: u8)
    requires
        maze.wf(),
        crate::builders::build_ops::point_in(maze, p),
        old(weights)@.len() == maze.squares().len(),
    ensures
        final(weights)@.len() == old(weights)@.len(),
        1 <= w,
        old(weights)@[maze.maze.index_of(p.row as int, p.col as int)] != 0 ==> w == old(weights)@[maze.maze.index_of(
            p.row as int,
            p.col as int,
        )] && final(weights)@ == old(weights)@,
        old(weights)@[maze.maze.index_of(p.row as int, p.col as int)] == 0 ==> w <= 100 && final(weights)@ == old(
            weights,
        )@.update(maze.maze.index_of(p.row as int, p.col as int), w),
{
    proof { maze.maze.lemma_index(p.row as int, p.col as int); }
    let k = (p.row * maze.cols() + p.col) as usize;
    if weights[k] == 0 {
        let drawn = random_range_inclusive(1, 100) as u8;
        weights.set(k, drawn);
        drawn
    } else {
        weights[k]
    }
}

/// Of the unbuilt cells next to `cur`, the first of greatest weight.
fn heaviest_neighbor(maze: &Maze, weights: &mut Vec<u8>, cur: Point) -> (r: Option<PriorityPoint>)
    requires
        maze.wf(),
        is_cell(maze, cur),
        old(weights)@.len() == maze.squares().len(),
    ensures
        final(weights)@.len() == old(weights)@.len(),
        r matches Some(pp) ==> cell_step(maze, cur, pp.p) && !spec_is_built(sq(maze, pp.p)),
        r is None ==> finished(maze, cur),
{
    let mut max_neighbor: Option<PriorityPoint> = None;
    let mut max_weight: u8 = 0;
    let mut i: usize = 0;
    while i < 4
        invariant
            maze.wf(),
            is_cell(maze, cur),
            weights@.len() == maze.squares().len(),
            i <= 4,
            max_neighbor matches Some(pp) ==> cell_step(maze, cur, pp.p) && !spec_is_built(sq(maze, pp.p)),
            max_neighbor is None ==> max_weight == 0 && forall|j: int| 0 <= j < i ==> #[trigger] blocked(maze, cur, j),
        decreases 4 - i,
    {
        let d = generate_direction(i);
        let next = Point { row: cur.row + d.row, col: cur.col + d.col };
        assert(next == step_to(cur, i as int));
        if can_build_new_square(maze, next) {
            let weight = weight_of(maze, weights, next);
            if weight > max_weight {
                max_weight = weight;
                max_neighbor = Some(PriorityPoint { priority: weight, p: next });
            }
        }
        i = i + 1;
    }
    max_neighbor
}

/// Joining the frontier cell `cur` to its unbuilt neighbor `next`, which
/// joins the frontier, keeps the state.
proof fn lemma_prim_join(m0: &Maze, m1: &Maze, pq: Seq<PriorityPoint>, cur: Point, nb: PriorityPoint)
    requires
        m0.wf(),
        m1.same_shape(m0),
        prim_state(m0, pq),
        points(pq).contains(cur),
        cell_step(m0, cur, nb.p),
        !spec_is_built(sq(m0, nb.p)),
        m1.squares() == crate::builders::build_ops::joined(m0.squares(), m0.rows_spec(), m0.cols_spec(), cur, nb.p),
    ensures
        prim_state(m1, pq.push(nb)),
        unbuilt_count(m1.squares()) < unbuilt_count(m0.squares()),
        crate::builders::cells::built_grows(m0, m1),
        spec_is_built(sq(m1, cur)),
{
    let next = nb.p;
    let np = pq.push(nb);
    lemma_joined_from(m0, m1, cur, next);
    lemma_join_clean(m0, m1, cur, next);
    crate::builders::cells::lemma_join_keeps_clean(m0, m1, cur, next);
    lemma_join_perimeter(m0, m1, cur, next);
    crate::builders::cells::lemma_between_parity(cur, next);
    m0.maze.lemma_index(next.row as int, next.col as int);
    lemma_unbuilt_count(m0.squares(), m1.squares(), m0.maze.index_of(next.row as int, next.col as int));
    assert forall|j: int| 0 <= j < np.len() implies is_cell(m1, #[trigger] np[j].p) by {
        if j < pq.len() {
            assert(np[j] == pq[j]);
        }
    }
    assert(points(np) =~= points(pq).push(next));
    assert forall|u: Point|
        is_cell(m1, u) && spec_is_built(#[trigger] sq(m1, u)) && !points(np).contains(u) implies finished(m1, u) by {
        assert(m0.in_bounds(u.row as int, u.col as int));
        assert(crate::builders::cells::join_fields(
            m0.square(u.row as int, u.col as int),
            m1.square(u.row as int, u.col as int),
            crate::builders::cells::pt(u.row as int, u.col as int),
            cur,
            next,
        ));
        let ps = points(pq);
        assert(points(np)[ps.len() as int] == next);
        if ps.contains(u) {
            let i = choose|i: int| 0 <= i < ps.len() && ps[i] == u;
            assert(points(np)[i] == u);
        }
        let ic = choose|i: int| 0 <= i < ps.len() && ps[i] == cur;
        assert(points(np)[ic] == cur);
        assert(u != cur);
        assert(u != next);
        assert(u != crate::builders::build_ops::between(cur, next));
        assert(crate::builders::cells::pt(u.row as int, u.col as int) == u);
        assert(spec_is_built(sq(m0, u)));
        lemma_finished_keep(m0, m1, u);
    }
}

/// Removing a finished cell from the frontier keeps the state.
proof fn lemma_prim_pop(maze: &Maze, pq: Seq<PriorityPoint>, i: int)
    requires
        prim_state(maze, pq),
        0 <= i < pq.len(),
        finished(maze, pq[i].p),
    ensures
        prim_state(maze, pq.remove(i)),
{
    let q = pq.remove(i);
    pq.remove_ensures(i);
    assert forall|j: int| 0 <= j < q.len() implies is_cell(maze, #[trigger] q[j].p) by {
        if j < i {
            assert(q[j] == pq[j]);
        } else {
            assert(q[j] == pq[j + 1]);
        }
    }
    assert forall|u: Point|
        is_cell(maze, u) && spec_is_built(#[trigger] sq(maze, u)) && !points(q).contains(u) implies finished(maze, u) by {
        if u != pq[i].p && points(pq).contains(u) {
            let k = choose|k: int| 0 <= k < points(pq).len() && points(pq)[k] == u;
            if k < i {
                assert(points(q)[k] == u);
            } else {
                assert(k > i);
                assert(points(q)[k - 1] == u);
            }
        }
    }
}

/// A walled grid with one cell in the frontier.
proof fn lemma_prim_start(maze: &Maze, pq: Seq<PriorityPoint>)
    requires
        maze.wf(),
        crate::builders::build_ops::all_walls(maze),
        pq.len() == 1,
        is_cell(maze, pq[0].p),
    ensures
        prim_state(maze, pq),
        forall|u: Point| is_cell(maze, u) ==> !spec_is_built(#[trigger] sq(maze, u)),
{
    lemma_all_walls_perimeter(maze);
    crate::builders::cells::lemma_walls_clean(maze);
    assert forall|r: int, c: int| maze.in_bounds(r, c) implies {
        &&& !spec_is_built(#[trigger] maze.square(r, c))
        &&& spec_marker(maze.square(r, c)) == 0
    } by {
        lemma_walled_bits(maze.rows_spec(), maze.cols_spec(), r, c);
    }
    assert forall|u: Point| is_cell(maze, u) implies !spec_is_built(#[trigger] sq(maze, u)) by {
        assert(maze.in_bounds(u.row as int, u.col as int));
    }
}

/// A random odd row (or column) from 3 up to four short of `n`.
fn random_inner_odd(n: i32) -> (o: i32)
    requires
        6 <= n,
    ensures
        o % 2 == 1,
        3 <= o <= n - 3,
{
    2 * random_range(1, (n - 2) / 2) + 1
}

/// A cell of a grid at least six squares wide has a cell east or west of
/// it, so when it is finished some cell is built.
proof fn lemma_finished_start(maze: &Maze, first: Point)
    requires
        maze.cols_spec() >= 6,
        is_cell(maze, first),
        finished(maze, first),
    ensures
        exists|u: Point| is_cell(maze, u) && spec_is_built(#[trigger] sq(maze, u)),
{
    let i: int = if first.col + 2 < maze.cols_spec() - 1 { 1 } else { 3 };
    assert(blocked(maze, first, i));
    assert(interior(maze, step_to(first, i)));
    assert(is_cell(maze, step_to(first, i)));
    assert(spec_is_built(sq(maze, step_to(first, i))));
}

/// No cell of the grid is built while one is.
proof fn lemma_prim_not_none(maze: &Maze, first: Point)
    requires
        is_cell(maze, first),
        spec_is_built(sq(maze, first)),
        all_cells_built(maze) || no_cells_built(maze),
    ensures
        all_cells_built(maze),
{
    if no_cells_built(maze) {
        assert(maze.in_bounds(first.row as int, first.col as int));
        assert(crate::builders::cells::pt(first.row as int, first.col as int) == first);
        assert(!spec_is_built(maze.square(first.row as int, first.col as int)));
    }
}

/// A randomized Prim maze: each cell gets a random weight when first seen;
/// the frontier cell of greatest weight joins its unbuilt neighbor of
/// greatest weight, which joins the frontier, or leaves the frontier when it
/// has none, until the frontier is empty.
pub fn generate_maze(maze: &mut Maze)
    requires
        old(maze).wf(),
        old(maze).rows_spec() >= 6,
        old(maze).cols_spec() >= 6,
    ensures
        reshaped(final(maze), old(maze)),
        perimeter_walls(final(maze)),
        built_paths(final(maze)),
        no_markers(final(maze)),
        crate::builders::cells::clean_bits(final(maze)),
        all_cells_built(final(maze)),
        crate::builders::cells::one_reaches_all(final(maze)),
        crate::builders::cells::open_slots(final(maze).squares(), final(maze).cols_spec(), final(maze).squares().len() as int)
            + 1 == crate::builders::cells::built_cells(
            final(maze).squares(),
            final(maze).cols_spec(),
            final(maze).squares().len() as int,
        ),
        crate::builders::recursive_subdivision::posts_walled(final(maze)),
{
    fill_maze_with_walls(maze);
    let start = PriorityPoint {
        priority: random_range_inclusive(1, 100) as u8,
        p: Point { row: random_inner_odd(maze.rows()), col: random_inner_odd(maze.cols()) },
    };
    let mut weights: Vec<u8> = vec![0u8; maze.maze.buf.len()];
    proof { maze.maze.lemma_index(start.p.row as int, start.p.col as int); }
    let k = (start.p.row * maze.cols() + start.p.col) as usize;
    weights.set(k, start.priority);
    let mut pq: Vec<PriorityPoint> = vec![start];
    proof {
        lemma_prim_start(maze, pq@);
        crate::builders::cells::lemma_filled_grown(maze, start.p);
    }
    while pq.len() > 0
        invariant
            reshaped(maze, old(maze)),
            weights@.len() == maze.squares().len(),
            prim_state(maze, pq@),
            is_cell(maze, start.p),
            maze.cols_spec() >= 6,
            spec_is_built(sq(maze, start.p)) || (pq@ == seq![start] && forall|u: Point|
                is_cell(maze, u) ==> !spec_is_built(#[trigger] sq(maze, u))),
            crate::builders::cells::tree_grown(maze, start.p),
            forall|j: int| 0 <= j < pq@.len() ==> #[trigger] pq@[j].p == start.p || spec_is_built(sq(maze, pq@[j].p)),
        decreases unbuilt_count(maze.squares()), pq@.len(),
    {
        let top = peek_max(&pq);
        let cur = pq[top];
        proof { assert(points(pq@)[top as int] == cur.p); }
        match heaviest_neighbor(maze, &mut weights, cur.p) {
            Some(neighbor) => {
                let ghost m0 = *maze;
                join_squares(maze, cur.p, neighbor.p);
                proof {
                    lemma_prim_join(&m0, maze, pq@, cur.p, neighbor);
                    assert(m0.in_bounds(start.p.row as int, start.p.col as int));
                    lemma_joined_from(&m0, maze, cur.p, neighbor.p);
                    assert(cur.p == pq@[top as int].p);
                    crate::builders::cells::lemma_join_grows(&m0, maze, start.p, cur.p, neighbor.p);
                }
                let ghost before = pq@;
                pq.push(neighbor);
                proof {
                    assert forall|j: int| 0 <= j < pq@.len() implies #[trigger] pq@[j].p == start.p || spec_is_built(sq(maze, pq@[j].p)) by {
                        if j < before.len() {
                            assert(pq@[j] == before[j]);
                            let q = before[j].p;
                            if q != start.p {
                                assert(spec_is_built(sq(&m0, q)));
                                assert(m0.in_bounds(q.row as int, q.col as int));
                            }
                        }
                    }
                }
            },
            None => {
                proof {
                    lemma_prim_pop(maze, pq@, top as int);
                    if !spec_is_built(sq(maze, start.p)) {
                        assert(cur == start);
                        lemma_finished_start(maze, start.p);
                    }
                }
                let ghost before = pq@;
                pq.remove(top);
                proof {
                    assert forall|j: int| 0 <= j < pq@.len() implies #[trigger] pq@[j].p == start.p || spec_is_built(sq(maze, pq@[j].p)) by {
                        if j < top {
                            assert(pq@[j] == before[j]);
                        } else {
                            assert(pq@[j] == before[j + 1]);
                        }
                    }
                }
            },
        }
    }
    proof {
        crate::builders::cells::lemma_grown_facts(maze, start.p);
                                assert(is_cell(maze, start.p) && crate::builders::cells::cells_reached(maze, start.p));
        crate::builders::cells::lemma_built_counts(maze, start.p);
        crate::builders::cells::lemma_counts_nonneg(maze.squares(), maze.cols_spec(), maze.squares().len() as int);
        assert(points(pq@) =~= Seq::<Point>::empty());
        lemma_finished_isolated(maze);
        lemma_all_or_none(maze);
        lemma_prim_not_none(maze, start.p);
    }
}

/// `generate_maze`, recorded: each join is recorded in the build history;
/// on a fresh maze the history replays to the maze from the empty grid.
pub fn generate_history(maze: &mut Maze)
    requires
        old(maze).wf(),
        old(maze).rows_spec() >= 6,
        old(maze).cols_spec() >= 6,
        old(maze).build_history.deltas().len() + 16 * old(maze).squares().len() + 15 <= usize::MAX,
    ensures
        final(maze).wf(),
        final(maze).same_shape(old(maze)),
        final(maze).solve_history == old(maze).solve_history,
        perimeter_walls(final(maze)),
        built_paths(final(maze)),
        no_markers(final(maze)),
        crate::builders::cells::clean_bits(final(maze)),
        all_cells_built(final(maze)),
        crate::builders::cells::one_reaches_all(final(maze)),
        crate::builders::cells::open_slots(final(maze).squares(), final(maze).cols_spec(), final(maze).squares().len() as int)
            + 1 == crate::builders::cells::built_cells(
            final(maze).squares(),
            final(maze).cols_spec(),
            final(maze).squares().len() as int,
        ),
        crate::builders::recursive_subdivision::posts_walled(final(maze)),
        crate::builders::arena::fresh(old(maze)) ==> recorded(old(maze), final(maze)),
        crate::builders::arena::fresh(old(maze)) ==> final(maze).build_history.framed(),
{
    let ghost m00 = *maze;
    let ghost n = m00.squares().len() as int;
    let ghost d0 = m00.build_history.deltas().len() as int;
    fill_maze_history_with_walls(maze);
    let start = PriorityPoint {
        priority: random_range_inclusive(1, 100) as u8,
        p: Point { row: random_inner_odd(maze.rows()), col: random_inner_odd(maze.cols()) },
    };
    let mut weights: Vec<u8> = vec![0u8; maze.maze.buf.len()];
    proof {
        maze.maze.lemma_index(start.p.row as int, start.p.col as int);
        crate::builders::recursive_backtracker::lemma_unbuilt_count_len(maze.squares());
    }
    let k = (start.p.row * maze.cols() + start.p.col) as usize;
    weights.set(k, start.priority);
    let mut pq: Vec<PriorityPoint> = vec![start];
    proof {
        lemma_prim_start(maze, pq@);
        crate::builders::cells::lemma_filled_grown(maze, start.p);
    }
    while pq.len() > 0
        invariant
            maze.wf(),
            maze.same_shape(&m00),
            m00 == *old(maze),
            maze.solve_history == m00.solve_history,
            n == maze.squares().len(),
            weights@.len() == maze.squares().len(),
            prim_state(maze, pq@),
            is_cell(maze, start.p),
            maze.cols_spec() >= 6,
            spec_is_built(sq(maze, start.p)) || (pq@ == seq![start] && forall|u: Point|
                is_cell(maze, u) ==> !spec_is_built(#[trigger] sq(maze, u))),
            maze.build_history.deltas().len() + 15 * unbuilt_count(maze.squares()) <= d0 + 16 * n,
            d0 + 16 * n + 15 <= usize::MAX,
            crate::builders::arena::fresh(&m00) ==> recorded(&m00, maze),
            crate::builders::arena::fresh(&m00) ==> maze.build_history.framed(),
            crate::builders::cells::tree_grown(maze, start.p),
            forall|j: int| 0 <= j < pq@.len() ==> #[trigger] pq@[j].p == start.p || spec_is_built(sq(maze, pq@[j].p)),
        decreases unbuilt_count(maze.squares()), pq@.len(),
    {
        let top = peek_max(&pq);
        let cur = pq[top];
        proof { assert(points(pq@)[top as int] == cur.p); }
        match heaviest_neighbor(maze, &mut weights, cur.p) {
            Some(neighbor) => {
                let ghost m0 = *maze;
                join_squares_history(maze, cur.p, neighbor.p);
                proof {
                    lemma_prim_join(&m0, maze, pq@, cur.p, neighbor);
                    assert(m0.in_bounds(start.p.row as int, start.p.col as int));
                    if crate::builders::arena::fresh(&m00) {
                        lemma_recorded_trans(&m00, &m0, maze);
                    }
                    lemma_joined_from(&m0, maze, cur.p, neighbor.p);
                    assert(cur.p == pq@[top as int].p);
                    crate::builders::cells::lemma_join_grows(&m0, maze, start.p, cur.p, neighbor.p);
                }
                let ghost before = pq@;
                pq.push(neighbor);
                proof {
                    assert forall|j: int| 0 <= j < pq@.len() implies #[trigger] pq@[j].p == start.p || spec_is_built(sq(maze, pq@[j].p)) by {
                        if j < before.len() {
                            assert(pq@[j] == before[j]);
                            let q = before[j].p;
                            if q != start.p {
                                assert(spec_is_built(sq(&m0, q)));
                                assert(m0.in_bounds(q.row as int, q.col as int));
                            }
                        }
                    }
                }
            },
            None => {
                proof {
                    lemma_prim_pop(maze, pq@, top as int);
                    if !spec_is_built(sq(maze, start.p)) {
                        assert(cur == start);
                        lemma_finished_start(maze, start.p);
                    }
                }
                let ghost before = pq@;
                pq.remove(top);
                proof {
                    assert forall|j: int| 0 <= j < pq@.len() implies #[trigger] pq@[j].p == start.p || spec_is_built(sq(maze, pq@[j].p)) by {
                        if j < top {
                            assert(pq@[j] == before[j]);
                        } else {
                            assert(pq@[j] == before[j + 1]);
                        }
                    }
                }
            },
        }
    }
    proof {
        crate::builders::cells::lemma_grown_facts(maze, start.p);
                                assert(is_cell(maze, start.p) && crate::builders::cells::cells_reached(maze, start.p));
        crate::builders::cells::lemma_built_counts(maze, start.p);
        crate::builders::cells::lemma_counts_nonneg(maze.squares(), maze.cols_spec(), maze.squares().len() as int);
        assert(points(pq@) =~= Seq::<Point>::empty());
        lemma_finished_isolated(maze);
        lemma_all_or_none(maze);
        lemma_prim_not_none(maze, start.p);
    }
}

} // verus!
