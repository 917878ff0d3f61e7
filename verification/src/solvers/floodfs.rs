use vstd::prelude::*;
use crate::builders::build_ops::{interior, perimeter_walls, point_in};
use crate::maze::{cardinal_direction, spec_cardinal, spec_is_wall, Delta, Maze, Point, Square};
use crate::monitor::Monitor;
use crate::solvers::bfs::{gather_bits, lemma_paint_kept, only_painted, paint_square};
use crate::solvers::solve::{ThreadGuide, CACHE_MASK, FINISH_BIT};

verus! {

/// Every square on the stack lies inside the edge.
pub open spec fn stack_inside(maze: &Maze, dfs: Seq<Point>) -> bool {
    forall|t: int| 0 <= t < dfs.len() ==> interior(maze, #[trigger] dfs[t])
}

/// `n` is the square one step from `cur` toward the direction `i`.
pub open spec fn step_from(cur: Point, i: int, n: Point) -> bool {
    n == Point { row: (cur.row + spec_cardinal(i).row) as i32, col: (cur.col + spec_cardinal(i).col) as i32 }
}

/// `n` is a path square next to `cur` that carries no `cache` bit.
pub open spec fn flood_next(maze: &Maze, cur: Point, n: Point, cache: Square) -> bool {
    &&& exists|i: int| 0 <= i < 4 && #[trigger] step_from(cur, i, n)
    &&& point_in(maze, n)
    &&& !spec_is_wall(maze.square(n.row as int, n.col as int))
    &&& maze.square(n.row as int, n.col as int) & cache == 0
}

/// After visiting `cur`, the stack grows by a path square next to it that
/// the thread has not reached, or loses `cur` when there is none.
pub open spec fn flood_moved(maze: &Maze, old_dfs: Seq<Point>, new_dfs: Seq<Point>, cur: Point, cache: Square) -> bool {
    ||| new_dfs == old_dfs.drop_last()
    ||| (new_dfs.drop_last() == old_dfs && new_dfs.len() == old_dfs.len() + 1 && flood_next(maze, cur, new_dfs.last(), cache))
}

/// Pushes the first path square next to `cur`, trying the directions from
/// `first` on, that carries no `cache` bit; pops `cur` when there is none.
pub(crate) fn flood_branch(maze: &Maze, dfs: &mut Vec<Point>, cur: Point, first: usize, cache: Square)
    requires
        maze.wf(),
        perimeter_walls(maze),
        stack_inside(maze, old(dfs)@),
        old(dfs)@.len() > 0,
        old(dfs)@.last() == cur,
        first < 4,
    ensures
        stack_inside(maze, final(dfs)@),
        flood_moved(maze, old(dfs)@, final(dfs)@, cur, cache),
{
    assert(interior(maze, old(dfs)@[old(dfs)@.len() - 1]));
    let mut n: usize = 0;
    while n < 4
        invariant
            maze.wf(),
            perimeter_walls(maze),
            interior(maze, cur),
            dfs@ == old(dfs)@,
            stack_inside(maze, old(dfs)@),
            old(dfs)@.len() > 0,
            old(dfs)@.last() == cur,
            first < 4,
            n <= 4,
        decreases 4 - n,
    {
        let i = (first + n) % 4;
        let d = cardinal_direction(i);
        let next = Point { row: cur.row + d.row, col: cur.col + d.col };
        proof {
            assert(maze.in_bounds(next.row as int, next.col as int));
            assert(step_from(cur, i as int, next));
        }
        let square = maze.get(next.row, next.col);
        if (square & cache) == 0 && (square & crate::maze::PATH_BIT) != 0 {
            dfs.push(next);
            proof {
                assert(dfs@.drop_last() =~= old(dfs)@);
                assert(!(0 < next.row < maze.rows_spec() - 1 && 0 < next.col < maze.cols_spec() - 1) ==> spec_is_wall(
                    maze.square(next.row as int, next.col as int),
                ));
                assert(interior(maze, next));
                assert forall|t: int| 0 <= t < dfs@.len() implies interior(maze, #[trigger] dfs@[t]) by {
                    if t < old(dfs)@.len() {
                        assert(dfs@[t] == old(dfs)@[t]);
                    }
                }
                assert(exists|j: int| 0 <= j < 4 && #[trigger] step_from(cur, j, next));
            }
            return;
        }
        n = n + 1;
    }
    dfs.pop();
    proof {
        assert forall|t: int| 0 <= t < dfs@.len() implies interior(maze, #[trigger] dfs@[t]) by {
            assert(dfs@[t] == old(dfs)@[t]);
        }
    }
}

/// A stack inside the edge of one grid is inside that of another of the
/// same shape.
pub(crate) proof fn lemma_stack_same_grid(m0: &Maze, m1: &Maze, dfs: Seq<Point>)
    requires
        stack_inside(m0, dfs),
        m1.same_shape(m0),
    ensures
        stack_inside(m1, dfs),
{
    assert forall|t: int| 0 <= t < dfs.len() implies interior(m1, #[trigger] dfs[t]) by {
        assert(interior(m0, dfs[t]));
    }
}

/// One visit of a flooding hunter: unless another thread has won, it paints
/// the square on top of its stack; on the finish it claims the win, else it
/// marks the square with its cache too and pushes the first path square
/// next to it, from its own direction on, it has not reached, or pops the
/// square when there is none. Says whether the thread goes on.
pub fn flood_hunter_step(mon: &mut Monitor, dfs: &mut Vec<Point>, guide: &ThreadGuide, record: bool) -> (go_on: bool)
    requires
        old(mon).maze.wf(),
        perimeter_walls(&old(mon).maze),
        stack_inside(&old(mon).maze, old(dfs)@),
        guide.index < 4,
        old(mon).maze.solve_history.deltas().len() < usize::MAX,
    ensures
        stack_inside(&final(mon).maze, final(dfs)@),
        final(mon).map == old(mon).map,
        final(mon).count == old(mon).count,
        final(mon).win_path@ == old(mon).win_path@,
        old(dfs)@.len() == 0 ==> !go_on && *final(mon) == *old(mon),
        old(dfs)@.len() > 0 && old(mon).win is Some ==> !go_on && *final(mon) == *old(mon),
        old(dfs)@.len() > 0 && old(mon).win is None ==> {
            let cur = old(dfs)@.last();
            let before = old(mon).maze.square(cur.row as int, cur.col as int);
            let bits = if before & FINISH_BIT != 0 { guide.paint } else { guide.cache | guide.paint };
            &&& only_painted(&old(mon).maze, &final(mon).maze, cur, bits)
            &&& final(mon).maze.solve_history.deltas() == if record {
                old(mon).maze.solve_history.deltas().push(Delta { id: cur, before, after: before | bits, burst: 1 })
            } else {
                old(mon).maze.solve_history.deltas()
            }
            &&& before & FINISH_BIT != 0 ==> !go_on && final(mon).win == Some(guide.index)
            &&& before & FINISH_BIT == 0 ==> {
                &&& go_on
                &&& final(mon).win is None
                &&& flood_moved(&final(mon).maze, old(dfs)@, final(dfs)@, cur, guide.cache)
            }
        },
{
    let ghost m0 = mon.maze;
    if dfs.len() == 0 {
        return false;
    }
    if mon.win.is_some() {
        return false;
    }
    let cur = dfs[dfs.len() - 1];
    proof {
        assert(interior(&m0, dfs@[dfs@.len() - 1]));
    }
    let before = mon.maze.get(cur.row, cur.col);
    if (before & FINISH_BIT) != 0 {
        paint_square(mon, cur, guide.paint, record, 1);
        mon.win = Some(guide.index);
        proof {
            lemma_stack_same_grid(&m0, &mon.maze, dfs@);
        }
        return false;
    }
    paint_square(mon, cur, guide.cache | guide.paint, record, 1);
    proof {
        lemma_stack_same_grid(&m0, &mon.maze, dfs@);
        lemma_wall_kept_outside(&m0, &mon.maze, cur);
    }
    flood_branch(&mon.maze, dfs, cur, guide.index, guide.cache);
    true
}

/// Painting a square inside the edge keeps the edge walled.
pub(crate) proof fn lemma_wall_kept_outside(m0: &Maze, m1: &Maze, p: Point)
    requires
        perimeter_walls(m0),
        interior(m0, p),
        m1.same_shape(m0),
        forall|r: int, c: int|
            m0.in_bounds(r, c) && (r != p.row || c != p.col) ==> #[trigger] m1.square(r, c) == m0.square(r, c),
    ensures
        perimeter_walls(m1),
{
    assert forall|r: int, c: int|
        m1.in_bounds(r, c) && !(0 < r < m1.rows_spec() - 1 && 0 < c < m1.cols_spec() - 1) implies spec_is_wall(
        #[trigger] m1.square(r, c),
    ) by {
        assert(m0.square(r, c) == m1.square(r, c));
    }
}

/// One visit of a flooding gatherer: it marks the square on top of its
/// stack; it stops on a finish no thread reached before it, else it pushes
/// the first path square next to it, from its own direction on, it has not
/// reached, or pops the square when there is none. Says whether the thread
/// goes on.
pub fn flood_gatherer_step(mon: &mut Monitor, dfs: &mut Vec<Point>, guide: &ThreadGuide, record: bool) -> (go_on: bool)
    requires
        old(mon).maze.wf(),
        perimeter_walls(&old(mon).maze),
        stack_inside(&old(mon).maze, old(dfs)@),
        guide.index < 4,
        old(mon).maze.solve_history.deltas().len() < usize::MAX,
    ensures
        stack_inside(&final(mon).maze, final(dfs)@),
        final(mon).map == old(mon).map,
        final(mon).count == old(mon).count,
        final(mon).win == old(mon).win,
        final(mon).win_path@ == old(mon).win_path@,
        old(dfs)@.len() == 0 ==> !go_on && *final(mon) == *old(mon),
        old(dfs)@.len() > 0 ==> {
            let cur = old(dfs)@.last();
            let before = old(mon).maze.square(cur.row as int, cur.col as int);
            let bits = gather_bits(before, guide);
            &&& only_painted(&old(mon).maze, &final(mon).maze, cur, bits)
            &&& final(mon).maze.solve_history.deltas() == if record {
                old(mon).maze.solve_history.deltas().push(Delta { id: cur, before, after: before | bits, burst: 1 })
            } else {
                old(mon).maze.solve_history.deltas()
            }
            &&& go_on == !(before & FINISH_BIT != 0 && before & CACHE_MASK == 0)
            &&& go_on ==> flood_moved(&final(mon).maze, old(dfs)@, final(dfs)@, cur, guide.cache)
            &&& before & FINISH_BIT == 0 ==> final(mon).maze.square(cur.row as int, cur.col as int) == before | (guide.paint
                | guide.cache)
            &&& before & FINISH_BIT == 0 ==> final(mon).maze.square(cur.row as int, cur.col as int) & guide.paint == guide.paint
            &&& before & FINISH_BIT != 0 && before & CACHE_MASK == 0 ==> final(mon).maze.square(cur.row as int, cur.col as int)
                == before | (guide.paint | guide.cache)
            &&& before & FINISH_BIT != 0 && before & CACHE_MASK != 0 ==> final(mon).maze.square(cur.row as int, cur.col as int)
                == before | guide.cache
        },
{
    let ghost m0 = mon.maze;
    if dfs.len() == 0 {
        return false;
    }
    let cur = dfs[dfs.len() - 1];
    proof {
        assert(interior(&m0, dfs@[dfs@.len() - 1]));
    }
    let before = mon.maze.get(cur.row, cur.col);
    let finish = (before & FINISH_BIT) != 0;
    let first = (before & CACHE_MASK) == 0;
    proof {
        lemma_paint_kept(before, guide.paint, guide.cache);
        assert(m0.in_bounds(cur.row as int, cur.col as int));
    }
    if finish && first {
        paint_square(mon, cur, guide.paint | guide.cache, record, 1);
        proof {
            lemma_stack_same_grid(&m0, &mon.maze, dfs@);
        }
        return false;
    }
    let bits = if finish { guide.cache } else { guide.paint | guide.cache };
    paint_square(mon, cur, bits, record, 1);
    proof {
        lemma_stack_same_grid(&m0, &mon.maze, dfs@);
        lemma_wall_kept_outside(&m0, &mon.maze, cur);
    }
    flood_branch(&mon.maze, dfs, cur, guide.index, guide.cache);
    true
}

} // verus!
