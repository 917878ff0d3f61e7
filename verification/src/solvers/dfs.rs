use vstd::prelude::*;
use crate::builders::build_ops::{interior, perimeter_walls};
use crate::maze::{Maze, Point, Square};
use crate::monitor::Monitor;
use crate::solvers::bfs::{only_painted, paint_square};
use crate::solvers::floodfs::{flood_branch, flood_moved, lemma_stack_same_grid, lemma_wall_kept_outside, stack_inside};
use crate::solvers::solve::{ThreadGuide, CACHE_MASK, FINISH_BIT, THREAD_TAG_OFFSET};

verus! {

/// The bits a depth-first thread leaves on the squares it has seen: its
/// paint, moved up past the thread tags.
pub open spec fn seen_bits(guide: &ThreadGuide) -> Square {
    guide.paint << (THREAD_TAG_OFFSET as u32)
}

fn seen_of(guide: &ThreadGuide) -> (s: Square)
    ensures
        s == seen_bits(guide),
{
    guide.paint << (THREAD_TAG_OFFSET as u32)
}

/// The squares of `new` are those of `old`, each square on the stack `dfs`
/// taking the bits `bits`.
pub open spec fn stack_painted(old: &Maze, new: &Maze, dfs: Seq<Point>, bits: Square) -> bool {
    &&& new.wf()
    &&& new.same_shape(old)
    &&& new.build_history == old.build_history
    &&& new.solve_history == old.solve_history
    &&& forall|r: int, c: int|
        old.in_bounds(r, c) ==> #[trigger] new.square(r, c) == if dfs.contains(Point { row: r as i32, col: c as i32 }) {
            old.square(r, c) | bits
        } else {
            old.square(r, c)
        }
}

/// Paints every square of the stack with the thread's paint.
fn paint_stack(mon: &mut Monitor, dfs: &Vec<Point>, paint: Square)
    requires
        old(mon).maze.wf(),
        stack_inside(&old(mon).maze, dfs@),
    ensures
        stack_painted(&old(mon).maze, &final(mon).maze, dfs@, paint),
        final(mon).win == old(mon).win,
        final(mon).win_path@ == old(mon).win_path@,
        final(mon).map == old(mon).map,
        final(mon).count == old(mon).count,
{
    let mut t: usize = 0;
    while t < dfs.len()
        invariant
            t <= dfs@.len(),
            stack_inside(&old(mon).maze, dfs@),
            stack_painted(&old(mon).maze, &mon.maze, dfs@.subrange(0, t as int), paint),
            old(mon).maze.wf(),
            mon.win == old(mon).win,
            mon.win_path@ == old(mon).win_path@,
            mon.map == old(mon).map,
            mon.count == old(mon).count,
        decreases dfs@.len() - t,
    {
        let p = dfs[t];
        let ghost m0 = mon.maze;
        proof {
            assert(interior(&old(mon).maze, dfs@[t as int]));
        }
        let square = mon.maze.get(p.row, p.col);
        mon.maze.set(p.row, p.col, square | paint);
        proof {
            let a = dfs@.subrange(0, t as int);
            let b = dfs@.subrange(0, t + 1);
            assert(b =~= a.push(p));
            assert(stack_painted(&old(mon).maze, &m0, a, paint));
            assert forall|r: int, c: int| old(mon).maze.in_bounds(r, c) implies #[trigger] mon.maze.square(r, c) == if b.contains(
                Point { row: r as i32, col: c as i32 },
            ) {
                old(mon).maze.square(r, c) | paint
            } else {
                old(mon).maze.square(r, c)
            } by {
                m0.maze.lemma_index(r, c);
                m0.maze.lemma_index(p.row as int, p.col as int);
                let q = Point { row: r as i32, col: c as i32 };
                let x = old(mon).maze.square(r, c);
                assert(m0.square(r, c) == (if a.contains(q) { x | paint } else { x }));
                if r == p.row && c == p.col {
                    assert(mon.maze.square(r, c) == square | paint);
                    assert(square == m0.square(r, c));
                    assert(q == p);
                    assert(b.contains(q)) by {
                        assert(b[t as int] == p);
                    }
                    assert(((x | paint) | paint) == x | paint && x | paint == (x | paint) | paint) by (bit_vector);
                } else {
                    crate::maze::lemma_cell_index_injective(r, c, p.row as int, p.col as int, m0.cols_spec());
                    assert(mon.maze.square(r, c) == m0.square(r, c));
                    assert(q != p);
                    if b.contains(q) {
                        let k = choose|k: int| 0 <= k < b.len() && b[k] == q;
                        assert(k < t);
                        assert(a[k] == q);
                    }
                    if a.contains(q) {
                        let k = choose|k: int| 0 <= k < a.len() && a[k] == q;
                        assert(b[k] == q);
                    }
                }
            }
        }
        t = t + 1;
    }
    proof {
        assert(dfs@.subrange(0, dfs@.len() as int) =~= dfs@);
    }
}

/// One visit of a depth-first hunter: when another thread has won, it
/// paints its whole stack and stops; on the finish it paints it and claims
/// the win; else it marks the square seen and pushes the first path square
/// next to it, from its own direction on, it has not seen, or pops the
/// square when there is none. Says whether the thread goes on.
pub fn dfs_hunter_step(mon: &mut Monitor, dfs: &mut Vec<Point>, guide: &ThreadGuide) -> (go_on: bool)
    requires
        old(mon).maze.wf(),
        perimeter_walls(&old(mon).maze),
        stack_inside(&old(mon).maze, old(dfs)@),
        guide.index < 4,
        old(mon).maze.solve_history.deltas().len() < usize::MAX,
    ensures
        stack_inside(&final(mon).maze, final(dfs)@),
        final(mon).map == old(mon).map,
        final(mon).count == old(mon).count,
        final(mon).win_path@ == old(mon).win_path@,
        old(dfs)@.len() == 0 ==> !go_on && *final(mon) == *old(mon),
        old(dfs)@.len() > 0 && old(mon).win is Some ==> {
            &&& !go_on
            &&& final(mon).win == old(mon).win
            &&& stack_painted(&old(mon).maze, &final(mon).maze, old(dfs)@, guide.paint)
        },
        old(dfs)@.len() > 0 && old(mon).win is None ==> {
            let cur = old(dfs)@.last();
            let before = old(mon).maze.square(cur.row as int, cur.col as int);
            &&& before & FINISH_BIT != 0 ==> {
                &&& !go_on
                &&& final(mon).win == Some(guide.index)
                &&& only_painted(&old(mon).maze, &final(mon).maze, cur, guide.paint)
            }
            &&& before & FINISH_BIT == 0 ==> {
                &&& go_on
                &&& final(mon).win is None
                &&& only_painted(&old(mon).maze, &final(mon).maze, cur, seen_bits(guide))
                &&& flood_moved(&final(mon).maze, old(dfs)@, final(dfs)@, cur, seen_bits(guide))
            }
        },
{
    let ghost m0 = mon.maze;
    if dfs.len() == 0 {
        return false;
    }
    if mon.win.is_some() {
        paint_stack(mon, dfs, guide.paint);
        proof {
            lemma_stack_same_grid(&m0, &mon.maze, dfs@);
        }
        return false;
    }
    let cur = dfs[dfs.len() - 1];
    proof {
        assert(interior(&m0, dfs@[dfs@.len() - 1]));
    }
    let before = mon.maze.get(cur.row, cur.col);
    if (before & FINISH_BIT) != 0 {
        paint_square(mon, cur, guide.paint, false, 1);
        mon.win = Some(guide.index);
        proof {
            lemma_stack_same_grid(&m0, &mon.maze, dfs@);
        }
        return false;
    }
    let seen = seen_of(guide);
    paint_square(mon, cur, seen, false, 1);
    proof {
        lemma_stack_same_grid(&m0, &mon.maze, dfs@);
        lemma_wall_kept_outside(&m0, &mon.maze, cur);
    }
    flood_branch(&mon.maze, dfs, cur, guide.index, seen);
    true
}

/// One visit of a depth-first gatherer: it marks the square on top of its
/// stack seen, and painted unless it is a finish another thread reached
/// first; it stops on a finish no thread reached before it, else it pushes
/// the first path square next to it, from its own direction on, it has not
/// seen, or pops the square when there is none. Says whether the thread
/// goes on.
pub fn dfs_gatherer_step(mon: &mut Monitor, dfs: &mut Vec<Point>, guide: &ThreadGuide) -> (go_on: bool)
    requires
        old(mon).maze.wf(),
        perimeter_walls(&old(mon).maze),
        stack_inside(&old(mon).maze, old(dfs)@),
        guide.index < 4,
        old(mon).maze.solve_history.deltas().len() < usize::MAX,
    ensures
        stack_inside(&final(mon).maze, final(dfs)@),
        final(mon).map == old(mon).map,
        final(mon).count == old(mon).count,
        final(mon).win == old(mon).win,
        final(mon).win_path@ == old(mon).win_path@,
        old(dfs)@.len() == 0 ==> !go_on && *final(mon) == *old(mon),
        old(dfs)@.len() > 0 ==> {
            let cur = old(dfs)@.last();
            let before = old(mon).maze.square(cur.row as int, cur.col as int);
            let finish = before & FINISH_BIT != 0;
            let first = before & CACHE_MASK == 0;
            let bits = if finish && !first { seen_bits(guide) } else { seen_bits(guide) | guide.paint };
            &&& only_painted(&old(mon).maze, &final(mon).maze, cur, bits)
            &&& go_on == !(finish && first)
            &&& go_on ==> flood_moved(&final(mon).maze, old(dfs)@, final(dfs)@, cur, seen_bits(guide))
        },
{
    let ghost m0 = mon.maze;
    if dfs.len() == 0 {
        return false;
    }
    let cur = dfs[dfs.len() - 1];
    proof {
        assert(interior(&m0, dfs@[dfs@.len() - 1]));
    }
    let seen = seen_of(guide);
    let before = mon.maze.get(cur.row, cur.col);
    let finish = (before & FINISH_BIT) != 0;
    let first = (before & CACHE_MASK) == 0;
    if finish && first {
        paint_square(mon, cur, seen | guide.paint, false, 1);
        proof {
            lemma_stack_same_grid(&m0, &mon.maze, dfs@);
        }
        return false;
    }
    let bits = if finish { seen } else { seen | guide.paint };
    paint_square(mon, cur, bits, false, 1);
    proof {
        lemma_stack_same_grid(&m0, &mon.maze, dfs@);
        lemma_wall_kept_outside(&m0, &mon.maze, cur);
    }
    flood_branch(&mon.maze, dfs, cur, guide.index, seen);
    true
}

} // verus!
