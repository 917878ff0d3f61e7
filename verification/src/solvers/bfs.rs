use vstd::prelude::*;
use std::collections::VecDeque;
use crate::builders::build_ops::{interior, perimeter_walls, point_in};
use crate::maze::{any_direction, cardinal_direction, Delta, Maze, Point, Square, PATH_BIT, WALL_MASK};
use crate::monitor::Monitor;
use crate::rng::shuffle;
use crate::solvers::solve::{
    corner_start, exists_valid, is_valid_start_or_finish, pick_random_point, set_corner_starts, valid_start_or_finish,
    ThreadGuide, CACHE_MASK, FINISH_BIT, NUM_GATHER_FINISHES, START_BIT, THREAD_MASK,
};

verus! {

/// Each delta a solver records claims a frame of this many deltas.
pub const BURST: usize = 4;

/// The breadth-first search of one solver thread: each square it reached,
/// with the square it was reached from, and the squares it has yet to
/// visit, in order.
pub struct Search {
    pub parents: Vec<(Point, Point)>,
    pub queue: VecDeque<Point>,
}

/// The parent the start of a search is given.
pub open spec fn no_parent() -> Point {
    Point { row: -1i32, col: -1i32 }
}

/// The search reached `p`.
pub open spec fn has_key(s: Seq<(Point, Point)>, p: Point) -> bool {
    exists|k: int| 0 <= k < s.len() && s[k].0 == p
}

/// The square `k` was reached from a square reached before it.
pub open spec fn reached_earlier(s: Seq<(Point, Point)>, k: int) -> bool {
    exists|j: int| 0 <= j < k && s[j].0 == s[k].1
}

/// A search over `maze`: the start first, with no parent; every later square
/// reached from one before it; no square twice; every square inside the
/// edge; and only reached squares queued.
pub open spec fn search_wf(maze: &Maze, s: Seq<(Point, Point)>, q: Seq<Point>) -> bool {
    &&& s.len() >= 1
    &&& s[0].1 == no_parent()
    &&& forall|k: int| 0 <= k < s.len() ==> interior(maze, #[trigger] s[k].0)
    &&& forall|i: int, j: int| 0 <= i < j < s.len() ==> s[i].0 != s[j].0
    &&& forall|k: int| 1 <= k < s.len() ==> #[trigger] reached_earlier(s, k)
    &&& forall|t: int| 0 <= t < q.len() ==> #[trigger] has_key(s, q[t])
}

/// From `old` to `new` only the square `p` may have changed, and only by
/// taking the bits `bits`.
pub open spec fn only_painted(old: &Maze, new: &Maze, p: Point, bits: Square) -> bool {
    &&& new.wf()
    &&& new.same_shape(old)
    &&& new.build_history == old.build_history
    &&& forall|r: int, c: int|
        old.in_bounds(r, c) ==> #[trigger] new.square(r, c) == if r == p.row && c == p.col {
            old.square(r, c) | bits
        } else {
            old.square(r, c)
        }
}

impl Search {
    /// A search that has reached only `start` and will visit it first.
    pub fn new(start: Point) -> (s: Search)
        ensures
            s.parents@ == seq![(start, no_parent())],
            s.queue@ == seq![start],
    {
        let mut parents: Vec<(Point, Point)> = Vec::new();
        parents.push((start, Point { row: -1, col: -1 }));
        let mut queue: VecDeque<Point> = VecDeque::new();
        queue.push_back(start);
        Search { parents, queue }
    }
}

/// The position of `p` among the squares the search reached, if it reached it.
fn position_of(parents: &Vec<(Point, Point)>, p: Point) -> (r: Option<usize>)
    ensures
        r matches Some(k) ==> k < parents@.len() && parents@[k as int].0 == p,
        r is None ==> !has_key(parents@, p),
{
    let mut k: usize = 0;
    while k < parents.len()
        invariant
            k <= parents@.len(),
            forall|j: int| 0 <= j < k ==> parents@[j].0 != p,
        decreases parents@.len() - k,
    {
        if parents[k].0 == p {
            return Some(k);
        }
        k = k + 1;
    }
    None
}

/// Sets the bits `bits` of `p`, recording the change first when `record`.
pub(crate) fn paint_square(mon: &mut Monitor, p: Point, bits: Square, record: bool, burst: usize)
    requires
        old(mon).maze.wf(),
        point_in(&old(mon).maze, p),
        old(mon).maze.solve_history.deltas().len() < usize::MAX,
    ensures
        only_painted(&old(mon).maze, &final(mon).maze, p, bits),
        final(mon).maze.solve_history.deltas() == if record {
            old(mon).maze.solve_history.deltas().push(
                Delta {
                    id: p,
                    before: old(mon).maze.square(p.row as int, p.col as int),
                    after: old(mon).maze.square(p.row as int, p.col as int) | bits,
                    burst,
                },
            )
        } else {
            old(mon).maze.solve_history.deltas()
        },
        final(mon).win == old(mon).win,
        final(mon).win_path@ == old(mon).win_path@,
        final(mon).map == old(mon).map,
        final(mon).count == old(mon).count,
{
    mark(&mut mon.maze, p, bits, record, burst);
}

/// Sets the bits `bits` of `p`, recording the change first when `record`.
pub fn mark(maze: &mut Maze, p: Point, bits: Square, record: bool, burst: usize)
    requires
        old(maze).wf(),
        point_in(old(maze), p),
        old(maze).solve_history.deltas().len() < usize::MAX,
    ensures
        only_painted(old(maze), final(maze), p, bits),
        final(maze).solve_history.deltas() == if record {
            old(maze).solve_history.deltas().push(
                Delta {
                    id: p,
                    before: old(maze).square(p.row as int, p.col as int),
                    after: old(maze).square(p.row as int, p.col as int) | bits,
                    burst,
                },
            )
        } else {
            old(maze).solve_history.deltas()
        },
{
    let before = maze.get(p.row, p.col);
    set_square(maze, p, before | bits, record, burst);
}

/// Writes `v` into `p`, recording the change first when `record`.
pub fn set_square(maze: &mut Maze, p: Point, v: Square, record: bool, burst: usize)
    requires
        old(maze).wf(),
        point_in(old(maze), p),
        old(maze).solve_history.deltas().len() < usize::MAX,
    ensures
        final(maze).wf(),
        final(maze).same_shape(old(maze)),
        final(maze).build_history == old(maze).build_history,
        forall|r: int, c: int|
            old(maze).in_bounds(r, c) ==> #[trigger] final(maze).square(r, c) == if r == p.row && c == p.col {
                v
            } else {
                old(maze).square(r, c)
            },
        final(maze).solve_history.deltas() == if record {
            old(maze).solve_history.deltas().push(
                Delta { id: p, before: old(maze).square(p.row as int, p.col as int), after: v, burst },
            )
        } else {
            old(maze).solve_history.deltas()
        },
{
    let ghost m0 = *maze;
    let before = maze.get(p.row, p.col);
    if record {
        maze.solve_history.push(Delta { id: p, before, after: v, burst });
    }
    maze.set(p.row, p.col, v);
    proof {
        assert forall|r: int, c: int| m0.in_bounds(r, c) implies #[trigger] maze.square(r, c) == if r == p.row && c
            == p.col {
            v
        } else {
            m0.square(r, c)
        } by {
            m0.maze.lemma_index(r, c);
            m0.maze.lemma_index(p.row as int, p.col as int);
            if r != p.row || c != p.col {
                crate::maze::lemma_cell_index_injective(r, c, p.row as int, p.col as int, m0.cols_spec());
            }
        }
    }
}

/// The square one step from `p` toward north, east, south or west.
pub open spec fn cardinal_step(p: Point, i: int) -> Point {
    Point {
        row: (p.row + crate::maze::spec_cardinal(i).row) as i32,
        col: (p.col + crate::maze::spec_cardinal(i).col) as i32,
    }
}

/// The squares a search has reached after trying the first `n` of the four
/// directions from `cur`, starting at the direction `first`: each path square
/// not reached yet is added, reached from `cur`.
pub open spec fn expanded(maze: &Maze, s: Seq<(Point, Point)>, cur: Point, first: int, n: nat) -> Seq<(Point, Point)>
    decreases n,
{
    if n == 0 {
        s
    } else {
        let s0 = expanded(maze, s, cur, first, (n - 1) as nat);
        let next = cardinal_step(cur, (first + n - 1) % 4);
        if !crate::maze::spec_is_wall(maze.square(next.row as int, next.col as int)) && !has_key(s0, next) {
            s0.push((next, cur))
        } else {
            s0
        }
    }
}

/// The squares of the entries of `s` from `from` on, in order.
pub open spec fn keys_from(s: Seq<(Point, Point)>, from: int) -> Seq<Point> {
    s.subrange(from, s.len() as int).map_values(|e: (Point, Point)| e.0)
}

/// Queues each path square next to `cur` the search has not reached,
/// trying the directions from the thread's own first one.
fn expand(maze: &Maze, search: &mut Search, cur: Point, first: usize)
    requires
        maze.wf(),
        perimeter_walls(maze),
        search_wf(maze, old(search).parents@, old(search).queue@),
        has_key(old(search).parents@, cur),
        interior(maze, cur),
        first < 4,
    ensures
        search_wf(maze, final(search).parents@, final(search).queue@),
        old(search).parents@.len() <= final(search).parents@.len(),
        forall|k: int| 0 <= k < old(search).parents@.len() ==> #[trigger] final(search).parents@[k] == old(search).parents@[k],
        final(search).parents@ == expanded(maze, old(search).parents@, cur, first as int, 4),
        final(search).queue@ == old(search).queue@ + keys_from(final(search).parents@, old(search).parents@.len() as int),
{
    let mut n: usize = 0;
    proof {
        assert(keys_from(search.parents@, search.parents@.len() as int) =~= Seq::<Point>::empty());
        assert(search.queue@ =~= old(search).queue@ + keys_from(search.parents@, old(search).parents@.len() as int));
    }
    while n < 4
        invariant
            maze.wf(),
            perimeter_walls(maze),
            search_wf(maze, search.parents@, search.queue@),
            has_key(search.parents@, cur),
            interior(maze, cur),
            first < 4,
            n <= 4,
            old(search).parents@.len() <= search.parents@.len(),
            forall|k: int| 0 <= k < old(search).parents@.len() ==> #[trigger] search.parents@[k] == old(search).parents@[k],
            search.parents@ == expanded(maze, old(search).parents@, cur, first as int, n as nat),
            search.queue@ == old(search).queue@ + keys_from(search.parents@, old(search).parents@.len() as int),
        decreases 4 - n,
    {
        let i = (first + n) % 4;
        let d = cardinal_direction(i);
        let next = Point { row: cur.row + d.row, col: cur.col + d.col };
        proof {
            assert(maze.in_bounds(next.row as int, next.col as int));
        }
        if maze.path_at(next.row, next.col) {
            if position_of(&search.parents, next).is_none() {
                let ghost s0 = search.parents@;
                let ghost q0 = search.queue@;
                search.parents.push((next, cur));
                search.queue.push_back(next);
                proof {
                    lemma_grow_search(maze, s0, q0, next, cur);
                    let o = old(search).parents@.len() as int;
                    assert(keys_from(search.parents@, o) =~= keys_from(s0, o).push(next));
                    assert(search.queue@ =~= old(search).queue@ + keys_from(search.parents@, o));
                }
            }
        }
        n = n + 1;
    }
}

/// Adding a path square reached from a reached square keeps the search well
/// formed.
proof fn lemma_grow_search(maze: &Maze, s: Seq<(Point, Point)>, q: Seq<Point>, next: Point, cur: Point)
    requires
        maze.wf(),
        perimeter_walls(maze),
        search_wf(maze, s, q),
        has_key(s, cur),
        !has_key(s, next),
        maze.in_bounds(next.row as int, next.col as int),
        !crate::maze::spec_is_wall(maze.square(next.row as int, next.col as int)),
    ensures
        search_wf(maze, s.push((next, cur)), q.push(next)),
        has_key(s.push((next, cur)), cur),
{
    let s1 = s.push((next, cur));
    let q1 = q.push(next);
    assert forall|k: int| 0 <= k < s1.len() implies interior(maze, #[trigger] s1[k].0) by {
        if k < s.len() {
            assert(s1[k] == s[k]);
        }
    }
    assert forall|i: int, j: int| 0 <= i < j < s1.len() implies s1[i].0 != s1[j].0 by {
        assert(s1[i] == s[i]);
        if j < s.len() {
            assert(s1[j] == s[j]);
        }
    }
    assert forall|k: int| 1 <= k < s1.len() implies #[trigger] reached_earlier(s1, k) by {
        if k < s.len() {
            assert(reached_earlier(s, k));
            let j = choose|j: int| 0 <= j < k && s[j].0 == s[k].1;
            assert(s1[j] == s[j] && s1[k] == s[k]);
        } else {
            let j = choose|j: int| 0 <= j < s.len() && s[j].0 == cur;
            assert(s1[j] == s[j]);
        }
    }
    assert forall|t: int| 0 <= t < q1.len() implies #[trigger] has_key(s1, q1[t]) by {
        if t < q.len() {
            assert(has_key(s, q[t]));
            let k = choose|k: int| 0 <= k < s.len() && s[k].0 == q[t];
            assert(s1[k] == s[k]);
        } else {
            assert(s1[s.len() as int].0 == next);
        }
    }
    assert(s1[0] == s[0]);
    let kc = choose|k: int| 0 <= k < s.len() && s[k].0 == cur;
    assert(s1[kc] == s[kc]);
}


/// Where the square `p` stands among the squares the search reached.
pub open spec fn key_index(s: Seq<(Point, Point)>, p: Point) -> int {
    choose|i: int| 0 <= i < s.len() && s[i].0 == p
}

/// The squares the search passed through to reach its square `k`: the one
/// it was reached from, that one's, and so on back to the start, which is
/// left out.
pub open spec fn way_back(s: Seq<(Point, Point)>, k: int) -> Seq<Point>
    decreases k,
{
    if 0 <= k < s.len() && s[k].1.row > 0 && 0 <= key_index(s, s[k].1) < k {
        seq![s[k].1] + way_back(s, key_index(s, s[k].1))
    } else {
        seq![]
    }
}

/// The squares of `w`, each with the paint `paint`.
pub open spec fn painted(w: Seq<Point>, paint: Square) -> Seq<(Point, Square)> {
    w.map_values(|p: Point| (p, paint))
}

/// In a well formed search a square other than the start was reached from
/// one before it, which is where that square stands.
proof fn lemma_parent_index(maze: &Maze, s: Seq<(Point, Point)>, k: int)
    requires
        search_wf(maze, s, seq![]),
        0 <= k < s.len(),
        s[k].1.row > 0,
    ensures
        0 <= key_index(s, s[k].1) < k,
        s[key_index(s, s[k].1)].0 == s[k].1,
        way_back(s, k) == seq![s[k].1] + way_back(s, key_index(s, s[k].1)),
{
    if k == 0 {
        assert(s[0].1 == no_parent());
    }
    assert(reached_earlier(s, k));
    let e = choose|e: int| 0 <= e < k && s[e].0 == s[k].1;
    let i = key_index(s, s[k].1);
    assert(0 <= i < s.len() && s[i].0 == s[k].1);
    if i != e {
        if i < e {
            assert(s[i].0 != s[e].0);
        } else {
            assert(s[e].0 != s[i].0);
        }
    }
}

/// Adds to the winning path the squares the search passed through to reach
/// the square `k`, from the one it was reached from back to the start.
fn trace_back(mon: &mut Monitor, parents: &Vec<(Point, Point)>, k: usize, paint: Square, Ghost(maze): Ghost<Maze>)
    requires
        search_wf(&maze, parents@, seq![]),
        k < parents@.len(),
    ensures
        final(mon).maze == old(mon).maze,
        final(mon).win == old(mon).win,
        final(mon).map == old(mon).map,
        final(mon).count == old(mon).count,
        final(mon).win_path@ == old(mon).win_path@ + painted(way_back(parents@, k as int), paint),
{
    let mut j = k;
    let mut prev = parents[k].1;
    let ghost w = way_back(parents@, k as int);
    let ghost mut m: int = 0;
    while prev.row > 0
        invariant
            search_wf(&maze, parents@, seq![]),
            j < parents@.len(),
            prev == parents@[j as int].1,
            mon.maze == old(mon).maze,
            mon.win == old(mon).win,
            mon.map == old(mon).map,
            mon.count == old(mon).count,
            0 <= m <= w.len(),
            mon.win_path@ == old(mon).win_path@ + painted(w.subrange(0, m), paint),
            way_back(parents@, j as int) == w.subrange(m, w.len() as int),
        decreases j,
    {
        proof {
            lemma_parent_index(&maze, parents@, j as int);
        }
        let ghost w0 = mon.win_path@;
        mon.win_path.push((prev, paint));
        match position_of(parents, prev) {
            Some(i) => {
                proof {
                    let e = key_index(parents@, prev);
                    if i as int != e {
                        if (i as int) < e {
                            assert(parents@[i as int].0 != parents@[e].0);
                        } else {
                            assert(parents@[e].0 != parents@[i as int].0);
                        }
                    }
                    let rest = w.subrange(m, w.len() as int);
                    assert(rest == way_back(parents@, j as int));
                    assert(rest.len() >= 1);
                    assert(rest[0] == prev);
                    assert(w[m] == rest[0]);
                    assert(w.subrange(m + 1, w.len() as int) =~= rest.subrange(1, rest.len() as int));
                    assert(way_back(parents@, i as int) =~= rest.subrange(1, rest.len() as int));
                    assert(painted(w.subrange(0, m + 1), paint) =~= painted(w.subrange(0, m), paint).push((prev, paint)));
                    assert(mon.win_path@ =~= old(mon).win_path@ + painted(w.subrange(0, m + 1), paint));
                    m = m + 1;
                }
                j = i;
                prev = parents[i].1;
            },
            None => {
                proof {
                    assert(has_key(parents@, prev));
                }
                return;
            },
        }
    }
    proof {
        assert(way_back(parents@, j as int) =~= seq![]);
        assert(w.subrange(0, m) =~= w);
    }
}

/// One visit of a hunting thread: takes the next square off its queue and,
/// unless another thread has won, paints it; on the finish it claims the
/// win and leaves the way it came on the winning path, else it queues the
/// path squares around. Says whether the thread goes on.
pub fn hunter_step(mon: &mut Monitor, search: &mut Search, guide: &ThreadGuide, record: bool) -> (go_on: bool)
    requires
        old(mon).maze.wf(),
        perimeter_walls(&old(mon).maze),
        search_wf(&old(mon).maze, old(search).parents@, old(search).queue@),
        guide.index < 4,
        old(mon).maze.solve_history.deltas().len() < usize::MAX,
    ensures
        search_wf(&final(mon).maze, final(search).parents@, final(search).queue@),
        final(mon).map == old(mon).map,
        final(mon).count == old(mon).count,
        old(search).queue@.len() == 0 ==> !go_on && *final(mon) == *old(mon),
        old(search).queue@.len() > 0 && old(mon).win is Some ==> !go_on && *final(mon) == *old(mon),
        old(search).queue@.len() > 0 && old(mon).win is None ==> {
            let cur = old(search).queue@[0];
            let before = old(mon).maze.square(cur.row as int, cur.col as int);
            &&& only_painted(&old(mon).maze, &final(mon).maze, cur, guide.paint)
            &&& final(mon).maze.solve_history.deltas() == if record {
                old(mon).maze.solve_history.deltas().push(
                    Delta { id: cur, before, after: before | guide.paint, burst: BURST },
                )
            } else {
                old(mon).maze.solve_history.deltas()
            }
            &&& before & FINISH_BIT != 0 ==> {
                &&& !go_on
                &&& final(mon).win == Some(guide.index)
                &&& final(mon).win_path@.subrange(0, old(mon).win_path@.len() as int) == old(mon).win_path@
                &&& final(mon).win_path@ == old(mon).win_path@ + painted(
                    way_back(old(search).parents@, key_index(old(search).parents@, cur)),
                    guide.paint,
                )
            }
            &&& before & FINISH_BIT == 0 ==> go_on && final(mon).win is None && final(mon).win_path@ == old(mon).win_path@
        },
{
    let ghost m0 = mon.maze;
    let ghost s0 = search.parents@;
    let ghost q0 = search.queue@;
    if search.queue.len() == 0 {
        return false;
    }
    if mon.win.is_some() {
        return false;
    }
    let cur = match search.queue.pop_front() {
        Some(c) => c,
        None => {
            return false;
        },
    };
    proof {
        assert(has_key(s0, q0[0]));
        let k = choose|k: int| 0 <= k < s0.len() && s0[k].0 == q0[0];
        assert(interior(&m0, s0[k].0));
        assert forall|t: int| 0 <= t < search.queue@.len() implies #[trigger] has_key(s0, search.queue@[t]) by {
            assert(search.queue@[t] == q0[t + 1]);
        }
    }
    let before = mon.maze.get(cur.row, cur.col);
    paint_square(mon, cur, guide.paint, record, BURST);
    proof {
        lemma_search_same_grid(&m0, &mon.maze, s0, search.queue@);
    }
    if (before & FINISH_BIT) != 0 {
        mon.win = Some(guide.index);
        let k = match position_of(&search.parents, cur) {
            Some(k) => k,
            None => {
                proof {
                    assert(false);
                }
                return false;
            },
        };
        proof {
            assert(search_wf(&mon.maze, s0, seq![]));
        }
        trace_back(mon, &search.parents, k, guide.paint, Ghost(mon.maze));
        return false;
    }
    expand(&mon.maze, search, cur, guide.index);
    true
}

/// A search well formed over one grid is well formed over another of the
/// same shape.
pub(crate) proof fn lemma_search_same_grid(m0: &Maze, m1: &Maze, s: Seq<(Point, Point)>, q: Seq<Point>)
    requires
        search_wf(m0, s, q),
        m1.same_shape(m0),
    ensures
        search_wf(m1, s, q),
        search_wf(m1, s, seq![]),
{
    assert forall|k: int| 0 <= k < s.len() implies interior(m1, #[trigger] s[k].0) by {
        assert(interior(m0, s[k].0));
    }
}


/// The bits a gathering thread sets on a square it visits: its paint and
/// its cache, but on a finish another thread reached first only its cache.
pub open spec fn gather_bits(before: Square, guide: &ThreadGuide) -> Square {
    if before & FINISH_BIT != 0 && before & CACHE_MASK != 0 {
        guide.cache
    } else {
        guide.paint | guide.cache
    }
}

/// A square that takes a thread's paint and cache shows the paint.
pub proof fn lemma_paint_kept(x: Square, paint: Square, cache: Square)
    by (bit_vector)
    ensures
        (x | (paint | cache)) & paint == paint,
{
}

/// A gathering thread leaves its paint on every square it visits but a
/// finish another thread reached first, where it leaves only its cache.
pub proof fn lemma_gather_paints(before: Square, guide: &ThreadGuide)
    ensures
        before & FINISH_BIT == 0 ==> (before | gather_bits(before, guide)) & guide.paint == guide.paint,
        before & CACHE_MASK == 0 ==> (before | gather_bits(before, guide)) & guide.paint == guide.paint,
        before & FINISH_BIT != 0 && before & CACHE_MASK != 0 ==> before | gather_bits(before, guide) == before | guide.cache,
{
    lemma_paint_kept(before, guide.paint, guide.cache);
}

/// One visit of a gathering thread: takes the next square off its queue and
/// marks it; the thread stops on a finish no thread reached before it, else
/// it queues the path squares around. Says whether the thread goes on.
pub fn gatherer_step(mon: &mut Monitor, search: &mut Search, guide: &ThreadGuide, record: bool) -> (go_on: bool)
    requires
        old(mon).maze.wf(),
        perimeter_walls(&old(mon).maze),
        search_wf(&old(mon).maze, old(search).parents@, old(search).queue@),
        guide.index < 4,
        old(mon).maze.solve_history.deltas().len() < usize::MAX,
    ensures
        search_wf(&final(mon).maze, final(search).parents@, final(search).queue@),
        final(mon).map == old(mon).map,
        final(mon).count == old(mon).count,
        final(mon).win == old(mon).win,
        final(mon).win_path@ == old(mon).win_path@,
        old(search).queue@.len() == 0 ==> !go_on && *final(mon) == *old(mon),
        old(search).queue@.len() > 0 ==> {
            let cur = old(search).queue@[0];
            let before = old(mon).maze.square(cur.row as int, cur.col as int);
            let bits = gather_bits(before, guide);
            &&& only_painted(&old(mon).maze, &final(mon).maze, cur, bits)
            &&& final(mon).maze.solve_history.deltas() == if record {
                old(mon).maze.solve_history.deltas().push(Delta { id: cur, before, after: before | bits, burst: BURST })
            } else {
                old(mon).maze.solve_history.deltas()
            }
            &&& go_on == !(before & FINISH_BIT != 0 && before & CACHE_MASK == 0)
            &&& before & FINISH_BIT == 0 ==> final(mon).maze.square(cur.row as int, cur.col as int) == before | (guide.paint
                | guide.cache)
            &&& before & FINISH_BIT == 0 ==> final(mon).maze.square(cur.row as int, cur.col as int) & guide.paint == guide.paint
            &&& before & FINISH_BIT != 0 && before & CACHE_MASK == 0 ==> final(mon).maze.square(cur.row as int, cur.col as int)
                == before | (guide.paint | guide.cache)
            &&& before & FINISH_BIT != 0 && before & CACHE_MASK != 0 ==> final(mon).maze.square(cur.row as int, cur.col as int)
                == before | guide.cache
        },
{
    let ghost m0 = mon.maze;
    let ghost s0 = search.parents@;
    let ghost q0 = search.queue@;
    let cur = match search.queue.pop_front() {
        Some(c) => c,
        None => {
            return false;
        },
    };
    proof {
        assert(has_key(s0, q0[0]));
        let k = choose|k: int| 0 <= k < s0.len() && s0[k].0 == q0[0];
        assert(interior(&m0, s0[k].0));
        assert forall|t: int| 0 <= t < search.queue@.len() implies #[trigger] has_key(s0, search.queue@[t]) by {
            assert(search.queue@[t] == q0[t + 1]);
        }
    }
    let before = mon.maze.get(cur.row, cur.col);
    let finish = (before & FINISH_BIT) != 0;
    let first = (before & CACHE_MASK) == 0;
    proof {
        lemma_paint_kept(before, guide.paint, guide.cache);
        assert(m0.in_bounds(cur.row as int, cur.col as int));
    }
    if finish && first {
        paint_square(mon, cur, guide.paint | guide.cache, record, BURST);
        proof {
            lemma_search_same_grid(&m0, &mon.maze, s0, search.queue@);
        }
        return false;
    }
    let bits = if finish { guide.cache } else { guide.paint | guide.cache };
    paint_square(mon, cur, bits, record, BURST);
    proof {
        lemma_search_same_grid(&m0, &mon.maze, s0, search.queue@);
    }
    expand(&mon.maze, search, cur, guide.index);
    true
}


/// Whether some square will do for a solver to start or finish on.
pub fn has_valid(maze: &Maze) -> (b: bool)
    requires
        maze.wf(),
    ensures
        b == exists_valid(maze),
{
    let mut r: i32 = 1;
    while r < maze.rows() - 1
        invariant
            maze.wf(),
            1 <= r,
            forall|q: Point| 1 <= q.row < r ==> !#[trigger] valid_start_or_finish(maze, q),
        decreases maze.rows_spec() - r,
    {
        let mut c: i32 = 1;
        while c < maze.cols() - 1
            invariant
                maze.wf(),
                1 <= r < maze.rows_spec() - 1,
                1 <= c,
                forall|q: Point| (1 <= q.row < r || (q.row == r && q.col < c)) ==> !#[trigger] valid_start_or_finish(maze, q),
            decreases maze.cols_spec() - c,
        {
            let q = Point { row: r, col: c };
            if is_valid_start_or_finish(maze, q) {
                return true;
            }
            c = c + 1;
        }
        r = r + 1;
    }
    assert forall|q: Point| !valid_start_or_finish(maze, q) by {
        if valid_start_or_finish(maze, q) {
            assert(1 <= q.row < r);
        }
    }
    false
}

/// The square `p` of `m0` marked with `bits`, and the delta that records it.
pub open spec fn mark_delta(m0: &Maze, p: Point, bits: Square, burst: usize) -> Delta {
    Delta {
        id: p,
        before: m0.square(p.row as int, p.col as int),
        after: m0.square(p.row as int, p.col as int) | bits,
        burst,
    }
}

/// From `m0` to `m1` the distinct squares `marks[j]` took the bits
/// `bits[j]` and nothing else changed; when `record` the solve history
/// gained one delta per mark, in order, each with the burst `burst`.
pub open spec fn marked(m0: &Maze, m1: &Maze, marks: Seq<Point>, bits: Seq<Square>, record: bool, burst: usize) -> bool {
    &&& marks.len() == bits.len()
    &&& forall|i: int, j: int| 0 <= i < j < marks.len() ==> marks[i] != marks[j]
    &&& forall|j: int| 0 <= j < marks.len() ==> m0.in_bounds(#[trigger] marks[j].row as int, marks[j].col as int)
    &&& forall|r: int, c: int|
        m0.in_bounds(r, c) ==> #[trigger] m1.square(r, c) == if exists|j: int|
            0 <= j < marks.len() && marks[j] == crate::builders::cells::pt(r, c) {
            m0.square(r, c) | bits[choose|j: int| 0 <= j < marks.len() && marks[j] == crate::builders::cells::pt(r, c)]
        } else {
            m0.square(r, c)
        }
    &&& m1.solve_history.deltas() == if record {
        m0.solve_history.deltas() + Seq::new(marks.len(), |j: int| mark_delta(m0, marks[j], bits[j], burst))
    } else {
        m0.solve_history.deltas()
    }
}

/// One more distinct square marked keeps a record of the marks.
proof fn lemma_mark_more(
    m0: &Maze,
    m1: &Maze,
    m2: &Maze,
    marks: Seq<Point>,
    bits: Seq<Square>,
    p: Point,
    bit: Square,
    record: bool,
    burst: usize,
)
    requires
        m0.wf(),
        m1.same_shape(m0),
        marked(m0, m1, marks, bits, record, burst),
        forall|j: int| 0 <= j < marks.len() ==> marks[j] != p,
        point_in(m0, p),
        only_painted(m1, m2, p, bit),
        m2.solve_history.deltas() == if record {
            m1.solve_history.deltas().push(mark_delta(m1, p, bit, burst))
        } else {
            m1.solve_history.deltas()
        },
    ensures
        marked(m0, m2, marks.push(p), bits.push(bit), record, burst),
{
    let mk = marks.push(p);
    let bt = bits.push(bit);
    assert(m0.in_bounds(p.row as int, p.col as int));
    let pc = crate::builders::cells::pt(p.row as int, p.col as int);
    assert(pc == p);
    assert(!(exists|j: int| 0 <= j < marks.len() && marks[j] == pc));
    assert(m1.square(p.row as int, p.col as int) == m0.square(p.row as int, p.col as int));
    assert forall|i: int, j: int| 0 <= i < j < mk.len() implies mk[i] != mk[j] by {
        if j < marks.len() {
            assert(mk[i] == marks[i] && mk[j] == marks[j]);
        } else {
            assert(mk[i] == marks[i]);
        }
    }
    assert forall|j: int| 0 <= j < mk.len() implies m0.in_bounds(#[trigger] mk[j].row as int, mk[j].col as int) by {
        if j < marks.len() {
            assert(mk[j] == marks[j]);
        }
    }
    assert forall|r: int, c: int| m0.in_bounds(r, c) implies #[trigger] m2.square(r, c) == if exists|j: int|
        0 <= j < mk.len() && mk[j] == crate::builders::cells::pt(r, c) {
        m0.square(r, c) | bt[choose|j: int| 0 <= j < mk.len() && mk[j] == crate::builders::cells::pt(r, c)]
    } else {
        m0.square(r, c)
    } by {
        let q = crate::builders::cells::pt(r, c);
        assert(q.row == r && q.col == c);
        if r == p.row && c == p.col {
            assert(mk[marks.len() as int] == q);
            let j = choose|j: int| 0 <= j < mk.len() && mk[j] == q;
            if j < marks.len() {
                assert(mk[j] == marks[j]);
            }
            assert(j == marks.len());
        } else if exists|j: int| 0 <= j < marks.len() && marks[j] == q {
            let j0 = choose|j: int| 0 <= j < marks.len() && marks[j] == q;
            assert(mk[j0] == q);
            let j = choose|j: int| 0 <= j < mk.len() && mk[j] == q;
            assert(j < marks.len());
            assert(mk[j] == marks[j]);
            if j != j0 {
                assert(marks[j] != marks[j0]);
            }
            assert(bt[j] == bits[j]);
        } else {
            assert forall|j: int| 0 <= j < mk.len() implies mk[j] != q by {
                if j < marks.len() {
                    assert(mk[j] == marks[j]);
                }
            }
        }
    }
    if record {
        let f0 = Seq::new(marks.len(), |j: int| mark_delta(m0, marks[j], bits[j], burst));
        let f1 = Seq::new(mk.len(), |j: int| mark_delta(m0, mk[j], bt[j], burst));
        assert(mark_delta(m1, p, bit, burst) == mark_delta(m0, p, bit, burst));
        assert(f1 =~= f0.push(mark_delta(m0, p, bit, burst)));
        assert(m2.solve_history.deltas() =~= m0.solve_history.deltas() + f1);
    }
}

/// Marks a random start and then a random finish for a hunt, each change
/// recorded, when `record`, as a delta that claims a frame of `burst`.
/// `None` when no square was left to mark, with none left in the maze as it
/// ends.
pub fn hunt_setup(maze: &mut Maze, record: bool, burst: usize) -> (r: Option<Point>)
    requires
        old(maze).wf(),
        old(maze).rows_spec() >= 4,
        old(maze).cols_spec() >= 4,
        old(maze).solve_history.deltas().len() + 2 < usize::MAX,
    ensures
        final(maze).wf(),
        final(maze).same_shape(old(maze)),
        final(maze).build_history == old(maze).build_history,
        r matches Some(s) ==> valid_start_or_finish(old(maze), s) && final(maze).square(s.row as int, s.col as int)
            & START_BIT != 0,
        r matches Some(s) ==> exists|f: Point|
            valid_start_or_finish(old(maze), f) && marked(old(maze), final(maze), seq![s, f], seq![START_BIT, FINISH_BIT], record, burst),
        r is None ==> !exists_valid(final(maze)),
{
    if !has_valid(maze) {
        return None;
    }
    let start = pick_random_point(maze);
    let ghost m0 = *maze;
    mark(maze, start, START_BIT, record, burst);
    proof {
        lemma_start_bit(m0.square(start.row as int, start.col as int));
        assert(maze.square(start.row as int, start.col as int) == m0.square(start.row as int, start.col as int) | START_BIT);
    }
    if !has_valid(maze) {
        return None;
    }
    let finish = pick_random_point(maze);
    let ghost m1 = *maze;
    mark(maze, finish, FINISH_BIT, record, burst);
    proof {
        assert(valid_start_or_finish(&m1, finish));
        assert(finish != start);
        assert(maze.square(start.row as int, start.col as int) == m1.square(start.row as int, start.col as int));
        let marks = seq![start, finish];
        let bits = seq![START_BIT, FINISH_BIT];
        assert(m1.square(finish.row as int, finish.col as int) == m0.square(finish.row as int, finish.col as int));
        assert(valid_start_or_finish(&m0, finish));
        assert forall|r: int, c: int| m0.in_bounds(r, c) implies #[trigger] maze.square(r, c) == if exists|j: int|
            0 <= j < marks.len() && marks[j] == crate::builders::cells::pt(r, c) {
            m0.square(r, c) | bits[choose|j: int| 0 <= j < marks.len() && marks[j] == crate::builders::cells::pt(r, c)]
        } else {
            m0.square(r, c)
        } by {
            if r == start.row && c == start.col {
                assert(marks[0] == crate::builders::cells::pt(r, c));
                let j = choose|j: int| 0 <= j < marks.len() && marks[j] == crate::builders::cells::pt(r, c);
                assert(j == 0);
            } else if r == finish.row && c == finish.col {
                assert(marks[1] == crate::builders::cells::pt(r, c));
                let j = choose|j: int| 0 <= j < marks.len() && marks[j] == crate::builders::cells::pt(r, c);
                assert(j == 1);
            } else {
                assert forall|j: int| 0 <= j < marks.len() implies marks[j] != crate::builders::cells::pt(r, c) by {}
            }
        }
        if record {
            assert(maze.solve_history.deltas() =~= m0.solve_history.deltas() + Seq::new(
                marks.len(),
                |j: int| mark_delta(&m0, marks[j], bits[j], burst),
            ));
        }
        assert(marked(&m0, maze, marks, bits, record, burst));
    }
    Some(start)
}

/// What marking a start or a finish, or opening a square, does to its bits.
proof fn lemma_start_bit(x: Square)
    ensures
        (x | START_BIT) & START_BIT != 0,
        (x | FINISH_BIT) & FINISH_BIT != 0,
        (x | START_BIT) & (START_BIT | FINISH_BIT) != 0,
        (x | FINISH_BIT) & (START_BIT | FINISH_BIT) != 0,
        x & FINISH_BIT == 0 && x & START_BIT == 0 ==> x & (START_BIT | FINISH_BIT) == 0,
        ((x & !WALL_MASK) | PATH_BIT) & PATH_BIT != 0,
        x & START_BIT != 0 ==> ((x & !WALL_MASK) | PATH_BIT) & START_BIT != 0,
        ((x & !WALL_MASK) | FINISH_BIT | PATH_BIT) & FINISH_BIT != 0,
        ((x & !WALL_MASK) | FINISH_BIT | PATH_BIT) & PATH_BIT != 0,
        x & START_BIT != 0 ==> ((x & !WALL_MASK) | FINISH_BIT | PATH_BIT) & START_BIT != 0,
{
    assert({
        &&& (x | 0x4000_0000u32) & 0x4000_0000u32 != 0
        &&& (x | 0x8000_0000u32) & 0x8000_0000u32 != 0
        &&& (x | 0x4000_0000u32) & (0x4000_0000u32 | 0x8000_0000u32) != 0
        &&& (x | 0x8000_0000u32) & (0x4000_0000u32 | 0x8000_0000u32) != 0
        &&& (x & 0x8000_0000u32 == 0 && x & 0x4000_0000u32 == 0 ==> x & (0x4000_0000u32 | 0x8000_0000u32) == 0)
        &&& ((x & !0x0F00_0000u32) | 0x2000_0000u32) & 0x2000_0000u32 != 0
        &&& (x & 0x4000_0000u32 != 0 ==> ((x & !0x0F00_0000u32) | 0x2000_0000u32) & 0x4000_0000u32 != 0)
        &&& ((x & !0x0F00_0000u32) | 0x8000_0000u32 | 0x2000_0000u32) & 0x8000_0000u32 != 0
        &&& ((x & !0x0F00_0000u32) | 0x8000_0000u32 | 0x2000_0000u32) & 0x2000_0000u32 != 0
        &&& (x & 0x4000_0000u32 != 0 ==> ((x & !0x0F00_0000u32) | 0x8000_0000u32 | 0x2000_0000u32) & 0x4000_0000u32 != 0)
    }) by (bit_vector);
}

/// Marks a random start and then four random finishes for a gathering.
/// `None` when no square was left to mark, with none left in the maze as it
/// ends.
pub fn gather_setup(maze: &mut Maze, record: bool, burst: usize) -> (r: Option<Point>)
    requires
        old(maze).wf(),
        old(maze).rows_spec() >= 4,
        old(maze).cols_spec() >= 4,
        old(maze).solve_history.deltas().len() + 5 < usize::MAX,
    ensures
        final(maze).wf(),
        final(maze).same_shape(old(maze)),
        final(maze).build_history == old(maze).build_history,
        r matches Some(s) ==> valid_start_or_finish(old(maze), s) && final(maze).square(s.row as int, s.col as int)
            & START_BIT != 0,
        r matches Some(s) ==> exists|fs: Seq<Point>|
            fs.len() == NUM_GATHER_FINISHES && (forall|j: int| 0 <= j < fs.len() ==> valid_start_or_finish(
                old(maze),
                #[trigger] fs[j],
            )) && marked(
                old(maze),
                final(maze),
                seq![s] + fs,
                seq![START_BIT] + Seq::new(NUM_GATHER_FINISHES as nat, |j: int| FINISH_BIT),
                record,
                burst,
            ),
        r is None ==> !exists_valid(final(maze)),
{
    if !has_valid(maze) {
        return None;
    }
    let start = pick_random_point(maze);
    let ghost m0 = *maze;
    mark(maze, start, START_BIT, record, burst);
    let ghost mut fs: Seq<Point> = seq![];
    proof {
        lemma_start_bit(m0.square(start.row as int, start.col as int));
        assert(marked(&m0, &m0, seq![], seq![], record, burst)) by {
            assert(m0.solve_history.deltas() =~= m0.solve_history.deltas() + Seq::new(
                0,
                |j: int| mark_delta(&m0, seq![][j], seq![][j], burst),
            ));
        }
        lemma_mark_more(&m0, &m0, maze, seq![], seq![], start, START_BIT, record, burst);
        assert(seq![start] + fs =~= seq![].push(start));
        assert(seq![START_BIT] + Seq::new(0, |j: int| FINISH_BIT) =~= seq![].push(START_BIT));
    }
    let mut k: usize = 0;
    while k < NUM_GATHER_FINISHES
        invariant
            maze.wf(),
            maze.same_shape(old(maze)),
            maze.build_history == old(maze).build_history,
            maze.rows_spec() >= 4,
            maze.cols_spec() >= 4,
            k <= NUM_GATHER_FINISHES,
            maze.solve_history.deltas().len() + 4 - k < usize::MAX,
            valid_start_or_finish(old(maze), start),
            maze.square(start.row as int, start.col as int) & START_BIT != 0,
            maze.in_bounds(start.row as int, start.col as int),
            m0 == *old(maze),
            m0.wf(),
            fs.len() == k,
            forall|j: int| 0 <= j < fs.len() ==> valid_start_or_finish(old(maze), #[trigger] fs[j]),
            marked(
                old(maze),
                maze,
                seq![start] + fs,
                seq![START_BIT] + Seq::new(k as nat, |j: int| FINISH_BIT),
                record,
                burst,
            ),
        decreases NUM_GATHER_FINISHES - k,
    {
        if !has_valid(maze) {
            return None;
        }
        let finish = pick_random_point(maze);
        let ghost m1 = *maze;
        mark(maze, finish, FINISH_BIT, record, burst);
        proof {
            assert(finish != start);
            assert(maze.square(start.row as int, start.col as int) == m1.square(start.row as int, start.col as int));
            let mk = seq![start] + fs;
            let bt = seq![START_BIT] + Seq::new(k as nat, |j: int| FINISH_BIT);
            assert forall|j: int| 0 <= j < mk.len() implies mk[j] != finish by {
                let q = mk[j];
                assert(m0.in_bounds(q.row as int, q.col as int));
                let pc = crate::builders::cells::pt(q.row as int, q.col as int);
                assert(pc == q);
                assert(mk[j] == pc);
                let i = choose|i: int| 0 <= i < mk.len() && mk[i] == pc;
                lemma_start_bit(m0.square(q.row as int, q.col as int));
                assert(bt[i] == START_BIT || bt[i] == FINISH_BIT);
                assert((m0.square(q.row as int, q.col as int) | bt[i]) & (START_BIT | FINISH_BIT) != 0);
                if q == finish {
                    let y = m1.square(q.row as int, q.col as int);
                    assert(y & FINISH_BIT == 0 && y & START_BIT == 0);
                    lemma_start_bit(y);
                }
            }
            lemma_mark_more(&m0, &m1, maze, mk, bt, finish, FINISH_BIT, record, burst);
            let fs2 = fs.push(finish);
            assert(mk.push(finish) =~= seq![start] + fs2);
            assert(bt.push(FINISH_BIT) =~= seq![START_BIT] + Seq::new((k + 1) as nat, |j: int| FINISH_BIT));
            assert(valid_start_or_finish(&m1, finish));
            assert(m1.square(finish.row as int, finish.col as int) == m0.square(finish.row as int, finish.col as int)) by {
                if m1.square(finish.row as int, finish.col as int) != m0.square(finish.row as int, finish.col as int) {
                    let pc = crate::builders::cells::pt(finish.row as int, finish.col as int);
                    assert(pc == finish);
                }
            }
            assert forall|j: int| 0 <= j < fs2.len() implies valid_start_or_finish(old(maze), #[trigger] fs2[j]) by {
                if j < fs.len() {
                    assert(fs2[j] == fs[j]);
                }
            }
            fs = fs2;
        }
        k = k + 1;
    }
    Some(start)
}

/// The middle square of `m`, where the corner solvers finish.
pub open spec fn middle(m: &Maze) -> Point {
    Point { row: (m.rows_spec() / 2) as i32, col: (m.cols_spec() / 2) as i32 }
}

/// The `i`th of the eight squares around the middle of `m`.
pub open spec fn around_middle(m: &Maze, i: int) -> Point {
    let f = middle(m);
    let d = crate::maze::spec_any_direction(i);
    Point { row: (f.row + d.row) as i32, col: (f.col + d.col) as i32 }
}

/// Whether the corner setup with starts `s` may change the square at `r`, `c`.
pub open spec fn corner_touched(m: &Maze, s: Seq<Point>, r: int, c: int) -> bool {
    ||| exists|j: int| 0 <= j < 4 && s[j].row == r && s[j].col == c
    ||| exists|i: int| 0 <= i < 8 && around_middle(m, i).row == r && around_middle(m, i).col == c
    ||| r == middle(m).row && c == middle(m).col
}

/// The delta `d` records a write to `id` in a frame of `burst`.
pub open spec fn delta_is(d: Delta, id: Point, burst: usize) -> bool {
    d.id == id && d.burst == burst
}

/// From `m0` to `m1` the corner solvers were set up: `s` are the four
/// corner starts in corner order and `v` holds them in some order; each start
/// carries the start bit; the eight squares around the middle are open paths;
/// the middle is an open finish; no other square changed. When `record`, the
/// solve history gained thirteen deltas in the order the squares were written
/// (the starts, the eight around the middle, the middle), each with its write
/// and the burst `burst`; else it is unchanged.
pub open spec fn corner_opened(m0: &Maze, m1: &Maze, s: Seq<Point>, v: Seq<Point>, record: bool, burst: usize) -> bool {
    let n = m0.solve_history.deltas().len() as int;
    let ds = m1.solve_history.deltas();
    &&& s.len() == 4
    &&& forall|j: int| 0 <= j < 4 ==> corner_start(m0, j, #[trigger] s[j])
    &&& v.to_multiset() == s.to_multiset()
    &&& forall|j: int| 0 <= j < 4 ==> #[trigger] m1.square(s[j].row as int, s[j].col as int) & START_BIT != 0
    &&& forall|i: int| 0 <= i < 8 ==> #[trigger] m1.square(around_middle(m0, i).row as int, around_middle(m0, i).col as int) & PATH_BIT != 0
    &&& m1.square(middle(m0).row as int, middle(m0).col as int) & PATH_BIT != 0
    &&& m1.square(middle(m0).row as int, middle(m0).col as int) & FINISH_BIT != 0
    &&& forall|r: int, c: int| m0.in_bounds(r, c) && !corner_touched(m0, s, r, c) ==> #[trigger] m1.square(r, c) == m0.square(r, c)
    &&& if record {
        &&& ds.len() == n + 13
        &&& ds.subrange(0, n) == m0.solve_history.deltas()
        &&& forall|j: int| 0 <= j < 4 ==> #[trigger] delta_is(ds[n + j], s[j], burst)
            && ds[n + j].after == ds[n + j].before | START_BIT
        &&& forall|i: int| 0 <= i < 8 ==> #[trigger] delta_is(ds[n + 4 + i], around_middle(m0, i), burst)
            && ds[n + 4 + i].after == (ds[n + 4 + i].before & !WALL_MASK) | PATH_BIT
        &&& delta_is(ds[n + 12], middle(m0), burst)
        &&& ds[n + 12].after == (ds[n + 12].before & !WALL_MASK) | FINISH_BIT | PATH_BIT
    } else {
        ds == m0.solve_history.deltas()
    }
}

/// From `m0` to `m1` the corner solvers were set up with the starts `v`,
/// which are the four corner starts in some order.
pub open spec fn corner_set_up(m0: &Maze, m1: &Maze, v: Seq<Point>, record: bool, burst: usize) -> bool {
    exists|s: Seq<Point>| corner_opened(m0, m1, s, v, record, burst)
}

/// Marks each of `starts` with the start bit, in order, recording each
/// change when `record`.
fn mark_corner_starts(maze: &mut Maze, starts: &[Point; 4], record: bool, burst: usize)
    requires
        old(maze).wf(),
        forall|j: int| 0 <= j < 4 ==> interior(old(maze), #[trigger] starts@[j]),
        perimeter_walls(old(maze)),
        old(maze).solve_history.deltas().len() + 4 < usize::MAX,
    ensures
        final(maze).wf(),
        final(maze).same_shape(old(maze)),
        final(maze).build_history == old(maze).build_history,
        perimeter_walls(final(maze)),
        forall|j: int| 0 <= j < 4 ==> #[trigger] final(maze).square(starts@[j].row as int, starts@[j].col as int) & START_BIT != 0,
        forall|r: int, c: int| old(maze).in_bounds(r, c) && !(exists|j: int| 0 <= j < 4 && starts@[j].row == r && starts@[j].col == c)
            ==> #[trigger] final(maze).square(r, c) == old(maze).square(r, c),
        if record {
            let n = old(maze).solve_history.deltas().len() as int;
            let ds = final(maze).solve_history.deltas();
            &&& ds.len() == n + 4
            &&& ds.subrange(0, n) == old(maze).solve_history.deltas()
            &&& forall|j: int| 0 <= j < 4 ==> #[trigger] delta_is(ds[n + j], starts@[j], burst)
                && ds[n + j].after == ds[n + j].before | START_BIT
        } else {
            final(maze).solve_history.deltas() == old(maze).solve_history.deltas()
        },
{
    let ghost m0 = *maze;
    let ghost n: int = m0.solve_history.deltas().len() as int;
    let ghost s = starts@;
    let mut k: usize = 0;
    while k < 4
        invariant
            maze.wf(),
            maze.same_shape(&m0),
            maze.build_history == m0.build_history,
            k <= 4,
            maze.solve_history.deltas().len() + 4 - k < usize::MAX,
            perimeter_walls(maze),
            forall|j: int| 0 <= j < 4 ==> interior(&m0, #[trigger] starts@[j]),
            s == starts@,
            n == m0.solve_history.deltas().len(),
            forall|j: int| 0 <= j < k ==> #[trigger] maze.square(s[j].row as int, s[j].col as int) & START_BIT != 0,
            forall|r: int, c: int| m0.in_bounds(r, c) && !(exists|j: int| 0 <= j < k && s[j].row == r && s[j].col == c)
                ==> #[trigger] maze.square(r, c) == m0.square(r, c),
            if record {
                &&& maze.solve_history.deltas().len() == n + k
                &&& maze.solve_history.deltas().subrange(0, n) == m0.solve_history.deltas()
                &&& forall|j: int| 0 <= j < k ==> #[trigger] delta_is(maze.solve_history.deltas()[n + j], s[j], burst)
                    && maze.solve_history.deltas()[n + j].after == maze.solve_history.deltas()[n + j].before | START_BIT
            } else {
                maze.solve_history.deltas() == m0.solve_history.deltas()
            },
        decreases 4 - k,
    {
        let ghost ma = *maze;
        mark(maze, starts[k], START_BIT, record, burst);
        proof {
            lemma_inside_keeps_perimeter(&ma, maze, starts@[k as int]);
            let p = s[k as int];
            lemma_start_bit(ma.square(p.row as int, p.col as int));
            assert forall|j: int| 0 <= j < k + 1 implies #[trigger] maze.square(s[j].row as int, s[j].col as int) & START_BIT != 0 by {
                let q = s[j];
                assert(m0.in_bounds(q.row as int, q.col as int));
                if q.row != p.row || q.col != p.col {
                    assert(maze.square(q.row as int, q.col as int) == ma.square(q.row as int, q.col as int));
                }
            }
            assert forall|r: int, c: int| m0.in_bounds(r, c) && !(exists|j: int| 0 <= j < k + 1 && s[j].row == r && s[j].col == c)
                implies #[trigger] maze.square(r, c) == m0.square(r, c) by {
                assert(!(r == p.row && c == p.col));
                assert(maze.square(r, c) == ma.square(r, c));
            }
            if record {
                let ds = maze.solve_history.deltas();
                assert(ds.len() == n + k + 1);
                assert(ds.subrange(0, n) =~= ma.solve_history.deltas().subrange(0, n));
                assert forall|j: int| 0 <= j < k + 1 implies #[trigger] delta_is(ds[n + j], s[j], burst)
                    && ds[n + j].after == ds[n + j].before | START_BIT by {
                    if j < k {
                        assert(ds[n + j] == ma.solve_history.deltas()[n + j]);
                    }
                }
            }
        }
        k = k + 1;
    }
}

/// Opens the eight squares around the middle, in the order of the eight
/// directions, and then makes the middle an open finish, recording each
/// change when `record`. A start bit already set stays set.
fn open_middle(maze: &mut Maze, record: bool, burst: usize)
    requires
        old(maze).wf(),
        old(maze).rows_spec() >= 5,
        old(maze).cols_spec() >= 5,
        perimeter_walls(old(maze)),
        old(maze).solve_history.deltas().len() + 9 < usize::MAX,
    ensures
        final(maze).wf(),
        final(maze).same_shape(old(maze)),
        final(maze).build_history == old(maze).build_history,
        perimeter_walls(final(maze)),
        forall|r: int, c: int| old(maze).in_bounds(r, c) && old(maze).square(r, c) & START_BIT != 0
            ==> #[trigger] final(maze).square(r, c) & START_BIT != 0,
        forall|a: int| 0 <= a < 8 ==> #[trigger] final(maze).square(around_middle(old(maze), a).row as int, around_middle(old(maze), a).col as int) & PATH_BIT != 0,
        final(maze).square(middle(old(maze)).row as int, middle(old(maze)).col as int) & PATH_BIT != 0,
        final(maze).square(middle(old(maze)).row as int, middle(old(maze)).col as int) & FINISH_BIT != 0,
        forall|r: int, c: int| old(maze).in_bounds(r, c) && !(exists|a: int| 0 <= a < 8 && around_middle(old(maze), a).row == r && around_middle(old(maze), a).col == c)
            && !(r == middle(old(maze)).row && c == middle(old(maze)).col)
            ==> #[trigger] final(maze).square(r, c) == old(maze).square(r, c),
        if record {
            let n = old(maze).solve_history.deltas().len() as int;
            let ds = final(maze).solve_history.deltas();
            &&& ds.len() == n + 9
            &&& ds.subrange(0, n) == old(maze).solve_history.deltas()
            &&& forall|a: int| 0 <= a < 8 ==> #[trigger] delta_is(ds[n + a], around_middle(old(maze), a), burst)
                && ds[n + a].after == (ds[n + a].before & !WALL_MASK) | PATH_BIT
            &&& delta_is(ds[n + 8], middle(old(maze)), burst)
            &&& ds[n + 8].after == (ds[n + 8].before & !WALL_MASK) | FINISH_BIT | PATH_BIT
        } else {
            final(maze).solve_history.deltas() == old(maze).solve_history.deltas()
        },
{
    let ghost m0 = *maze;
    let ghost n: int = m0.solve_history.deltas().len() as int;
    let finish = Point { row: maze.rows() / 2, col: maze.cols() / 2 };
    let mut i: usize = 0;
    while i < 8
        invariant
            maze.wf(),
            maze.same_shape(&m0),
            maze.build_history == m0.build_history,
            i <= 8,
            maze.solve_history.deltas().len() + 9 - i < usize::MAX,
            perimeter_walls(maze),
            finish == middle(&m0),
            m0.rows_spec() >= 5,
            m0.cols_spec() >= 5,
            n == m0.solve_history.deltas().len(),
            forall|r: int, c: int| m0.in_bounds(r, c) && m0.square(r, c) & START_BIT != 0
                ==> #[trigger] maze.square(r, c) & START_BIT != 0,
            forall|a: int| 0 <= a < i ==> #[trigger] maze.square(around_middle(&m0, a).row as int, around_middle(&m0, a).col as int) & PATH_BIT != 0,
            forall|r: int, c: int| m0.in_bounds(r, c) && !(exists|a: int| 0 <= a < i && around_middle(&m0, a).row == r && around_middle(&m0, a).col == c)
                ==> #[trigger] maze.square(r, c) == m0.square(r, c),
            if record {
                &&& maze.solve_history.deltas().len() == n + i
                &&& maze.solve_history.deltas().subrange(0, n) == m0.solve_history.deltas()
                &&& forall|a: int| 0 <= a < i ==> #[trigger] delta_is(maze.solve_history.deltas()[n + a], around_middle(&m0, a), burst)
                    && maze.solve_history.deltas()[n + a].after == (maze.solve_history.deltas()[n + a].before & !WALL_MASK) | PATH_BIT
            } else {
                maze.solve_history.deltas() == m0.solve_history.deltas()
            },
        decreases 8 - i,
    {
        let d = any_direction(i);
        let next = Point { row: finish.row + d.row, col: finish.col + d.col };
        let ghost ma = *maze;
        let x = maze.get(next.row, next.col);
        set_square(maze, next, (x & !WALL_MASK) | PATH_BIT, record, burst);
        proof {
            assert(next == around_middle(&m0, i as int));
            lemma_inside_keeps_perimeter(&ma, maze, next);
            lemma_start_bit(x);
            assert forall|a: int| 0 <= a < i implies around_middle(&m0, a) != next by {}
            assert forall|r: int, c: int| m0.in_bounds(r, c) && m0.square(r, c) & START_BIT != 0
                implies #[trigger] maze.square(r, c) & START_BIT != 0 by {
                if r != next.row || c != next.col {
                    assert(maze.square(r, c) == ma.square(r, c));
                }
            }
            assert forall|a: int| 0 <= a < i + 1 implies #[trigger] maze.square(around_middle(&m0, a).row as int, around_middle(&m0, a).col as int) & PATH_BIT != 0 by {
                let q = around_middle(&m0, a);
                assert(m0.in_bounds(q.row as int, q.col as int));
                if a < i {
                    assert(q != next);
                    assert(maze.square(q.row as int, q.col as int) == ma.square(q.row as int, q.col as int));
                }
            }
            assert forall|r: int, c: int| m0.in_bounds(r, c) && !(exists|a: int| 0 <= a < i + 1 && around_middle(&m0, a).row == r && around_middle(&m0, a).col == c)
                implies #[trigger] maze.square(r, c) == m0.square(r, c) by {
                assert(!(r == next.row && c == next.col));
                assert(maze.square(r, c) == ma.square(r, c));
            }
            if record {
                let ds = maze.solve_history.deltas();
                assert(ds.len() == n + i + 1);
                assert(ds.subrange(0, n) =~= ma.solve_history.deltas().subrange(0, n));
                assert(ds[n + i] == Delta { id: next, before: x, after: (x & !WALL_MASK) | PATH_BIT, burst });
                assert forall|a: int| 0 <= a < i + 1 implies #[trigger] delta_is(ds[n + a], around_middle(&m0, a), burst)
                    && ds[n + a].after == (ds[n + a].before & !WALL_MASK) | PATH_BIT by {
                    if a < i {
                        assert(ds[n + a] == ma.solve_history.deltas()[n + a]);
                    }
                }
            }
        }
        i = i + 1;
    }
    let ghost mb = *maze;
    let x = maze.get(finish.row, finish.col);
    set_square(maze, finish, (x & !WALL_MASK) | FINISH_BIT | PATH_BIT, record, burst);
    proof {
        lemma_inside_keeps_perimeter(&mb, maze, finish);
        lemma_start_bit(x);
        assert(mb.in_bounds(finish.row as int, finish.col as int));
        assert forall|a: int| 0 <= a < 8 implies around_middle(&m0, a) != finish by {}
        assert forall|r: int, c: int| m0.in_bounds(r, c) && m0.square(r, c) & START_BIT != 0
            implies #[trigger] maze.square(r, c) & START_BIT != 0 by {
            if r != finish.row || c != finish.col {
                assert(maze.square(r, c) == mb.square(r, c));
            }
        }
        assert forall|a: int| 0 <= a < 8 implies #[trigger] maze.square(around_middle(&m0, a).row as int, around_middle(&m0, a).col as int) & PATH_BIT != 0 by {
            let q = around_middle(&m0, a);
            assert(q != finish);
            assert(maze.square(q.row as int, q.col as int) == mb.square(q.row as int, q.col as int));
        }
        assert forall|r: int, c: int| m0.in_bounds(r, c) && !(exists|a: int| 0 <= a < 8 && around_middle(&m0, a).row == r && around_middle(&m0, a).col == c)
            && !(r == finish.row && c == finish.col) implies #[trigger] maze.square(r, c) == m0.square(r, c) by {
            assert(maze.square(r, c) == mb.square(r, c));
        }
        if record {
            let ds = maze.solve_history.deltas();
            assert(ds.subrange(0, n) =~= mb.solve_history.deltas().subrange(0, n));
            assert forall|a: int| 0 <= a < 8 implies #[trigger] delta_is(ds[n + a], around_middle(&m0, a), burst)
                && ds[n + a].after == (ds[n + a].before & !WALL_MASK) | PATH_BIT by {
                assert(ds[n + a] == mb.solve_history.deltas()[n + a]);
            }
        }
    }
}

/// Marks a start near each corner, opens the eight squares around the middle
/// and makes the middle an open finish, then hands back the starts in a
/// random order. `None` when no square would do for a start.
pub fn corner_setup(maze: &mut Maze, record: bool, burst: usize) -> (r: Option<Vec<Point>>)
    requires
        old(maze).wf(),
        old(maze).rows_spec() >= 5,
        old(maze).cols_spec() >= 5,
        perimeter_walls(old(maze)),
        old(maze).solve_history.deltas().len() + 13 < usize::MAX,
    ensures
        final(maze).wf(),
        final(maze).same_shape(old(maze)),
        final(maze).build_history == old(maze).build_history,
        perimeter_walls(final(maze)),
        r is None ==> !exists_valid(old(maze)) && *final(maze) == *old(maze),
        r matches Some(v) ==> v@.len() == 4,
        r matches Some(v) ==> forall|k: int| 0 <= k < 4 ==> #[trigger] some_corner_start(old(maze), v@[k]),
        r matches Some(v) ==> corner_set_up(old(maze), final(maze), v@, record, burst),
{
    if !has_valid(maze) {
        return None;
    }
    let starts = set_corner_starts(maze);
    let ghost m0 = *maze;
    let ghost n: int = m0.solve_history.deltas().len() as int;
    let ghost s = starts@;
    mark_corner_starts(maze, &starts, record, burst);
    let ghost mk = *maze;
    open_middle(maze, record, burst);
    let mut order: Vec<Point> = Vec::new();
    order.push(starts[0]);
    order.push(starts[1]);
    order.push(starts[2]);
    order.push(starts[3]);
    let ghost before = order@;
    assert(before =~= starts@);
    assert(forall|j: int| 0 <= j < 4 ==> corner_start(old(maze), j, #[trigger] before[j]));
    shuffle(&mut order);
    proof {
        lemma_starts_kept(old(maze), before, order@);
        let m1 = *maze;
        assert(middle(&mk) == middle(&m0));
        assert forall|a: int| 0 <= a < 8 implies around_middle(&mk, a) == around_middle(&m0, a) by {}
        assert forall|j: int| 0 <= j < 4 implies #[trigger] m1.square(s[j].row as int, s[j].col as int) & START_BIT != 0 by {
            assert(mk.square(s[j].row as int, s[j].col as int) & START_BIT != 0);
            assert(m0.in_bounds(s[j].row as int, s[j].col as int));
        }
        assert forall|r: int, c: int| m0.in_bounds(r, c) && !corner_touched(&m0, s, r, c) implies #[trigger] m1.square(r, c) == m0.square(r, c) by {
            assert(!(exists|a: int| 0 <= a < 8 && around_middle(&mk, a).row == r && around_middle(&mk, a).col == c));
            assert(m1.square(r, c) == mk.square(r, c));
            assert(!(exists|j: int| 0 <= j < 4 && starts@[j].row == r && starts@[j].col == c));
        }
        if record {
            let ds = m1.solve_history.deltas();
            let dk = mk.solve_history.deltas();
            assert(ds.subrange(0, n) =~= dk.subrange(0, n));
            assert forall|j: int| 0 <= j < 4 implies #[trigger] delta_is(ds[n + j], s[j], burst)
                && ds[n + j].after == ds[n + j].before | START_BIT by {
                assert(dk.len() == n + 4);
                assert(ds.subrange(0, dk.len() as int) == dk);
                assert(ds.subrange(0, dk.len() as int)[n + j] == ds[n + j]);
                assert(ds[n + j] == dk[n + j]);
            }
            assert forall|a: int| 0 <= a < 8 implies #[trigger] delta_is(ds[n + 4 + a], around_middle(&m0, a), burst)
                && ds[n + 4 + a].after == (ds[n + 4 + a].before & !WALL_MASK) | PATH_BIT by {
                assert(delta_is(ds[(n + 4) + a], around_middle(&mk, a), burst));
            }
        }
        assert(order@.to_multiset() == s.to_multiset());
        assert(corner_opened(old(maze), maze, s, order@, record, burst));
        assert(corner_set_up(old(maze), maze, order@, record, burst));
    }
    Some(order)
}

/// `p` is the start of one of the four corners.
pub open spec fn some_corner_start(m: &Maze, p: Point) -> bool {
    exists|j: int| 0 <= j < 4 && corner_start(m, j, p)
}

/// Shuffling the corner starts keeps each of them a corner start.
proof fn lemma_starts_kept(m: &Maze, before: Seq<Point>, after: Seq<Point>)
    requires
        before.len() == 4,
        forall|j: int| 0 <= j < 4 ==> corner_start(m, j, #[trigger] before[j]),
        after.to_multiset() == before.to_multiset(),
        after.len() == 4,
    ensures
        forall|k: int| 0 <= k < 4 ==> #[trigger] some_corner_start(m, after[k]),
{
    broadcast use vstd::seq_lib::group_to_multiset_ensures;

    assert forall|k: int| 0 <= k < 4 implies #[trigger] some_corner_start(m, after[k]) by {
        assert(after.contains(after[k]));
        assert(before.to_multiset().count(after[k]) > 0);
        assert(before.contains(after[k]));
        let j = choose|j: int| 0 <= j < before.len() && before[j] == after[k];
        assert(corner_start(m, j, before[j]));
    }
}

/// Changing one square inside the edge keeps the edge walled.
proof fn lemma_inside_keeps_perimeter(m0: &Maze, m1: &Maze, p: Point)
    requires
        perimeter_walls(m0),
        m1.same_shape(m0),
        interior(m0, p),
        forall|r: int, c: int| m0.in_bounds(r, c) && (r != p.row || c != p.col) ==> #[trigger] m1.square(r, c) == m0.square(r, c),
    ensures
        perimeter_walls(m1),
{
    assert forall|r: int, c: int|
        m1.in_bounds(r, c) && !(0 < r < m1.rows_spec() - 1 && 0 < c < m1.cols_spec() - 1) implies crate::maze::spec_is_wall(
        #[trigger] m1.square(r, c),
    ) by {
        assert(m0.square(r, c) == m1.square(r, c));
    }
}

/// Claims every delta from `from` on as a frame of one.
fn tidy_bursts(maze: &mut Maze, from: usize)
    requires
        from <= old(maze).solve_history.deltas().len(),
    ensures
        final(maze).solve_history.pos() == old(maze).solve_history.pos(),
        old(maze).wf() ==> final(maze).wf(),
        final(maze).maze == old(maze).maze,
        final(maze).build_history == old(maze).build_history,
        final(maze).solve_history.deltas().len() == old(maze).solve_history.deltas().len(),
        forall|k: int| 0 <= k < old(maze).solve_history.deltas().len() ==> {
            let d0 = old(maze).solve_history.deltas()[k];
            let d1 = #[trigger] final(maze).solve_history.deltas()[k];
            &&& d1.id == d0.id
            &&& d1.before == d0.before
            &&& d1.after == d0.after
            &&& d1.burst == if k < from { d0.burst } else { 1 }
        },
{
    let mut k = from;
    let n = maze.solve_history.len();
    while k < n
        invariant
            from <= k <= n,
            n == old(maze).solve_history.deltas().len(),
            maze.maze == old(maze).maze,
            maze.build_history == old(maze).build_history,
            maze.solve_history.deltas().len() == n,
            maze.solve_history.pos() == old(maze).solve_history.pos(),
            forall|j: int| 0 <= j < n ==> {
                let d0 = old(maze).solve_history.deltas()[j];
                let d1 = #[trigger] maze.solve_history.deltas()[j];
                &&& d1.id == d0.id
                &&& d1.before == d0.before
                &&& d1.after == d0.after
                &&& d1.burst == if j < from || j >= k { d0.burst } else { 1 }
            },
        decreases n - k,
    {
        let d = maze.solve_history.index_mut(k);
        d.burst = 1;
        k = k + 1;
    }
}

/// A square with its thread bits replaced by `paint`.
pub open spec fn paint_over(x: Square, paint: Square) -> Square {
    (x & !THREAD_MASK) | paint
}

/// The squares after the first `t` entries of the winning path are laid over
/// the thread colors, one after another.
pub open spec fn laid(s: Seq<Square>, cols: int, path: Seq<(Point, Square)>, t: nat) -> Seq<Square>
    decreases t,
{
    if t == 0 {
        s
    } else {
        let s0 = laid(s, cols, path, (t - 1) as nat);
        let p = path[t - 1].0;
        let k = crate::maze::cell_index(p.row as int, p.col as int, cols);
        s0.update(k, paint_over(s0[k], path[t - 1].1))
    }
}

/// Laying paths keeps the length of the buffer.
proof fn lemma_laid_len(s: Seq<Square>, cols: int, path: Seq<(Point, Square)>, t: nat)
    requires
        t <= path.len(),
        forall|u: int| 0 <= u < t ==> 0 <= #[trigger] crate::maze::cell_index(path[u].0.row as int, path[u].0.col as int, cols) < s.len(),
    ensures
        laid(s, cols, path, t).len() == s.len(),
    decreases t,
{
    if t > 0 {
        lemma_laid_len(s, cols, path, (t - 1) as nat);
    }
}

/// Replacing the thread bits of a square by a paint leaves that paint's
/// thread bits, whatever threads had painted the square.
pub proof fn lemma_paint_over_bits(x: Square, paint: Square)
    ensures
        paint_over(x, paint) & THREAD_MASK == paint & THREAD_MASK,
{
    assert(((x & !0xFF_FFFFu32) | paint) & 0xFF_FFFFu32 == paint & 0xFF_FFFFu32) by (bit_vector);
}

/// Laying the winning path leaves each of its squares in the thread color
/// the path gives it last, whatever colors the threads left there.
pub proof fn lemma_laid_paints(s: Seq<Square>, cols: int, path: Seq<(Point, Square)>, t: nat, j: int)
    requires
        0 <= j < t <= path.len(),
        forall|u: int| 0 <= u < t ==> 0 <= #[trigger] path[u].0.col < cols,
        forall|u: int| j < u < t ==> #[trigger] path[u].0 != path[j].0,
        forall|u: int| 0 <= u < t ==> 0 <= #[trigger] crate::maze::cell_index(path[u].0.row as int, path[u].0.col as int, cols) < s.len(),
    ensures
        laid(s, cols, path, t)[crate::maze::cell_index(path[j].0.row as int, path[j].0.col as int, cols)] & THREAD_MASK
            == path[j].1 & THREAD_MASK,
    decreases t,
{
    let kj = crate::maze::cell_index(path[j].0.row as int, path[j].0.col as int, cols);
    assert(0 <= kj < s.len());
    lemma_laid_len(s, cols, path, (t - 1) as nat);
    let s0 = laid(s, cols, path, (t - 1) as nat);
    let p = path[t - 1].0;
    let k = crate::maze::cell_index(p.row as int, p.col as int, cols);
    assert(0 <= k < s.len());
    if j == t - 1 {
        lemma_paint_over_bits(s0[kj], path[j].1);
    } else {
        assert(path[t - 1].0 != path[j].0);
        assert(0 <= path[j].0.col < cols);
        crate::maze::lemma_cell_index_injective(p.row as int, p.col as int, path[j].0.row as int, path[j].0.col as int, cols);
        lemma_laid_paints(s, cols, path, (t - 1) as nat, j);
    }
}

/// The deltas that record laying the first `t` entries of the winning path,
/// each a frame of its own, read from the squares as laid so far when
/// `write`, else from the squares as they were.
pub open spec fn race_deltas(s: Seq<Square>, cols: int, path: Seq<(Point, Square)>, t: nat, write: bool) -> Seq<Delta>
    decreases t,
{
    if t == 0 {
        seq![]
    } else {
        let cur = if write { laid(s, cols, path, (t - 1) as nat) } else { s };
        let p = path[t - 1].0;
        let x = cur[crate::maze::cell_index(p.row as int, p.col as int, cols)];
        race_deltas(s, cols, path, (t - 1) as nat, write).push(
            Delta { id: p, before: x, after: paint_over(x, path[t - 1].1), burst: 1 },
        )
    }
}

/// Where the tidying of a race's deltas starts: the first delta of the frame
/// left unfilled, or the one after it.
pub open spec fn race_tidy_from(len: int, tidy_from_second: bool) -> int {
    if tidy_from_second {
        len - len % (BURST as int) + 1
    } else {
        len - len % (BURST as int)
    }
}

/// After a hunt or a corner race: frames the deltas that do not fill a frame
/// of four when `record`, then lays the winning path over the thread
/// colors, as deltas when `record` and on the squares when `write`.
pub fn finish_race(mon: &mut Monitor, record: bool, write: bool, tidy_from_second: bool)
    requires
        old(mon).maze.wf(),
        forall|t: int| 0 <= t < old(mon).win_path@.len() ==> point_in(&old(mon).maze, #[trigger] old(mon).win_path@[t].0),
        old(mon).maze.solve_history.deltas().len() + old(mon).win_path@.len() < usize::MAX,
    ensures
        final(mon).maze.wf(),
        final(mon).maze.same_shape(&old(mon).maze),
        final(mon).maze.build_history == old(mon).maze.build_history,
        final(mon).win == old(mon).win,
        final(mon).win_path@ == old(mon).win_path@,
        final(mon).map == old(mon).map,
        final(mon).count == old(mon).count,
        final(mon).maze.solve_history.deltas().len() == old(mon).maze.solve_history.deltas().len() + if record {
            old(mon).win_path@.len()
        } else {
            0
        },
        !write ==> final(mon).maze.squares() == old(mon).maze.squares(),
        write ==> final(mon).maze.squares() == laid(
            old(mon).maze.squares(),
            old(mon).maze.cols_spec(),
            old(mon).win_path@,
            old(mon).win_path@.len(),
        ),
        write ==> forall|j: int|
            0 <= j < old(mon).win_path@.len() && (forall|u: int|
                j < u < old(mon).win_path@.len() ==> #[trigger] old(mon).win_path@[u].0 != old(mon).win_path@[j].0) ==> #[trigger] (
            final(mon).maze.square(old(mon).win_path@[j].0.row as int, old(mon).win_path@[j].0.col as int) & THREAD_MASK)
                == old(mon).win_path@[j].1 & THREAD_MASK,
        !record ==> final(mon).maze.solve_history.deltas() == old(mon).maze.solve_history.deltas(),
        record ==> final(mon).maze.solve_history.deltas().subrange(
            old(mon).maze.solve_history.deltas().len() as int,
            final(mon).maze.solve_history.deltas().len() as int,
        ) == race_deltas(
            old(mon).maze.squares(),
            old(mon).maze.cols_spec(),
            old(mon).win_path@,
            old(mon).win_path@.len(),
            write,
        ),
        record ==> forall|k: int| 0 <= k < old(mon).maze.solve_history.deltas().len() ==> {
            let n = old(mon).maze.solve_history.deltas().len() as int;
            let d0 = old(mon).maze.solve_history.deltas()[k];
            let d1 = #[trigger] final(mon).maze.solve_history.deltas()[k];
            &&& d1.id == d0.id
            &&& d1.before == d0.before
            &&& d1.after == d0.after
            &&& d1.burst == if n % (BURST as int) != 0 && k >= race_tidy_from(n, tidy_from_second) {
                1
            } else {
                d0.burst
            }
        },
{
    let ghost s0 = mon.maze.squares();
    let ghost cols = mon.maze.cols_spec();
    let ghost n0 = mon.maze.solve_history.deltas().len() as int;
    if record {
        let len = mon.maze.solve_history.len();
        if len % BURST != 0 {
            let from = if tidy_from_second { len - (len % BURST) + 1 } else { len - (len % BURST) };
            tidy_bursts(&mut mon.maze, from);
        }
    }
    let ghost tidied = mon.maze.solve_history.deltas();
    let mut t: usize = 0;
    let n = mon.win_path.len();
    proof {
        assert(mon.maze.solve_history.deltas().subrange(0, n0) =~= tidied);
        assert(mon.maze.solve_history.deltas().subrange(n0, n0) =~= race_deltas(s0, cols, mon.win_path@, 0, write));
    }
    while t < n
        invariant
            mon.maze.wf(),
            mon.maze.same_shape(&old(mon).maze),
            mon.maze.build_history == old(mon).maze.build_history,
            mon.win == old(mon).win,
            mon.win_path@ == old(mon).win_path@,
            mon.map == old(mon).map,
            mon.count == old(mon).count,
            n == mon.win_path@.len(),
            t <= n,
            cols == old(mon).maze.cols_spec(),
            s0 == old(mon).maze.squares(),
            n0 == old(mon).maze.solve_history.deltas().len(),
            tidied.len() == n0,
            forall|j: int| 0 <= j < mon.win_path@.len() ==> point_in(&old(mon).maze, #[trigger] mon.win_path@[j].0),
            mon.maze.solve_history.deltas().len() == old(mon).maze.solve_history.deltas().len() + if record {
                t as int
            } else {
                0
            },
            old(mon).maze.solve_history.deltas().len() + n < usize::MAX,
            !write ==> mon.maze.squares() == s0,
            write ==> mon.maze.squares() == laid(s0, cols, mon.win_path@, t as nat),
            mon.maze.solve_history.deltas().subrange(0, n0) == tidied,
            record ==> mon.maze.solve_history.deltas().subrange(n0, mon.maze.solve_history.deltas().len() as int)
                == race_deltas(s0, cols, mon.win_path@, t as nat, write),
            !record ==> mon.maze.solve_history.deltas() == old(mon).maze.solve_history.deltas(),
        decreases n - t,
    {
        let (p, paint) = mon.win_path[t];
        let square = mon.maze.get(p.row, p.col);
        let after = (square & !THREAD_MASK) | paint;
        let ghost d_before = mon.maze.solve_history.deltas();
        proof {
            mon.maze.maze.lemma_index(p.row as int, p.col as int);
            assert(square == (if write { laid(s0, cols, mon.win_path@, t as nat) } else { s0 })[
                crate::maze::cell_index(p.row as int, p.col as int, cols)]);
        }
        if record {
            mon.maze.solve_history.push(Delta { id: p, before: square, after, burst: 1 });
            proof {
                assert(mon.maze.solve_history.deltas().subrange(0, n0) =~= d_before.subrange(0, n0));
                assert(mon.maze.solve_history.deltas().subrange(n0, mon.maze.solve_history.deltas().len() as int)
                    =~= d_before.subrange(n0, d_before.len() as int).push(Delta { id: p, before: square, after, burst: 1 }));
            }
        }
        if write {
            mon.maze.set(p.row, p.col, after);
        }
        t = t + 1;
    }
    proof {
        if write {
            let path = mon.win_path@;
            assert forall|j: int|
                0 <= j < path.len() && (forall|u: int| j < u < path.len() ==> #[trigger] path[u].0 != path[j].0) implies #[trigger] (
            mon.maze.square(path[j].0.row as int, path[j].0.col as int) & THREAD_MASK) == path[j].1 & THREAD_MASK by {
                let q = path[j].0;
                assert(point_in(&old(mon).maze, q));
                old(mon).maze.maze.lemma_index(q.row as int, q.col as int);
                assert forall|u: int| 0 <= u < path.len() implies 0 <= #[trigger] path[u].0.col < cols by {
                    assert(point_in(&old(mon).maze, path[u].0));
                }
                assert forall|u: int| 0 <= u < path.len() implies 0 <= #[trigger] crate::maze::cell_index(
                    path[u].0.row as int,
                    path[u].0.col as int,
                    cols,
                ) < s0.len() by {
                    assert(point_in(&old(mon).maze, path[u].0));
                    old(mon).maze.maze.lemma_index(path[u].0.row as int, path[u].0.col as int);
                }
                lemma_laid_paints(s0, cols, path, path.len() as nat, j);
            }
        }
        if record {
            assert forall|k: int| 0 <= k < n0 implies #[trigger] mon.maze.solve_history.deltas()[k] == tidied[k] by {
                assert(mon.maze.solve_history.deltas().subrange(0, n0)[k] == mon.maze.solve_history.deltas()[k]);
            }
        }
    }
}

/// After a gathering: frames the deltas that do not fill a frame of four.
pub fn finish_gather(mon: &mut Monitor)
    ensures
        final(mon).maze.maze == old(mon).maze.maze,
        final(mon).maze.build_history == old(mon).maze.build_history,
        final(mon).maze.solve_history.pos() == old(mon).maze.solve_history.pos(),
        old(mon).maze.wf() ==> final(mon).maze.wf(),
        final(mon).maze.solve_history.deltas().len() == old(mon).maze.solve_history.deltas().len(),
        forall|k: int| 0 <= k < old(mon).maze.solve_history.deltas().len() ==> {
            let n = old(mon).maze.solve_history.deltas().len();
            let d0 = old(mon).maze.solve_history.deltas()[k];
            let d1 = #[trigger] final(mon).maze.solve_history.deltas()[k];
            &&& d1.id == d0.id
            &&& d1.before == d0.before
            &&& d1.after == d0.after
            &&& d1.burst == if k < n - n % (BURST as nat) { d0.burst } else { 1 }
        },
        final(mon).win == old(mon).win,
        final(mon).win_path == old(mon).win_path,
        final(mon).map == old(mon).map,
        final(mon).count == old(mon).count,
{
    let len = mon.maze.solve_history.len();
    if len % BURST != 0 {
        tidy_bursts(&mut mon.maze, len - (len % BURST));
    }
}

} // verus!
