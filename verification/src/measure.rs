use vstd::prelude::*;
use std::collections::VecDeque;
use crate::builders::build_ops::{perimeter_walls, point_in, sq};
use crate::maze::{lemma_cell_index_injective, spec_is_wall, Maze, Point, Square, PATH_BIT};
use crate::monitor::MaxMap;
use crate::painters::MEASURED;

verus! {

/// The square has been reached by a measure.
pub open spec fn measured(x: Square) -> bool {
    x & MEASURED != 0
}

/// `b` is one square north, east, south or west of `a`.
pub open spec fn adjacent(a: Point, b: Point) -> bool {
    ||| a.row == b.row && (b.col == a.col + 1 || b.col == a.col - 1)
    ||| a.col == b.col && (b.row == a.row + 1 || b.row == a.row - 1)
}

/// The square a measure starts from: the middle of the grid, moved to an
/// odd row and column.
pub open spec fn spec_center(maze: &Maze) -> Point {
    let rm = maze.rows_spec() / 2;
    let cm = maze.cols_spec() / 2;
    Point { row: (rm + 1 - rm % 2) as i32, col: (cm + 1 - cm % 2) as i32 }
}

/// The square a measure starts from.
pub fn center_point(maze: &Maze) -> (p: Point)
    requires
        maze.wf(),
    ensures
        p == spec_center(maze),
{
    let rm = maze.rows() / 2;
    let cm = maze.cols() / 2;
    Point { row: rm + 1 - rm % 2, col: cm + 1 - cm % 2 }
}

/// The number of squares not measured yet.
pub open spec fn unmeasured_count(s: Seq<Square>) -> nat
    decreases s.len(),
{
    if s.len() == 0 {
        0
    } else {
        unmeasured_count(s.drop_last()) + if measured(s.last()) { 0nat } else { 1nat }
    }
}

proof fn lemma_unmeasured_count(a: Seq<Square>, b: Seq<Square>, k0: int)
    requires
        a.len() == b.len(),
        forall|k: int| 0 <= k < a.len() && measured(#[trigger] a[k]) ==> measured(b[k]),
    ensures
        unmeasured_count(b) <= unmeasured_count(a),
        0 <= k0 < a.len() && !measured(a[k0]) && measured(b[k0]) ==> unmeasured_count(b) < unmeasured_count(a),
        unmeasured_count(a) <= a.len(),
    decreases a.len(),
{
    if a.len() > 0 {
        let a1 = a.drop_last();
        let b1 = b.drop_last();
        assert forall|k: int| 0 <= k < a1.len() && measured(#[trigger] a1[k]) implies measured(b1[k]) by {
            assert(a1[k] == a[k] && b1[k] == b[k]);
        }
        lemma_unmeasured_count(a1, b1, k0);
        assert(measured(a.last()) ==> measured(b.last()));
        if 0 <= k0 < a1.len() {
            assert(a1[k0] == a[k0] && b1[k0] == b[k0]);
        }
    }
}

proof fn lemma_measured_bits(x: Square)
    ensures
        measured(x | MEASURED),
        spec_is_wall(x | MEASURED) == spec_is_wall(x),
        measured(x) ==> x | MEASURED == x,
{
    assert((x | 0x0200_0000u32) & 0x0200_0000u32 != 0 && (x | 0x0200_0000u32) & 0x2000_0000u32 == x & 0x2000_0000u32
        && (x & 0x0200_0000u32 != 0 ==> x | 0x0200_0000u32 == x)) by (bit_vector);
}

/// Marks `p` measured.
fn mark_measured(maze: &mut Maze, p: Point)
    requires
        old(maze).wf(),
        point_in(old(maze), p),
    ensures
        final(maze).wf(),
        final(maze).same_shape(old(maze)),
        final(maze).build_history == old(maze).build_history,
        final(maze).solve_history == old(maze).solve_history,
        final(maze).squares() == old(maze).squares().update(
            old(maze).maze.index_of(p.row as int, p.col as int),
            sq(old(maze), p) | MEASURED,
        ),
        forall|r: int, c: int|
            old(maze).in_bounds(r, c) ==> #[trigger] final(maze).square(r, c) == if r == p.row && c == p.col {
                old(maze).square(r, c) | MEASURED
            } else {
                old(maze).square(r, c)
            },
{
    let ghost m0 = *maze;
    let x = maze.get(p.row, p.col);
    maze.set(p.row, p.col, x | MEASURED);
    proof {
        assert forall|r: int, c: int| m0.in_bounds(r, c) implies #[trigger] maze.square(r, c) == if r == p.row && c
            == p.col {
            m0.square(r, c) | MEASURED
        } else {
            m0.square(r, c)
        } by {
            m0.maze.lemma_index(r, c);
            m0.maze.lemma_index(p.row as int, p.col as int);
            if r != p.row || c != p.col {
                lemma_cell_index_injective(r, c, p.row as int, p.col as int, m0.cols_spec());
            }
        }
    }
}

/// The step toward north, east, south or west.
pub open spec fn spec_cardinal(i: int) -> Point {
    if i == 0 {
        Point { row: -1i32, col: 0 }
    } else if i == 1 {
        Point { row: 0, col: 1 }
    } else if i == 2 {
        Point { row: 1, col: 0 }
    } else {
        Point { row: 0, col: -1i32 }
    }
}

fn cardinal(i: usize) -> (p: Point)
    requires
        i < 4,
    ensures
        p == spec_cardinal(i as int),
{
    if i == 0 {
        Point { row: -1, col: 0 }
    } else if i == 1 {
        Point { row: 0, col: 1 }
    } else if i == 2 {
        Point { row: 1, col: 0 }
    } else {
        Point { row: 0, col: -1 }
    }
}

/// What a measure keeps of the maze: only measured bits are added.
pub open spec fn only_measured(old: &Maze, new: &Maze) -> bool {
    &&& new.wf()
    &&& new.same_shape(old)
    &&& new.build_history == old.build_history
    &&& new.solve_history == old.solve_history
    &&& forall|r: int, c: int|
        old.in_bounds(r, c) ==> #[trigger] new.square(r, c) == old.square(r, c) || new.square(r, c) == old.square(
            r,
            c,
        ) | MEASURED
}

/// The entries of a measure: the start first at zero, no square twice,
/// each entry measured, and each later entry a path square reached from an
/// earlier neighbor; every square the measure reached is an entry.
pub open spec fn measure_tree(old: &Maze, new: &Maze, e: Seq<(Point, u64)>, start: Point) -> bool {
    &&& e.len() >= 1
    &&& e[0] == (start, 0u64)
    &&& forall|k: int| 0 <= k < e.len() ==> point_in(old, #[trigger] e[k].0) && measured(sq(new, e[k].0))
    &&& forall|i: int, j: int| 0 <= i < j < e.len() ==> e[i].0 != e[j].0
    &&& forall|k: int|
        1 <= k < e.len() ==> !measured(sq(old, #[trigger] e[k].0)) && !spec_is_wall(sq(old, e[k].0)) && exists|j: int|
            0 <= j < k && adjacent(e[j].0, e[k].0)
    &&& forall|r: int, c: int|
        old.in_bounds(r, c) && measured(#[trigger] new.square(r, c)) && !measured(old.square(r, c)) ==> exists|k: int|
            0 <= k < e.len() && e[k].0 == Point { row: r as i32, col: c as i32 }
}

/// `j` is the earliest entry next to the entry `k`: breadth first, the
/// entry `k` was reached from it.
pub open spec fn is_earliest(e: Seq<(Point, u64)>, j: int, k: int) -> bool {
    &&& 0 <= j < k < e.len()
    &&& adjacent(e[j].0, e[k].0)
    &&& forall|i: int| 0 <= i < j ==> !#[trigger] adjacent(e[i].0, e[k].0)
}

/// The entry that the entry `k` was reached from.
pub open spec fn earliest_neighbor(e: Seq<(Point, u64)>, k: int) -> int {
    choose|j: int| is_earliest(e, j, k)
}

/// The square the walk to the entry `j` came from: the start for the start.
pub open spec fn came_from(e: Seq<(Point, u64)>, j: int) -> Point {
    if j == 0 {
        e[0].0
    } else {
        e[earliest_neighbor(e, j)].0
    }
}

/// The value of the entry `k` reached from the entry `j`: one more step, or
/// for a run the length the turn or the straight way gives.
pub open spec fn step_value(e: Seq<(Point, u64)>, j: int, k: int, runs: bool) -> int {
    if runs {
        spec_next_run(came_from(e, j), e[k].0, e[j].1) as int
    } else {
        e[j].1 + 1
    }
}

/// Each entry after the first was reached from its earliest neighbor in the
/// order and holds the value that neighbor gives it.
pub open spec fn measure_steps(e: Seq<(Point, u64)>, runs: bool) -> bool {
    forall|k: int|
        1 <= k < e.len() ==> is_earliest(e, #[trigger] earliest_neighbor(e, k), k) && e[k].1 == step_value(
            e,
            earliest_neighbor(e, k),
            k,
            runs,
        )
}

/// Each distance is one more than that of the neighbor it was reached from.
pub open spec fn distance_steps(e: Seq<(Point, u64)>) -> bool {
    measure_steps(e, false)
}

/// Each run length is one more than that of the neighbor it was reached
/// from where the way goes straight on through that neighbor, and one where
/// it turns.
pub open spec fn run_steps(e: Seq<(Point, u64)>) -> bool {
    measure_steps(e, true)
}

proof fn lemma_earliest_unique(e: Seq<(Point, u64)>, j1: int, j2: int, k: int)
    requires
        is_earliest(e, j1, k),
        is_earliest(e, j2, k),
    ensures
        j1 == j2,
{
    if j1 < j2 {
        assert(!adjacent(e[j1].0, e[k].0));
    } else if j2 < j1 {
        assert(!adjacent(e[j2].0, e[k].0));
    }
}

/// The earliest neighbor of an entry is the one that witnesses it.
proof fn lemma_earliest_is(e: Seq<(Point, u64)>, j: int, k: int)
    requires
        is_earliest(e, j, k),
    ensures
        earliest_neighbor(e, k) == j,
{
    let c = earliest_neighbor(e, k);
    lemma_earliest_unique(e, c, j, k);
}

/// Entries appended after the entry `k` change neither its earliest
/// neighbor nor where the walk to it came from.
proof fn lemma_earliest_prefix(e: Seq<(Point, u64)>, e1: Seq<(Point, u64)>, k: int, runs: bool)
    requires
        e.len() <= e1.len(),
        forall|i: int| 0 <= i < e.len() ==> #[trigger] e1[i] == e[i],
        measure_steps(e, runs),
        0 <= k < e.len(),
    ensures
        came_from(e1, k) == came_from(e, k),
        k >= 1 ==> earliest_neighbor(e1, k) == earliest_neighbor(e, k),
        k >= 1 ==> is_earliest(e1, earliest_neighbor(e1, k), k),
        k >= 1 ==> step_value(e1, earliest_neighbor(e, k), k, runs) == step_value(e, earliest_neighbor(e, k), k, runs),
{
    assert(e1[0] == e[0]);
    if k >= 1 {
        let j = earliest_neighbor(e, k);
        assert(is_earliest(e, j, k));
        assert(e1[j] == e[j] && e1[k] == e[k]);
        assert forall|i: int| 0 <= i < j implies !#[trigger] adjacent(e1[i].0, e1[k].0) by {
            assert(e1[i] == e[i]);
        }
        assert(is_earliest(e1, j, k));
        lemma_earliest_is(e1, j, k);
        if j >= 1 {
            let jj = earliest_neighbor(e, j);
            assert(is_earliest(e, jj, j));
            assert(e1[jj] == e[jj] && e1[j] == e[j]);
            assert forall|i: int| 0 <= i < jj implies !#[trigger] adjacent(e1[i].0, e1[j].0) by {
                assert(e1[i] == e[i]);
            }
            assert(is_earliest(e1, jj, j));
            lemma_earliest_is(e1, jj, j);
        }
    }
}

/// The square one step from `p` in the direction `i`.
pub open spec fn step1(p: Point, i: int) -> Point {
    Point { row: (p.row + spec_cardinal(i).row) as i32, col: (p.col + spec_cardinal(i).col) as i32 }
}

/// The path square one step from `p` in the direction `i`, if any, was
/// reached.
pub open spec fn neighbor_reached(old: &Maze, new: &Maze, p: Point, i: int) -> bool {
    let n = step1(p, i);
    point_in(old, n) && !spec_is_wall(sq(old, n)) ==> measured(sq(new, n))
}


/// A square of a run-length measure in the queue: its run length, the square
/// it was reached from and the square itself.
#[derive(Clone, Copy)]
pub struct RunPoint {
    pub len: u64,
    pub prev: Point,
    pub cur: Point,
}

/// The queue holds the entries from `h` on, in order.
pub open spec fn queue_follows(q: Seq<RunPoint>, e: Seq<(Point, u64)>, h: int) -> bool {
    &&& 0 <= h <= e.len()
    &&& q.len() == e.len() - h
    &&& forall|t: int|
        0 <= t < q.len() ==> #[trigger] q[t].cur == e[h + t].0 && q[t].len == e[h + t].1 && q[t].prev == came_from(
            e,
            h + t,
        )
}

/// A step from `prev` through the current square to `next` goes straight
/// on when the two differ in one coordinate only.
pub open spec fn spec_next_run(prev: Point, next: Point, len: u64) -> u64 {
    let dr = if next.row >= prev.row { next.row - prev.row } else { prev.row - next.row };
    let dc = if next.col >= prev.col { next.col - prev.col } else { prev.col - next.col };
    if dr == dc {
        1
    } else {
        (len + 1) as u64
    }
}

/// The run length at `next`: one where the walk from `prev` turns, else one
/// more than `len`.
pub fn next_run_length(prev: Point, next: Point, len: u64) -> (run: u64)
    requires
        len < u64::MAX,
    ensures
        run == spec_next_run(prev, next, len),
        run == 1 || run == len + 1,
{
    let dr: i64 = if next.row >= prev.row { next.row as i64 - prev.row as i64 } else { prev.row as i64 - next.row as i64 };
    let dc: i64 = if next.col >= prev.col { next.col as i64 - prev.col as i64 } else { prev.col as i64 - next.col as i64 };
    if dr == dc {
        1
    } else {
        len + 1
    }
}


proof fn lemma_queue_push(q: Seq<RunPoint>, e: Seq<(Point, u64)>, h: int, rp: RunPoint)
    requires
        queue_follows(q, e, h),
        measure_steps(e, true),
        rp.prev == came_from(e.push((rp.cur, rp.len)), e.len() as int),
    ensures
        queue_follows(q.push(rp), e.push((rp.cur, rp.len)), h),
{
    let q1 = q.push(rp);
    let e1 = e.push((rp.cur, rp.len));
    assert forall|t: int| 0 <= t < q1.len() implies #[trigger] q1[t].cur == e1[h + t].0 && q1[t].len == e1[h + t].1
        && q1[t].prev == came_from(e1, h + t) by {
        if t < q.len() {
            assert(q1[t] == q[t]);
            assert(e1[h + t] == e[h + t]);
            lemma_earliest_prefix(e, e1, h + t, true);
        }
    }
}

proof fn lemma_queue_pop(q: Seq<RunPoint>, e: Seq<(Point, u64)>, h: int)
    requires
        queue_follows(q, e, h),
        q.len() > 0,
    ensures
        queue_follows(q.subrange(1, q.len() as int), e, h + 1),
        q[0].cur == e[h].0 && q[0].len == e[h].1 && q[0].prev == came_from(e, h),
{
    let q1 = q.subrange(1, q.len() as int);
    assert(q[0].cur == e[h + 0].0);
    assert forall|t: int| 0 <= t < q1.len() implies #[trigger] q1[t].cur == e[h + 1 + t].0 && q1[t].len == e[h + 1
        + t].1 && q1[t].prev == came_from(e, h + 1 + t) by {
        assert(q1[t] == q[t + 1]);
        assert(q[t + 1].cur == e[h + (t + 1)].0);
    }
}

/// Every path square next to one of the first `h` entries was reached.
pub open spec fn closed_upto(old: &Maze, new: &Maze, e: Seq<(Point, u64)>, h: int) -> bool {
    forall|k: int, i: int| 0 <= k < h && 0 <= i < 4 ==> #[trigger] neighbor_reached(old, new, e[k].0, i)
}

/// `max` is the greatest distance of the map.
pub open spec fn is_max(map: &MaxMap) -> bool {
    &&& forall|k: int| 0 <= k < map.distances@.len() ==> #[trigger] map.distances@[k].1 <= map.max
    &&& exists|k: int| 0 <= k < map.distances@.len() && #[trigger] map.distances@[k].1 == map.max
}


/// A breadth-first measure in progress: the first `h` entries are done and
/// the queue holds the rest, in order.
#[verifier::opaque]
pub open spec fn bfs_state(old: &Maze, m: &Maze, e: Seq<(Point, u64)>, h: int, start: Point) -> bool {
    &&& only_measured(old, m)
    &&& measure_tree(old, m, e, start)
    &&& 0 <= h <= e.len()
    &&& closed_upto(old, m, e, h)
    &&& forall|k: int| 0 <= k < e.len() ==> #[trigger] e[k].1 <= k
    &&& e.len() + unmeasured_count(m.squares()) <= unmeasured_count(old.squares()) + 1
}

/// Only measured bits were added from `m0` to `m1`.
pub open spec fn measured_grows(m0: &Maze, m1: &Maze) -> bool {
    forall|r: int, c: int| m0.in_bounds(r, c) && measured(m0.square(r, c)) ==> measured(#[trigger] m1.square(r, c))
}

/// Skipping the neighbor `i` of `p`: it is off the grid, a wall or measured.
proof fn lemma_skip(old: &Maze, m: &Maze, p: Point, i: int)
    requires
        only_measured(old, m),
        !(point_in(old, step1(p, i)) && !spec_is_wall(sq(m, step1(p, i))) && !measured(sq(m, step1(p, i)))),
    ensures
        neighbor_reached(old, m, p, i),
{
    let n = step1(p, i);
    if point_in(old, n) {
        lemma_measured_bits(sq(old, n));
        assert(old.in_bounds(n.row as int, n.col as int));
    }
}

/// Measuring the neighbor `n` of the entry `h` at distance `d` extends the
/// measure by one entry.
proof fn lemma_visit(
    old: &Maze,
    m0: &Maze,
    m1: &Maze,
    e: Seq<(Point, u64)>,
    h: int,
    i: int,
    d: u64,
    start: Point,
)
    requires
        bfs_state(old, m0, e, h, start),
        h < e.len(),
        0 <= i < 4,
        point_in(old, step1(e[h].0, i)),
        !spec_is_wall(sq(m0, step1(e[h].0, i))),
        !measured(sq(m0, step1(e[h].0, i))),
        m1.wf(),
        m1.same_shape(m0),
        m1.build_history == m0.build_history,
        m1.solve_history == m0.solve_history,
        m1.squares() == m0.squares().update(
            m0.maze.index_of(step1(e[h].0, i).row as int, step1(e[h].0, i).col as int),
            sq(m0, step1(e[h].0, i)) | MEASURED,
        ),
        forall|r: int, c: int|
            m0.in_bounds(r, c) ==> #[trigger] m1.square(r, c) == if r == step1(e[h].0, i).row && c == step1(e[h].0, i).col {
                m0.square(r, c) | MEASURED
            } else {
                m0.square(r, c)
            },
        d == e[h].1 + 1 || d == 1,
    ensures
        bfs_state(old, m1, e.push((step1(e[h].0, i), d)), h, start),
        measured_grows(m0, m1),
        unmeasured_count(m1.squares()) < unmeasured_count(m0.squares()),
        neighbor_reached(old, m1, e[h].0, i),
{
    reveal(bfs_state);
    let p = e[h].0;
    let n = step1(p, i);
    let e1 = e.push((n, d));
    let nr = n.row as int;
    let nc = n.col as int;
    assert(old.in_bounds(nr, nc));
    lemma_measured_bits(old.square(nr, nc));
    lemma_measured_bits(m0.square(nr, nc));
    assert(m0.square(nr, nc) == old.square(nr, nc));
    assert forall|r: int, c: int| m0.in_bounds(r, c) && measured(m0.square(r, c)) implies measured(
        #[trigger] m1.square(r, c),
    ) by {
        lemma_measured_bits(m0.square(r, c));
    }
    assert forall|r: int, c: int| old.in_bounds(r, c) implies #[trigger] m1.square(r, c) == old.square(r, c)
        || m1.square(r, c) == old.square(r, c) | MEASURED by {
        assert(m0.square(r, c) == old.square(r, c) || m0.square(r, c) == old.square(r, c) | MEASURED);
    }
    assert forall|k: int| 0 <= k < e1.len() implies point_in(old, #[trigger] e1[k].0) && measured(sq(m1, e1[k].0)) by {
        if k < e.len() {
            assert(e1[k] == e[k]);
            assert(old.in_bounds(e[k].0.row as int, e[k].0.col as int));
            assert(measured(sq(m0, e[k].0)));
        }
    }
    assert forall|a: int, b: int| 0 <= a < b < e1.len() implies e1[a].0 != e1[b].0 by {
        assert(e1[a] == e[a]);
        if b < e.len() {
            assert(e1[b] == e[b]);
        } else {
            assert(measured(sq(m0, e[a].0)));
        }
    }
    assert forall|k: int|
        1 <= k < e1.len() implies !measured(sq(old, #[trigger] e1[k].0)) && !spec_is_wall(sq(old, e1[k].0)) && exists|j: int|
            0 <= j < k && adjacent(e1[j].0, e1[k].0) by {
        if k < e.len() {
            assert(e1[k] == e[k]);
            let j = choose|j: int| 0 <= j < k && adjacent(e[j].0, e[k].0);
            assert(e1[j] == e[j]);
        } else {
            assert(e1[h] == e[h]);
            assert(adjacent(e1[h].0, e1[k].0));
        }
    }
    assert forall|r: int, c: int|
        old.in_bounds(r, c) && measured(#[trigger] m1.square(r, c)) && !measured(old.square(r, c)) implies exists|k: int|
            0 <= k < e1.len() && e1[k].0 == Point { row: r as i32, col: c as i32 } by {
        if r == nr && c == nc {
            assert(e1[e.len() as int].0 == Point { row: r as i32, col: c as i32 });
        } else {
            assert(measured(m0.square(r, c)));
            let k = choose|k: int| 0 <= k < e.len() && e[k].0 == Point { row: r as i32, col: c as i32 };
            assert(e1[k] == e[k]);
        }
    }
    assert forall|k: int, j: int| 0 <= k < h && 0 <= j < 4 implies #[trigger] neighbor_reached(old, m1, e1[k].0, j) by {
        assert(e1[k] == e[k]);
        assert(neighbor_reached(old, m0, e[k].0, j));
        let q = step1(e[k].0, j);
        if point_in(old, q) {
            assert(old.in_bounds(q.row as int, q.col as int));
        }
    }
    assert forall|k: int| 0 <= k < e1.len() implies #[trigger] e1[k].1 <= k by {
        if k < e.len() {
            assert(e1[k] == e[k]);
        } else {
            assert(e[h].1 <= h);
            assert(h + 1 <= k);
        }
    }
    m0.maze.lemma_index(nr, nc);
    lemma_grow_count(m0, m1, n);
    assert(e1[0] == e[0]);
}

/// The path square `n` next to the entry `h`, not measured yet, is reached
/// from `h`: no entry before `h` is next to it.
proof fn lemma_steps_push(
    old: &Maze,
    m0: &Maze,
    e: Seq<(Point, u64)>,
    h: int,
    i: int,
    d: u64,
    start: Point,
    runs: bool,
)
    requires
        bfs_state(old, m0, e, h, start),
        h < e.len(),
        0 <= i < 4,
        point_in(old, step1(e[h].0, i)),
        !spec_is_wall(sq(m0, step1(e[h].0, i))),
        !measured(sq(m0, step1(e[h].0, i))),
        measure_steps(e, runs),
        d == (if runs { spec_next_run(came_from(e, h), step1(e[h].0, i), e[h].1) as int } else { e[h].1 + 1 }),
    ensures
        measure_steps(e.push((step1(e[h].0, i), d)), runs),
        earliest_neighbor(e.push((step1(e[h].0, i), d)), e.len() as int) == h,
{
    assert(closed_upto(old, m0, e, h) && only_measured(old, m0) && 0 <= h && point_in(old, e[h].0)) by {
        reveal(bfs_state);
    }
    let n = step1(e[h].0, i);
    let e1 = e.push((n, d));
    assert(old.in_bounds(n.row as int, n.col as int));
    lemma_measured_bits(old.square(n.row as int, n.col as int));
    assert(!spec_is_wall(sq(old, n)));
    let kn = e.len() as int;
    assert(e1[h] == e[h] && e1[kn].0 == n);
    assert forall|t: int| 0 <= t < h implies !#[trigger] adjacent(e1[t].0, e1[kn].0) by {
        assert(e1[t] == e[t]);
        if adjacent(e[t].0, n) {
            let dir = lemma_adjacent_step(e[t].0, n);
            assert(neighbor_reached(old, m0, e[t].0, dir));
        }
    }
    assert(is_earliest(e1, h, kn));
    lemma_earliest_is(e1, h, kn);
    lemma_earliest_prefix(e, e1, h, runs);
    assert forall|k: int| 1 <= k < e1.len() implies is_earliest(e1, #[trigger] earliest_neighbor(e1, k), k)
        && e1[k].1 == step_value(e1, earliest_neighbor(e1, k), k, runs) by {
        if k < e.len() {
            lemma_earliest_prefix(e, e1, k, runs);
            assert(e1[k] == e[k]);
        }
    }
}

/// Marking one square measured counts one square fewer unmeasured, when it
/// was not measured before.
proof fn lemma_grow_count(m0: &Maze, m1: &Maze, n: Point)
    requires
        m0.wf(),
        point_in(m0, n),
        m1.squares() == m0.squares().update(m0.maze.index_of(n.row as int, n.col as int), sq(m0, n) | MEASURED),
    ensures
        unmeasured_count(m1.squares()) <= unmeasured_count(m0.squares()),
        !measured(sq(m0, n)) ==> unmeasured_count(m1.squares()) < unmeasured_count(m0.squares()),
{
    let idx = m0.maze.index_of(n.row as int, n.col as int);
    m0.maze.lemma_index(n.row as int, n.col as int);
    lemma_measured_bits(sq(m0, n));
    assert forall|k: int| 0 <= k < m0.squares().len() && measured(#[trigger] m0.squares()[k]) implies measured(
        m1.squares()[k],
    ) by {}
    lemma_unmeasured_count(m0.squares(), m1.squares(), idx);
}


/// Measures each path square next to the entry `h` not measured yet, at one
/// more than its distance, and queues it.
fn visit_neighbors(
    maze: &mut Maze,
    map: &mut MaxMap,
    bfs: &mut VecDeque<(Point, u64)>,
    cur: (Point, u64),
    Ghost(h): Ghost<int>,
    Ghost(start): Ghost<Point>,
    Ghost(orig): Ghost<Maze>,
)
    requires
        bfs_state(&orig, old(maze), old(map).distances@, h, start),
        distance_steps(old(map).distances@),
        h < old(map).distances@.len(),
        old(map).distances@[h] == cur,
        old(bfs)@ == old(map).distances@.subrange(h + 1, old(map).distances@.len() as int),
        crate::builders::build_ops::interior(&orig, cur.0),
        orig.wf(),
        orig.squares().len() <= i32::MAX,
        unmeasured_count(orig.squares()) <= orig.squares().len(),
    ensures
        bfs_state(&orig, final(maze), final(map).distances@, h, start),
        distance_steps(final(map).distances@),
        forall|j: int| 0 <= j < 4 ==> #[trigger] neighbor_reached(&orig, final(maze), cur.0, j),
        old(map).distances@.len() <= final(map).distances@.len(),
        forall|k: int| 0 <= k < old(map).distances@.len() ==> #[trigger] final(map).distances@[k] == old(map).distances@[k],
        final(bfs)@ == final(map).distances@.subrange(h + 1, final(map).distances@.len() as int),
        unmeasured_count(final(maze).squares()) + final(bfs)@.len() <= unmeasured_count(old(maze).squares()) + old(bfs)@.len(),
        final(map).max == old(map).max,
        forall|k: int|
            old(map).distances@.len() <= k < final(map).distances@.len() ==> #[trigger] final(map).distances@[k].1 == cur.1
                + 1,
{
    let p = cur.0;
    let ghost e0 = map.distances@;
    let ghost bound = unmeasured_count(maze.squares()) + bfs@.len() + 1;
    let mut i: usize = 0;
    while i < 4
        invariant
            bfs_state(&orig, maze, map.distances@, h, start),
            distance_steps(map.distances@),
            h < map.distances@.len(),
            map.distances@[h] == cur,
            p == cur.0,
            bfs@ == map.distances@.subrange(h + 1, map.distances@.len() as int),
            crate::builders::build_ops::interior(&orig, p),
            forall|j: int| 0 <= j < i ==> #[trigger] neighbor_reached(&orig, maze, p, j),
            forall|k: int| e0.len() <= k < map.distances@.len() ==> #[trigger] map.distances@[k].1 == cur.1 + 1,
            0 <= i <= 4,
            unmeasured_count(maze.squares()) + bfs@.len() < bound,
            e0.len() <= map.distances@.len(),
            forall|k: int| 0 <= k < e0.len() ==> #[trigger] map.distances@[k] == e0[k],
            map.max == old(map).max,
            orig.wf(),
            orig.squares().len() <= i32::MAX,
            unmeasured_count(orig.squares()) <= orig.squares().len(),
        decreases 4 - i,
    {
        let dir = cardinal(i);
        let next = Point { row: p.row + dir.row, col: p.col + dir.col };
        proof {
            assert(next == step1(p, i as int));
            assert(orig.in_bounds(next.row as int, next.col as int));
        }
        proof {
            reveal(bfs_state);
        }
        let x = maze.get(next.row, next.col);
        if (x & PATH_BIT) != 0 && (x & MEASURED) == 0 {
            let ghost ma = *maze;
            let ghost ea = map.distances@;
            proof {
                reveal(bfs_state);
                assert(cur.1 <= h);
                assert(ea.len() <= unmeasured_count(orig.squares()) + 1);
            }
            mark_measured(maze, next);
            map.distances.push((next, cur.1 + 1));
            bfs.push_back((next, cur.1 + 1));
            proof {
                lemma_steps_push(&orig, &ma, ea, h, i as int, (cur.1 + 1) as u64, start, false);
                lemma_visit(&orig, &ma, maze, ea, h, i as int, (cur.1 + 1) as u64, start);
                assert(map.distances@ == ea.push((next, (cur.1 + 1) as u64)));
                assert forall|k: int| 0 <= k < e0.len() implies #[trigger] map.distances@[k] == e0[k] by {
                    assert(map.distances@[k] == ea[k]);
                }
                assert forall|j: int| 0 <= j < i implies #[trigger] neighbor_reached(&orig, maze, p, j) by {
                    assert(neighbor_reached(&orig, &ma, p, j));
                    let q = step1(p, j);
                    if point_in(&orig, q) {
                        assert(orig.in_bounds(q.row as int, q.col as int));
                    }
                }
                assert(bfs@ =~= map.distances@.subrange(h + 1, map.distances@.len() as int));
                assert forall|k: int| e0.len() <= k < map.distances@.len() implies #[trigger] map.distances@[k].1
                    == cur.1 + 1 by {
                    if k < ea.len() {
                        assert(map.distances@[k] == ea[k]);
                    }
                }
            }
        } else {
            proof {
                reveal(bfs_state);
                lemma_skip(&orig, maze, p, i as int);
            }
        }
        i = i + 1;
    }
}

/// Measures each path square next to the entry `h` not measured yet, at the
/// length of the run it continues or one where the run turns, and queues it.
fn visit_runs(
    maze: &mut Maze,
    map: &mut MaxMap,
    bfs: &mut VecDeque<RunPoint>,
    cur: RunPoint,
    Ghost(h): Ghost<int>,
    Ghost(start): Ghost<Point>,
    Ghost(orig): Ghost<Maze>,
)
    requires
        bfs_state(&orig, old(maze), old(map).distances@, h, start),
        run_steps(old(map).distances@),
        h < old(map).distances@.len(),
        old(map).distances@[h] == (cur.cur, cur.len),
        cur.prev == came_from(old(map).distances@, h),
        queue_follows(old(bfs)@, old(map).distances@, h + 1),
        crate::builders::build_ops::interior(&orig, cur.cur),
        orig.wf(),
        orig.squares().len() <= i32::MAX,
        unmeasured_count(orig.squares()) <= orig.squares().len(),
    ensures
        bfs_state(&orig, final(maze), final(map).distances@, h, start),
        run_steps(final(map).distances@),
        forall|j: int| 0 <= j < 4 ==> #[trigger] neighbor_reached(&orig, final(maze), cur.cur, j),
        old(map).distances@.len() <= final(map).distances@.len(),
        forall|k: int| 0 <= k < old(map).distances@.len() ==> #[trigger] final(map).distances@[k] == old(map).distances@[k],
        queue_follows(final(bfs)@, final(map).distances@, h + 1),
        unmeasured_count(final(maze).squares()) + final(bfs)@.len() <= unmeasured_count(old(maze).squares()) + old(bfs)@.len(),
        final(map).max == old(map).max,
{
    let p = cur.cur;
    let ghost e0 = map.distances@;
    let ghost bound = unmeasured_count(maze.squares()) + bfs@.len() + 1;
    let mut i: usize = 0;
    while i < 4
        invariant
            bfs_state(&orig, maze, map.distances@, h, start),
            run_steps(map.distances@),
            h < map.distances@.len(),
            map.distances@[h] == (cur.cur, cur.len),
            cur.prev == came_from(map.distances@, h),
            p == cur.cur,
            queue_follows(bfs@, map.distances@, h + 1),
            crate::builders::build_ops::interior(&orig, p),
            forall|j: int| 0 <= j < i ==> #[trigger] neighbor_reached(&orig, maze, p, j),
            0 <= i <= 4,
            unmeasured_count(maze.squares()) + bfs@.len() < bound,
            e0.len() <= map.distances@.len(),
            forall|k: int| 0 <= k < e0.len() ==> #[trigger] map.distances@[k] == e0[k],
            map.max == old(map).max,
            orig.wf(),
            orig.squares().len() <= i32::MAX,
            unmeasured_count(orig.squares()) <= orig.squares().len(),
        decreases 4 - i,
    {
        let dir = cardinal(i);
        let next = Point { row: p.row + dir.row, col: p.col + dir.col };
        proof {
            assert(next == step1(p, i as int));
            assert(orig.in_bounds(next.row as int, next.col as int));
        }
        proof {
            reveal(bfs_state);
        }
        let x = maze.get(next.row, next.col);
        if (x & PATH_BIT) != 0 && (x & MEASURED) == 0 {
            let ghost ma = *maze;
            let ghost ea = map.distances@;
            proof {
                reveal(bfs_state);
                assert(cur.len <= h);
                assert(ea.len() <= unmeasured_count(orig.squares()) + 1);
            }
            let ghost qa = bfs@;
            let run = next_run_length(cur.prev, next, cur.len);
            mark_measured(maze, next);
            map.distances.push((next, run));
            bfs.push_back(RunPoint { len: run, prev: p, cur: next });
            proof {
                lemma_steps_push(&orig, &ma, ea, h, i as int, run, start, true);
                lemma_visit(&orig, &ma, maze, ea, h, i as int, run, start);
                assert(map.distances@ == ea.push((next, run)));
                assert forall|k: int| 0 <= k < e0.len() implies #[trigger] map.distances@[k] == e0[k] by {
                    assert(map.distances@[k] == ea[k]);
                }
                assert forall|j: int| 0 <= j < i implies #[trigger] neighbor_reached(&orig, maze, p, j) by {
                    assert(neighbor_reached(&orig, &ma, p, j));
                    let q = step1(p, j);
                    if point_in(&orig, q) {
                        assert(orig.in_bounds(q.row as int, q.col as int));
                    }
                }
                lemma_earliest_prefix(ea, map.distances@, h, true);
                assert(map.distances@[h] == ea[h]);
                lemma_queue_push(qa, ea, h + 1, RunPoint { len: run, prev: p, cur: next });
            }
        } else {
            proof {
                reveal(bfs_state);
                lemma_skip(&orig, maze, p, i as int);
            }
        }
        i = i + 1;
    }
}

/// The entry `h` done: its neighbors were reached.
proof fn lemma_close_entry(orig: &Maze, m: &Maze, e: Seq<(Point, u64)>, h: int, start: Point)
    requires
        bfs_state(orig, m, e, h, start),
        0 <= h < e.len(),
        forall|j: int| 0 <= j < 4 ==> #[trigger] neighbor_reached(orig, m, e[h].0, j),
    ensures
        bfs_state(orig, m, e, h + 1, start),
{
    reveal(bfs_state);
}

/// What a measure in progress holds of its entries.
proof fn lemma_bfs_facts(orig: &Maze, m: &Maze, e: Seq<(Point, u64)>, h: int, start: Point)
    requires
        bfs_state(orig, m, e, h, start),
        perimeter_walls(orig),
        crate::builders::build_ops::interior(orig, start),
        orig.wf(),
    ensures
        0 <= h <= e.len(),
        e.len() <= unmeasured_count(orig.squares()) + 1,
        h < e.len() ==> crate::builders::build_ops::interior(orig, e[h].0) && e[h].1 <= h,
        only_measured(orig, m),
        measure_tree(orig, m, e, start),
        closed_upto(orig, m, e, h),
{
    reveal(bfs_state);
    if 0 < h < e.len() {
        assert(!spec_is_wall(sq(orig, e[h].0)));
        assert(orig.in_bounds(e[h].0.row as int, e[h].0.col as int));
    }
}

/// The greatest distance stays the greatest once the entry `h` is counted.
proof fn lemma_max_entry(e0: Seq<(Point, u64)>, e: Seq<(Point, u64)>, h: int, max: u64)
    requires
        0 <= h < e0.len() <= e.len(),
        forall|k: int| 0 <= k < e0.len() ==> #[trigger] e[k] == e0[k],
        forall|k: int| 0 <= k < h ==> #[trigger] e0[k].1 <= max,
        e0[h].1 <= max,
        exists|k: int| 0 <= k < e0.len() && #[trigger] e0[k].1 == max,
    ensures
        forall|k: int| 0 <= k < h + 1 ==> #[trigger] e[k].1 <= max,
        exists|k: int| 0 <= k < e.len() && #[trigger] e[k].1 == max,
{
    assert forall|k: int| 0 <= k < h + 1 implies #[trigger] e[k].1 <= max by {
        assert(e[k] == e0[k]);
    }
    let km = choose|k: int| 0 <= k < e0.len() && #[trigger] e0[k].1 == max;
    assert(e[km] == e0[km]);
}

/// A measure begins with its start measured at zero.
proof fn lemma_measure_begins(orig: &Maze, m: &Maze, e: Seq<(Point, u64)>, start: Point)
    requires
        orig.wf(),
        point_in(orig, start),
        e == seq![(start, 0u64)],
        m.wf(),
        m.same_shape(orig),
        m.build_history == orig.build_history,
        m.solve_history == orig.solve_history,
        m.squares() == orig.squares().update(orig.maze.index_of(start.row as int, start.col as int), sq(orig, start) | MEASURED),
        forall|r: int, c: int|
            orig.in_bounds(r, c) ==> #[trigger] m.square(r, c) == if r == start.row && c == start.col {
                orig.square(r, c) | MEASURED
            } else {
                orig.square(r, c)
            },
    ensures
        bfs_state(orig, m, e, 0, start),
        distance_steps(e),
        run_steps(e),
        unmeasured_count(orig.squares()) <= orig.squares().len(),
        orig.squares().len() <= i32::MAX,
{
    reveal(bfs_state);
    let (sr, sc) = (start.row as int, start.col as int);
    lemma_measured_bits(orig.square(sr, sc));
    assert forall|r: int, c: int| orig.in_bounds(r, c) implies #[trigger] m.square(r, c) == orig.square(r, c)
        || m.square(r, c) == orig.square(r, c) | MEASURED by {}
    assert forall|r: int, c: int|
        orig.in_bounds(r, c) && measured(#[trigger] m.square(r, c)) && !measured(orig.square(r, c)) implies exists|k: int|
            0 <= k < e.len() && e[k].0 == Point { row: r as i32, col: c as i32 } by {
        assert(e[0].0 == Point { row: r as i32, col: c as i32 });
    }
    assert(m.square(sr, sc) == sq(m, start));
    lemma_grow_count(orig, m, start);
    lemma_unmeasured_count(orig.squares(), orig.squares(), 0);
    assert(e[0].1 <= 0);
    assert(orig.squares().len() <= i32::MAX) by {
        assert(orig.maze.rows * orig.maze.cols <= i32::MAX);
    }
}

/// Entries next to each other differ by at most one.
pub open spec fn within_one(e: Seq<(Point, u64)>) -> bool {
    forall|i: int, j: int|
        0 <= i < e.len() && 0 <= j < e.len() && #[trigger] adjacent(e[i].0, e[j].0) ==> e[j].1 <= e[i].1 + 1
}

/// Breadth-first order: distances never fall along the entries, none is more
/// than one past that of the entry `h`, and each entry before `h` is within
/// one of every entry next to it.
#[verifier::opaque]
pub open spec fn bfs_layers(e: Seq<(Point, u64)>, h: int) -> bool {
    &&& forall|a: int, b: int| 0 <= a <= b < e.len() ==> #[trigger] e[a].1 <= #[trigger] e[b].1
    &&& h < e.len() ==> forall|b: int| 0 <= b < e.len() ==> #[trigger] e[b].1 <= e[h].1 + 1
    &&& forall|k: int, j: int|
        0 <= k < h && 0 <= j < e.len() && #[trigger] adjacent(e[k].0, e[j].0) ==> e[j].1 <= e[k].1 + 1
}

/// The direction in which `b` lies from its neighbor `a`.
proof fn lemma_adjacent_step(a: Point, b: Point) -> (i: int)
    requires
        adjacent(a, b),
    ensures
        0 <= i < 4,
        step1(a, i) == b,
{
    if a.col == b.col && b.row == a.row - 1 {
        0
    } else if a.row == b.row && b.col == a.col + 1 {
        1
    } else if a.col == b.col && b.row == a.row + 1 {
        2
    } else {
        3
    }
}

/// Visiting the entry `h` keeps the breadth-first order when what it adds
/// lies one past it.
proof fn lemma_layers_step(
    orig: &Maze,
    m0: &Maze,
    m1: &Maze,
    e0: Seq<(Point, u64)>,
    e1: Seq<(Point, u64)>,
    h: int,
    start: Point,
)
    requires
        bfs_state(orig, m0, e0, h, start),
        bfs_state(orig, m1, e1, h, start),
        bfs_layers(e0, h),
        0 <= h < e0.len() <= e1.len(),
        forall|k: int| 0 <= k < e0.len() ==> #[trigger] e1[k] == e0[k],
        forall|k: int| e0.len() <= k < e1.len() ==> #[trigger] e1[k].1 == e0[h].1 + 1,
    ensures
        bfs_layers(e1, h + 1),
{
    reveal(bfs_state);
    reveal(bfs_layers);
    let top = e0[h].1 + 1;
    assert forall|b: int| 0 <= b < e1.len() implies #[trigger] e1[b].1 <= top by {
        if b < e0.len() {
            assert(e1[b] == e0[b]);
        }
    }
    assert forall|a: int, b: int| 0 <= a <= b < e1.len() implies #[trigger] e1[a].1 <= #[trigger] e1[b].1 by {
        if b < e0.len() {
            assert(e1[a] == e0[a] && e1[b] == e0[b]);
        } else if a >= e0.len() {
        } else {
            assert(e1[a] == e0[a]);
            assert(e0[a].1 <= top);
        }
    }
    if h + 1 < e1.len() {
        assert(e1[h] == e0[h]);
        assert(e1[h].1 <= e1[h + 1].1);
    }
    assert forall|k: int, j: int|
        0 <= k < h + 1 && 0 <= j < e1.len() && #[trigger] adjacent(e1[k].0, e1[j].0) implies e1[j].1 <= e1[k].1 + 1 by {
        assert(e1[k] == e0[k]);
        assert(e1[j].1 <= top);
        if k < h {
            if j < e0.len() {
                assert(e1[j] == e0[j]);
                assert(adjacent(e0[k].0, e0[j].0));
            } else {
                let i = lemma_adjacent_step(e0[k].0, e1[j].0);
                assert(neighbor_reached(orig, m0, e0[k].0, i));
                let n = e1[j].0;
                assert(point_in(orig, n) && !spec_is_wall(sq(orig, n)));
                assert(measured(sq(m0, n)));
                assert(orig.in_bounds(n.row as int, n.col as int));
                assert(measured(m0.square(n.row as int, n.col as int)));
                assert(!measured(orig.square(n.row as int, n.col as int)));
                let t = choose|t: int|
                    0 <= t < e0.len() && e0[t].0 == Point { row: n.row as i32, col: n.col as i32 };
                assert(e1[t] == e0[t]);
                assert(e1[t].0 == e1[j].0);
                assert(false);
            }
        }
    }
}

/// All entries done: each is within one of its neighbors.
proof fn lemma_layers_done(e: Seq<(Point, u64)>)
    requires
        bfs_layers(e, e.len() as int),
    ensures
        within_one(e),
{
    reveal(bfs_layers);
}

/// A walk over the path squares of `m`, each next to the one before; it
/// takes `w.len() - 1` steps.
pub open spec fn path_walk(m: &Maze, w: Seq<Point>) -> bool {
    &&& w.len() >= 1
    &&& forall|t: int| 0 <= t < w.len() ==> point_in(m, #[trigger] w[t]) && !spec_is_wall(sq(m, w[t]))
    &&& forall|t: int| 0 <= t < w.len() - 1 ==> adjacent(#[trigger] w[t], w[t + 1])
}

/// A distance measure counts the fewest steps: on a maze where nothing was
/// measured before, whatever square a walk over path squares from the start
/// ends on was measured, at a distance no greater than the walk's steps.
pub proof fn lemma_distance_is_fewest_steps(
    before: &Maze,
    after: &Maze,
    e: Seq<(Point, u64)>,
    start: Point,
    w: Seq<Point>,
)
    requires
        forall|r: int, c: int| before.in_bounds(r, c) ==> !measured(#[trigger] before.square(r, c)),
        measure_tree(before, after, e, start),
        within_one(e),
        closed_upto(before, after, e, e.len() as int),
        path_walk(before, w),
        w[0] == start,
    ensures
        exists|k: int| 0 <= k < e.len() && e[k].0 == w.last() && e[k].1 <= w.len() - 1,
    decreases w.len(),
{
    if w.len() == 1 {
        assert(e[0].0 == w.last());
    } else {
        let w1 = w.drop_last();
        assert forall|t: int| 0 <= t < w1.len() implies point_in(before, #[trigger] w1[t]) && !spec_is_wall(
            sq(before, w1[t]),
        ) by {
            assert(w1[t] == w[t]);
        }
        assert forall|t: int| 0 <= t < w1.len() - 1 implies adjacent(#[trigger] w1[t], w1[t + 1]) by {
            assert(w1[t] == w[t] && w1[t + 1] == w[t + 1]);
        }
        lemma_distance_is_fewest_steps(before, after, e, start, w1);
        let k = choose|k: int| 0 <= k < e.len() && e[k].0 == w1.last() && e[k].1 <= w1.len() - 1;
        let n = w.last();
        assert(adjacent(w[w.len() - 2], w[w.len() - 1]));
        let i = lemma_adjacent_step(e[k].0, n);
        assert(neighbor_reached(before, after, e[k].0, i));
        assert(point_in(before, w[w.len() - 1]));
        assert(measured(sq(after, n)));
        assert(!measured(before.square(n.row as int, n.col as int)));
        let j = choose|j: int| 0 <= j < e.len() && e[j].0 == Point { row: n.row as i32, col: n.col as i32 };
        assert(adjacent(e[k].0, e[j].0));
    }
}

#[verifier::rlimit(100)]
#[verifier::spinoff_prover]
/// The measure from the middle of a maze whose edge is walls: each path
/// square it reaches is marked measured and recorded with its distance in
/// steps along the paths, breadth first from the middle.
pub fn measure_distance_from_center(maze: &mut Maze) -> (map: MaxMap)
    requires
        old(maze).wf(),
        perimeter_walls(old(maze)),
        crate::builders::build_ops::interior(old(maze), spec_center(old(maze))),
    ensures
        only_measured(old(maze), final(maze)),
        measure_tree(old(maze), final(maze), map.distances@, spec_center(old(maze))),
        distance_steps(map.distances@),
        within_one(map.distances@),
        closed_upto(old(maze), final(maze), map.distances@, map.distances@.len() as int),
        is_max(&map),
{
    let start = center_point(maze);
    let mut map = MaxMap::new(start, 0);
    let mut bfs: VecDeque<(Point, u64)> = VecDeque::new();
    bfs.push_back((start, 0));
    let ghost m0 = *maze;
    mark_measured(maze, start);
    let ghost mut h: int = 0;
    proof {
        lemma_measure_begins(old(maze), maze, map.distances@, start);
        assert(bfs@ =~= map.distances@.subrange(0, 1));
        assert(map.distances@[0].1 == map.max);
        reveal(bfs_layers);
    }
    loop
        invariant
            bfs_state(old(maze), maze, map.distances@, h, start),
            bfs_layers(map.distances@, h),
            distance_steps(map.distances@),
            bfs@ == map.distances@.subrange(h, map.distances@.len() as int),
            start == spec_center(old(maze)),
            crate::builders::build_ops::interior(old(maze), start),
            perimeter_walls(old(maze)),
            forall|k: int| 0 <= k < h ==> #[trigger] map.distances@[k].1 <= map.max,
            exists|k: int| 0 <= k < map.distances@.len() && #[trigger] map.distances@[k].1 == map.max,
            unmeasured_count(old(maze).squares()) <= old(maze).squares().len(),
            old(maze).squares().len() <= i32::MAX,
            old(maze).wf(),
        ensures
            bfs_state(old(maze), maze, map.distances@, h, start),
            bfs_layers(map.distances@, h),
            distance_steps(map.distances@),
            h == map.distances@.len(),
            is_max(&map),
        decreases unmeasured_count(maze.squares()) + bfs@.len(),
    {
        let ghost e0 = map.distances@;
        proof {
            lemma_bfs_facts(old(maze), maze, e0, h, start);
        }
        let popped = bfs.pop_front();
        let cur = match popped {
            None => {
                break;
            },
            Some(c) => c,
        };
        if cur.1 > map.max {
            map.max = cur.1;
        }
        proof {
            assert(cur == e0[h]);
            assert(bfs@ =~= map.distances@.subrange(h + 1, map.distances@.len() as int));
        }
        let ghost mb = *maze;
        visit_neighbors(maze, &mut map, &mut bfs, cur, Ghost(h), Ghost(start), Ghost(*old(maze)));
        proof {
            lemma_layers_step(old(maze), &mb, maze, e0, map.distances@, h, start);
            lemma_close_entry(old(maze), maze, map.distances@, h, start);
            lemma_max_entry(e0, map.distances@, h, map.max);
            h = h + 1;
        }
    }
    proof {
        lemma_bfs_facts(old(maze), maze, map.distances@, h, start);
        lemma_layers_done(map.distances@);
    }
    map
}

#[verifier::rlimit(60)]
/// The run lengths from the middle of a maze whose edge is walls: each path
/// square reached breadth first from the middle is marked measured and
/// recorded with the length of the straight run that leads to it, which
/// starts again at one wherever the way turns.
pub fn measure_run_lengths(maze: &mut Maze) -> (map: MaxMap)
    requires
        old(maze).wf(),
        perimeter_walls(old(maze)),
        crate::builders::build_ops::interior(old(maze), spec_center(old(maze))),
    ensures
        only_measured(old(maze), final(maze)),
        measure_tree(old(maze), final(maze), map.distances@, spec_center(old(maze))),
        run_steps(map.distances@),
        closed_upto(old(maze), final(maze), map.distances@, map.distances@.len() as int),
        is_max(&map),
{
    let start = center_point(maze);
    let mut map = MaxMap::new(start, 0);
    let mut bfs: VecDeque<RunPoint> = VecDeque::new();
    bfs.push_back(RunPoint { len: 0, prev: start, cur: start });
    let ghost m0 = *maze;
    mark_measured(maze, start);
    let ghost mut h: int = 0;
    proof {
        lemma_measure_begins(old(maze), maze, map.distances@, start);
        assert(queue_follows(bfs@, map.distances@, 0));
        assert(map.distances@[0].1 == map.max);
    }
    loop
        invariant
            bfs_state(old(maze), maze, map.distances@, h, start),
            run_steps(map.distances@),
            queue_follows(bfs@, map.distances@, h),
            start == spec_center(old(maze)),
            crate::builders::build_ops::interior(old(maze), start),
            perimeter_walls(old(maze)),
            forall|k: int| 0 <= k < h ==> #[trigger] map.distances@[k].1 <= map.max,
            exists|k: int| 0 <= k < map.distances@.len() && #[trigger] map.distances@[k].1 == map.max,
            unmeasured_count(old(maze).squares()) <= old(maze).squares().len(),
            old(maze).squares().len() <= i32::MAX,
            old(maze).wf(),
        ensures
            bfs_state(old(maze), maze, map.distances@, h, start),
            run_steps(map.distances@),
            h == map.distances@.len(),
            is_max(&map),
        decreases unmeasured_count(maze.squares()) + bfs@.len(),
    {
        let ghost e0 = map.distances@;
        proof {
            lemma_bfs_facts(old(maze), maze, e0, h, start);
        }
        let ghost old_q = bfs@;
        let popped = bfs.pop_front();
        let cur = match popped {
            None => {
                break;
            },
            Some(c) => c,
        };
        if cur.len > map.max {
            map.max = cur.len;
        }
        proof {
            lemma_queue_pop(old_q, e0, h);
            assert(e0[h] == (cur.cur, cur.len));
        }
        visit_runs(maze, &mut map, &mut bfs, cur, Ghost(h), Ghost(start), Ghost(*old(maze)));
        proof {
            lemma_close_entry(old(maze), maze, map.distances@, h, start);
            lemma_max_entry(e0, map.distances@, h, map.max);
            h = h + 1;
        }
    }
    proof {
        lemma_bfs_facts(old(maze), maze, map.distances@, h, start);
    }
    map
}

} // verus!
