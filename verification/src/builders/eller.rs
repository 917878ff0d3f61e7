use vstd::prelude::*;
use crate::builders::build_ops::{
    fill_maze_with_walls, has_builder_bit, interior, is_square_within_perimeter_walls, join_squares,
    lemma_all_walls_perimeter, perimeter_walls, point_in, reshaped, spec_is_built, spec_marker, sq,
};
use crate::builders::build_ops::between;
use crate::builders::cells::{
    all_cells_built, built_paths, cell_step, grid_step, is_cell, join_fields, joined_from, lemma_join_clean,
    lemma_join_perimeter, lemma_joined_from, lemma_walled_bits, no_markers, pt, reaches, lemma_joined_opened,
    lemma_step_walk, lemma_reaches_keep, lemma_reaches_reverse, lemma_reaches_concat, lemma_reaches_self,
    opened_step, cells_connected, lemma_between_parity,
};
use crate::builders::grid::odd_dims;
use crate::maze::{spec_is_wall, Maze, Point};
use crate::rng::{random_range, random_range_inclusive, random_ratio};

verus! {

/// How many rows of set numbers the builder keeps: the row it carves and
/// the row below.
pub const WINDOW_SIZE: usize = 2;
/// How far a set drops into the row below.
pub const DROP_DIST: i32 = 2;
/// How far a cell's neighbor in its row lies.
pub const NEIGHBOR_DIST: i32 = 2;

pub type SetId = usize;

/// The set numbers of the row being carved and of the row below, one per
/// column, and the next unused number.
pub struct SlidingSetWindow {
    pub cur_row: usize,
    pub width: usize,
    pub next_available_id: SetId,
    pub sets: Vec<SetId>,
}

/// A request to move every cell of the set `loser` into the set `winner`.
pub struct IdMergeRequest {
    pub winner: SetId,
    pub loser: SetId,
}

/// The position of column `col` of window row `row` in a window `width`
/// wide.
pub open spec fn window_slot(row: int, width: int, col: int) -> int {
    if row == 0 {
        col
    } else {
        width + col
    }
}

impl SlidingSetWindow {
    pub open spec fn wf(&self) -> bool {
        &&& self.cur_row < WINDOW_SIZE
        &&& self.sets@.len() == WINDOW_SIZE * self.width
        &&& self.width <= i32::MAX
    }

    /// A window as wide as the maze, each entry numbered by its position.
    pub fn new(maze: &Maze) -> (w: SlidingSetWindow)
        requires
            maze.wf(),
        ensures
            w.wf(),
            w.cur_row == 0,
            w.width == maze.cols_spec(),
            w.next_available_id == maze.cols_spec(),
            forall|i: int| 0 <= i < w.sets@.len() ==> w.sets@[i] == i,
    {
        assert(maze.cols_spec() <= i32::MAX) by (nonlinear_arith)
            requires
                maze.rows_spec() * maze.cols_spec() <= i32::MAX,
                maze.rows_spec() >= 1,
                maze.cols_spec() >= 1,
        ;
        let width = maze.cols() as usize;
        let total = width + width;
        let mut ids: Vec<SetId> = Vec::new();
        let mut i: usize = 0;
        while i < total
            invariant
                total == WINDOW_SIZE * width,
                i <= total,
                ids@.len() == i,
                forall|k: int| 0 <= k < i ==> ids@[k] == k,
            decreases total - i,
        {
            ids.push(i);
            i = i + 1;
        }
        SlidingSetWindow { cur_row: 0, width, next_available_id: width, sets: ids }
    }

    /// Makes the row below the row being carved.
    pub fn slide_window(&mut self)
        requires
            old(self).wf(),
        ensures
            final(self).wf(),
            final(self).cur_row == (old(self).cur_row + 1) % 2,
            final(self).width == old(self).width,
            final(self).next_available_id == old(self).next_available_id,
            final(self).sets@ == old(self).sets@,
    {
        self.cur_row = (self.cur_row + 1) % 2;
    }

    /// The row of the window below the row being carved.
    pub fn next_row_i(&self) -> (r: usize)
        requires
            self.wf(),
        ensures
            r == (self.cur_row + 1) % 2,
            r < WINDOW_SIZE,
    {
        (self.cur_row + 1) % WINDOW_SIZE
    }

    /// The set number at `col` of the window row `row`.
    pub fn at(&self, row: usize, col: usize) -> (id: SetId)
        requires
            self.wf(),
            row < WINDOW_SIZE,
            col < self.width,
        ensures
            id == self.sets@[window_slot(row as int, self.width as int, col as int)],
            window_slot(row as int, self.width as int, col as int) < self.sets@.len(),
    {
        let base = if row == 0 { 0 } else { self.width };
        self.sets[base + col]
    }

    /// Sets the number at `col` of the window row `row`.
    pub fn set_at(&mut self, row: usize, col: usize, id: SetId)
        requires
            old(self).wf(),
            row < WINDOW_SIZE,
            col < old(self).width,
        ensures
            final(self).wf(),
            final(self).cur_row == old(self).cur_row,
            final(self).width == old(self).width,
            final(self).next_available_id == old(self).next_available_id,
            final(self).sets@ == old(self).sets@.update(window_slot(row as int, old(self).width as int, col as int), id),
    {
        let k = if row == 0 { col } else { self.width + col };
        self.sets.set(k, id);
    }

    /// Numbers every entry of the window row `row` with a fresh set number.
    pub fn generate_sets(&mut self, row: usize)
        requires
            old(self).wf(),
            row < WINDOW_SIZE,
            old(self).next_available_id + old(self).width <= usize::MAX,
        ensures
            final(self).wf(),
            final(self).cur_row == old(self).cur_row,
            final(self).width == old(self).width,
            final(self).next_available_id == old(self).next_available_id + old(self).width,
            forall|c: int|
                0 <= c < old(self).width ==> #[trigger] final(self).sets@[window_slot(row as int, old(self).width as int, c)]
                    == old(self).next_available_id + c,
            forall|c: int|
                0 <= c < old(self).width ==> #[trigger] final(self).sets@[window_slot(
                    (row + 1) % 2,
                    old(self).width as int,
                    c,
                )] == old(self).sets@[window_slot((row + 1) % 2, old(self).width as int, c)],
    {
        let mut c: usize = 0;
        while c < self.width
            invariant
                self.wf(),
                row < WINDOW_SIZE,
                self.cur_row == old(self).cur_row,
                self.width == old(self).width,
                c <= self.width,
                self.next_available_id == old(self).next_available_id + c,
                old(self).next_available_id + old(self).width <= usize::MAX,
                forall|k: int|
                    0 <= k < c ==> #[trigger] self.sets@[window_slot(row as int, self.width as int, k)]
                        == old(self).next_available_id + k,
                forall|k: int|
                    c <= k < self.width ==> #[trigger] self.sets@[window_slot(row as int, self.width as int, k)]
                        == old(self).sets@[window_slot(row as int, self.width as int, k)],
                forall|k: int|
                    0 <= k < self.width ==> #[trigger] self.sets@[window_slot((row + 1) % 2, self.width as int, k)]
                        == old(self).sets@[window_slot((row + 1) % 2, self.width as int, k)],
            decreases self.width - c,
        {
            let id = self.next_available_id;
            self.set_at(row, c, id);
            self.next_available_id = self.next_available_id + 1;
            c = c + 1;
        }
    }
}

/// Distinct rows and columns of a window sit at distinct positions.
proof fn lemma_slots(width: int)
    ensures
        forall|r1: int, k1: int, r2: int, k2: int|
            0 <= r1 < 2 && 0 <= r2 < 2 && 0 <= k1 < width && 0 <= k2 < width && (r1 != r2 || k1 != k2) ==> #[trigger] window_slot(
                r1,
                width,
                k1,
            ) != #[trigger] window_slot(r2, width, k2),
{
}

/// The set number at column `c` of the row being carved.
pub open spec fn cur_at(w: &SlidingSetWindow, c: int) -> SetId {
    w.sets@[window_slot(w.cur_row as int, w.width as int, c)]
}

/// The set number at column `c` of the row below.
pub open spec fn next_at(w: &SlidingSetWindow, c: int) -> SetId {
    w.sets@[window_slot((w.cur_row + 1) % 2, w.width as int, c)]
}

/// Moves every cell of the row being carved in the set `loser` into the set
/// `winner`.
fn merge_cur_row_sets(window: &mut SlidingSetWindow, request: IdMergeRequest)
    requires
        old(window).wf(),
    ensures
        final(window).wf(),
        final(window).cur_row == old(window).cur_row,
        final(window).width == old(window).width,
        final(window).next_available_id == old(window).next_available_id,
        forall|c: int|
            0 <= c < old(window).width ==> #[trigger] cur_at(final(window), c) == if cur_at(old(window), c)
                == request.loser {
                request.winner
            } else {
                cur_at(old(window), c)
            },
        forall|c: int| 0 <= c < old(window).width ==> #[trigger] next_at(final(window), c) == next_at(old(window), c),
{
    let row = window.cur_row;
    let mut c: usize = 0;
    while c < window.width
        invariant
            window.wf(),
            row == window.cur_row,
            window.cur_row == old(window).cur_row,
            window.width == old(window).width,
            window.next_available_id == old(window).next_available_id,
            c <= window.width,
            forall|k: int|
                0 <= k < c ==> #[trigger] cur_at(window, k) == if cur_at(old(window), k) == request.loser {
                    request.winner
                } else {
                    cur_at(old(window), k)
                },
            forall|k: int| c <= k < window.width ==> #[trigger] cur_at(window, k) == cur_at(old(window), k),
            forall|k: int| 0 <= k < window.width ==> #[trigger] next_at(window, k) == next_at(old(window), k),
        decreases window.width - c,
    {
        let ghost w0 = window.sets@;
        let ghost wpre = *window;
        let wd = window.width;
        if window.at(row, c) == request.loser {
            window.set_at(row, c, request.winner);
        }
        proof {
            lemma_slots(wd as int);
            let here = window_slot(row as int, wd as int, c as int);
            assert(window.sets@ == w0 || window.sets@ == w0.update(here, request.winner));
            assert forall|k: int| 0 <= k < wd && k != c implies #[trigger] window.sets@[window_slot(
                row as int,
                wd as int,
                k,
            )] == w0[window_slot(row as int, wd as int, k)] by {
                assert(window_slot(row as int, wd as int, k) != here);
            }
            assert forall|k: int| 0 <= k < wd implies #[trigger] window.sets@[window_slot(
                (row + 1) % 2,
                wd as int,
                k,
            )] == w0[window_slot((row + 1) % 2, wd as int, k)] by {
                assert(window_slot((row + 1) % 2, wd as int, k) != here);
            }
            assert(cur_at(&wpre, c as int) == w0[here]);
            assert(cur_at(window, c as int) == if cur_at(old(window), c as int) == request.loser {
                request.winner
            } else {
                cur_at(old(window), c as int)
            });
            assert forall|k: int| 0 <= k < c + 1 implies #[trigger] cur_at(window, k) == if cur_at(old(window), k)
                == request.loser {
                request.winner
            } else {
                cur_at(old(window), k)
            } by {
                if k < c {
                    assert(window.sets@[window_slot(row as int, wd as int, k)] == w0[window_slot(row as int, wd as int, k)]);
                    assert(cur_at(&wpre, k) == w0[window_slot(row as int, wd as int, k)]);
                }
            }
            assert forall|k: int| c + 1 <= k < wd implies #[trigger] cur_at(window, k) == cur_at(old(window), k) by {
                assert(cur_at(&wpre, k) == w0[window_slot(row as int, wd as int, k)]);
            }
            assert forall|k: int| 0 <= k < wd implies #[trigger] next_at(window, k) == next_at(old(window), k) by {
                assert(next_at(&wpre, k) == w0[window_slot((row + 1) % 2, wd as int, k)]);
            }
        }
        c = c + 1;
    }
}

/// What every carving step keeps: built squares are paths, no square is
/// marked or carries a bit that no builder writes, and with odd dimensions
/// the edge is walled.
pub open spec fn carve_clean(maze: &Maze) -> bool {
    &&& built_paths(maze)
    &&& no_markers(maze)
    &&& crate::builders::cells::clean_bits(maze)
    &&& odd_dims(maze) ==> perimeter_walls(maze)
}

/// Joins `a` and `b`, keeping the maze clean.
fn eller_join(maze: &mut Maze, a: Point, b: Point)
    requires
        old(maze).wf(),
        carve_clean(old(maze)),
        grid_step(old(maze), a, b),
        odd_dims(old(maze)) ==> cell_step(old(maze), a, b),
    ensures
        reshaped(final(maze), old(maze)),
        carve_clean(final(maze)),
        joined_from(old(maze), final(maze), a, b),
{
    let ghost m0 = *maze;
    join_squares(maze, a, b);
    proof {
        lemma_joined_from(&m0, maze, a, b);
        lemma_join_clean(&m0, maze, a, b);
        crate::builders::cells::lemma_join_keeps_clean(&m0, maze, a, b);
        if odd_dims(&m0) {
            lemma_join_perimeter(&m0, maze, a, b);
        }
    }
}

/// Column `c` holds cells: odd and inside the edge.
pub open spec fn cell_col(maze: &Maze, c: int) -> bool {
    1 <= c < maze.cols_spec() - 1 && c % 2 == 1
}

/// The numbers of the sets in the row being carved, each once, in the order
/// they first appear from the left.
fn row_set_ids(maze: &Maze, window: &SlidingSetWindow) -> (ids: Vec<SetId>)
    requires
        maze.wf(),
        window.wf(),
        window.width == maze.cols_spec(),
    ensures
        forall|c: int| cell_col(maze, c) ==> #[trigger] ids@.contains(cur_at(window, c)),
{
    let mut ids: Vec<SetId> = Vec::new();
    let mut c: i32 = 1;
    while c < maze.cols() - 1
        invariant
            maze.wf(),
            window.wf(),
            window.width == maze.cols_spec(),
            1 <= c,
            c % 2 == 1,
            forall|c2: int| cell_col(maze, c2) && c2 < c ==> #[trigger] ids@.contains(cur_at(window, c2)),
        decreases maze.cols_spec() - c,
    {
        let id = window.at(window.cur_row, c as usize);
        let mut k: usize = 0;
        let mut seen = false;
        while k < ids.len()
            invariant
                k <= ids@.len(),
                seen ==> ids@.contains(id),
            decreases ids@.len() - k,
        {
            if ids[k] == id {
                seen = true;
                assert(ids@[k as int] == id);
            }
            k = k + 1;
        }
        let ghost before = ids@;
        if !seen {
            ids.push(id);
        }
        proof {
            if seen {
                assert(before.contains(id));
                assert(ids@ == before);
            } else {
                assert(ids@[before.len() as int] == id);
            }
            assert(ids@.contains(id));
            assert forall|c2: int| cell_col(maze, c2) && c2 < c + 2 implies #[trigger] ids@.contains(cur_at(window, c2)) by {
                if c2 < c {
                    assert(before.contains(cur_at(window, c2)));
                    let g = choose|g: int| 0 <= g < before.len() && before[g] == cur_at(window, c2);
                    assert(ids@[g] == before[g]);
                } else {
                    assert(c2 == c);
                }
            }
        }
        c = c + 2;
    }
    ids
}

/// The cells of row `r` in the set `id`, from the left.
fn set_members(maze: &Maze, window: &SlidingSetWindow, r: i32, id: SetId) -> (members: Vec<Point>)
    requires
        maze.wf(),
        window.wf(),
        window.width == maze.cols_spec(),
        0 <= r < maze.rows_spec(),
    ensures
        forall|j: int|
            0 <= j < members@.len() ==> (#[trigger] members@[j]).row == r && 1 <= members@[j].col < maze.cols_spec() - 1
                && members@[j].col % 2 == 1 && cur_at(window, members@[j].col as int) == id,
        forall|c: int| cell_col(maze, c) && #[trigger] cur_at(window, c) == id ==> exists|j: int|
            0 <= j < members@.len() && members@[j].col == c,
        members@.len() <= maze.cols_spec(),
{
    let mut members: Vec<Point> = Vec::new();
    let mut c: i32 = 1;
    while c < maze.cols() - 1
        invariant
            maze.wf(),
            window.wf(),
            window.width == maze.cols_spec(),
            0 <= r < maze.rows_spec(),
            1 <= c,
            c % 2 == 1,
            members@.len() <= c,
            c <= maze.cols_spec() || c == 1,
            forall|j: int|
                0 <= j < members@.len() ==> (#[trigger] members@[j]).row == r && 1 <= members@[j].col < maze.cols_spec()
                    - 1 && members@[j].col % 2 == 1 && cur_at(window, members@[j].col as int) == id,
            forall|c2: int| cell_col(maze, c2) && c2 < c && #[trigger] cur_at(window, c2) == id ==> exists|j: int|
                0 <= j < members@.len() && members@[j].col == c2,
        decreases maze.cols_spec() - c,
    {
        let ghost before = members@;
        if window.at(window.cur_row, c as usize) == id {
            members.push(Point { row: r, col: c });
        }
        proof {
            assert forall|c2: int| cell_col(maze, c2) && c2 < c + 2 && #[trigger] cur_at(window, c2) == id implies exists|j: int|
                0 <= j < members@.len() && members@[j].col == c2 by {
                if c2 < c {
                    let j = choose|j: int| 0 <= j < before.len() && before[j].col == c2;
                    assert(members@[j] == before[j]);
                } else {
                    assert(members@[before.len() as int].col == c2);
                }
            }
        }
        c = c + 2;
    }
    members
}

/// No other cell of the row being carved shares the set of column `c`.
pub open spec fn alone_in_row(m: &Maze, w: &SlidingSetWindow, c: int) -> bool {
    forall|c2: int| cell_col(m, c2) && c2 != c ==> #[trigger] cur_at(w, c2) != cur_at(w, c)
}

/// Row `r` of cells is about to be carved: the rows above are all built,
/// the rows below untouched, each cell of row `r` is built or alone in its
/// set, every set number is below the next fresh one, and with a single
/// column of cells the cell of every row after the first is built.
pub open spec fn row_ready(m: &Maze, w: &SlidingSetWindow, r: int) -> bool {
    &&& forall|rr: int, c: int|
        1 <= rr < r && rr % 2 == 1 && cell_col(m, c) ==> spec_is_built(#[trigger] m.square(rr, c))
    &&& forall|rr: int, c: int|
        r < rr < m.rows_spec() - 1 && rr % 2 == 1 && cell_col(m, c) ==> !spec_is_built(#[trigger] m.square(rr, c))
    &&& forall|c: int| cell_col(m, c) ==> spec_is_built(#[trigger] m.square(r, c)) || alone_in_row(m, w, c)
    &&& forall|c: int| cell_col(m, c) ==> #[trigger] cur_at(w, c) < w.next_available_id
    &&& m.cols_spec() == 3 && r > 1 ==> spec_is_built(m.square(r, 1))
}

/// Row `r` is being carved and the row below was given fresh set numbers
/// from `base` on: the rows above are all built, the rows past the one below
/// untouched, each cell of row `r` is built or alone in a set numbered below
/// `base`, and each cell below is either unbuilt with its fresh number or
/// was built from the built cell above it, whose set it took.
pub open spec fn carving_row(m: &Maze, w: &SlidingSetWindow, r: int, base: int) -> bool {
    &&& forall|rr: int, c: int|
        1 <= rr < r && rr % 2 == 1 && cell_col(m, c) ==> spec_is_built(#[trigger] m.square(rr, c))
    &&& forall|rr: int, c: int|
        r + 2 < rr < m.rows_spec() - 1 && rr % 2 == 1 && cell_col(m, c) ==> !spec_is_built(#[trigger] m.square(rr, c))
    &&& forall|c: int| cell_col(m, c) ==> spec_is_built(#[trigger] m.square(r, c)) || alone_in_row(m, w, c)
    &&& forall|c: int| cell_col(m, c) ==> #[trigger] cur_at(w, c) < base
    &&& forall|c: int|
        cell_col(m, c) ==> if spec_is_built(#[trigger] m.square(r + 2, c)) {
            next_at(w, c) < base && spec_is_built(m.square(r, c))
        } else {
            next_at(w, c) == base + c
        }
    &&& m.cols_spec() == 3 && r > 1 ==> spec_is_built(m.square(r, 1))
}

/// Built cells of row `r` in one set reach each other.
pub open spec fn row_linked(m: &Maze, w: &SlidingSetWindow, r: int) -> bool {
    forall|c1: int, c2: int|
        cell_col(m, c1) && cell_col(m, c2) && spec_is_built(m.square(r, c1)) && spec_is_built(m.square(r, c2)) && cur_at(
            w,
            c1,
        ) == cur_at(w, c2) ==> #[trigger] reaches(m, pt(r, c1), pt(r, c2))
}

/// `u` reaches a built cell of row `r`.
pub open spec fn linked_to_row(m: &Maze, u: Point, r: int) -> bool {
    exists|c: int| cell_col(m, c) && spec_is_built(m.square(r, c)) && #[trigger] reaches(m, u, pt(r, c))
}

/// Every built cell above row `r` reaches a built cell of row `r`.
pub open spec fn above_linked(m: &Maze, r: int) -> bool {
    forall|u: Point| is_cell(m, u) && u.row < r && spec_is_built(sq(m, u)) ==> #[trigger] linked_to_row(m, u, r)
}

/// Each built cell of the row below row `r` reaches the built cell above it,
/// whose set it took.
pub open spec fn below_linked(m: &Maze, w: &SlidingSetWindow, r: int) -> bool {
    forall|c: int|
        cell_col(m, c) && spec_is_built(#[trigger] m.square(r + 2, c)) ==> reaches(m, pt(r + 2, c), pt(r, c)) && next_at(w, c)
            == cur_at(w, c) && spec_is_built(m.square(r, c))
}

/// Some built cell of the row below row `r` took the set `id`.
pub open spec fn has_drop(m: &Maze, w: &SlidingSetWindow, r: int, id: SetId) -> bool {
    exists|c: int| cell_col(m, c) && cur_at(w, c) == id && #[trigger] spec_is_built(m.square(r + 2, c))
}

/// A join of two cells opens a walk between them and closes nothing.
proof fn lemma_join_links(m0: &Maze, m1: &Maze, a: Point, b: Point)
    requires
        m0.wf(),
        m1.same_shape(m0),
        joined_from(m0, m1, a, b),
        cell_step(m0, a, b),
    ensures
        reaches(m1, a, b),
        forall|r: int, c: int|
            m0.in_bounds(r, c) && !spec_is_wall(m0.square(r, c)) ==> !spec_is_wall(#[trigger] m1.square(r, c)),
{
    lemma_joined_opened(m0, m1, a, b);
    lemma_between_parity(a, b);
    assert(opened_step(m0, m1, a, b));
    lemma_step_walk(m1, a, b);
}

/// Joining the cells at `c` and `c + 2` of row `r` and moving cells of the
/// second one's set into the first one's keeps built cells of one set
/// linked.
proof fn lemma_merge_linked(m0: &Maze, m1: &Maze, w0: &SlidingSetWindow, w1: &SlidingSetWindow, r: int, c: int)
    requires
        m0.wf(),
        m1.same_shape(m0),
        1 <= r < m0.rows_spec() - 1,
        r % 2 == 1,
        cell_col(m0, c),
        cell_col(m0, c + 2),
        joined_from(m0, m1, pt(r, c), pt(r, c + 2)),
        reaches(m1, pt(r, c), pt(r, c + 2)),
        forall|rr: int, cc: int|
            m0.in_bounds(rr, cc) && !spec_is_wall(m0.square(rr, cc)) ==> !spec_is_wall(#[trigger] m1.square(rr, cc)),
        built_paths(m1),
        row_linked(m0, w0, r),
        spec_is_built(m0.square(r, c)) || alone_in_row(m0, w0, c),
        spec_is_built(m0.square(r, c + 2)) || alone_in_row(m0, w0, c + 2),
        cur_at(w0, c) != cur_at(w0, c + 2),
        cur_at(w1, c + 2) == cur_at(w0, c),
        forall|k: int|
            cell_col(m0, k) ==> #[trigger] cur_at(w1, k) == cur_at(w0, k) || (cur_at(w0, k) == cur_at(w0, c + 2) && cur_at(
                w1,
                k,
            ) == cur_at(w0, c)),
    ensures
        row_linked(m1, w1, r),
{
    let a = pt(r, c);
    let b = pt(r, c + 2);
    let win = cur_at(w0, c);
    let lose = cur_at(w0, c + 2);
    lemma_join_built(m0, m1, a, b, r, c);
    lemma_join_built(m0, m1, a, b, r, c + 2);
    assert(!spec_is_wall(m1.square(r, c)));
    lemma_reaches_self(m1, a);
    lemma_reaches_reverse(m1, a, b);
    assert forall|k: int| cell_col(m1, k) && spec_is_built(m1.square(r, k)) && cur_at(w1, k) == win implies reaches(
        m1,
        pt(r, k),
        a,
    ) by {
        lemma_join_built(m0, m1, a, b, r, k);
        if k == c {
        } else if k == c + 2 {
        } else {
            assert(spec_is_built(m0.square(r, k)));
            if cur_at(w0, k) == win {
                if !spec_is_built(m0.square(r, c)) {
                    assert(alone_in_row(m0, w0, c));
                    assert(cur_at(w0, k) != cur_at(w0, c));
                }
                assert(reaches(m0, pt(r, k), a));
                lemma_reaches_keep(m0, m1, pt(r, k), a);
            } else {
                assert(cur_at(w0, k) == lose);
                if !spec_is_built(m0.square(r, c + 2)) {
                    assert(alone_in_row(m0, w0, c + 2));
                    assert(cur_at(w0, k) != cur_at(w0, c + 2));
                }
                assert(reaches(m0, pt(r, k), b));
                lemma_reaches_keep(m0, m1, pt(r, k), b);
                lemma_reaches_concat(m1, pt(r, k), b, a);
            }
        }
    }
    assert forall|c1: int, c2: int|
        cell_col(m1, c1) && cell_col(m1, c2) && spec_is_built(m1.square(r, c1)) && spec_is_built(m1.square(r, c2)) && cur_at(
            w1,
            c1,
        ) == cur_at(w1, c2) implies #[trigger] reaches(m1, pt(r, c1), pt(r, c2)) by {
        if cur_at(w1, c1) == win {
            assert(reaches(m1, pt(r, c2), a));
            lemma_reaches_reverse(m1, pt(r, c2), a);
            lemma_reaches_concat(m1, pt(r, c1), a, pt(r, c2));
        } else {
            lemma_join_built(m0, m1, a, b, r, c1);
            lemma_join_built(m0, m1, a, b, r, c2);
            assert(cur_at(w1, c1) == cur_at(w0, c1));
            assert(cur_at(w1, c2) == cur_at(w0, c2));
            assert(c1 != c && c2 != c && c1 != c + 2 && c2 != c + 2);
            assert(reaches(m0, pt(r, c1), pt(r, c2)));
            lemma_reaches_keep(m0, m1, pt(r, c1), pt(r, c2));
        }
    }
}

/// Dropping the cell at column `cc` of row `r` into the row below, which
/// takes its set, keeps the cells linked and gives that set a drop.
proof fn lemma_drop_linked(m0: &Maze, m1: &Maze, w0: &SlidingSetWindow, w1: &SlidingSetWindow, r: int, cc: int)
    requires
        m0.wf(),
        m1.same_shape(m0),
        1 <= r,
        r + 2 < m0.rows_spec() - 1,
        r % 2 == 1,
        cell_col(m0, cc),
        joined_from(m0, m1, pt(r, cc), pt(r + 2, cc)),
        reaches(m1, pt(r, cc), pt(r + 2, cc)),
        forall|rr: int, k: int|
            m0.in_bounds(rr, k) && !spec_is_wall(m0.square(rr, k)) ==> !spec_is_wall(#[trigger] m1.square(rr, k)),
        built_paths(m1),
        !spec_is_built(m0.square(r + 2, cc)),
        spec_is_built(m0.square(r, cc)) || alone_in_row(m0, w0, cc),
        forall|k: int| 0 <= k < w0.width ==> #[trigger] cur_at(w1, k) == cur_at(w0, k),
        forall|k: int| 0 <= k < w0.width && k != cc ==> #[trigger] next_at(w1, k) == next_at(w0, k),
        next_at(w1, cc) == cur_at(w0, cc),
        w0.width == m0.cols_spec(),
        row_linked(m0, w0, r),
        above_linked(m0, r),
        below_linked(m0, w0, r),
    ensures
        row_linked(m1, w1, r),
        above_linked(m1, r),
        below_linked(m1, w1, r),
        has_drop(m1, w1, r, cur_at(w0, cc)),
        forall|id: SetId| has_drop(m0, w0, r, id) ==> #[trigger] has_drop(m1, w1, r, id),
{
    let a = pt(r, cc);
    let b = pt(r + 2, cc);
    lemma_join_built(m0, m1, a, b, r, cc);
    lemma_join_built(m0, m1, a, b, r + 2, cc);
    lemma_reaches_reverse(m1, a, b);
    assert forall|c1: int, c2: int|
        cell_col(m1, c1) && cell_col(m1, c2) && spec_is_built(m1.square(r, c1)) && spec_is_built(m1.square(r, c2)) && cur_at(
            w1,
            c1,
        ) == cur_at(w1, c2) implies #[trigger] reaches(m1, pt(r, c1), pt(r, c2)) by {
        lemma_join_built(m0, m1, a, b, r, c1);
        lemma_join_built(m0, m1, a, b, r, c2);
        if c1 == c2 {
            assert(!spec_is_wall(m1.square(r, c1)));
            lemma_reaches_self(m1, pt(r, c1));
        } else {
            if !spec_is_built(m0.square(r, c1)) {
                assert(c1 == cc);
                assert(alone_in_row(m0, w0, cc));
                assert(cur_at(w0, c2) != cur_at(w0, cc));
            }
            if !spec_is_built(m0.square(r, c2)) {
                assert(c2 == cc);
                assert(alone_in_row(m0, w0, cc));
                assert(cur_at(w0, c1) != cur_at(w0, cc));
            }
            assert(reaches(m0, pt(r, c1), pt(r, c2)));
            lemma_reaches_keep(m0, m1, pt(r, c1), pt(r, c2));
        }
    }
    assert forall|u: Point| is_cell(m1, u) && u.row < r && spec_is_built(sq(m1, u)) implies #[trigger] linked_to_row(m1, u, r) by {
        lemma_join_built(m0, m1, a, b, u.row as int, u.col as int);
        assert(is_cell(m0, u) && spec_is_built(sq(m0, u)));
        assert(linked_to_row(m0, u, r));
        let k = choose|k: int| cell_col(m0, k) && spec_is_built(m0.square(r, k)) && #[trigger] reaches(m0, u, pt(r, k));
        lemma_join_built(m0, m1, a, b, r, k);
        lemma_reaches_keep(m0, m1, u, pt(r, k));
        assert(cell_col(m1, k) && spec_is_built(m1.square(r, k)) && reaches(m1, u, pt(r, k)));
    }
    assert forall|k: int| cell_col(m1, k) && spec_is_built(#[trigger] m1.square(r + 2, k)) implies reaches(
        m1,
        pt(r + 2, k),
        pt(r, k),
    ) && next_at(w1, k) == cur_at(w1, k) && spec_is_built(m1.square(r, k)) by {
        lemma_join_built(m0, m1, a, b, r + 2, k);
        lemma_join_built(m0, m1, a, b, r, k);
        if k != cc {
            assert(spec_is_built(m0.square(r + 2, k)));
            lemma_reaches_keep(m0, m1, pt(r + 2, k), pt(r, k));
        }
    }
    assert(cell_col(m1, cc) && cur_at(w1, cc) == cur_at(w0, cc) && spec_is_built(m1.square(r + 2, cc)));
    assert forall|id: SetId| has_drop(m0, w0, r, id) implies #[trigger] has_drop(m1, w1, r, id) by {
        let k = choose|k: int| cell_col(m0, k) && cur_at(w0, k) == id && #[trigger] spec_is_built(m0.square(r + 2, k));
        lemma_join_built(m0, m1, a, b, r + 2, k);
        assert(cell_col(m1, k) && cur_at(w1, k) == id && spec_is_built(m1.square(r + 2, k)));
    }
}

/// At the end of a row, with every set of it dropped, the row below is
/// linked and every built cell above reaches it.
proof fn lemma_slide_linked(m: &Maze, w: &SlidingSetWindow, w2: &SlidingSetWindow, r: int)
    requires
        m.wf(),
        built_paths(m),
        r % 2 == 1,
        1 <= r,
        row_linked(m, w, r),
        above_linked(m, r),
        below_linked(m, w, r),
        forall|k: int| cell_col(m, k) ==> spec_is_built(#[trigger] m.square(r, k)),
        forall|k: int| cell_col(m, k) ==> #[trigger] has_drop(m, w, r, cur_at(w, k)),
        w2.width == w.width,
        w.width == m.cols_spec(),
        forall|k: int| 0 <= k < w.width ==> #[trigger] cur_at(w2, k) == next_at(w, k),
    ensures
        row_linked(m, w2, r + 2),
        above_linked(m, r + 2),
{
    assert forall|c1: int, c2: int|
        cell_col(m, c1) && cell_col(m, c2) && spec_is_built(m.square(r + 2, c1)) && spec_is_built(m.square(r + 2, c2))
            && cur_at(w2, c1) == cur_at(w2, c2) implies #[trigger] reaches(m, pt(r + 2, c1), pt(r + 2, c2)) by {
        assert(reaches(m, pt(r + 2, c1), pt(r, c1)));
        assert(reaches(m, pt(r + 2, c2), pt(r, c2)));
        assert(reaches(m, pt(r, c1), pt(r, c2)));
        lemma_reaches_reverse(m, pt(r + 2, c2), pt(r, c2));
        lemma_reaches_concat(m, pt(r + 2, c1), pt(r, c1), pt(r, c2));
        lemma_reaches_concat(m, pt(r + 2, c1), pt(r, c2), pt(r + 2, c2));
    }
    assert forall|u: Point| is_cell(m, u) && u.row < r + 2 && spec_is_built(sq(m, u)) implies #[trigger] linked_to_row(
        m,
        u,
        r + 2,
    ) by {
        let c: int = if u.row < r {
            choose|k: int| cell_col(m, k) && spec_is_built(m.square(r, k)) && #[trigger] reaches(m, u, pt(r, k))
        } else {
            u.col as int
        };
        if u.row < r {
            assert(linked_to_row(m, u, r));
        } else {
            assert(u.row == r);
            assert(pt(r, u.col as int) == u);
            assert(m.in_bounds(u.row as int, u.col as int));
            assert(!spec_is_wall(m.square(u.row as int, u.col as int)));
            lemma_reaches_self(m, u);
        }
        assert(cell_col(m, c) && reaches(m, u, pt(r, c)));
        assert(has_drop(m, w, r, cur_at(w, c)));
        let c2 = choose|k: int| cell_col(m, k) && cur_at(w, k) == cur_at(w, c) && #[trigger] spec_is_built(m.square(r + 2, k));
        assert(reaches(m, pt(r + 2, c2), pt(r, c2)));
        assert(reaches(m, pt(r, c), pt(r, c2)));
        lemma_reaches_reverse(m, pt(r + 2, c2), pt(r, c2));
        lemma_reaches_concat(m, u, pt(r, c), pt(r, c2));
        lemma_reaches_concat(m, u, pt(r, c2), pt(r + 2, c2));
        assert(cell_col(m, c2) && spec_is_built(m.square(r + 2, c2)) && reaches(m, u, pt(r + 2, c2)));
    }
}

/// With nothing built every linking holds.
proof fn lemma_first_linked(m: &Maze, w: &SlidingSetWindow)
    requires
        m.rows_spec() >= 3,
        forall|r: int, c: int| m.in_bounds(r, c) ==> !spec_is_built(#[trigger] m.square(r, c)),
    ensures
        row_linked(m, w, 1),
        above_linked(m, 1),
{
    assert forall|c1: int, c2: int|
        cell_col(m, c1) && cell_col(m, c2) && spec_is_built(m.square(1, c1)) && spec_is_built(m.square(1, c2)) && cur_at(
            w,
            c1,
        ) == cur_at(w, c2) implies #[trigger] reaches(m, pt(1, c1), pt(1, c2)) by {
        assert(m.in_bounds(1, c1));
    }
}

/// Links of row `r` depend only on its set numbers.
proof fn lemma_same_cur_linked(m: &Maze, w0: &SlidingSetWindow, w1: &SlidingSetWindow, r: int)
    requires
        row_linked(m, w0, r),
        w0.width == m.cols_spec(),
        forall|k: int| 0 <= k < w0.width ==> #[trigger] cur_at(w1, k) == cur_at(w0, k),
    ensures
        row_linked(m, w1, r),
{
    assert forall|c1: int, c2: int|
        cell_col(m, c1) && cell_col(m, c2) && spec_is_built(m.square(r, c1)) && spec_is_built(m.square(r, c2)) && cur_at(
            w1,
            c1,
        ) == cur_at(w1, c2) implies #[trigger] reaches(m, pt(r, c1), pt(r, c2)) by {
        assert(cur_at(w0, c1) == cur_at(w0, c2));
    }
}

/// A join of two squares at or below row `r` keeps the cells above linked
/// to row `r`.
proof fn lemma_join_above(m0: &Maze, m1: &Maze, a: Point, b: Point, r: int)
    requires
        m1.same_shape(m0),
        joined_from(m0, m1, a, b),
        a.row >= r,
        b.row >= r,
        between(a, b).row >= r,
        forall|rr: int, k: int|
            m0.in_bounds(rr, k) && !spec_is_wall(m0.square(rr, k)) ==> !spec_is_wall(#[trigger] m1.square(rr, k)),
        above_linked(m0, r),
    ensures
        above_linked(m1, r),
{
    assert forall|u: Point| is_cell(m1, u) && u.row < r && spec_is_built(sq(m1, u)) implies #[trigger] linked_to_row(m1, u, r) by {
        assert(m0.in_bounds(u.row as int, u.col as int));
        lemma_join_built(m0, m1, a, b, u.row as int, u.col as int);
        assert(pt(u.row as int, u.col as int) == u);
        assert(is_cell(m0, u) && spec_is_built(sq(m0, u)));
        assert(linked_to_row(m0, u, r));
        let k = choose|k: int| cell_col(m0, k) && spec_is_built(m0.square(r, k)) && #[trigger] reaches(m0, u, pt(r, k));
        assert(m0.in_bounds(r, k));
        lemma_join_built(m0, m1, a, b, r, k);
        lemma_reaches_keep(m0, m1, u, pt(r, k));
        assert(cell_col(m1, k) && spec_is_built(m1.square(r, k)) && reaches(m1, u, pt(r, k)));
    }
}

/// Once the set `ids[g]` has a drop, every set among the first `g + 1` has
/// one.
proof fn lemma_drops_step(m: &Maze, w: &SlidingSetWindow, wg: &SlidingSetWindow, ids: Seq<SetId>, g: int, r: int)
    requires
        0 <= g < ids.len(),
        forall|k: int|
            cell_col(m, k) && ids.subrange(0, g).contains(cur_at(wg, k)) ==> #[trigger] has_drop(m, w, r, cur_at(wg, k)),
        has_drop(m, w, r, ids[g]) || forall|k: int| cell_col(m, k) ==> cur_at(wg, k) != ids[g],
    ensures
        forall|k: int|
            cell_col(m, k) && ids.subrange(0, g + 1).contains(cur_at(wg, k)) ==> #[trigger] has_drop(m, w, r, cur_at(wg, k)),
{
    assert forall|k: int| cell_col(m, k) && ids.subrange(0, g + 1).contains(cur_at(wg, k)) implies #[trigger] has_drop(
        m,
        w,
        r,
        cur_at(wg, k),
    ) by {
        let sub = ids.subrange(0, g + 1);
        let t = choose|t: int| 0 <= t < sub.len() && #[trigger] sub[t] == cur_at(wg, k);
        if t < g {
            assert(ids.subrange(0, g)[t] == cur_at(wg, k));
            assert(ids.subrange(0, g).contains(cur_at(wg, k)));
        } else {
            assert(cur_at(wg, k) == ids[g]);
        }
    }
}

/// With every cell built, the cells above linked to the last row `r` and
/// every cell of it reaching the one at column `c`, the last, some cell
/// reaches every cell.
proof fn lemma_last_row_connects(m: &Maze, r: int, c: int)
    requires
        m.wf(),
        built_paths(m),
        all_cells_built(m),
        r == m.rows_spec() - 2,
        r >= 1,
        r % 2 == 1,
        cell_col(m, c),
        c == m.cols_spec() - 2,
        above_linked(m, r),
        forall|k: int| cell_col(m, k) && k < c ==> #[trigger] reaches(m, pt(r, k), pt(r, c)),
    ensures
        cells_connected(m),
{
    let s = pt(r, c);
    assert(s.row == r && s.col == c);
    assert(is_cell(m, s));
    assert(m.in_bounds(r, c));
    assert(spec_is_built(m.square(r, c)));
    lemma_reaches_self(m, s);
    assert forall|u: Point| is_cell(m, u) implies #[trigger] reaches(m, s, u) by {
        assert(m.in_bounds(u.row as int, u.col as int));
        assert(spec_is_built(sq(m, u)));
        let k: int = if u.row < r {
            choose|k: int| cell_col(m, k) && spec_is_built(m.square(r, k)) && #[trigger] reaches(m, u, pt(r, k))
        } else {
            u.col as int
        };
        if u.row < r {
            assert(linked_to_row(m, u, r));
        } else {
            assert(u.row == r);
            assert(pt(r, u.col as int) == u);
            assert(!spec_is_wall(m.square(u.row as int, u.col as int)));
            lemma_reaches_self(m, u);
        }
        assert(reaches(m, u, pt(r, k)));
        if k < c {
            lemma_reaches_concat(m, u, pt(r, k), s);
        }
        lemma_reaches_reverse(m, u, s);
    }
}

/// A join changes the build of no square but the two it joins and the one
/// between them, and builds those.
proof fn lemma_join_built(m0: &Maze, m1: &Maze, a: Point, b: Point, r: int, c: int)
    requires
        joined_from(m0, m1, a, b),
        m0.in_bounds(r, c),
    ensures
        spec_is_built(m0.square(r, c)) ==> spec_is_built(m1.square(r, c)),
        pt(r, c) != a && pt(r, c) != b && pt(r, c) != between(a, b) ==> spec_is_built(m1.square(r, c))
            == spec_is_built(m0.square(r, c)),
        pt(r, c) == a || pt(r, c) == b ==> spec_is_built(m1.square(r, c)),
{
    assert(join_fields(m0.square(r, c), m1.square(r, c), pt(r, c), a, b));
}

/// Fresh set numbers for the row below make a ready row one being carved.
proof fn lemma_row_start(m: &Maze, w0: &SlidingSetWindow, w1: &SlidingSetWindow, r: int)
    requires
        m.wf(),
        odd_dims(m),
        row_ready(m, w0, r),
        1 <= r < m.rows_spec() - 2,
        r % 2 == 1,
        w0.wf(),
        w1.wf(),
        w1.width == w0.width,
        w0.width == m.cols_spec(),
        w1.cur_row == w0.cur_row,
        forall|c: int| 0 <= c < w0.width ==> #[trigger] cur_at(w1, c) == cur_at(w0, c),
        forall|c: int| 0 <= c < w0.width ==> #[trigger] next_at(w1, c) == w0.next_available_id + c,
    ensures
        carving_row(m, w1, r, w0.next_available_id as int),
{
    let base = w0.next_available_id as int;
    assert forall|c: int| cell_col(m, c) implies spec_is_built(#[trigger] m.square(r, c)) || alone_in_row(m, w1, c) by {
        if !spec_is_built(m.square(r, c)) {
            assert(alone_in_row(m, w0, c));
            assert forall|c2: int| cell_col(m, c2) && c2 != c implies #[trigger] cur_at(w1, c2) != cur_at(w1, c) by {
                assert(cur_at(w0, c2) != cur_at(w0, c));
            }
        }
    }
    assert forall|c: int| cell_col(m, c) implies #[trigger] cur_at(w1, c) < base by {
        assert(cur_at(w0, c) < base);
    }
    assert forall|c: int| cell_col(m, c) implies if spec_is_built(#[trigger] m.square(r + 2, c)) {
        next_at(w1, c) < base && spec_is_built(m.square(r, c))
    } else {
        next_at(w1, c) == base + c
    } by {
        assert(!spec_is_built(m.square(r + 2, c)));
    }
}

/// Joining two neighbor cells of the row being carved and merging their
/// sets keeps the row being carved.
proof fn lemma_row_join(
    m0: &Maze,
    m1: &Maze,
    w0: &SlidingSetWindow,
    w1: &SlidingSetWindow,
    r: int,
    c: int,
    base: int,
)
    requires
        m0.wf(),
        m1.same_shape(m0),
        carving_row(m0, w0, r, base),
        cell_col(m0, c),
        cell_col(m0, c + 2),
        1 <= r,
        r + 2 < m0.rows_spec() - 1,
        joined_from(m0, m1, pt(r, c), pt(r, c + 2)),
        w0.width == m0.cols_spec(),
        w1.width == w0.width,
        forall|k: int|
            0 <= k < w0.width ==> #[trigger] cur_at(w1, k) == if cur_at(w0, k) == cur_at(w0, c + 2) {
                cur_at(w0, c)
            } else {
                cur_at(w0, k)
            },
        forall|k: int| 0 <= k < w0.width ==> #[trigger] next_at(w1, k) == next_at(w0, k),
    ensures
        carving_row(m1, w1, r, base),
{
    let a = pt(r, c);
    let b = pt(r, c + 2);
    assert(between(a, b) == pt(r, c + 1));
    assert forall|rr: int, k: int|
        1 <= rr < r && rr % 2 == 1 && cell_col(m1, k) implies spec_is_built(#[trigger] m1.square(rr, k)) by {
        assert(spec_is_built(m0.square(rr, k)));
        lemma_join_built(m0, m1, a, b, rr, k);
    }
    assert forall|rr: int, k: int|
        r + 2 < rr < m1.rows_spec() - 1 && rr % 2 == 1 && cell_col(m1, k) implies !spec_is_built(
        #[trigger] m1.square(rr, k),
    ) by {
        assert(!spec_is_built(m0.square(rr, k)));
        lemma_join_built(m0, m1, a, b, rr, k);
    }
    assert forall|u: int| cell_col(m1, u) implies spec_is_built(#[trigger] m1.square(r, u)) || alone_in_row(m1, w1, u) by {
        lemma_join_built(m0, m1, a, b, r, u);
        if !spec_is_built(m1.square(r, u)) {
            assert(!spec_is_built(m0.square(r, u)));
            assert(alone_in_row(m0, w0, u));
            assert(u != c && u != c + 2);
            assert(cur_at(w0, u) != cur_at(w0, c + 2));
            assert(cur_at(w0, u) != cur_at(w0, c));
            assert forall|c2: int| cell_col(m1, c2) && c2 != u implies #[trigger] cur_at(w1, c2) != cur_at(w1, u) by {
                assert(cur_at(w0, c2) != cur_at(w0, u));
            }
        }
    }
    assert forall|k: int| cell_col(m1, k) implies #[trigger] cur_at(w1, k) < base by {
        assert(cur_at(w0, k) < base);
        assert(cur_at(w0, c) < base);
    }
    assert forall|k: int| cell_col(m1, k) implies if spec_is_built(#[trigger] m1.square(r + 2, k)) {
        next_at(w1, k) < base && spec_is_built(m1.square(r, k))
    } else {
        next_at(w1, k) == base + k
    } by {
        lemma_join_built(m0, m1, a, b, r + 2, k);
        lemma_join_built(m0, m1, a, b, r, k);
        assert(next_at(w1, k) == next_at(w0, k));
        if spec_is_built(m0.square(r + 2, k)) {
            assert(spec_is_built(m0.square(r, k)));
        }
    }
    if m0.cols_spec() == 3 && r > 1 {
        lemma_join_built(m0, m1, a, b, r, 1);
    }
}

/// Dropping the cell `c` of the row being carved into the unbuilt cell below
/// it, which takes its set, keeps the row being carved and builds both.
proof fn lemma_row_drop(
    m0: &Maze,
    m1: &Maze,
    w0: &SlidingSetWindow,
    w1: &SlidingSetWindow,
    r: int,
    c: int,
    base: int,
)
    requires
        m0.wf(),
        m1.same_shape(m0),
        carving_row(m0, w0, r, base),
        cell_col(m0, c),
        1 <= r,
        r + 2 < m0.rows_spec() - 1,
        !spec_is_built(m0.square(r + 2, c)),
        joined_from(m0, m1, pt(r, c), pt(r + 2, c)),
        w0.width == m0.cols_spec(),
        w1.width == w0.width,
        forall|k: int| 0 <= k < w0.width ==> #[trigger] cur_at(w1, k) == cur_at(w0, k),
        forall|k: int| 0 <= k < w0.width && k != c ==> #[trigger] next_at(w1, k) == next_at(w0, k),
        next_at(w1, c) == cur_at(w0, c),
    ensures
        carving_row(m1, w1, r, base),
        spec_is_built(m1.square(r, c)),
        spec_is_built(m1.square(r + 2, c)),
        forall|k: int| cell_col(m0, k) && spec_is_built(m0.square(r, k)) ==> spec_is_built(#[trigger] m1.square(r, k)),
        forall|k: int|
            cell_col(m0, k) && spec_is_built(m0.square(r + 2, k)) ==> spec_is_built(#[trigger] m1.square(r + 2, k)),
{
    let a = pt(r, c);
    let b = pt(r + 2, c);
    assert(between(a, b) == pt(r + 1, c));
    lemma_join_built(m0, m1, a, b, r, c);
    lemma_join_built(m0, m1, a, b, r + 2, c);
    assert forall|rr: int, k: int|
        1 <= rr < r && rr % 2 == 1 && cell_col(m1, k) implies spec_is_built(#[trigger] m1.square(rr, k)) by {
        assert(spec_is_built(m0.square(rr, k)));
        lemma_join_built(m0, m1, a, b, rr, k);
    }
    assert forall|rr: int, k: int|
        r + 2 < rr < m1.rows_spec() - 1 && rr % 2 == 1 && cell_col(m1, k) implies !spec_is_built(
        #[trigger] m1.square(rr, k),
    ) by {
        assert(!spec_is_built(m0.square(rr, k)));
        lemma_join_built(m0, m1, a, b, rr, k);
    }
    assert forall|u: int| cell_col(m1, u) implies spec_is_built(#[trigger] m1.square(r, u)) || alone_in_row(m1, w1, u) by {
        lemma_join_built(m0, m1, a, b, r, u);
        if !spec_is_built(m1.square(r, u)) {
            assert(alone_in_row(m0, w0, u));
            assert forall|c2: int| cell_col(m1, c2) && c2 != u implies #[trigger] cur_at(w1, c2) != cur_at(w1, u) by {
                assert(cur_at(w0, c2) != cur_at(w0, u));
            }
        }
    }
    assert forall|k: int| cell_col(m1, k) implies #[trigger] cur_at(w1, k) < base by {
        assert(cur_at(w0, k) < base);
    }
    assert forall|k: int| cell_col(m1, k) implies if spec_is_built(#[trigger] m1.square(r + 2, k)) {
        next_at(w1, k) < base && spec_is_built(m1.square(r, k))
    } else {
        next_at(w1, k) == base + k
    } by {
        lemma_join_built(m0, m1, a, b, r + 2, k);
        lemma_join_built(m0, m1, a, b, r, k);
        if k == c {
            assert(cur_at(w0, c) < base);
        } else {
            assert(next_at(w1, k) == next_at(w0, k));
            if spec_is_built(m0.square(r + 2, k)) {
                assert(spec_is_built(m0.square(r, k)));
            }
        }
    }
    assert forall|k: int| cell_col(m0, k) && spec_is_built(m0.square(r, k)) implies spec_is_built(
        #[trigger] m1.square(r, k),
    ) by {
        lemma_join_built(m0, m1, a, b, r, k);
    }
    assert forall|k: int| cell_col(m0, k) && spec_is_built(m0.square(r + 2, k)) implies spec_is_built(
        #[trigger] m1.square(r + 2, k),
    ) by {
        lemma_join_built(m0, m1, a, b, r + 2, k);
    }
    if m0.cols_spec() == 3 && r > 1 {
        lemma_join_built(m0, m1, a, b, r, 1);
    }
}

/// With every cell of the carved row built, sliding the window makes the
/// row below ready.
proof fn lemma_row_end(m: &Maze, w: &SlidingSetWindow, w2: &SlidingSetWindow, r: int, base: int)
    requires
        m.wf(),
        carving_row(m, w, r, base),
        forall|k: int| cell_col(m, k) ==> spec_is_built(#[trigger] m.square(r, k)),
        m.cols_spec() == 3 ==> spec_is_built(m.square(r + 2, 1)),
        r % 2 == 1,
        w.width == m.cols_spec(),
        w.next_available_id == base + w.width,
        w.cur_row < 2,
        w2.cur_row == (w.cur_row + 1) % 2,
        w2.width == w.width,
        w2.sets@ == w.sets@,
        w2.next_available_id == w.next_available_id,
    ensures
        row_ready(m, w2, r + 2),
{
    assert forall|k: int| 0 <= k < w.width implies #[trigger] cur_at(w2, k) == next_at(w, k) by {}
    assert forall|rr: int, k: int|
        1 <= rr < r + 2 && rr % 2 == 1 && cell_col(m, k) implies spec_is_built(#[trigger] m.square(rr, k)) by {
        if rr != r {
            assert(rr < r);
        }
    }
    assert forall|u: int| cell_col(m, u) implies spec_is_built(#[trigger] m.square(r + 2, u)) || alone_in_row(m, w2, u) by {
        if !spec_is_built(m.square(r + 2, u)) {
            assert(next_at(w, u) == base + u);
            assert forall|c2: int| cell_col(m, c2) && c2 != u implies #[trigger] cur_at(w2, c2) != cur_at(w2, u) by {
                assert(cur_at(w2, c2) == next_at(w, c2));
                if spec_is_built(m.square(r + 2, c2)) {
                } else {
                }
            }
        }
    }
    assert forall|k: int| cell_col(m, k) implies #[trigger] cur_at(w2, k) < w2.next_available_id by {
        assert(cur_at(w2, k) == next_at(w, k));
        if spec_is_built(m.square(r + 2, k)) {
        } else {
        }
    }
}

/// A fresh window over a maze with nothing built makes the first row ready.
proof fn lemma_first_row(m: &Maze, w: &SlidingSetWindow)
    requires
        m.wf(),
        forall|r: int, c: int| m.in_bounds(r, c) ==> !spec_is_built(#[trigger] m.square(r, c)),
        w.wf(),
        w.cur_row == 0,
        w.width == m.cols_spec(),
        w.next_available_id == m.cols_spec(),
        forall|i: int| 0 <= i < w.sets@.len() ==> w.sets@[i] == i,
    ensures
        row_ready(m, w, 1),
{
    assert forall|k: int| 0 <= k < w.width implies #[trigger] cur_at(w, k) == k by {
        assert(w.sets@[k] == k);
    }
    assert forall|u: int| cell_col(m, u) implies spec_is_built(#[trigger] m.square(1, u)) || alone_in_row(m, w, u) by {
        assert forall|c2: int| cell_col(m, c2) && c2 != u implies #[trigger] cur_at(w, c2) != cur_at(w, u) by {}
    }
}

/// The last row `r` is joined left to right up to column `c`: the rows
/// above are all built, so are the cells left of `c`, and the cell at `c`
/// past the first; each cell from `c` on is built or alone in its set.
pub open spec fn final_row_state(m: &Maze, w: &SlidingSetWindow, r: int, c: int) -> bool {
    &&& forall|rr: int, k: int|
        1 <= rr < r && rr % 2 == 1 && cell_col(m, k) ==> spec_is_built(#[trigger] m.square(rr, k))
    &&& forall|k: int| cell_col(m, k) && k < c ==> spec_is_built(#[trigger] m.square(r, k))
    &&& c > 1 ==> spec_is_built(m.square(r, c))
    &&& forall|k: int| cell_col(m, k) && k >= c ==> spec_is_built(#[trigger] m.square(r, k)) || alone_in_row(m, w, k)
}

/// Joining the cells at `c` and `c + 2` of the last row, which lie in
/// different sets, and merging the sets to the right moves the join on.
proof fn lemma_final_join(m0: &Maze, m1: &Maze, w0: &SlidingSetWindow, w1: &SlidingSetWindow, r: int, c: int)
    requires
        m0.wf(),
        m1.same_shape(m0),
        1 <= r < m0.rows_spec() - 1,
        final_row_state(m0, w0, r, c),
        cell_col(m0, c),
        cell_col(m0, c + 2),
        joined_from(m0, m1, pt(r, c), pt(r, c + 2)),
        w0.width == m0.cols_spec(),
        w1.width == w0.width,
        forall|k: int|
            0 <= k < w0.width ==> #[trigger] cur_at(w1, k) == if k % 2 == 1 && k >= c + 2 && cur_at(w0, k) == cur_at(
                w0,
                c + 2,
            ) {
                cur_at(w0, c)
            } else {
                cur_at(w0, k)
            },
    ensures
        final_row_state(m1, w1, r, c + 2),
{
    let a = pt(r, c);
    let b = pt(r, c + 2);
    assert(between(a, b) == pt(r, c + 1));
    lemma_join_built(m0, m1, a, b, r, c);
    lemma_join_built(m0, m1, a, b, r, c + 2);
    assert forall|rr: int, k: int|
        1 <= rr < r && rr % 2 == 1 && cell_col(m1, k) implies spec_is_built(#[trigger] m1.square(rr, k)) by {
        assert(spec_is_built(m0.square(rr, k)));
        lemma_join_built(m0, m1, a, b, rr, k);
    }
    assert forall|k: int| cell_col(m1, k) && k < c + 2 implies spec_is_built(#[trigger] m1.square(r, k)) by {
        lemma_join_built(m0, m1, a, b, r, k);
        if k < c {
            assert(spec_is_built(m0.square(r, k)));
        }
    }
    assert forall|u: int| cell_col(m1, u) && u >= c + 2 implies spec_is_built(#[trigger] m1.square(r, u))
        || alone_in_row(m1, w1, u) by {
        lemma_join_built(m0, m1, a, b, r, u);
        if !spec_is_built(m1.square(r, u)) {
            assert(!spec_is_built(m0.square(r, u)));
            assert(alone_in_row(m0, w0, u));
            assert(u != c + 2);
            assert(cur_at(w0, u) != cur_at(w0, c + 2));
            assert(cur_at(w0, u) != cur_at(w0, c));
            assert(cur_at(w1, u) == cur_at(w0, u));
            assert forall|c2: int| cell_col(m1, c2) && c2 != u implies #[trigger] cur_at(w1, c2) != cur_at(w1, u) by {
                assert(cur_at(w0, c2) != cur_at(w0, u));
            }
        }
    }
}

/// Cells at `c` and `c + 2` of the last row in one set are both built
/// already, and the join moves on.
proof fn lemma_final_same(m: &Maze, w: &SlidingSetWindow, r: int, c: int)
    requires
        final_row_state(m, w, r, c),
        cell_col(m, c),
        cell_col(m, c + 2),
        cur_at(w, c) == cur_at(w, c + 2),
    ensures
        final_row_state(m, w, r, c + 2),
{
    if !spec_is_built(m.square(r, c)) {
        assert(alone_in_row(m, w, c));
        assert(cur_at(w, c + 2) != cur_at(w, c));
    }
    if !spec_is_built(m.square(r, c + 2)) {
        assert(alone_in_row(m, w, c + 2));
        assert(cur_at(w, c) != cur_at(w, c + 2));
    }
    assert forall|k: int| cell_col(m, k) && k < c + 2 implies spec_is_built(#[trigger] m.square(r, k)) by {
        if k < c {
        }
    }
}

/// Joins adjacent cells of the last row that lie in different sets,
/// merging their sets.
#[verifier::rlimit(60)]
fn complete_final_row(maze: &mut Maze, window: &mut SlidingSetWindow)
    requires
        old(maze).wf(),
        carve_clean(old(maze)),
        old(window).wf(),
        old(window).width == old(maze).cols_spec(),
        old(maze).rows_spec() >= 2 || old(maze).cols_spec() <= 3,
        odd_dims(old(maze)) && old(maze).rows_spec() >= 3 ==> row_linked(old(maze), old(window), old(maze).rows_spec() - 2)
            && above_linked(old(maze), old(maze).rows_spec() - 2),
    ensures
        reshaped(final(maze), old(maze)),
        carve_clean(final(maze)),
        odd_dims(old(maze)) && old(maze).rows_spec() >= 3 && !(old(maze).rows_spec() == 3 && old(maze).cols_spec() == 3)
            && row_ready(old(maze), old(window), old(maze).rows_spec() - 2) ==> all_cells_built(final(maze)),
        odd_dims(old(maze)) && old(maze).rows_spec() >= 3 && old(maze).cols_spec() >= 3 && !(old(maze).rows_spec() == 3
            && old(maze).cols_spec() == 3) && row_ready(old(maze), old(window), old(maze).rows_spec() - 2) ==> cells_connected(
            final(maze),
        ),
{
    let ghost good = odd_dims(maze) && maze.rows_spec() >= 3 && !(maze.rows_spec() == 3 && maze.cols_spec() == 3)
        && row_ready(maze, window, maze.rows_spec() - 2);
    let r = maze.rows() - 2;
    let set_r = window.cur_row;
    let mut c: i32 = 1;
    proof {
        if good {
            assert forall|k: int| cell_col(maze, k) && k >= 1 implies spec_is_built(#[trigger] maze.square(r as int, k))
                || alone_in_row(maze, window, k) by {}
        }
    }
    while c < maze.cols() - 2
        invariant
            reshaped(maze, old(maze)),
            carve_clean(maze),
            window.wf(),
            window.width == maze.cols_spec(),
            set_r == window.cur_row,
            r == maze.rows_spec() - 2,
            maze.rows_spec() >= 2 || maze.cols_spec() <= 3,
            1 <= c,
            c % 2 == 1,
            good ==> odd_dims(maze) && maze.rows_spec() >= 3 && final_row_state(maze, window, r as int, c as int),
            good ==> c <= maze.cols_spec() - 2 || maze.cols_spec() < 3,
            maze.cols_spec() <= 3 ==> maze.squares() == old(maze).squares(),
            good ==> row_linked(maze, window, r as int) && above_linked(maze, r as int),
            good ==> forall|k: int| cell_col(maze, k) && k < c ==> #[trigger] reaches(maze, pt(r as int, k), pt(r as int, c as int)),
        decreases maze.cols_spec() - c,
    {
        let this_id = window.at(set_r, c as usize);
        let next = Point { row: r, col: c + NEIGHBOR_DIST };
        let neighbor_id = window.at(set_r, (c + NEIGHBOR_DIST) as usize);
        proof {
            if good {
                assert(cell_col(maze, c as int + 2));
            }
        }
        if this_id != neighbor_id {
            let ghost m0 = *maze;
            let ghost w0 = *window;
            eller_join(maze, Point { row: r, col: c }, next);
            let mut set_elem: i32 = next.col;
            while set_elem < maze.cols() - 1
                invariant
                    window.wf(),
                    window.width == maze.cols_spec(),
                    window.width == w0.width,
                    window.cur_row == w0.cur_row,
                    set_r == window.cur_row,
                    1 <= c,
                    c + 2 <= set_elem,
                    set_elem % 2 == 1,
                    this_id == cur_at(&w0, c as int),
                    neighbor_id == cur_at(&w0, c as int + 2),
                    forall|k: int|
                        0 <= k < w0.width ==> #[trigger] cur_at(window, k) == if k % 2 == 1 && c + 2 <= k < set_elem
                            && cur_at(&w0, k) == neighbor_id {
                            this_id
                        } else {
                            cur_at(&w0, k)
                        },
                decreases maze.cols_spec() - set_elem,
            {
                let ghost wpre = *window;
                let ghost w_seq = window.sets@;
                let wd = window.width;
                if window.at(set_r, set_elem as usize) == neighbor_id {
                    window.set_at(set_r, set_elem as usize, this_id);
                }
                proof {
                    lemma_slots(wd as int);
                    let here = window_slot(set_r as int, wd as int, set_elem as int);
                    assert(cur_at(&wpre, set_elem as int) == w_seq[here]);
                    assert forall|k: int| 0 <= k < wd implies #[trigger] cur_at(window, k) == if k % 2 == 1 && c + 2
                        <= k < set_elem + 2 && cur_at(&w0, k) == neighbor_id {
                        this_id
                    } else {
                        cur_at(&w0, k)
                    } by {
                        if k != set_elem {
                            assert(window_slot(set_r as int, wd as int, k) != here);
                            assert(cur_at(&wpre, k) == w_seq[window_slot(set_r as int, wd as int, k)]);
                        } else {
                            assert(cur_at(&wpre, k) == cur_at(&w0, k));
                        }
                    }
                }
                set_elem = set_elem + 2;
            }
            proof {
                if good {
                    assert forall|k: int| 0 <= k < w0.width implies #[trigger] cur_at(window, k) == if k % 2 == 1 && k
                        >= c + 2 && cur_at(&w0, k) == cur_at(&w0, c as int + 2) {
                        cur_at(&w0, c as int)
                    } else {
                        cur_at(&w0, k)
                    } by {}
                    lemma_final_join(&m0, maze, &w0, window, r as int, c as int);
                    let a = Point { row: r, col: c };
                    assert(a == pt(r as int, c as int));
                    assert(next == pt(r as int, c + 2));
                    assert(cell_step(&m0, a, next));
                    lemma_join_links(&m0, maze, a, next);
                    assert forall|k: int| cell_col(&m0, k) implies #[trigger] cur_at(window, k) == cur_at(&w0, k) || (cur_at(
                        &w0,
                        k,
                    ) == cur_at(&w0, c + 2) && cur_at(window, k) == cur_at(&w0, c as int)) by {}
                    lemma_merge_linked(&m0, maze, &w0, window, r as int, c as int);
                    lemma_join_above(&m0, maze, a, next, r as int);
                    assert forall|k: int| cell_col(maze, k) && k < c + 2 implies #[trigger] reaches(
                        maze,
                        pt(r as int, k),
                        pt(r as int, c + 2),
                    ) by {
                        if k < c {
                            assert(reaches(&m0, pt(r as int, k), pt(r as int, c as int)));
                            lemma_reaches_keep(&m0, maze, pt(r as int, k), pt(r as int, c as int));
                            lemma_reaches_concat(maze, pt(r as int, k), pt(r as int, c as int), pt(r as int, c + 2));
                        }
                    }
                }
            }
        } else {
            proof {
                if good {
                    lemma_final_same(maze, window, r as int, c as int);
                    assert(reaches(maze, pt(r as int, c as int), pt(r as int, c + 2)));
                    assert forall|k: int| cell_col(maze, k) && k < c + 2 implies #[trigger] reaches(
                        maze,
                        pt(r as int, k),
                        pt(r as int, c + 2),
                    ) by {
                        if k < c {
                            assert(reaches(maze, pt(r as int, k), pt(r as int, c as int)));
                            lemma_reaches_concat(maze, pt(r as int, k), pt(r as int, c as int), pt(r as int, c + 2));
                        }
                    }
                }
            }
        }
        c = c + 2;
    }
    proof {
        if good {
            assert forall|rr: int, cc: int|
                maze.in_bounds(rr, cc) && is_cell(maze, pt(rr, cc)) implies spec_is_built(#[trigger] maze.square(rr, cc)) by {
                assert(cell_col(maze, cc));
                if rr < r {
                } else if maze.cols_spec() == 3 {
                    assert(cc == 1);
                    assert(spec_is_built(old(maze).square(rr, 1)));
                    assert(maze.square(rr, 1) == old(maze).square(rr, 1));
                } else {
                    assert(c == maze.cols_spec() - 2);
                    if cc < c {
                    }
                }
            }
            if maze.cols_spec() >= 3 {
                lemma_last_row_connects(maze, r as int, c as int);
            }
        }
    }
}

/// An Eller maze, row by row: each pair of neighbor cells in different sets
/// is joined at random and their sets merged; then each set drops at least
/// one cell into the row below, which keeps the set; the last row joins every
/// pair of neighbors still in different sets. With odd dimensions every cell
/// ends up built, but for the lone cell of a maze three squares on a side.
#[verifier::rlimit(80)]
pub fn generate_maze(maze: &mut Maze)
    requires
        old(maze).wf(),
        old(maze).rows_spec() >= 2 || old(maze).cols_spec() <= 3,
    ensures
        reshaped(final(maze), old(maze)),
        built_paths(final(maze)),
        no_markers(final(maze)),
        crate::builders::cells::clean_bits(final(maze)),
        odd_dims(final(maze)) ==> perimeter_walls(final(maze)),
        odd_dims(final(maze)) && !(final(maze).rows_spec() == 3 && final(maze).cols_spec() == 3) ==> all_cells_built(
            final(maze),
        ),
        odd_dims(final(maze)) && final(maze).rows_spec() >= 3 && final(maze).cols_spec() >= 3 && !(final(maze).rows_spec()
            == 3 && final(maze).cols_spec() == 3) ==> cells_connected(final(maze)),
{
    fill_maze_with_walls(maze);
    proof {
        lemma_all_walls_perimeter(maze);
        crate::builders::cells::lemma_walls_clean(maze);
        assert forall|r: int, c: int| maze.in_bounds(r, c) implies {
            &&& !spec_is_built(#[trigger] maze.square(r, c))
            &&& spec_marker(maze.square(r, c)) == 0
        } by {
            lemma_walled_bits(maze.rows_spec(), maze.cols_spec(), r, c);
        }
    }
    let mut window = SlidingSetWindow::new(maze);
    let ghost odd = odd_dims(maze);
    proof {
        lemma_first_row(maze, &window);
        if maze.rows_spec() >= 3 {
            lemma_first_linked(maze, &window);
        }
    }
    let rows = maze.rows();
    let cols = maze.cols();
    let mut r: i32 = 1;
    while r < rows - 2
        invariant
            reshaped(maze, old(maze)),
            carve_clean(maze),
            rows == maze.rows_spec(),
            cols == maze.cols_spec(),
            window.wf(),
            window.width == cols,
            1 <= r,
            r % 2 == 1,
            window.next_available_id <= cols + r * cols,
            rows * cols <= i32::MAX,
            odd == odd_dims(maze),
            odd ==> row_ready(maze, &window, r as int),
            odd ==> r <= rows - 2 || rows < 3,
            odd && rows >= 3 ==> row_linked(maze, &window, r as int) && above_linked(maze, r as int),
        decreases rows - r,
    {
        proof {
            assert(cols + r * cols + cols <= cols + (r + 2) * cols) by (nonlinear_arith)
                requires
                    cols >= 1,
            ;
            assert(cols + (r + 2) * cols <= 2 * (rows * cols)) by (nonlinear_arith)
                requires
                    cols >= 1,
                    rows >= 1,
                    r + 2 <= rows,
            ;
        }
        let ghost wr = window;
        let next_row = window.next_row_i();
        window.generate_sets(next_row);
        let ghost nid = window.next_available_id;
        let ghost base = wr.next_available_id as int;
        proof {
            if odd {
                assert forall|c: int| 0 <= c < wr.width implies #[trigger] cur_at(&window, c) == cur_at(&wr, c) by {
                    assert((next_row + 1) % 2 == wr.cur_row);
                }
                assert forall|c: int| 0 <= c < wr.width implies #[trigger] next_at(&window, c) == wr.next_available_id + c by {
                    assert((window.cur_row + 1) % 2 == next_row);
                }
                lemma_row_start(maze, &wr, &window, r as int);
                lemma_same_cur_linked(maze, &wr, &window, r as int);
            }
        }
        let mut c: i32 = 1;
        while c < cols - 1
            invariant
                reshaped(maze, old(maze)),
                carve_clean(maze),
                rows == maze.rows_spec(),
                cols == maze.cols_spec(),
                window.wf(),
                window.width == cols,
                window.next_available_id == nid,
                nid <= cols + (r + 2) * cols,
                nid == base + cols,
                rows * cols <= i32::MAX,
                1 <= r < rows - 2,
                r % 2 == 1,
                1 <= c,
                c % 2 == 1,
                odd == odd_dims(maze),
                odd ==> carving_row(maze, &window, r as int, base),
                odd ==> row_linked(maze, &window, r as int) && above_linked(maze, r as int),
                odd ==> forall|k: int| cell_col(maze, k) ==> !spec_is_built(#[trigger] maze.square(r + 2, k)),
            decreases cols - c,
        {
            let cur_id = window.at(window.cur_row, c as usize);
            let next = Point { row: r, col: c + NEIGHBOR_DIST };
            if is_square_within_perimeter_walls(maze, next) && cur_id != window.at(window.cur_row, next.col as usize)
                && random_ratio(66, 100) {
                let neighbor_id = window.at(window.cur_row, next.col as usize);
                let ghost m0 = *maze;
                let ghost w0 = window;
                eller_join(maze, Point { row: r, col: c }, next);
                merge_cur_row_sets(&mut window, IdMergeRequest { winner: cur_id, loser: neighbor_id });
                proof {
                    if odd {
                        assert(cell_col(&m0, c as int + 2));
                        lemma_row_join(&m0, maze, &w0, &window, r as int, c as int, base);
                        let a = Point { row: r, col: c };
                        assert(a == pt(r as int, c as int));
                        assert(next == pt(r as int, c + 2));
                        assert(cell_step(&m0, a, next));
                        lemma_join_links(&m0, maze, a, next);
                        assert forall|k: int| cell_col(&m0, k) implies #[trigger] cur_at(&window, k) == cur_at(&w0, k) || (
                        cur_at(&w0, k) == cur_at(&w0, c + 2) && cur_at(&window, k) == cur_at(&w0, c as int)) by {}
                        lemma_merge_linked(&m0, maze, &w0, &window, r as int, c as int);
                        lemma_join_above(&m0, maze, a, next, r as int);
                        assert forall|k: int| cell_col(maze, k) implies !spec_is_built(#[trigger] maze.square(r + 2, k)) by {
                            lemma_join_built(&m0, maze, a, next, r + 2, k);
                        }
                    }
                }
            }
            c = c + 2;
        }
        let ids = row_set_ids(maze, &window);
        let ghost wg = window;
        proof {
            if odd {
                assert forall|k: int| cell_col(maze, k) && spec_is_built(#[trigger] maze.square(r + 2, k)) implies reaches(
                    maze,
                    pt(r + 2, k),
                    pt(r as int, k),
                ) && next_at(&window, k) == cur_at(&window, k) && spec_is_built(maze.square(r as int, k)) by {}
            }
        }
        let mut g: usize = 0;
        while g < ids.len()
            invariant
                reshaped(maze, old(maze)),
                carve_clean(maze),
                rows == maze.rows_spec(),
                cols == maze.cols_spec(),
                window.wf(),
                window.width == cols,
                window.cur_row == wg.cur_row,
                window.next_available_id == nid,
                nid <= cols + (r + 2) * cols,
                nid == base + cols,
                rows * cols <= i32::MAX,
                1 <= r < rows - 2,
                r % 2 == 1,
                g <= ids@.len(),
                odd == odd_dims(maze),
                odd ==> carving_row(maze, &window, r as int, base),
                forall|k: int| 0 <= k < cols ==> #[trigger] cur_at(&window, k) == cur_at(&wg, k),
                forall|k: int| cell_col(maze, k) ==> #[trigger] ids@.contains(cur_at(&wg, k)),
                odd ==> forall|k: int|
                    cell_col(maze, k) && alone_in_row(maze, &wg, k) && #[trigger] ids@.subrange(0, g as int).contains(
                        cur_at(&wg, k),
                    ) ==> spec_is_built(maze.square(r as int, k)) && spec_is_built(maze.square(r + 2, k)),
                odd ==> row_linked(maze, &window, r as int) && above_linked(maze, r as int) && below_linked(
                    maze,
                    &window,
                    r as int,
                ),
                odd ==> forall|k: int|
                    cell_col(maze, k) && ids@.subrange(0, g as int).contains(cur_at(&wg, k)) ==> #[trigger] has_drop(
                        maze,
                        &window,
                        r as int,
                        cur_at(&wg, k),
                    ),
            decreases ids@.len() - g,
        {
            let id = ids[g];
            let members = set_members(maze, &window, r, id);
            let ghost mg = *maze;
            if members.len() > 0 {
                proof {
                    assert(cols <= i32::MAX) by (nonlinear_arith)
                        requires
                            rows * cols <= i32::MAX,
                            rows >= 1,
                            cols >= 1,
                    ;
                }
                let count = random_range_inclusive(1, members.len() as i32);
                let mut d: i32 = 0;
                while d < count
                    invariant
                        reshaped(maze, old(maze)),
                        carve_clean(maze),
                        rows == maze.rows_spec(),
                        cols == maze.cols_spec(),
                        window.wf(),
                        window.width == cols,
                        window.cur_row == wg.cur_row,
                        window.next_available_id == nid,
                        nid <= cols + (r + 2) * cols,
                        nid == base + cols,
                        rows * cols <= i32::MAX,
                        1 <= r < rows - 2,
                        r % 2 == 1,
                        members@.len() > 0,
                        members@.len() <= i32::MAX,
                        0 <= d <= count,
                        forall|j: int|
                            0 <= j < members@.len() ==> (#[trigger] members@[j]).row == r && 1 <= members@[j].col
                                < cols - 1 && members@[j].col % 2 == 1 && cur_at(&wg, members@[j].col as int) == id,
                        odd == odd_dims(maze),
                        odd ==> carving_row(maze, &window, r as int, base),
                        forall|k: int| 0 <= k < cols ==> #[trigger] cur_at(&window, k) == cur_at(&wg, k),
                        odd ==> forall|k: int|
                            cell_col(maze, k) && spec_is_built(mg.square(r as int, k)) ==> spec_is_built(
                                #[trigger] maze.square(r as int, k),
                            ),
                        odd ==> forall|k: int|
                            cell_col(maze, k) && spec_is_built(mg.square(r + 2, k)) ==> spec_is_built(
                                #[trigger] maze.square(r + 2, k),
                            ),
                        odd && d > 0 ==> forall|k: int|
                            cell_col(maze, k) && alone_in_row(maze, &wg, k) && cur_at(&wg, k) == id ==> spec_is_built(
                                #[trigger] maze.square(r as int, k),
                            ) && spec_is_built(maze.square(r + 2, k)),
                        odd ==> row_linked(maze, &window, r as int) && above_linked(maze, r as int) && below_linked(
                            maze,
                            &window,
                            r as int,
                        ),
                        odd ==> forall|k: int|
                            cell_col(maze, k) && ids@.subrange(0, g as int).contains(cur_at(&wg, k)) ==> #[trigger] has_drop(
                                maze,
                                &window,
                                r as int,
                                cur_at(&wg, k),
                            ),
                        odd && d > 0 ==> has_drop(maze, &window, r as int, id),
                        g < ids@.len(),
                        id == ids@[g as int],
                    decreases count - d,
                {
                    let chose = members[random_range(0, members.len() as i32) as usize];
                    let below = Point { row: chose.row + DROP_DIST, col: chose.col };
                    let ghost m0 = *maze;
                    let ghost w0 = window;
                    if !has_builder_bit(maze, below) {
                        let next_row = window.next_row_i();
                        window.set_at(next_row, chose.col as usize, id);
                        eller_join(maze, chose, below);
                        proof {
                            lemma_slots(cols as int);
                            assert forall|k: int| 0 <= k < w0.width implies #[trigger] cur_at(&window, k) == cur_at(
                                &w0,
                                k,
                            ) by {
                                assert(window_slot(w0.cur_row as int, cols as int, k) != window_slot(
                                    next_row as int,
                                    cols as int,
                                    chose.col as int,
                                ));
                            }
                            if odd {
                                assert forall|k: int| 0 <= k < w0.width && k != chose.col implies #[trigger] next_at(
                                    &window,
                                    k,
                                ) == next_at(&w0, k) by {
                                    assert(window_slot(next_row as int, cols as int, k) != window_slot(
                                        next_row as int,
                                        cols as int,
                                        chose.col as int,
                                    ));
                                }
                                assert(chose == pt(r as int, chose.col as int));
                                lemma_row_drop(&m0, maze, &w0, &window, r as int, chose.col as int, base);
                                assert(below == pt(r + 2, chose.col as int));
                                assert(cell_step(&m0, chose, below));
                                lemma_join_links(&m0, maze, chose, below);
                                assert(next_at(&window, chose.col as int) == cur_at(&w0, chose.col as int));
                                lemma_drop_linked(&m0, maze, &w0, &window, r as int, chose.col as int);
                                assert forall|k: int|
                                    cell_col(maze, k) && ids@.subrange(0, g as int).contains(cur_at(&wg, k)) implies #[trigger] has_drop(
                                    maze,
                                    &window,
                                    r as int,
                                    cur_at(&wg, k),
                                ) by {
                                    assert(has_drop(&m0, &w0, r as int, cur_at(&wg, k)));
                                }
                            }
                        }
                    }
                    proof {
                        if odd {
                            assert(cur_at(&window, chose.col as int) == id);
                            assert(spec_is_built(maze.square(r + 2, chose.col as int)));
                            assert(cell_col(maze, chose.col as int));
                            assert(has_drop(maze, &window, r as int, id));
                            assert forall|k: int|
                                cell_col(maze, k) && alone_in_row(maze, &wg, k) && cur_at(&wg, k) == id implies spec_is_built(
                                #[trigger] maze.square(r as int, k),
                            ) && spec_is_built(maze.square(r + 2, k)) by {
                                if d > 0 {
                                    assert(spec_is_built(m0.square(r as int, k)));
                                } else {
                                    assert(cur_at(&wg, chose.col as int) == id);
                                    if chose.col != k {
                                        assert(cur_at(&wg, chose.col as int) != cur_at(&wg, k));
                                    }
                                }
                            }
                        }
                    }
                    d = d + 1;
                }
                proof {
                    assert(d > 0);
                    if odd {
                        lemma_drops_step(maze, &window, &wg, ids@, g as int, r as int);
                    }
                }
                proof {
                    if odd {
                        assert forall|k: int|
                            cell_col(maze, k) && alone_in_row(maze, &wg, k) && #[trigger] ids@.subrange(0, g + 1).contains(
                                cur_at(&wg, k),
                            ) implies spec_is_built(maze.square(r as int, k)) && spec_is_built(maze.square(r + 2, k)) by {
                            let sub = ids@.subrange(0, g + 1);
                            let t = choose|t: int| 0 <= t < sub.len() && #[trigger] sub[t] == cur_at(&wg, k);
                            assert(sub[t] == ids@[t]);
                            if t < g {
                                assert(ids@.subrange(0, g as int)[t] == cur_at(&wg, k));
                                assert(ids@.subrange(0, g as int).contains(cur_at(&wg, k)));
                                assert(spec_is_built(mg.square(r as int, k)) && spec_is_built(mg.square(r + 2, k)));
                                assert(spec_is_built(maze.square(r as int, k)));
                                assert(spec_is_built(maze.square(r + 2, k)));
                            } else {
                                assert(cur_at(&wg, k) == id);
                                assert(alone_in_row(maze, &wg, k));
                                assert(cell_col(maze, k));
                                assert(spec_is_built(maze.square(r as int, k)));
                            }
                        }
                    }
                }
            } else {
                proof {
                    if odd {
                        assert forall|k: int|
                            cell_col(maze, k) && alone_in_row(maze, &wg, k) && #[trigger] ids@.subrange(0, g + 1).contains(
                                cur_at(&wg, k),
                            ) implies spec_is_built(maze.square(r as int, k)) && spec_is_built(maze.square(r + 2, k)) by {
                            let sub = ids@.subrange(0, g + 1);
                            let t = choose|t: int| 0 <= t < sub.len() && #[trigger] sub[t] == cur_at(&wg, k);
                            assert(sub[t] == ids@[t]);
                            if t < g {
                                assert(ids@.subrange(0, g as int)[t] == cur_at(&wg, k));
                                assert(ids@.subrange(0, g as int).contains(cur_at(&wg, k)));
                                assert(spec_is_built(mg.square(r as int, k)) && spec_is_built(mg.square(r + 2, k)));
                                assert(spec_is_built(maze.square(r as int, k)));
                                assert(spec_is_built(maze.square(r + 2, k)));
                            } else {
                                assert(cur_at(&wg, k) == id);
                                assert(cur_at(&window, k) == id);
                                assert(members@.len() > 0);
                            }
                        }
                        assert forall|k: int| cell_col(maze, k) implies cur_at(&wg, k) != id by {
                            if cur_at(&wg, k) == id {
                                assert(cur_at(&window, k) == id);
                                assert(members@.len() > 0);
                            }
                        }
                        lemma_drops_step(maze, &window, &wg, ids@, g as int, r as int);
                    }
                }
            }
            g = g + 1;
        }
        proof {
            if odd {
                assert forall|k: int| cell_col(maze, k) implies spec_is_built(#[trigger] maze.square(r as int, k)) by {
                    if !spec_is_built(maze.square(r as int, k)) {
                        assert(alone_in_row(maze, &window, k));
                        assert forall|c2: int| cell_col(maze, c2) && c2 != k implies #[trigger] cur_at(&wg, c2) != cur_at(&wg, k) by {
                            assert(cur_at(&window, c2) != cur_at(&window, k));
                        }
                        assert(ids@.contains(cur_at(&wg, k)));
                        assert(ids@.subrange(0, ids@.len() as int) == ids@);
                    }
                }
                if cols == 3 {
                    assert forall|c2: int| cell_col(maze, c2) && c2 != 1 implies #[trigger] cur_at(&wg, c2) != cur_at(&wg, 1) by {}
                    assert(ids@.contains(cur_at(&wg, 1)));
                    assert(ids@.subrange(0, ids@.len() as int) == ids@);
                }
            }
        }
        let ghost we = window;
        window.slide_window();
        proof {
            if odd {
                lemma_row_end(maze, &we, &window, r as int, base);
                assert forall|k: int| cell_col(maze, k) implies #[trigger] has_drop(maze, &we, r as int, cur_at(&we, k)) by {
                    assert(ids@.contains(cur_at(&wg, k)));
                    assert(ids@.subrange(0, ids@.len() as int) == ids@);
                }
                assert forall|k: int| 0 <= k < we.width implies #[trigger] cur_at(&window, k) == next_at(&we, k) by {}
                lemma_slide_linked(maze, &we, &window, r as int);
            }
        }
        r = r + 2;
    }
    let ghost mf = *maze;
    let ghost wf = window;
    proof {
        if odd && rows >= 3 {
            assert(r == rows - 2);
        }
    }
    complete_final_row(maze, &mut window);
    proof {
        if odd && !(rows == 3 && cols == 3) {
            if rows >= 3 {
                assert(r == rows - 2);
            } else {
                assert forall|rr: int, cc: int|
                    maze.in_bounds(rr, cc) && is_cell(maze, pt(rr, cc)) implies spec_is_built(#[trigger] maze.square(rr, cc)) by {
                }
            }
        }
    }
}

} // verus!
