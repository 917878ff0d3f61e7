use vstd::prelude::*;
use crate::builders::build_ops::{
    before_cell, build_path, build_path_history, lemma_open_paths, opened, reshaped,
};
use crate::maze::{lemma_recorded_refl, lemma_recorded_trans, recorded, spec_is_wall, Maze, Point, Square};

verus! {

/// The squares the cross is drawn from: the middle row and the middle
/// column, two squares short of the walls at each end.
pub open spec fn cross_base(rows: int, cols: int, r: int, c: int) -> bool {
    (r == rows / 2 && 1 < c < cols - 2) || (c == cols / 2 && 1 < r < rows - 2)
}

/// The squares of the cross: its base squares and the square to the right of
/// each, when that square stays two short of the east wall.
pub open spec fn cross_cell(rows: int, cols: int, r: int, c: int) -> bool {
    cross_base(rows, cols, r, c) || (cross_base(rows, cols, r, c - 1) && c < cols - 2)
}

/// The cross squares drawn before reaching row `r`, column `c` in reading order.
pub open spec fn cross_done(rows: int, cols: int, r: int, c: int, rr: int, cc: int) -> bool {
    (cross_base(rows, cols, rr, cc) && before_cell(rr, cc, r, c)) || (cross_base(rows, cols, rr, cc - 1)
        && cc < cols - 2 && before_cell(rr, cc - 1, r, c))
}

/// The buffer after the cross is drawn at row `r`, column `c`: where that is
/// a base square it is opened as a path, and then the square to its right,
/// when that one stays two short of the east wall.
pub open spec fn cross_step(s: Seq<Square>, rows: int, cols: int, r: int, c: int) -> Seq<Square> {
    if cross_base(rows, cols, r, c) {
        let s1 = opened(s, rows, cols, Point { row: r as i32, col: c as i32 }, 0);
        if c + 1 < cols - 2 {
            opened(s1, rows, cols, Point { row: r as i32, col: (c + 1) as i32 }, 0)
        } else {
            s1
        }
    } else {
        s
    }
}

/// The buffer after the cross is drawn at the first `i` squares in reading
/// order.
pub open spec fn cross_upto(s: Seq<Square>, rows: int, cols: int, i: int) -> Seq<Square>
    decreases i,
{
    if i <= 0 {
        s
    } else {
        cross_step(cross_upto(s, rows, cols, i - 1), rows, cols, (i - 1) / cols, (i - 1) % cols)
    }
}

/// The squares of `maze` with the cross drawn over every square.
pub open spec fn crossed(maze: &Maze) -> Seq<Square> {
    cross_upto(maze.squares(), maze.rows_spec(), maze.cols_spec(), maze.rows_spec() * maze.cols_spec())
}

/// Drawing the cross at the square after the first `r * cols + c` in
/// reading order is one more step of `cross_upto`.
proof fn lemma_cross_next(s: Seq<Square>, rows: int, cols: int, r: int, c: int)
    requires
        0 <= r,
        0 <= c < cols,
    ensures
        cross_upto(s, rows, cols, r * cols + c + 1) == cross_step(cross_upto(s, rows, cols, r * cols + c), rows, cols, r, c),
{
    vstd::arithmetic::div_mod::lemma_fundamental_div_mod_converse(r * cols + c, cols, r, c);
    assert(r * cols >= 0) by (nonlinear_arith)
        requires
            0 <= r,
            0 <= c < cols,
    ;
}

/// Each square is a path exactly when it was one or it is `done`.
pub open spec fn paths_added(old: &Maze, new: &Maze, done: spec_fn(int, int) -> bool) -> bool {
    forall|rr: int, cc: int|
        old.in_bounds(rr, cc) ==> (!spec_is_wall(#[trigger] new.square(rr, cc)) == (!spec_is_wall(
            old.square(rr, cc),
        ) || done(rr, cc)))
}

proof fn lemma_paths_step(
    m0: &Maze,
    prev: &Maze,
    next: &Maze,
    p: Point,
    before: spec_fn(int, int) -> bool,
    after: spec_fn(int, int) -> bool,
)
    requires
        prev.wf(),
        prev.same_shape(m0),
        next.same_shape(prev),
        prev.in_bounds(p.row as int, p.col as int),
        next.squares() == crate::builders::build_ops::path_opened(prev, p, 0),
        paths_added(m0, prev, before),
        forall|rr: int, cc: int| #[trigger] after(rr, cc) == (before(rr, cc) || (rr == p.row && cc == p.col)),
    ensures
        paths_added(m0, next, after),
{
    lemma_open_paths(prev, next, p, 0);
    assert forall|rr: int, cc: int| m0.in_bounds(rr, cc) implies (!spec_is_wall(#[trigger] next.square(rr, cc))
        == (!spec_is_wall(m0.square(rr, cc)) || after(rr, cc))) by {
        assert(prev.in_bounds(rr, cc));
    }
}

/// Opens a cross of paths through the middle of the maze.
pub fn add_cross(maze: &mut Maze)
    requires
        old(maze).wf(),
    ensures
        reshaped(final(maze), old(maze)),
        paths_added(old(maze), final(maze), |rr: int, cc: int| cross_cell(old(maze).rows_spec(), old(maze).cols_spec(), rr, cc)),
        final(maze).squares() == crossed(old(maze)),
{
    let ghost m0 = *maze;
    let rows = maze.rows();
    let cols = maze.cols();
    let mut r: i32 = 0;
    proof {
        assert(paths_added(&m0, maze, |rr: int, cc: int| cross_done(rows as int, cols as int, 0, 0, rr, cc)));
    }
    while r < rows
        invariant
            reshaped(maze, &m0),
            rows == m0.rows_spec(),
            cols == m0.cols_spec(),
            0 <= r <= rows,
            paths_added(&m0, maze, |rr: int, cc: int| cross_done(rows as int, cols as int, r as int, 0, rr, cc)),
            maze.squares() == cross_upto(m0.squares(), rows as int, cols as int, r * cols),
            maze.rows_spec() == rows,
            maze.cols_spec() == cols,
        decreases rows - r,
    {
        let mut c: i32 = 0;
        while c < cols
            invariant
                reshaped(maze, &m0),
                rows == m0.rows_spec(),
                cols == m0.cols_spec(),
                0 <= r < rows,
                0 <= c <= cols,
                paths_added(&m0, maze, |rr: int, cc: int| cross_done(rows as int, cols as int, r as int, c as int, rr, cc)),
                maze.squares() == cross_upto(m0.squares(), rows as int, cols as int, r * cols + c),
                maze.rows_spec() == rows,
                maze.cols_spec() == cols,
            decreases cols - c,
        {
            proof { lemma_cross_next(m0.squares(), rows as int, cols as int, r as int, c as int); }
            if (r == rows / 2 && c > 1 && c < cols - 2) || (c == cols / 2 && r > 1 && r < rows - 2) {
                let ghost m1 = *maze;
                build_path(maze, Point { row: r, col: c });
                proof {
                    lemma_paths_step(&m0, &m1, maze, Point { row: r, col: c },
                        |rr: int, cc: int| cross_done(rows as int, cols as int, r as int, c as int, rr, cc),
                        |rr: int, cc: int| cross_done(rows as int, cols as int, r as int, c as int, rr, cc) || (rr == r && cc == c));
                }
                if c + 1 < cols - 2 {
                    let ghost m2 = *maze;
                    let right = Point { row: r, col: c + 1 };
                    build_path(maze, right);
                    proof {
                        lemma_paths_step(&m0, &m2, maze, right,
                            |rr: int, cc: int| cross_done(rows as int, cols as int, r as int, c as int, rr, cc) || (rr == r && cc == c),
                            |rr: int, cc: int| cross_done(rows as int, cols as int, r as int, c + 1, rr, cc));
                    }
                } else {
                    proof {
                        assert forall|rr: int, cc: int| m0.in_bounds(rr, cc) implies (!spec_is_wall(#[trigger] maze.square(rr, cc))
                            == (!spec_is_wall(m0.square(rr, cc)) || cross_done(rows as int, cols as int, r as int, c + 1, rr, cc))) by {
                        }
                    }
                }
            } else {
                proof {
                    assert forall|rr: int, cc: int| m0.in_bounds(rr, cc) implies (!spec_is_wall(#[trigger] maze.square(rr, cc))
                        == (!spec_is_wall(m0.square(rr, cc)) || cross_done(rows as int, cols as int, r as int, c + 1, rr, cc))) by {
                    }
                }
            }
            c = c + 1;
        }
        proof {
            assert forall|rr: int, cc: int| m0.in_bounds(rr, cc) implies (!spec_is_wall(#[trigger] maze.square(rr, cc))
                == (!spec_is_wall(m0.square(rr, cc)) || cross_done(rows as int, cols as int, r + 1, 0, rr, cc))) by {
            }
            assert(r * cols + cols == (r + 1) * cols) by (nonlinear_arith);
        }
        r = r + 1;
    }
    proof {
        assert forall|rr: int, cc: int| m0.in_bounds(rr, cc) implies (!spec_is_wall(#[trigger] maze.square(rr, cc))
            == (!spec_is_wall(m0.square(rr, cc)) || cross_cell(rows as int, cols as int, rr, cc))) by {
            assert(cross_done(rows as int, cols as int, r as int, 0, rr, cc) == cross_cell(rows as int, cols as int, rr, cc));
        }
    }
}

/// `add_cross`, with each path recorded as one frame.
pub fn add_cross_history(maze: &mut Maze)
    requires
        old(maze).wf(),
        old(maze).build_history.deltas().len() + 10 * old(maze).squares().len() <= usize::MAX,
    ensures
        recorded(old(maze), final(maze)),
        paths_added(old(maze), final(maze), |rr: int, cc: int| cross_cell(old(maze).rows_spec(), old(maze).cols_spec(), rr, cc)),
        final(maze).squares() == crossed(old(maze)),
{
    let ghost m0 = *maze;
    let rows = maze.rows();
    let cols = maze.cols();
    let ghost mut done: int = 0;
    proof { lemma_recorded_refl(&m0); }
    let mut r: i32 = 0;
    proof {
        assert(paths_added(&m0, maze, |rr: int, cc: int| cross_done(rows as int, cols as int, 0, 0, rr, cc)));
    }
    while r < rows
        invariant
            recorded(&m0, maze),
            rows == m0.rows_spec(),
            cols == m0.cols_spec(),
            0 <= r <= rows,
            m0.squares().len() == rows * cols,
            0 <= done <= 2 * (r * cols),
            maze.wf(),
            maze.build_history.deltas().len() <= m0.build_history.deltas().len() + 5 * done,
            m0.build_history.deltas().len() + 10 * m0.squares().len() <= usize::MAX,
            paths_added(&m0, maze, |rr: int, cc: int| cross_done(rows as int, cols as int, r as int, 0, rr, cc)),
            maze.squares() == cross_upto(m0.squares(), rows as int, cols as int, r * cols),
            maze.rows_spec() == rows,
            maze.cols_spec() == cols,
        decreases rows - r,
    {
        let mut c: i32 = 0;
        while c < cols
            invariant
                recorded(&m0, maze),
                rows == m0.rows_spec(),
                cols == m0.cols_spec(),
                0 <= r < rows,
                0 <= c <= cols,
                m0.squares().len() == rows * cols,
                0 <= done <= 2 * (r * cols + c),
                maze.wf(),
                maze.build_history.deltas().len() <= m0.build_history.deltas().len() + 5 * done,
                m0.build_history.deltas().len() + 10 * m0.squares().len() <= usize::MAX,
                paths_added(&m0, maze, |rr: int, cc: int| cross_done(rows as int, cols as int, r as int, c as int, rr, cc)),
                maze.squares() == cross_upto(m0.squares(), rows as int, cols as int, r * cols + c),
                maze.rows_spec() == rows,
                maze.cols_spec() == cols,
            decreases cols - c,
        {
            proof { lemma_cross_next(m0.squares(), rows as int, cols as int, r as int, c as int); }
            proof {
                assert(r * cols + c < rows * cols) by (nonlinear_arith)
                    requires
                        0 <= r < rows,
                        0 <= c < cols,
                ;
            }
            if (r == rows / 2 && c > 1 && c < cols - 2) || (c == cols / 2 && r > 1 && r < rows - 2) {
                let ghost m1 = *maze;
                build_path_history(maze, Point { row: r, col: c });
                proof {
                    lemma_recorded_trans(&m0, &m1, maze);
                    done = done + 1;
                    lemma_paths_step(&m0, &m1, maze, Point { row: r, col: c },
                        |rr: int, cc: int| cross_done(rows as int, cols as int, r as int, c as int, rr, cc),
                        |rr: int, cc: int| cross_done(rows as int, cols as int, r as int, c as int, rr, cc) || (rr == r && cc == c));
                }
                if c + 1 < cols - 2 {
                    let ghost m2 = *maze;
                    let right = Point { row: r, col: c + 1 };
                    build_path_history(maze, right);
                    proof {
                        lemma_recorded_trans(&m0, &m2, maze);
                        done = done + 1;
                        lemma_paths_step(&m0, &m2, maze, right,
                            |rr: int, cc: int| cross_done(rows as int, cols as int, r as int, c as int, rr, cc) || (rr == r && cc == c),
                            |rr: int, cc: int| cross_done(rows as int, cols as int, r as int, c + 1, rr, cc));
                    }
                } else {
                    proof {
                        assert forall|rr: int, cc: int| m0.in_bounds(rr, cc) implies (!spec_is_wall(#[trigger] maze.square(rr, cc))
                            == (!spec_is_wall(m0.square(rr, cc)) || cross_done(rows as int, cols as int, r as int, c + 1, rr, cc))) by {
                        }
                    }
                }
            } else {
                proof {
                    assert forall|rr: int, cc: int| m0.in_bounds(rr, cc) implies (!spec_is_wall(#[trigger] maze.square(rr, cc))
                        == (!spec_is_wall(m0.square(rr, cc)) || cross_done(rows as int, cols as int, r as int, c + 1, rr, cc))) by {
                    }
                }
            }
            c = c + 1;
        }
        proof {
            assert forall|rr: int, cc: int| m0.in_bounds(rr, cc) implies (!spec_is_wall(#[trigger] maze.square(rr, cc))
                == (!spec_is_wall(m0.square(rr, cc)) || cross_done(rows as int, cols as int, r + 1, 0, rr, cc))) by {
            }
            assert(r * cols + cols == (r + 1) * cols) by (nonlinear_arith);
        }
        proof {
            assert(2 * (r * cols + c) == 2 * ((r + 1) * cols)) by (nonlinear_arith)
                requires
                    c == cols,
            ;
        }
        r = r + 1;
    }
    proof {
        assert forall|rr: int, cc: int| m0.in_bounds(rr, cc) implies (!spec_is_wall(#[trigger] maze.square(rr, cc))
            == (!spec_is_wall(m0.square(rr, cc)) || cross_cell(rows as int, cols as int, rr, cc))) by {
            assert(cross_done(rows as int, cols as int, r as int, 0, rr, cc) == cross_cell(rows as int, cols as int, rr, cc));
        }
    }
}


/// The columns opened around a line crossing a row at column `l`: `l` and
/// up to two squares either side, each kept two short of the side walls.
pub open spec fn line_span(cols: int, l: int, c: int) -> bool {
    ||| c == l
    ||| (c == l + 1 && l + 1 < cols - 2)
    ||| (c == l - 1 && l - 1 > 1)
    ||| (c == l + 2 && l + 2 < cols - 2)
    ||| (c == l - 2 && l - 2 > 1)
}

/// The rising line crosses row `r` inside the walls when it is met at `c`.
pub open spec fn rising_hit(cols: int, l: int, c: int) -> bool {
    c == l && 1 < c < cols - 2
}

/// The falling line crosses row `r` inside the walls when it is met at `c`.
pub open spec fn falling_hit(rows: int, cols: int, l: int, r: int, c: int) -> bool {
    c == l && 1 < c < cols - 2 && r < rows - 2
}

/// The buffer after opening the square at row `r`, column `c` and then the
/// squares one right, one left, two right and two left of it that stay two
/// short of the side walls.
pub open spec fn span_opened(s: Seq<Square>, rows: int, cols: int, r: int, c: int) -> Seq<Square> {
    let s1 = opened(s, rows, cols, Point { row: r as i32, col: c as i32 }, 0);
    let s2 = if c + 1 < cols - 2 { opened(s1, rows, cols, Point { row: r as i32, col: (c + 1) as i32 }, 0) } else { s1 };
    let s3 = if c - 1 > 1 { opened(s2, rows, cols, Point { row: r as i32, col: (c - 1) as i32 }, 0) } else { s2 };
    let s4 = if c + 2 < cols - 2 { opened(s3, rows, cols, Point { row: r as i32, col: (c + 2) as i32 }, 0) } else { s3 };
    if c - 2 > 1 { opened(s4, rows, cols, Point { row: r as i32, col: (c - 2) as i32 }, 0) } else { s4 }
}

/// The buffer after the X is drawn at row `r`, column `c`: the span around
/// the square where the rising line crosses there, then where the falling
/// line does; nothing on the edge.
pub open spec fn x_step(s: Seq<Square>, rows: int, cols: int, rising: Seq<i32>, falling: Seq<i32>, r: int, c: int) -> Seq<Square> {
    if 1 <= r < rows - 1 && 1 <= c < cols - 1 {
        let s1 = if rising_hit(cols, rising[r] as int, c) { span_opened(s, rows, cols, r, c) } else { s };
        if falling_hit(rows, cols, falling[r] as int, r, c) { span_opened(s1, rows, cols, r, c) } else { s1 }
    } else {
        s
    }
}

/// The buffer after the X is drawn at the first `i` squares in reading order.
pub open spec fn x_upto(s: Seq<Square>, rows: int, cols: int, rising: Seq<i32>, falling: Seq<i32>, i: int) -> Seq<Square>
    decreases i,
{
    if i <= 0 {
        s
    } else {
        x_step(x_upto(s, rows, cols, rising, falling, i - 1), rows, cols, rising, falling, (i - 1) / cols, (i - 1) % cols)
    }
}

/// The squares of `maze` with the X drawn over every square.
pub open spec fn x_drawn(maze: &Maze, rising: Seq<i32>, falling: Seq<i32>) -> Seq<Square> {
    x_upto(maze.squares(), maze.rows_spec(), maze.cols_spec(), rising, falling, maze.rows_spec() * maze.cols_spec())
}

/// Drawing the X at the square after the first `r * cols + c` is one more
/// step of `x_upto`.
proof fn lemma_x_next(s: Seq<Square>, rows: int, cols: int, rising: Seq<i32>, falling: Seq<i32>, r: int, c: int)
    requires
        0 <= r,
        0 <= c < cols,
    ensures
        x_upto(s, rows, cols, rising, falling, r * cols + c + 1) == x_step(
            x_upto(s, rows, cols, rising, falling, r * cols + c),
            rows,
            cols,
            rising,
            falling,
            r,
            c,
        ),
{
    vstd::arithmetic::div_mod::lemma_fundamental_div_mod_converse(r * cols + c, cols, r, c);
    assert(r * cols >= 0) by (nonlinear_arith)
        requires
            0 <= r,
            0 <= c < cols,
    ;
}

/// The squares of the edge rows and columns draw nothing.
proof fn lemma_x_edges(s: Seq<Square>, rows: int, cols: int, rising: Seq<i32>, falling: Seq<i32>, from: int, to: int)
    requires
        0 <= from <= to,
        cols >= 1,
        forall|i: int| from <= i < to ==> !(1 <= #[trigger] (i / cols) < rows - 1 && 1 <= i % cols < cols - 1),
    ensures
        x_upto(s, rows, cols, rising, falling, to) == x_upto(s, rows, cols, rising, falling, from),
    decreases to - from,
{
    if from < to {
        lemma_x_edges(s, rows, cols, rising, falling, from, to - 1);
        let i = to - 1;
        assert(!(1 <= i / cols < rows - 1 && 1 <= i % cols < cols - 1));
    }
}

/// From column `c` of row `r` to the first inside column of the next row
/// only edge squares are met, when `r` is the top row or `c` reaches the
/// east edge.
proof fn lemma_x_row_end(s: Seq<Square>, rows: int, cols: int, rising: Seq<i32>, falling: Seq<i32>, r: int, c: int)
    requires
        0 <= r,
        1 <= cols,
        0 <= c <= cols,
        r == 0 || cols - 1 <= c,
    ensures
        x_upto(s, rows, cols, rising, falling, (r + 1) * cols + 1) == x_upto(s, rows, cols, rising, falling, r * cols + c),
{
    assert((r + 1) * cols == r * cols + cols && r * cols >= 0) by (nonlinear_arith)
        requires
            0 <= r,
            0 <= cols,
    ;
    assert forall|i: int| r * cols + c <= i < (r + 1) * cols + 1 implies !(1 <= #[trigger] (i / cols) < rows - 1 && 1
        <= i % cols < cols - 1) by {
        if i < (r + 1) * cols {
            vstd::arithmetic::div_mod::lemma_fundamental_div_mod_converse(i, cols, r, i - r * cols);
        } else {
            vstd::arithmetic::div_mod::lemma_fundamental_div_mod_converse(i, cols, r + 1, 0);
        }
    }
    lemma_x_edges(s, rows, cols, rising, falling, r * cols + c, (r + 1) * cols + 1);
}

/// The squares of the bottom row, past its first, draw nothing.
proof fn lemma_x_last_row(s: Seq<Square>, rows: int, cols: int, rising: Seq<i32>, falling: Seq<i32>)
    requires
        1 <= rows,
        1 <= cols,
    ensures
        x_upto(s, rows, cols, rising, falling, rows * cols) == x_upto(s, rows, cols, rising, falling, (rows - 1) * cols + 1),
{
    assert(rows * cols == (rows - 1) * cols + cols && (rows - 1) * cols >= 0) by (nonlinear_arith)
        requires
            1 <= rows,
            1 <= cols,
    ;
    assert forall|i: int| (rows - 1) * cols + 1 <= i < rows * cols implies !(1 <= #[trigger] (i / cols) < rows - 1 && 1
        <= i % cols < cols - 1) by {
        vstd::arithmetic::div_mod::lemma_fundamental_div_mod_converse(i, cols, rows - 1, i - (rows - 1) * cols);
    }
    lemma_x_edges(s, rows, cols, rising, falling, (rows - 1) * cols + 1, rows * cols);
}

/// Opens the squares around `p` when `p` lies on the rising diagonal, which
/// crosses the row of `p` at column `on_slope`.
fn add_positive_slope_with(maze: &mut Maze, record: bool, p: Point, on_slope: i32)
    requires
        old(maze).wf(),
        0 < p.row < old(maze).rows_spec() - 1,
        0 < p.col < old(maze).cols_spec() - 1,
        record ==> old(maze).build_history.deltas().len() + 25 <= usize::MAX,
    ensures
        stepped(old(maze), final(maze), record, 25),
        paths_added(old(maze), final(maze), |rr: int, cc: int| rising_hit(old(maze).cols_spec(), on_slope as int, p.col as int) && rr == p.row && line_span(old(maze).cols_spec(), p.col as int, cc)),
        final(maze).squares() == if rising_hit(old(maze).cols_spec(), on_slope as int, p.col as int) {
            span_opened(old(maze).squares(), old(maze).rows_spec(), old(maze).cols_spec(), p.row as int, p.col as int)
        } else {
            old(maze).squares()
        },
{
    let ghost m0 = *maze;
    let cols = maze.cols();
    let ghost cs = cols as int;
    let ghost hit = rising_hit(cs, on_slope as int, p.col as int);
    proof {
        assert(paths_added(&m0, maze, |rr: int, cc: int| false));
        lemma_recorded_refl(&m0);
    }
    if p.col == on_slope && p.col < cols - 2 && p.col > 1 {
        span_around(maze, p, record);
    }
    proof {
        assert forall|rr: int, cc: int| m0.in_bounds(rr, cc) implies (!spec_is_wall(#[trigger] maze.square(rr, cc))
            == (!spec_is_wall(m0.square(rr, cc)) || (hit && rr == p.row && line_span(cs, p.col as int, cc)))) by {
        }
    }
}

/// Opens the squares around `p` when `p` lies on the falling diagonal, which
/// crosses the row of `p` at column `on_line`, above the last two rows.
fn add_negative_slope_with(maze: &mut Maze, record: bool, p: Point, on_line: i32)
    requires
        old(maze).wf(),
        0 < p.row < old(maze).rows_spec() - 1,
        0 < p.col < old(maze).cols_spec() - 1,
        record ==> old(maze).build_history.deltas().len() + 25 <= usize::MAX,
    ensures
        stepped(old(maze), final(maze), record, 25),
        paths_added(old(maze), final(maze), |rr: int, cc: int| falling_hit(old(maze).rows_spec(), old(maze).cols_spec(), on_line as int, p.row as int, p.col as int) && rr == p.row && line_span(old(maze).cols_spec(), p.col as int, cc)),
        final(maze).squares() == if falling_hit(old(maze).rows_spec(), old(maze).cols_spec(), on_line as int, p.row as int, p.col as int) {
            span_opened(old(maze).squares(), old(maze).rows_spec(), old(maze).cols_spec(), p.row as int, p.col as int)
        } else {
            old(maze).squares()
        },
{
    let ghost m0 = *maze;
    let cols = maze.cols();
    let ghost cs = cols as int;
    let ghost hit = falling_hit(m0.rows_spec(), cs, on_line as int, p.row as int, p.col as int);
    proof {
        assert(paths_added(&m0, maze, |rr: int, cc: int| false));
        lemma_recorded_refl(&m0);
    }
    if p.col == on_line && p.col > 1 && p.col < cols - 2 && p.row < maze.rows() - 2 {
        span_around(maze, p, record);
    }
    proof {
        assert forall|rr: int, cc: int| m0.in_bounds(rr, cc) implies (!spec_is_wall(#[trigger] maze.square(rr, cc))
            == (!spec_is_wall(m0.square(rr, cc)) || (hit && rr == p.row && line_span(cs, p.col as int, cc)))) by {
        }
    }
}

/// `new` comes from `old` by opening squares: recorded with at most `bound`
/// new deltas when `record`, else with both histories untouched.
pub open spec fn stepped(old: &Maze, new: &Maze, record: bool, bound: int) -> bool {
    &&& new.wf()
    &&& new.same_shape(old)
    &&& new.solve_history == old.solve_history
    &&& record ==> recorded(old, new) && new.build_history.deltas().len() <= old.build_history.deltas().len() + bound
    &&& !record ==> new.build_history == old.build_history
}

proof fn lemma_stepped_trans(a: &Maze, b: &Maze, c: &Maze, record: bool, x: int, y: int)
    requires
        stepped(a, b, record, x),
        stepped(b, c, record, y),
    ensures
        stepped(a, c, record, x + y),
{
    if record {
        lemma_recorded_trans(a, b, c);
    }
}

proof fn lemma_stepped_weaken(a: &Maze, b: &Maze, record: bool, x: int, y: int)
    requires
        stepped(a, b, record, x),
        x <= y,
    ensures
        stepped(a, b, record, y),
{
}

/// `build_path`, recorded when `record`.
fn open_square(maze: &mut Maze, p: Point, record: bool)
    requires
        old(maze).wf(),
        old(maze).in_bounds(p.row as int, p.col as int),
        record ==> old(maze).build_history.deltas().len() + 5 <= usize::MAX,
    ensures
        stepped(old(maze), final(maze), record, 5),
        final(maze).squares() == crate::builders::build_ops::path_opened(old(maze), p, 0),
{
    if record {
        build_path_history(maze, p);
    } else {
        build_path(maze, p);
    }
}

/// Opens `p` and up to two squares either side of it, in the order `p`,
/// right, left, two right, two left.
fn span_around(maze: &mut Maze, p: Point, record: bool)
    requires
        old(maze).wf(),
        0 < p.row < old(maze).rows_spec() - 1,
        1 < p.col < old(maze).cols_spec() - 2,
        record ==> old(maze).build_history.deltas().len() + 25 <= usize::MAX,
    ensures
        stepped(old(maze), final(maze), record, 25),
        paths_added(old(maze), final(maze), |rr: int, cc: int| rr == p.row && line_span(old(maze).cols_spec(), p.col as int, cc)),
        final(maze).squares() == span_opened(old(maze).squares(), old(maze).rows_spec(), old(maze).cols_spec(), p.row as int, p.col as int),
{
    let ghost m0 = *maze;
    let cols = maze.cols();
    let ghost cs = cols as int;
    let ghost pr = p.row as int;
    let ghost pc = p.col as int;
    let ghost d0 = |rr: int, cc: int| rr == pr && cc == pc;
    let ghost d1 = |rr: int, cc: int| rr == pr && (cc == pc || (cc == pc + 1 && pc + 1 < cs - 2));
    let ghost d2 = |rr: int, cc: int| rr == pr && (cc == pc || (cc == pc + 1 && pc + 1 < cs - 2) || (cc == pc - 1 && pc - 1 > 1));
    let ghost d3 = |rr: int, cc: int| rr == pr && (cc == pc || (cc == pc + 1 && pc + 1 < cs - 2) || (cc == pc - 1 && pc - 1 > 1) || (cc == pc + 2 && pc + 2 < cs - 2));
    let ghost d4 = |rr: int, cc: int| rr == pr && line_span(cs, pc, cc);
    proof {
        assert(paths_added(&m0, maze, |rr: int, cc: int| false));
        lemma_recorded_refl(&m0);
    }
    let ghost m1 = *maze;
    open_square(maze, p, record);
    proof {
        lemma_paths_step(&m0, &m1, maze, p, |rr: int, cc: int| false, d0);
        lemma_stepped_trans(&m0, &m1, maze, record, 0, 5);
    }
    let ghost m2 = *maze;
    if p.col + 1 < cols - 2 {
        let q = Point { row: p.row, col: p.col + 1 };
        open_square(maze, q, record);
        proof {
            lemma_paths_step(&m0, &m2, maze, q, d0, d1);
            lemma_stepped_trans(&m0, &m2, maze, record, 5, 5);
        }
    } else {
        proof { assert forall|rr: int, cc: int| m0.in_bounds(rr, cc) implies (!spec_is_wall(#[trigger] maze.square(rr, cc)) == (!spec_is_wall(m0.square(rr, cc)) || d1(rr, cc))) by {} lemma_stepped_weaken(&m0, maze, record, 5, 10); }
    }
    let ghost m3 = *maze;
    if p.col - 1 > 1 {
        let q = Point { row: p.row, col: p.col - 1 };
        open_square(maze, q, record);
        proof {
            lemma_paths_step(&m0, &m3, maze, q, d1, d2);
            lemma_stepped_trans(&m0, &m3, maze, record, 10, 5);
        }
    } else {
        proof { assert forall|rr: int, cc: int| m0.in_bounds(rr, cc) implies (!spec_is_wall(#[trigger] maze.square(rr, cc)) == (!spec_is_wall(m0.square(rr, cc)) || d2(rr, cc))) by {} lemma_stepped_weaken(&m0, maze, record, 10, 15); }
    }
    let ghost m4 = *maze;
    if p.col + 2 < cols - 2 {
        let q = Point { row: p.row, col: p.col + 2 };
        open_square(maze, q, record);
        proof {
            lemma_paths_step(&m0, &m4, maze, q, d2, d3);
            lemma_stepped_trans(&m0, &m4, maze, record, 15, 5);
        }
    } else {
        proof { assert forall|rr: int, cc: int| m0.in_bounds(rr, cc) implies (!spec_is_wall(#[trigger] maze.square(rr, cc)) == (!spec_is_wall(m0.square(rr, cc)) || d3(rr, cc))) by {} lemma_stepped_weaken(&m0, maze, record, 15, 20); }
    }
    let ghost m5 = *maze;
    if p.col - 2 > 1 {
        let q = Point { row: p.row, col: p.col - 2 };
        open_square(maze, q, record);
        proof {
            lemma_paths_step(&m0, &m5, maze, q, d3, d4);
            lemma_stepped_trans(&m0, &m5, maze, record, 20, 5);
        }
    } else {
        proof { assert forall|rr: int, cc: int| m0.in_bounds(rr, cc) implies (!spec_is_wall(#[trigger] maze.square(rr, cc)) == (!spec_is_wall(m0.square(rr, cc)) || d4(rr, cc))) by {} lemma_stepped_weaken(&m0, maze, record, 20, 25); }
    }
    proof {
        let rs = m0.rows_spec();
        let s0 = m0.squares();
        let t1 = opened(s0, rs, cs, Point { row: p.row, col: p.col }, 0);
        assert(m2.squares() == t1);
        let t2 = if pc + 1 < cs - 2 { opened(t1, rs, cs, Point { row: p.row, col: (pc + 1) as i32 }, 0) } else { t1 };
        assert(m3.squares() == t2);
        let t3 = if pc - 1 > 1 { opened(t2, rs, cs, Point { row: p.row, col: (pc - 1) as i32 }, 0) } else { t2 };
        assert(m4.squares() == t3);
        let t4 = if pc + 2 < cs - 2 { opened(t3, rs, cs, Point { row: p.row, col: (pc + 2) as i32 }, 0) } else { t3 };
        assert(m5.squares() == t4);
        assert(Point { row: p.row, col: p.col } == p);
    }
}


/// Opens the squares around `p` when `p` lies on the rising diagonal, which
/// crosses the row of `p` at column `on_slope`.
pub fn add_positive_slope(maze: &mut Maze, p: Point, on_slope: i32)
    requires
        old(maze).wf(),
        0 < p.row < old(maze).rows_spec() - 1,
        0 < p.col < old(maze).cols_spec() - 1,
    ensures
        reshaped(final(maze), old(maze)),
        paths_added(old(maze), final(maze), |rr: int, cc: int| rising_hit(old(maze).cols_spec(), on_slope as int, p.col as int) && rr == p.row && line_span(old(maze).cols_spec(), p.col as int, cc)),
{
    add_positive_slope_with(maze, false, p, on_slope);
}

/// `add_positive_slope`, with each path recorded as one frame.
pub fn add_positive_slope_history(maze: &mut Maze, p: Point, on_slope: i32)
    requires
        old(maze).wf(),
        0 < p.row < old(maze).rows_spec() - 1,
        0 < p.col < old(maze).cols_spec() - 1,
        old(maze).build_history.deltas().len() + 25 <= usize::MAX,
    ensures
        stepped(old(maze), final(maze), true, 25),
        paths_added(old(maze), final(maze), |rr: int, cc: int| rising_hit(old(maze).cols_spec(), on_slope as int, p.col as int) && rr == p.row && line_span(old(maze).cols_spec(), p.col as int, cc)),
{
    add_positive_slope_with(maze, true, p, on_slope);
}

/// Opens the squares around `p` when `p` lies on the falling diagonal, which
/// crosses the row of `p` at column `on_line`, above the last two rows.
pub fn add_negative_slope(maze: &mut Maze, p: Point, on_line: i32)
    requires
        old(maze).wf(),
        0 < p.row < old(maze).rows_spec() - 1,
        0 < p.col < old(maze).cols_spec() - 1,
    ensures
        reshaped(final(maze), old(maze)),
        paths_added(old(maze), final(maze), |rr: int, cc: int| falling_hit(old(maze).rows_spec(), old(maze).cols_spec(), on_line as int, p.row as int, p.col as int) && rr == p.row && line_span(old(maze).cols_spec(), p.col as int, cc)),
{
    add_negative_slope_with(maze, false, p, on_line);
}

/// `add_negative_slope`, with each path recorded as one frame.
pub fn add_negative_slope_history(maze: &mut Maze, p: Point, on_line: i32)
    requires
        old(maze).wf(),
        0 < p.row < old(maze).rows_spec() - 1,
        0 < p.col < old(maze).cols_spec() - 1,
        old(maze).build_history.deltas().len() + 25 <= usize::MAX,
    ensures
        stepped(old(maze), final(maze), true, 25),
        paths_added(old(maze), final(maze), |rr: int, cc: int| falling_hit(old(maze).rows_spec(), old(maze).cols_spec(), on_line as int, p.row as int, p.col as int) && rr == p.row && line_span(old(maze).cols_spec(), p.col as int, cc)),
{
    add_negative_slope_with(maze, true, p, on_line);
}

/// The squares of row `rr` opened by the two diagonals, counting only the
/// crossings met before column `bound`.
pub open spec fn x_row(rows: int, cols: int, rising: Seq<i32>, falling: Seq<i32>, rr: int, cc: int, bound: int) -> bool {
    ||| (rising_hit(cols, rising[rr] as int, rising[rr] as int) && rising[rr] < bound && line_span(cols, rising[rr] as int, cc))
    ||| (falling_hit(rows, cols, falling[rr] as int, rr, falling[rr] as int) && falling[rr] < bound && line_span(cols, falling[rr] as int, cc))
}

/// The squares of the X: around each inside row's crossings of the rising
/// and the falling diagonal.
pub open spec fn x_cell(rows: int, cols: int, rising: Seq<i32>, falling: Seq<i32>, rr: int, cc: int) -> bool {
    1 <= rr < rows - 1 && x_row(rows, cols, rising, falling, rr, cc, cols)
}

/// The squares of the X opened before row `r`, column `c`.
pub open spec fn x_done(rows: int, cols: int, rising: Seq<i32>, falling: Seq<i32>, r: int, c: int, rr: int, cc: int) -> bool {
    1 <= rr < rows - 1 && ((rr < r && x_row(rows, cols, rising, falling, rr, cc, cols)) || (rr == r
        && x_row(rows, cols, rising, falling, rr, cc, c)))
}

fn add_x_with(maze: &mut Maze, record: bool, rising: &[i32], falling: &[i32])
    requires
        old(maze).wf(),
        rising@.len() == old(maze).rows_spec(),
        falling@.len() == old(maze).rows_spec(),
        record ==> old(maze).build_history.deltas().len() + 50 * old(maze).squares().len() <= usize::MAX,
    ensures
        stepped(old(maze), final(maze), record, 50 * (old(maze).squares().len() as int)),
        paths_added(old(maze), final(maze), |rr: int, cc: int| x_cell(old(maze).rows_spec(), old(maze).cols_spec(), rising@, falling@, rr, cc)),
        final(maze).squares() == x_drawn(old(maze), rising@, falling@),
{
    let ghost m0 = *maze;
    let rows = maze.rows();
    let cols = maze.cols();
    let ghost n = m0.squares().len() as int;
    let ghost mut done: int = 0;
    proof {
        lemma_recorded_refl(&m0);
        lemma_x_row_end(m0.squares(), rows as int, cols as int, rising@, falling@, 0, 0);
        assert forall|rr: int, cc: int| m0.in_bounds(rr, cc) implies (!spec_is_wall(#[trigger] maze.square(rr, cc))
            == (!spec_is_wall(m0.square(rr, cc)) || x_done(rows as int, cols as int, rising@, falling@, 1, 1, rr, cc))) by {}
    }
    let mut r: i32 = 1;
    while r < rows - 1
        invariant
            stepped(&m0, maze, record, 50 * done),
            rows == m0.rows_spec(),
            cols == m0.cols_spec(),
            m0.wf(),
            n == rows * cols,
            rising@.len() == rows,
            falling@.len() == rows,
            1 <= r,
            r <= rows - 1 || r == 1,
            0 <= done <= (r - 1) * cols,
            record ==> m0.build_history.deltas().len() + 50 * n <= usize::MAX,
            paths_added(&m0, maze, |rr: int, cc: int| x_done(rows as int, cols as int, rising@, falling@, r as int, 1, rr, cc)),
            maze.squares() == x_upto(m0.squares(), rows as int, cols as int, rising@, falling@, r * cols + 1),
        decreases rows - r,
    {
        let mut c: i32 = 1;
        while c < cols - 1
            invariant
                stepped(&m0, maze, record, 50 * done),
                rows == m0.rows_spec(),
                cols == m0.cols_spec(),
                m0.wf(),
                n == rows * cols,
                rising@.len() == rows,
                falling@.len() == rows,
                1 <= r < rows - 1,
                1 <= c,
                c <= cols - 1 || c == 1,
                0 <= done <= (r - 1) * cols + c - 1,
                record ==> m0.build_history.deltas().len() + 50 * n <= usize::MAX,
                paths_added(&m0, maze, |rr: int, cc: int| x_done(rows as int, cols as int, rising@, falling@, r as int, c as int, rr, cc)),
                maze.squares() == x_upto(m0.squares(), rows as int, cols as int, rising@, falling@, r * cols + c),
            decreases cols - c,
        {
            proof {
                assert((r - 1) * cols + c - 1 < rows * cols) by (nonlinear_arith)
                    requires
                        1 <= r < rows - 1,
                        1 <= c < cols - 1,
                ;
                lemma_x_next(m0.squares(), rows as int, cols as int, rising@, falling@, r as int, c as int);
            }
            let p = Point { row: r, col: c };
            let rise = rising[r as usize];
            let fall = falling[r as usize];
            let ghost m1 = *maze;
            add_positive_slope_with(maze, record, p, rise);
            let ghost m2 = *maze;
            add_negative_slope_with(maze, record, p, fall);
            proof {
                lemma_stepped_trans(&m0, &m1, &m2, record, 50 * done, 25);
                lemma_stepped_trans(&m0, &m2, maze, record, 50 * done + 25, 25);
                done = done + 1;
                assert forall|rr: int, cc: int| m0.in_bounds(rr, cc) implies (!spec_is_wall(#[trigger] maze.square(rr, cc))
                    == (!spec_is_wall(m0.square(rr, cc)) || x_done(rows as int, cols as int, rising@, falling@, r as int, c + 1, rr, cc))) by {
                    assert(m1.in_bounds(rr, cc));
                    assert(m2.in_bounds(rr, cc));
                }
            }
            c = c + 1;
        }
        proof {
            assert((r - 1) * cols + cols == r * cols) by (nonlinear_arith);
            lemma_x_row_end(m0.squares(), rows as int, cols as int, rising@, falling@, r as int, c as int);
            assert forall|rr: int, cc: int| m0.in_bounds(rr, cc) implies (!spec_is_wall(#[trigger] maze.square(rr, cc))
                == (!spec_is_wall(m0.square(rr, cc)) || x_done(rows as int, cols as int, rising@, falling@, r + 1, 1, rr, cc))) by {
            }
        }
        r = r + 1;
    }
    proof {
        assert((r - 1) * cols <= n) by (nonlinear_arith)
            requires
                r <= rows,
                n == rows * cols,
                1 <= cols,
        ;
        lemma_stepped_weaken(&m0, maze, record, 50 * done, 50 * n);
        if rows >= 2 {
            lemma_x_last_row(m0.squares(), rows as int, cols as int, rising@, falling@);
        } else {
            lemma_x_edges(m0.squares(), rows as int, cols as int, rising@, falling@, 0, cols + 1);
            lemma_x_edges(m0.squares(), rows as int, cols as int, rising@, falling@, 0, rows * cols);
        }
        assert forall|rr: int, cc: int| m0.in_bounds(rr, cc) implies (!spec_is_wall(#[trigger] maze.square(rr, cc))
            == (!spec_is_wall(m0.square(rr, cc)) || x_cell(rows as int, cols as int, rising@, falling@, rr, cc))) by {
        }
    }
}

/// Opens an X of paths along the two diagonals of the maze. The diagonals
/// are given by where they cross each row: `rising[r]` and `falling[r]` are
/// the columns at which row `r` meets the rising and the falling diagonal.
pub fn add_x(maze: &mut Maze, rising: &[i32], falling: &[i32])
    requires
        old(maze).wf(),
        rising@.len() == old(maze).rows_spec(),
        falling@.len() == old(maze).rows_spec(),
    ensures
        reshaped(final(maze), old(maze)),
        paths_added(old(maze), final(maze), |rr: int, cc: int| x_cell(old(maze).rows_spec(), old(maze).cols_spec(), rising@, falling@, rr, cc)),
        final(maze).squares() == x_drawn(old(maze), rising@, falling@),
{
    add_x_with(maze, false, rising, falling);
}

/// `add_x`, with each path recorded as one frame.
pub fn add_x_history(maze: &mut Maze, rising: &[i32], falling: &[i32])
    requires
        old(maze).wf(),
        rising@.len() == old(maze).rows_spec(),
        falling@.len() == old(maze).rows_spec(),
        old(maze).build_history.deltas().len() + 50 * old(maze).squares().len() <= usize::MAX,
    ensures
        recorded(old(maze), final(maze)),
        paths_added(old(maze), final(maze), |rr: int, cc: int| x_cell(old(maze).rows_spec(), old(maze).cols_spec(), rising@, falling@, rr, cc)),
        final(maze).squares() == x_drawn(old(maze), rising@, falling@),
{
    add_x_with(maze, true, rising, falling);
}

} // verus!
