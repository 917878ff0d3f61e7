use vstd::prelude::*;
use crate::builders::build_ops::{
    all_zero, before_cell, build_path, build_path_history, fill_maze_history_with_walls,
    fill_maze_with_walls, interior_paths, lemma_all_walls_perimeter, lemma_opened_bits,
    lemma_opened_keeps_perimeter, perimeter_walls, reshaped,
};
use crate::builders::build_ops::{solver_bits, spec_marker};
use crate::builders::cells::{clean_bits, lemma_walled_bits, lemma_walls_clean, no_markers};
use crate::maze::{
    lemma_cell_index_injective, lemma_recorded_trans, recorded, spec_is_wall, Maze, Point,
};

verus! {

/// Fresh maze: an empty history over squares that are all zero.
pub open spec fn fresh(maze: &Maze) -> bool {
    maze.build_history.deltas().len() == 0 && all_zero(maze)
}

/// The inside squares before `(r, c)` in row-major order are paths.
pub open spec fn paths_before(maze: &Maze, r: int, c: int) -> bool {
    forall|rr: int, cc: int|
        0 < rr < maze.rows_spec() - 1 && 0 < cc < maze.cols_spec() - 1 && before_cell(rr, cc, r, c)
            ==> !spec_is_wall(#[trigger] maze.square(rr, cc))
}

proof fn lemma_open_step(prev: &Maze, next: &Maze, r: int, c: int)
    requires
        prev.wf(),
        next.wf(),
        next.same_shape(prev),
        0 < r < prev.rows_spec() - 1,
        0 < c < prev.cols_spec() - 1,
        perimeter_walls(prev),
        paths_before(prev, r, c),
        next.squares() == crate::builders::build_ops::path_opened(
            prev,
            Point { row: r as i32, col: c as i32 },
            0,
        ),
    ensures
        perimeter_walls(next),
        paths_before(next, r, c + 1),
        no_markers(prev) && clean_bits(prev) ==> no_markers(next) && clean_bits(next),
{
    let p = Point { row: r as i32, col: c as i32 };
    assert forall|rr: int, cc: int| next.in_bounds(rr, cc) implies spec_marker(#[trigger] next.square(rr, cc))
        == spec_marker(prev.square(rr, cc)) && solver_bits(next.square(rr, cc)) == solver_bits(prev.square(rr, cc)) by {
        prev.maze.lemma_index(rr, cc);
        prev.maze.lemma_index(r, c);
        if rr != r || cc != c {
            lemma_cell_index_injective(rr, cc, r, c, prev.cols_spec());
        }
        lemma_opened_bits(prev.squares(), prev.rows_spec(), prev.cols_spec(), p, 0, prev.maze.index_of(rr, cc));
        let y = prev.square(rr, cc);
        assert(y | 0 == y) by (bit_vector);
    }
    lemma_opened_keeps_perimeter(prev, next, p, 0);
    assert forall|rr: int, cc: int|
        0 < rr < next.rows_spec() - 1 && 0 < cc < next.cols_spec() - 1 && before_cell(rr, cc, r, c + 1)
            implies !spec_is_wall(#[trigger] next.square(rr, cc)) by {
        prev.maze.lemma_index(rr, cc);
        prev.maze.lemma_index(r, c);
        if rr != r || cc != c {
            lemma_cell_index_injective(rr, cc, r, c, prev.cols_spec());
        }
        lemma_opened_bits(prev.squares(), prev.rows_spec(), prev.cols_spec(), p, 0, prev.maze.index_of(rr, cc));
        if rr != r || cc != c {
            assert(!spec_is_wall(prev.square(rr, cc)));
        }
    }
}

/// An open arena: walls on the edge of the grid, paths everywhere inside,
/// and no square marked or carrying a bit that no builder writes.
pub fn generate_maze(maze: &mut Maze)
    requires
        old(maze).wf(),
    ensures
        reshaped(final(maze), old(maze)),
        perimeter_walls(final(maze)),
        interior_paths(final(maze)),
        no_markers(final(maze)),
        clean_bits(final(maze)),
{
    fill_maze_with_walls(maze);
    proof {
        lemma_all_walls_perimeter(maze);
        lemma_walls_clean(maze);
        assert forall|r: int, c: int| maze.in_bounds(r, c) implies spec_marker(#[trigger] maze.square(r, c)) == 0 by {
            lemma_walled_bits(maze.rows_spec(), maze.cols_spec(), r, c);
        }
    }
    let rows = maze.rows();
    let cols = maze.cols();
    let mut r: i32 = 1;
    while r < rows - 1
        invariant
            reshaped(maze, old(maze)),
            rows == maze.rows_spec(),
            cols == maze.cols_spec(),
            1 <= r,
            r <= rows - 1 || r == 1,
            perimeter_walls(maze),
            paths_before(maze, r as int, 0),
            no_markers(maze),
            clean_bits(maze),
        decreases rows - r,
    {
        let mut c: i32 = 1;
        while c < cols - 1
            invariant
                reshaped(maze, old(maze)),
                rows == maze.rows_spec(),
                cols == maze.cols_spec(),
                1 <= r < rows - 1,
                1 <= c,
                c <= cols - 1 || c == 1,
                perimeter_walls(maze),
                paths_before(maze, r as int, c as int),
                no_markers(maze),
                clean_bits(maze),
            decreases cols - c,
        {
            let ghost prev = *maze;
            build_path(maze, Point { row: r, col: c });
            proof { lemma_open_step(&prev, maze, r as int, c as int); }
            c = c + 1;
        }
        assert(paths_before(maze, r + 1, 0)) by {
            assert forall|rr: int, cc: int|
                0 < rr < maze.rows_spec() - 1 && 0 < cc < maze.cols_spec() - 1 && before_cell(rr, cc, r + 1, 0)
                    implies !spec_is_wall(#[trigger] maze.square(rr, cc)) by {
                assert(before_cell(rr, cc, r as int, c as int));
            }
        }
        r = r + 1;
    }
    assert(interior_paths(maze)) by {
        assert forall|rr: int, cc: int|
            0 < rr < maze.rows_spec() - 1 && 0 < cc < maze.cols_spec() - 1 implies !spec_is_wall(
            #[trigger] maze.square(rr, cc),
        ) by {
            assert(before_cell(rr, cc, r as int, 0));
        }
    }
}

/// `generate_maze`, recorded: on a fresh maze, the history replays to the
/// arena from the empty grid.
pub fn generate_history(maze: &mut Maze)
    requires
        old(maze).wf(),
        old(maze).build_history.deltas().len() + 6 * old(maze).squares().len() <= usize::MAX,
    ensures
        final(maze).wf(),
        final(maze).same_shape(old(maze)),
        final(maze).solve_history == old(maze).solve_history,
        perimeter_walls(final(maze)),
        interior_paths(final(maze)),
        fresh(old(maze)) ==> recorded(old(maze), final(maze)),
        fresh(old(maze)) ==> final(maze).build_history.framed(),
{
    let ghost m0 = *maze;
    fill_maze_history_with_walls(maze);
    let ghost m1 = *maze;
    proof { lemma_all_walls_perimeter(maze); }
    let rows = maze.rows();
    let cols = maze.cols();
    let ghost total = m0.squares().len() as int;
    let ghost mut done: int = 0;
    let mut r: i32 = 1;
    while r < rows - 1
        invariant
            maze.wf(),
            maze.same_shape(&m0),
            maze.solve_history == m0.solve_history,
            rows == maze.rows_spec(),
            cols == maze.cols_spec(),
            1 <= r,
            r <= rows - 1 || r == 1,
            perimeter_walls(maze),
            paths_before(maze, r as int, 0),
            total == rows * cols,
            0 <= done <= (r - 1) * cols,
            maze.build_history.deltas().len() <= m0.build_history.deltas().len() + total + 5 * done,
            m0.build_history.deltas().len() + 6 * total <= usize::MAX,
            fresh(&m0) ==> recorded(&m0, maze),
            fresh(&m0) ==> maze.build_history.framed(),
        decreases rows - r,
    {
        let mut c: i32 = 1;
        while c < cols - 1
            invariant
                maze.wf(),
                maze.same_shape(&m0),
                maze.solve_history == m0.solve_history,
                rows == maze.rows_spec(),
                cols == maze.cols_spec(),
                1 <= r < rows - 1,
                1 <= c,
                c <= cols - 1 || c == 1,
                perimeter_walls(maze),
                paths_before(maze, r as int, c as int),
                total == rows * cols,
                0 <= done <= (r - 1) * cols + c - 1,
                maze.build_history.deltas().len() <= m0.build_history.deltas().len() + total + 5 * done,
                m0.build_history.deltas().len() + 6 * total <= usize::MAX,
                fresh(&m0) ==> recorded(&m0, maze),
                fresh(&m0) ==> maze.build_history.framed(),
            decreases cols - c,
        {
            proof {
                assert((r - 1) * cols + c - 1 < rows * cols) by (nonlinear_arith)
                    requires
                        1 <= r < rows - 1,
                        1 <= c < cols - 1,
                ;
            }
            let ghost prev = *maze;
            build_path_history(maze, Point { row: r, col: c });
            proof {
                lemma_open_step(&prev, maze, r as int, c as int);
                if fresh(&m0) {
                    lemma_recorded_trans(&m0, &prev, maze);
                }
                done = done + 1;
            }
            c = c + 1;
        }
        proof {
            assert((r - 1) * cols + cols == r * cols) by (nonlinear_arith);
            assert(done <= r * cols);
        }
        assert(paths_before(maze, r + 1, 0)) by {
            assert forall|rr: int, cc: int|
                0 < rr < maze.rows_spec() - 1 && 0 < cc < maze.cols_spec() - 1 && before_cell(rr, cc, r + 1, 0)
                    implies !spec_is_wall(#[trigger] maze.square(rr, cc)) by {
                assert(before_cell(rr, cc, r as int, c as int));
            }
        }
        r = r + 1;
    }
    assert(interior_paths(maze)) by {
        assert forall|rr: int, cc: int|
            0 < rr < maze.rows_spec() - 1 && 0 < cc < maze.cols_spec() - 1 implies !spec_is_wall(
            #[trigger] maze.square(rr, cc),
        ) by {
            assert(before_cell(rr, cc, r as int, 0));
        }
    }
}

} // verus!
