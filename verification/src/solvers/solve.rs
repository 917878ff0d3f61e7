use vstd::prelude::*;
use crate::maze::{any_direction, spec_any_direction, spec_is_wall, Maze, Point, Square, PATH_BIT};
use crate::rng::random_range;

verus! {

pub type ThreadPaint = u32;
pub type ThreadCache = u32;
pub type SolveSpeedUnit = u64;

/// What one solver thread needs: its number, its paint, its cache bit, where
/// it starts and how fast it is drawn.
pub struct ThreadGuide {
    pub index: usize,
    pub paint: ThreadPaint,
    pub cache: ThreadCache,
    pub start: Point,
    pub speed: SolveSpeedUnit,
}

pub const START_BIT: ThreadPaint = 0x4000_0000;
pub const FINISH_BIT: ThreadPaint = 0x8000_0000;
pub const NUM_THREADS: usize = 4;
pub const NUM_DIRECTIONS: usize = 4;
pub const THREAD_TAG_OFFSET: usize = 4;
pub const NUM_GATHER_FINISHES: usize = 4;
pub const INITIAL_PATH_LEN: usize = 1024;
pub const THREAD_MASK: ThreadPaint = 0xFF_FFFF;
pub const RED_MASK: ThreadPaint = 0xFF_0000;
pub const RED_SHIFT: ThreadPaint = 16;
pub const GREEN_MASK: ThreadPaint = 0xFF00;
pub const GREEN_SHIFT: ThreadPaint = 8;
pub const BLUE_MASK: ThreadPaint = 0xFF;
pub const THREAD_MASKS: [ThreadPaint; 4] = [0x88_0044, 0x76_6002, 0x00_9531, 0x01_0a88];
pub const CACHE_MASK: ThreadCache = 0x0F00_0000;
pub const ZERO_SEEN: ThreadCache = 0x0100_0000;
pub const ONE_SEEN: ThreadCache = 0x0200_0000;
pub const TWO_SEEN: ThreadCache = 0x0400_0000;
pub const THREE_SEEN: ThreadCache = 0x0800_0000;
pub const THREAD_CACHES: [ThreadCache; 4] = [ZERO_SEEN, ONE_SEEN, TWO_SEEN, THREE_SEEN];
pub const SOLVER_SPEEDS: [SolveSpeedUnit; 8] = [0, 20000, 10000, 5000, 2000, 1000, 500, 250];

pub fn is_start(square: Square) -> (b: bool)
    ensures
        b == (square & START_BIT != 0),
{
    (square & START_BIT) != 0
}

pub fn is_finish(square: Square) -> (b: bool)
    ensures
        b == (square & FINISH_BIT != 0),
{
    (square & FINISH_BIT) != 0
}

pub fn is_color(square: Square) -> (b: bool)
    ensures
        b == (square & THREAD_MASK != 0),
{
    (square & THREAD_MASK) != 0
}

pub fn is_first(square: Square) -> (b: bool)
    ensures
        b == (square & CACHE_MASK == 0),
{
    (square & CACHE_MASK) == 0
}

pub fn is_start_or_finish(square: Square) -> (b: bool)
    ensures
        b == (square & (START_BIT | FINISH_BIT) != 0),
{
    (square & (START_BIT | FINISH_BIT)) != 0
}

/// The thread bits of a painted square, as an index into the thread colors.
pub fn color_index(square: Square) -> (i: usize)
    ensures
        i == (square & THREAD_MASK) >> 4u32,
{
    ((square & THREAD_MASK) >> 4u32) as usize
}

/// A square a solver may start or finish on: an inside path square that is
/// not a start or finish already.
pub open spec fn valid_start_or_finish(maze: &Maze, p: Point) -> bool {
    &&& 0 < p.row < maze.rows_spec() - 1
    &&& 0 < p.col < maze.cols_spec() - 1
    &&& !spec_is_wall(maze.square(p.row as int, p.col as int))
    &&& maze.square(p.row as int, p.col as int) & FINISH_BIT == 0
    &&& maze.square(p.row as int, p.col as int) & START_BIT == 0
}

pub fn is_valid_start_or_finish(maze: &Maze, choice: Point) -> (b: bool)
    requires
        maze.wf(),
    ensures
        b == valid_start_or_finish(maze, choice),
{
    choice.row > 0 && choice.row < maze.rows() - 1 && choice.col > 0 && choice.col < maze.cols() - 1
        && maze.path_at(choice.row, choice.col) && !is_finish(maze.get(choice.row, choice.col))
        && !is_start(maze.get(choice.row, choice.col))
}

/// Clears everything a solver left: each path square goes back to a bare path.
pub fn reset_solve(maze: &mut Maze)
    requires
        old(maze).wf(),
    ensures
        final(maze).wf(),
        final(maze).same_shape(old(maze)),
        final(maze).build_history == old(maze).build_history,
        final(maze).solve_history == old(maze).solve_history,
        forall|k: int|
            0 <= k < old(maze).squares().len() ==> #[trigger] final(maze).squares()[k] == if spec_is_wall(
                old(maze).squares()[k],
            ) {
                old(maze).squares()[k]
            } else {
                PATH_BIT
            },
{
    let n = maze.maze.buf.len();
    let mut k: usize = 0;
    while k < n
        invariant
            maze.wf(),
            maze.same_shape(old(maze)),
            maze.build_history == old(maze).build_history,
            maze.solve_history == old(maze).solve_history,
            n == maze.squares().len(),
            k <= n,
            forall|j: int|
                0 <= j < k ==> #[trigger] maze.squares()[j] == if spec_is_wall(old(maze).squares()[j]) {
                    old(maze).squares()[j]
                } else {
                    PATH_BIT
                },
            forall|j: int| k <= j < n ==> #[trigger] maze.squares()[j] == old(maze).squares()[j],
        decreases n - k,
    {
        if (maze.maze.buf[k] & PATH_BIT) != 0 {
            maze.maze.buf.set(k, PATH_BIT);
        }
        k = k + 1;
    }
}

/// The first point in row-major order, at or after row `r` and column `c`
/// of that row, on which a solver may start.
pub open spec fn exists_valid(maze: &Maze) -> bool {
    exists|q: Point| valid_start_or_finish(maze, q)
}

/// No valid point comes before `(r, c)` in the row-major scan of the inside.
pub open spec fn none_before(maze: &Maze, r: int, c: int) -> bool {
    forall|rr: int, cc: int|
        1 <= rr < maze.rows_spec() - 1 && 1 <= cc < maze.cols_spec() - 1 && (rr < r || (rr == r && cc < c))
            ==> !#[trigger] valid_at(maze, rr, cc)
}

/// A solver may start on row `r`, column `c`.
pub open spec fn valid_at(maze: &Maze, r: int, c: int) -> bool {
    valid_start_or_finish(maze, Point { row: r as i32, col: c as i32 })
}

/// The neighbor `i` of `choice`, in the order of `any_direction`.
pub open spec fn nearby(choice: Point, i: int) -> Point {
    Point {
        row: (choice.row + spec_any_direction(i).row) as i32,
        col: (choice.col + spec_any_direction(i).col) as i32,
    }
}

/// None of the first `n` neighbors of `choice` will do.
pub open spec fn none_nearby(maze: &Maze, choice: Point, n: int) -> bool {
    forall|j: int| 0 <= j < n ==> !valid_start_or_finish(maze, #[trigger] nearby(choice, j))
}

/// `p` is the first of the neighbors of `choice` that will do.
pub open spec fn first_nearby(maze: &Maze, choice: Point, p: Point) -> bool {
    exists|i: int| 0 <= i < 8 && p == nearby(choice, i) && none_nearby(maze, choice, i)
}

/// `p` will do, and it is the first neighbor of `choice` that will, or, when
/// none of them will, the first such square of the maze in reading order.
pub open spec fn nearest_to(maze: &Maze, choice: Point, p: Point) -> bool {
    &&& valid_start_or_finish(maze, p)
    &&& !none_nearby(maze, choice, 8) ==> first_nearby(maze, choice, p)
    &&& none_nearby(maze, choice, 8) ==> none_before(maze, p.row as int, p.col as int)
}

/// The point a solver starts from when `choice` will not do: the first of the
/// eight neighbors of `choice` (south first, then clockwise through east) that
/// will do, else the first such square of the maze in reading order.
pub fn find_nearest_square(maze: &Maze, choice: Point) -> (p: Point)
    requires
        maze.wf(),
        exists_valid(maze),
        i32::MIN < choice.row < i32::MAX,
        i32::MIN < choice.col < i32::MAX,
    ensures
        nearest_to(maze, choice, p),
{
    let mut i: usize = 0;
    while i < 8
        invariant
            i <= 8,
            maze.wf(),
            i32::MIN < choice.row < i32::MAX,
            i32::MIN < choice.col < i32::MAX,
            none_nearby(maze, choice, i as int),
        decreases 8 - i,
    {
        let d = any_direction(i);
        let next = Point { row: choice.row + d.row, col: choice.col + d.col };
        if is_valid_start_or_finish(maze, next) {
            assert(next == nearby(choice, i as int));
            return next;
        }
        assert(next == nearby(choice, i as int));
        i = i + 1;
    }
    let rows = maze.rows();
    let cols = maze.cols();
    let mut r: i32 = 1;
    while r < rows - 1
        invariant
            maze.wf(),
            exists_valid(maze),
            rows == maze.rows_spec(),
            cols == maze.cols_spec(),
            1 <= r,
            none_before(maze, r as int, 1),
            none_nearby(maze, choice, 8),
        decreases rows - r,
    {
        let mut c: i32 = 1;
        while c < cols - 1
            invariant
                maze.wf(),
                rows == maze.rows_spec(),
                cols == maze.cols_spec(),
                1 <= r < rows - 1,
                1 <= c,
                none_before(maze, r as int, c as int),
                none_nearby(maze, choice, 8),
            decreases cols - c,
        {
            let cur = Point { row: r, col: c };
            if is_valid_start_or_finish(maze, cur) {
                return cur;
            }
            c = c + 1;
        }
        r = r + 1;
    }
    proof {
        let w = choose|w: Point| valid_start_or_finish(maze, w);
        assert(none_before(maze, r as int, 1));
        assert(!valid_at(maze, w.row as int, w.col as int));
    }
    vstd::pervasive::unreached()
}


/// The corner squares inside the walls: top left, top right, bottom left,
/// bottom right.
pub open spec fn corner(maze: &Maze, k: int) -> Point {
    if k == 0 {
        Point { row: 1, col: 1 }
    } else if k == 1 {
        Point { row: 1, col: (maze.cols_spec() - 2) as i32 }
    } else if k == 2 {
        Point { row: (maze.rows_spec() - 2) as i32, col: 1 }
    } else {
        Point { row: (maze.rows_spec() - 2) as i32, col: (maze.cols_spec() - 2) as i32 }
    }
}

/// The start of a corner: the corner itself when it is a path, else the
/// square nearest to it that will do.
pub open spec fn corner_start(maze: &Maze, k: int, p: Point) -> bool {
    let c = corner(maze, k);
    if spec_is_wall(maze.square(c.row as int, c.col as int)) {
        nearest_to(maze, c, p)
    } else {
        p == c
    }
}

fn start_near_corner(maze: &Maze, c: Point) -> (p: Point)
    requires
        maze.wf(),
        exists_valid(maze),
        maze.in_bounds(c.row as int, c.col as int),
    ensures
        if spec_is_wall(maze.square(c.row as int, c.col as int)) {
            nearest_to(maze, c, p)
        } else {
            p == c
        },
{
    if maze.wall_at(c.row, c.col) {
        find_nearest_square(maze, c)
    } else {
        c
    }
}

/// The four places solvers start from in the corners of the maze.
pub fn set_corner_starts(maze: &Maze) -> (starts: [Point; 4])
    requires
        maze.wf(),
        maze.rows_spec() >= 3,
        maze.cols_spec() >= 3,
        exists_valid(maze),
    ensures
        forall|k: int| 0 <= k < 4 ==> corner_start(maze, k, #[trigger] starts@[k]),
{
    let point1 = start_near_corner(maze, Point { row: 1, col: 1 });
    let point2 = start_near_corner(maze, Point { row: 1, col: maze.cols() - 2 });
    let point3 = start_near_corner(maze, Point { row: maze.rows() - 2, col: 1 });
    let point4 = start_near_corner(maze, Point { row: maze.rows() - 2, col: maze.cols() - 2 });
    let starts = [point1, point2, point3, point4];
    assert(corner_start(maze, 0, starts@[0]));
    assert(corner_start(maze, 1, starts@[1]));
    assert(corner_start(maze, 2, starts@[2]));
    assert(corner_start(maze, 3, starts@[3]));
    starts
}

/// A random inside square a solver may start or finish on: a draw from rows
/// and columns 1 up to three short of the size, or the square nearest it.
pub fn pick_random_point(maze: &Maze) -> (p: Point)
    requires
        maze.wf(),
        maze.rows_spec() >= 4,
        maze.cols_spec() >= 4,
        exists_valid(maze),
    ensures
        valid_start_or_finish(maze, p),
{
    let choice = Point { row: random_range(1, maze.rows() - 2), col: random_range(1, maze.cols() - 2) };
    point_from_choice(maze, choice)
}

/// `choice` when a solver may start there, else the square nearest to it that will do.
pub fn point_from_choice(maze: &Maze, choice: Point) -> (p: Point)
    requires
        maze.wf(),
        exists_valid(maze),
        maze.in_bounds(choice.row as int, choice.col as int),
    ensures
        valid_start_or_finish(maze, choice) ==> p == choice,
        !valid_start_or_finish(maze, choice) ==> nearest_to(maze, choice, p),
{
    if is_valid_start_or_finish(maze, choice) {
        return choice;
    }
    find_nearest_square(maze, choice)
}

} // verus!
