use vstd::prelude::*;
use crate::builders::build_ops::{
    build_wall_line, build_wall_line_history, build_wall_outline, build_wall_outline_history,
    interior_paths, lemma_wall_joined_low, lemma_wall_joined_paths, low_bits, perimeter_walls, point_in, reshaped, sq,
};
use crate::builders::cells::{
    adjacent, all_cells_reached, cells_connected, is_cell, lemma_next_reaches, lemma_reaches_concat, lemma_reaches_reverse,
    lemma_reaches_self, lemma_rect_reaches, open_at, open_walk, pt, reaches,
};
use crate::maze::{lemma_recorded_trans, recorded, spec_is_wall, Maze, Point};
use crate::rng::random_range_inclusive;

verus! {

/// A rectangle of the grid still to be divided: its top left square, its
/// height and its width, walls included.
#[derive(Clone, Copy)]
pub struct Chamber {
    pub offset: Point,
    pub h: i32,
    pub w: i32,
}

/// Chambers this small are not divided.
pub const MIN_CHAMBER: i32 = 3;

/// A chamber lies on the grid and starts on an even row and column.
pub open spec fn chamber_ok(maze: &Maze, ch: Chamber) -> bool {
    &&& 0 <= ch.offset.row
    &&& 0 <= ch.offset.col
    &&& ch.offset.row % 2 == 0
    &&& ch.offset.col % 2 == 0
    &&& 1 <= ch.h
    &&& 1 <= ch.w
    &&& ch.offset.row + ch.h <= maze.rows_spec()
    &&& ch.offset.col + ch.w <= maze.cols_spec()
}

/// Every cell is a path.
pub open spec fn cells_open(maze: &Maze) -> bool {
    forall|u: Point| is_cell(maze, u) ==> !spec_is_wall(#[trigger] sq(maze, u))
}

/// How much dividing is left in a chamber.
pub open spec fn chamber_weight(ch: Chamber) -> int {
    let a: int = if ch.h > 2 { ch.h - 2 } else { 0 };
    let b: int = if ch.w > 2 { ch.w - 2 } else { 0 };
    2 * a * b + 1
}

/// How much dividing is left in a stack of chambers.
pub open spec fn stack_weight(s: Seq<Chamber>) -> int
    decreases s.len(),
{
    if s.len() == 0 {
        0
    } else {
        stack_weight(s.drop_last()) + chamber_weight(s.last())
    }
}

proof fn lemma_chamber_weight(ch: Chamber)
    ensures
        chamber_weight(ch) >= 1,
{
    let a: int = if ch.h > 2 { ch.h - 2 } else { 0 };
    let b: int = if ch.w > 2 { ch.w - 2 } else { 0 };
    assert(a * b >= 0) by (nonlinear_arith)
        requires
            a >= 0,
            b >= 0,
    ;
}

proof fn lemma_stack_weight(s: Seq<Chamber>)
    ensures
        stack_weight(s) >= 0,
        s.len() > 0 ==> stack_weight(s) == stack_weight(s.drop_last()) + chamber_weight(s.last()),
    decreases s.len(),
{
    if s.len() > 0 {
        lemma_stack_weight(s.drop_last());
        lemma_chamber_weight(s.last());
    }
}

proof fn lemma_push_weight(s: Seq<Chamber>, ch: Chamber)
    ensures
        stack_weight(s.push(ch)) == stack_weight(s) + chamber_weight(ch),
{
    assert(s.push(ch).drop_last() =~= s);
}

/// Dividing a chamber across its length `len` at `divide`, with a wall of
/// `span` squares, leaves less dividing than the chamber held by more than
/// the wall's length.
proof fn lemma_divide_weight(len: int, span: int, divide: int)
    requires
        len >= span,
        span > 3,
        2 <= divide <= len - 2,
    ensures
        2 * (divide - 1) * (span - 2) + 1 + 2 * (len - divide - 2) * (span - 2) + 1 + (span - 1) <= 2 * (len - 2)
            * (span - 2) + 1,
{
    assert(2 * (divide - 1) * (span - 2) + 2 * (len - divide - 2) * (span - 2) == 2 * (len - 3) * (span - 2))
        by (nonlinear_arith);
    assert(2 * (len - 3) * (span - 2) + 2 * (span - 2) == 2 * (len - 2) * (span - 2)) by (nonlinear_arith);
}

/// An even offset at which to divide a chamber of this size.
fn random_even_div(axis_limit: i32) -> (d: i32)
    requires
        4 <= axis_limit,
    ensures
        d % 2 == 0,
        2 <= d <= axis_limit - 2,
{
    2 * random_range_inclusive(1, (axis_limit - 2) / 2)
}

/// An odd offset at which to leave a passage through a dividing wall.
fn rand_odd_pass(axis_limit: i32) -> (p: i32)
    requires
        4 <= axis_limit,
    ensures
        p % 2 == 1,
        3 <= p <= axis_limit - 1,
{
    2 * random_range_inclusive(1, (axis_limit - 2) / 2) + 1
}

/// Building a wall on a square that is no cell keeps every cell a path and,
/// where the edge was walled, the edge walled.
proof fn lemma_wall_line_state(m0: &Maze, m1: &Maze, p: Point, edge: bool)
    requires
        m0.wf(),
        m1.same_shape(m0),
        point_in(m0, p),
        p.row % 2 == 0 || p.col % 2 == 0,
        cells_open(m0),
        edge ==> perimeter_walls(m0),
        m1.squares() == crate::builders::build_ops::wall_joined(m0, p, crate::maze::BUILDER_BIT),
    ensures
        cells_open(m1),
        edge ==> perimeter_walls(m1),
{
    lemma_wall_joined_paths(m0, m1, p, crate::maze::BUILDER_BIT, false);
    assert forall|u: Point| is_cell(m1, u) implies !spec_is_wall(#[trigger] sq(m1, u)) by {
        assert(m0.in_bounds(u.row as int, u.col as int));
        assert(!spec_is_wall(sq(m0, u)));
    }
    if edge {
        assert forall|r: int, c: int|
            m1.in_bounds(r, c) && !(0 < r < m1.rows_spec() - 1 && 0 < c < m1.cols_spec() - 1) implies spec_is_wall(
            #[trigger] m1.square(r, c),
        ) by {
            if r != p.row || c != p.col {
                assert(spec_is_wall(m0.square(r, c)));
            }
        }
    }
}

/// The state of the divider: every cell a path, the edge walled where it
/// was, and every chamber on the stack on the grid.
pub open spec fn divide_state(maze: &Maze, stack: Seq<Chamber>, edge: bool) -> bool {
    &&& cells_open(maze)
    &&& edge ==> perimeter_walls(maze)
    &&& forall|j: int| 0 <= j < stack.len() ==> chamber_ok(maze, #[trigger] stack[j])
}

/// The square `(r, c)` is one of the first `upto` squares of the divider
/// line and not its passage.
pub open spec fn on_divider(row: int, col: int, upto: int, passage: int, across: bool, r: int, c: int) -> bool {
    if across {
        r == row && col <= c < col + upto && c != col + passage
    } else {
        c == col && row <= r < row + upto && r != row + passage
    }
}

/// Every post, a square on an even row and an even column, is a wall.
pub open spec fn posts_walled(maze: &Maze) -> bool {
    forall|r: int, c: int| maze.in_bounds(r, c) && r % 2 == 0 && c % 2 == 0 ==> spec_is_wall(#[trigger] maze.square(r, c))
}

/// The square `(r, c)` lies strictly inside the walls of a chamber.
pub open spec fn inside(ch: Chamber, r: int, c: int) -> bool {
    &&& ch.offset.row < r < ch.offset.row + ch.h - 1
    &&& ch.offset.col < c < ch.offset.col + ch.w - 1
}

/// Every post is a wall or lies inside a chamber still to be divided.
pub open spec fn posts_covered(maze: &Maze, stack: Seq<Chamber>) -> bool {
    forall|r: int, c: int| maze.in_bounds(r, c) && r % 2 == 0 && c % 2 == 0 ==> spec_is_wall(#[trigger] maze.square(r, c))
        || exists|j: int| 0 <= j < stack.len() && inside(stack[j], r, c)
}

/// A chamber has an odd height and width.
pub open spec fn odd_chamber(ch: Chamber) -> bool {
    ch.h % 2 == 1 && ch.w % 2 == 1
}

/// Every chamber on the stack has an odd height and width.
pub open spec fn odd_chambers(stack: Seq<Chamber>) -> bool {
    forall|j: int| 0 <= j < stack.len() ==> odd_chamber(#[trigger] stack[j])
}

/// Cutting the last chamber of `before` at an even offset with a wall that
/// leaves one passage at an odd offset walls or covers every post it held,
/// and the two halves are odd again.
proof fn lemma_divide_covers(
    m0: &Maze,
    m1: &Maze,
    before: Seq<Chamber>,
    after: Seq<Chamber>,
    divide: int,
    passage: int,
    across: bool,
)
    requires
        m1.same_shape(m0),
        before.len() > 0,
        posts_covered(m0, before),
        odd_chambers(before),
        before.last().offset.row % 2 == 0,
        before.last().offset.col % 2 == 0,
        divide % 2 == 0,
        passage % 2 == 1,
        0 < divide,
        across ==> divide < before.last().h,
        !across ==> divide < before.last().w,
        after.len() == before.len() + 1,
        forall|j: int| 0 <= j < before.len() - 1 ==> after[j] == before[j],
        ({
            let ch = before.last();
            if across {
                &&& after[before.len() - 1] == (Chamber { offset: ch.offset, h: (divide + 1) as i32, w: ch.w })
                &&& after[before.len() as int] == (Chamber {
                    offset: Point { row: (ch.offset.row + divide) as i32, col: ch.offset.col },
                    h: (ch.h - divide) as i32,
                    w: ch.w,
                })
            } else {
                &&& after[before.len() - 1] == (Chamber { offset: ch.offset, h: ch.h, w: (divide + 1) as i32 })
                &&& after[before.len() as int] == (Chamber {
                    offset: Point { row: ch.offset.row, col: (ch.offset.col + divide) as i32 },
                    h: ch.h,
                    w: (ch.w - divide) as i32,
                })
            }
        }),
        forall|r: int, c: int|
            m0.in_bounds(r, c) ==> spec_is_wall(#[trigger] m1.square(r, c)) == (spec_is_wall(m0.square(r, c)) || (if across {
                on_divider(before.last().offset.row + divide, before.last().offset.col as int, before.last().w as int, passage, true, r, c)
            } else {
                on_divider(before.last().offset.row as int, before.last().offset.col + divide, before.last().h as int, passage, false, r, c)
            })),
    ensures
        posts_covered(m1, after),
        odd_chambers(after),
{
    let ch = before.last();
    let k = before.len() - 1;
    assert forall|r: int, c: int| m1.in_bounds(r, c) && r % 2 == 0 && c % 2 == 0 implies spec_is_wall(#[trigger] m1.square(r, c))
        || exists|j: int| 0 <= j < after.len() && inside(after[j], r, c) by {
        assert(m0.in_bounds(r, c));
        if !spec_is_wall(m0.square(r, c)) {
            let j = choose|j: int| 0 <= j < before.len() && inside(before[j], r, c);
            if j < k {
                assert(after[j] == before[j]);
            } else if across {
                if r < ch.offset.row + divide {
                    assert(inside(after[k], r, c));
                } else if r > ch.offset.row + divide {
                    assert(inside(after[k + 1], r, c));
                }
            } else {
                if c < ch.offset.col + divide {
                    assert(inside(after[k], r, c));
                } else if c > ch.offset.col + divide {
                    assert(inside(after[k + 1], r, c));
                }
            }
        }
    }
    assert forall|j: int| 0 <= j < after.len() implies odd_chamber(#[trigger] after[j]) by {
        if j < k {
            assert(after[j] == before[j]);
        }
        assert(odd_chamber(before[k]));
    }
}

/// A chamber too small to cut, of odd height and width, holds no post.
proof fn lemma_small_covers(m: &Maze, before: Seq<Chamber>)
    requires
        before.len() > 0,
        posts_covered(m, before),
        odd_chambers(before),
        before.last().offset.row % 2 == 0,
        before.last().offset.col % 2 == 0,
        !(before.last().h >= before.last().w && before.last().w > MIN_CHAMBER),
        !(before.last().w > before.last().h && before.last().h > MIN_CHAMBER),
    ensures
        posts_covered(m, before.drop_last()),
        odd_chambers(before.drop_last()),
{
    let k = before.len() - 1;
    let rest = before.drop_last();
    assert(odd_chamber(before[k]));
    assert forall|r: int, c: int| m.in_bounds(r, c) && r % 2 == 0 && c % 2 == 0 implies spec_is_wall(#[trigger] m.square(r, c))
        || exists|j: int| 0 <= j < rest.len() && inside(rest[j], r, c) by {
        if !spec_is_wall(m.square(r, c)) {
            let j = choose|j: int| 0 <= j < before.len() && inside(before[j], r, c);
            if j < k {
                assert(rest[j] == before[j]);
            }
        }
    }
    assert forall|j: int| 0 <= j < rest.len() implies odd_chamber(#[trigger] rest[j]) by {
        assert(rest[j] == before[j]);
    }
}

/// With no chamber left to divide, every post is a wall.
proof fn lemma_covered_walled(m: &Maze)
    requires
        posts_covered(m, Seq::<Chamber>::empty()),
    ensures
        posts_walled(m),
{
}

/// The square `(r, c)` lies in a chamber, its walls included.
pub open spec fn covers(ch: Chamber, r: int, c: int) -> bool {
    &&& ch.offset.row <= r < ch.offset.row + ch.h
    &&& ch.offset.col <= c < ch.offset.col + ch.w
}

/// Every square inside a chamber on the stack is open.
pub open spec fn insides_open(maze: &Maze, stack: Seq<Chamber>) -> bool {
    forall|j: int, r: int, c: int| 0 <= j < stack.len() && #[trigger] inside(stack[j], r, c) ==> open_at(maze, r, c)
}

/// No chamber on the stack reaches inside another.
pub open spec fn chambers_apart(stack: Seq<Chamber>) -> bool {
    forall|i: int, j: int, r: int, c: int|
        0 <= i < stack.len() && 0 <= j < stack.len() && i != j && #[trigger] inside(stack[j], r, c) ==> !#[trigger] covers(
            stack[i],
            r,
            c,
        )
}

/// A walk of `m0` still leads, in `m1`, to each of its squares that is open,
/// and to `hub` from the first square it meets inside `ch` on, when every
/// square closed from `m0` to `m1` lies inside `ch`, every open square inside
/// `ch` reaches `hub`, and a square inside `ch` that closed borders only
/// squares inside `ch` or squares that were closed already.
proof fn lemma_reroute(m0: &Maze, m1: &Maze, ch: Chamber, hub: Point, path: Seq<Point>, j: int)
    requires
        m1.same_shape(m0),
        open_walk(m0, path),
        0 <= j < path.len(),
        !spec_is_wall(sq(m1, path[0])),
        forall|r: int, c: int| open_at(m0, r, c) && !#[trigger] open_at(m1, r, c) ==> inside(ch, r, c),
        forall|r: int, c: int| inside(ch, r, c) && #[trigger] open_at(m1, r, c) ==> reaches(m1, pt(r, c), hub),
        forall|r: int, c: int, r2: int, c2: int|
            inside(ch, r, c) && !#[trigger] open_at(m1, r, c) && ((r == r2 && (c2 == c + 1 || c2 == c - 1)) || (c == c2 && (
            r2 == r + 1 || r2 == r - 1))) && !inside(ch, r2, c2) ==> !#[trigger] open_at(m0, r2, c2),
    ensures
        open_at(m1, path[j].row as int, path[j].col as int) ==> reaches(m1, path[0], path[j]),
        inside(ch, path[j].row as int, path[j].col as int) ==> reaches(m1, path[0], hub),
    decreases j,
{
    let p0 = path[0];
    let x = path[j];
    let xr = x.row as int;
    let xc = x.col as int;
    assert(m0.in_bounds(x.row as int, x.col as int) && !spec_is_wall(m0.square(x.row as int, x.col as int)));
    assert(open_at(m0, xr, xc));
    assert(pt(xr, xc) == x);
    let xo = open_at(m1, xr, xc);
    if j == 0 {
        assert(m0.in_bounds(xr, xc));
        if xo {
            lemma_reaches_self(m1, x);
        }
        if inside(ch, xr, xc) {
            assert(xo);
        }
    } else {
        lemma_reroute(m0, m1, ch, hub, path, j - 1);
        let w = path[j - 1];
        let wr = w.row as int;
        let wc = w.col as int;
        assert(m0.in_bounds(w.row as int, w.col as int) && !spec_is_wall(m0.square(w.row as int, w.col as int)));
        assert(open_at(m0, wr, wc));
        assert(pt(wr, wc) == w);
        assert(adjacent(path[j - 1], path[j]));
        let wo = open_at(m1, wr, wc);
        if xo {
            if wo {
                lemma_next_reaches(m1, w, x);
                lemma_reaches_concat(m1, p0, w, x);
            } else {
                assert(inside(ch, wr, wc));
                if inside(ch, xr, xc) {
                    lemma_reaches_reverse(m1, x, hub);
                    lemma_reaches_concat(m1, p0, hub, x);
                } else {
                    assert(!open_at(m0, xr, xc));
                }
            }
            if inside(ch, xr, xc) {
                lemma_reaches_concat(m1, p0, x, hub);
            }
        } else {
            assert(inside(ch, xr, xc));
            if wo {
                if inside(ch, wr, wc) {
                    lemma_reaches_concat(m1, p0, w, hub);
                } else {
                    assert(!open_at(m0, wr, wc));
                }
            } else {
                assert(inside(ch, wr, wc));
            }
        }
    }
}

/// The square a divider leaves open in chamber `ch`: the divider runs along
/// row `divide` of the chamber, or its column `divide`, and opens at its
/// square `passage`.
pub open spec fn cut_hub(ch: Chamber, divide: int, passage: int, across: bool) -> Point {
    if across {
        pt(ch.offset.row + divide, ch.offset.col + passage)
    } else {
        pt(ch.offset.row + passage, ch.offset.col + divide)
    }
}

/// Cutting an open chamber with a divider that leaves one passage, where the
/// divider's ends were walls already, keeps every cell reached from `s`.
proof fn lemma_cut_keeps_reach(m0: &Maze, m1: &Maze, ch: Chamber, divide: int, passage: int, across: bool, s: Point)
    requires
        m0.wf(),
        m1.same_shape(m0),
        chamber_ok(m0, ch),
        across ==> 2 <= divide <= ch.h - 3 && 1 <= passage <= ch.w - 2,
        !across ==> 2 <= divide <= ch.w - 3 && 1 <= passage <= ch.h - 2,
        forall|r: int, c: int| #[trigger] inside(ch, r, c) ==> open_at(m0, r, c),
        forall|r: int, c: int|
            m0.in_bounds(r, c) ==> spec_is_wall(#[trigger] m1.square(r, c)) == (spec_is_wall(m0.square(r, c)) || (if across {
                on_divider(ch.offset.row + divide, ch.offset.col as int, ch.w as int, passage, true, r, c)
            } else {
                on_divider(ch.offset.row as int, ch.offset.col + divide, ch.h as int, passage, false, r, c)
            })),
        across ==> !open_at(m0, ch.offset.row + divide, ch.offset.col as int) && !open_at(
            m0,
            ch.offset.row + divide,
            ch.offset.col + ch.w - 1,
        ),
        !across ==> !open_at(m0, ch.offset.row as int, ch.offset.col + divide) && !open_at(
            m0,
            ch.offset.row + ch.h - 1,
            ch.offset.col + divide,
        ),
        is_cell(m0, s),
        all_cells_reached(m0, s),
        cells_open(m1),
    ensures
        all_cells_reached(m1, s),
{
    let row = ch.offset.row as int;
    let col = ch.offset.col as int;
    let h = ch.h as int;
    let w = ch.w as int;
    let hub = cut_hub(ch, divide, passage, across);
    let hr = hub.row as int;
    let hc = hub.col as int;
    assert(inside(ch, hr, hc));
    assert(open_at(m0, hr, hc));
    assert(m0.in_bounds(hr, hc));
    assert(!spec_is_wall(m1.square(hr, hc)));
    assert(open_at(m1, hr, hc));
    assert forall|r: int, c: int| open_at(m0, r, c) && !#[trigger] open_at(m1, r, c) implies inside(ch, r, c) by {
        assert(m0.in_bounds(r, c));
        assert(spec_is_wall(m1.square(r, c)));
    }
    assert forall|r: int, c: int| inside(ch, r, c) && #[trigger] open_at(m1, r, c) implies reaches(m1, pt(r, c), hub) by {
        if across {
            let cut = row + divide;
            if r < cut {
                assert forall|rr: int, cc: int| row + 1 <= rr <= cut - 1 && col + 1 <= cc <= w + col - 2 implies #[trigger] open_at(
                    m1,
                    rr,
                    cc,
                ) by {
                    assert(inside(ch, rr, cc));
                    assert(m0.in_bounds(rr, cc));
                    assert(spec_is_wall(m1.square(rr, cc)) == spec_is_wall(m0.square(rr, cc)));
                }
                lemma_rect_reaches(m1, row + 1, col + 1, cut - 1, col + w - 2, pt(r, c), pt(cut - 1, hc));
                assert(open_at(m1, cut - 1, hc));
                lemma_next_reaches(m1, pt(cut - 1, hc), hub);
                lemma_reaches_concat(m1, pt(r, c), pt(cut - 1, hc), hub);
            } else if r > cut {
                assert forall|rr: int, cc: int| cut + 1 <= rr <= row + h - 2 && col + 1 <= cc <= w + col - 2 implies #[trigger] open_at(
                    m1,
                    rr,
                    cc,
                ) by {
                    assert(inside(ch, rr, cc));
                    assert(m0.in_bounds(rr, cc));
                    assert(spec_is_wall(m1.square(rr, cc)) == spec_is_wall(m0.square(rr, cc)));
                }
                lemma_rect_reaches(m1, cut + 1, col + 1, row + h - 2, col + w - 2, pt(r, c), pt(cut + 1, hc));
                assert(open_at(m1, cut + 1, hc));
                lemma_next_reaches(m1, pt(cut + 1, hc), hub);
                lemma_reaches_concat(m1, pt(r, c), pt(cut + 1, hc), hub);
            } else {
                assert(m0.in_bounds(r, c));
                assert(c == hc);
                lemma_reaches_self(m1, hub);
            }
        } else {
            let cut = col + divide;
            if c < cut {
                assert forall|rr: int, cc: int| row + 1 <= rr <= row + h - 2 && col + 1 <= cc <= cut - 1 implies #[trigger] open_at(
                    m1,
                    rr,
                    cc,
                ) by {
                    assert(inside(ch, rr, cc));
                    assert(m0.in_bounds(rr, cc));
                    assert(spec_is_wall(m1.square(rr, cc)) == spec_is_wall(m0.square(rr, cc)));
                }
                lemma_rect_reaches(m1, row + 1, col + 1, row + h - 2, cut - 1, pt(r, c), pt(hr, cut - 1));
                assert(open_at(m1, hr, cut - 1));
                lemma_next_reaches(m1, pt(hr, cut - 1), hub);
                lemma_reaches_concat(m1, pt(r, c), pt(hr, cut - 1), hub);
            } else if c > cut {
                assert forall|rr: int, cc: int| row + 1 <= rr <= row + h - 2 && cut + 1 <= cc <= col + w - 2 implies #[trigger] open_at(
                    m1,
                    rr,
                    cc,
                ) by {
                    assert(inside(ch, rr, cc));
                    assert(m0.in_bounds(rr, cc));
                    assert(spec_is_wall(m1.square(rr, cc)) == spec_is_wall(m0.square(rr, cc)));
                }
                lemma_rect_reaches(m1, row + 1, cut + 1, row + h - 2, col + w - 2, pt(r, c), pt(hr, cut + 1));
                assert(open_at(m1, hr, cut + 1));
                lemma_next_reaches(m1, pt(hr, cut + 1), hub);
                lemma_reaches_concat(m1, pt(r, c), pt(hr, cut + 1), hub);
            } else {
                assert(m0.in_bounds(r, c));
                assert(r == hr);
                lemma_reaches_self(m1, hub);
            }
        }
    }
    assert forall|r: int, c: int, r2: int, c2: int|
        inside(ch, r, c) && !#[trigger] open_at(m1, r, c) && ((r == r2 && (c2 == c + 1 || c2 == c - 1)) || (c == c2 && (
        r2 == r + 1 || r2 == r - 1))) && !inside(ch, r2, c2) implies !#[trigger] open_at(m0, r2, c2) by {
        assert(open_at(m0, r, c));
        assert(m0.in_bounds(r, c));
        assert(spec_is_wall(m1.square(r, c)));
    }
    assert forall|u: Point| is_cell(m1, u) implies #[trigger] reaches(m1, s, u) by {
        assert(is_cell(m0, u));
        assert(reaches(m0, s, u));
        let path = choose|path: Seq<Point>| open_walk(m0, path) && path[0] == s && path.last() == u;
        assert(!spec_is_wall(sq(m1, s)));
        lemma_reroute(m0, m1, ch, hub, path, path.len() - 1);
        assert(!spec_is_wall(sq(m1, u)));
        assert(m0.in_bounds(u.row as int, u.col as int));
        assert(open_at(m1, u.row as int, u.col as int));
    }
}

/// Cutting the last chamber of `before` into the two last chambers of
/// `after` keeps the chambers apart with open insides, and every cell
/// reached from `s`.
proof fn lemma_cut_state(
    m0: &Maze,
    m1: &Maze,
    before: Seq<Chamber>,
    after: Seq<Chamber>,
    divide: int,
    passage: int,
    across: bool,
    s: Point,
)
    requires
        m0.wf(),
        m1.same_shape(m0),
        before.len() > 0,
        forall|j: int| 0 <= j < before.len() ==> chamber_ok(m0, #[trigger] before[j]),
        posts_covered(m0, before),
        odd_chambers(before),
        insides_open(m0, before),
        chambers_apart(before),
        divide % 2 == 0,
        passage % 2 == 1,
        2 <= divide,
        3 <= passage,
        across ==> divide <= before.last().h - 2 && passage <= before.last().w - 1,
        !across ==> divide <= before.last().w - 2 && passage <= before.last().h - 1,
        after.len() == before.len() + 1,
        forall|j: int| 0 <= j < before.len() - 1 ==> after[j] == before[j],
        ({
            let ch = before.last();
            if across {
                &&& after[before.len() - 1] == (Chamber { offset: ch.offset, h: (divide + 1) as i32, w: ch.w })
                &&& after[before.len() as int] == (Chamber {
                    offset: Point { row: (ch.offset.row + divide) as i32, col: ch.offset.col },
                    h: (ch.h - divide) as i32,
                    w: ch.w,
                })
            } else {
                &&& after[before.len() - 1] == (Chamber { offset: ch.offset, h: ch.h, w: (divide + 1) as i32 })
                &&& after[before.len() as int] == (Chamber {
                    offset: Point { row: ch.offset.row, col: (ch.offset.col + divide) as i32 },
                    h: ch.h,
                    w: (ch.w - divide) as i32,
                })
            }
        }),
        forall|r: int, c: int|
            m0.in_bounds(r, c) ==> spec_is_wall(#[trigger] m1.square(r, c)) == (spec_is_wall(m0.square(r, c)) || (if across {
                on_divider(before.last().offset.row + divide, before.last().offset.col as int, before.last().w as int, passage, true, r, c)
            } else {
                on_divider(before.last().offset.row as int, before.last().offset.col + divide, before.last().h as int, passage, false, r, c)
            })),
        is_cell(m0, s),
        all_cells_reached(m0, s),
        cells_open(m1),
    ensures
        insides_open(m1, after),
        chambers_apart(after),
        all_cells_reached(m1, s),
{
    let k = before.len() - 1;
    let ch = before[k];
    let row = ch.offset.row as int;
    let col = ch.offset.col as int;
    assert(odd_chamber(ch));
    assert(chamber_ok(m0, ch));
    assert forall|r: int, c: int| #[trigger] inside(ch, r, c) implies open_at(m0, r, c) by {
        assert(inside(before[k], r, c));
    }
    assert forall|r: int, c: int| m0.in_bounds(r, c) && r % 2 == 0 && c % 2 == 0 && covers(ch, r, c) && !inside(ch, r, c)
        implies !open_at(m0, r, c) by {
        assert(m0.square(r, c) == m0.square(r, c));
        if !spec_is_wall(m0.square(r, c)) {
            let j = choose|j: int| 0 <= j < before.len() && inside(before[j], r, c);
            assert(j != k);
            assert(!covers(before[k], r, c));
        }
    }
    if across {
        assert(m0.in_bounds(row + divide, col) && covers(ch, row + divide, col));
        assert(m0.in_bounds(row + divide, col + ch.w - 1) && covers(ch, row + divide, col + ch.w - 1));
    } else {
        assert(m0.in_bounds(row, col + divide) && covers(ch, row, col + divide));
        assert(m0.in_bounds(row + ch.h - 1, col + divide) && covers(ch, row + ch.h - 1, col + divide));
    }
    lemma_cut_keeps_reach(m0, m1, ch, divide, passage, across, s);
    assert forall|j: int, r: int, c: int| 0 <= j < after.len() && #[trigger] inside(after[j], r, c) implies open_at(m1, r, c) by {
        assert(m0.in_bounds(r, c));
        if j < k {
            assert(after[j] == before[j]);
            assert(open_at(m0, r, c));
            assert(!covers(before[k], r, c));
            assert(spec_is_wall(m1.square(r, c)) == spec_is_wall(m0.square(r, c)));
        } else {
            assert(inside(ch, r, c));
            assert(open_at(m0, r, c));
            assert(spec_is_wall(m1.square(r, c)) == spec_is_wall(m0.square(r, c)));
        }
    }
    assert forall|i: int, j: int, r: int, c: int|
        0 <= i < after.len() && 0 <= j < after.len() && i != j && #[trigger] inside(after[j], r, c) implies !#[trigger] covers(
        after[i],
        r,
        c,
    ) by {
        if i < k && j < k {
            assert(after[i] == before[i] && after[j] == before[j]);
        } else if i < k {
            assert(after[i] == before[i]);
            assert(inside(before[k], r, c));
        } else if j < k {
            assert(after[j] == before[j]);
            assert(!covers(before[k], r, c));
        }
    }
}

/// With the edge walled and everything inside open, the whole grid as one
/// chamber is open inside and every cell reaches the first.
proof fn lemma_open_start(m: &Maze, stack: Seq<Chamber>)
    requires
        m.wf(),
        interior_paths(m),
        stack.len() == 1,
        stack[0] == (Chamber { offset: Point { row: 0, col: 0 }, h: m.rows_spec() as i32, w: m.cols_spec() as i32 }),
    ensures
        insides_open(m, stack),
        chambers_apart(stack),
        all_cells_reached(m, pt(1, 1)),
{
    assert forall|j: int, r: int, c: int| 0 <= j < stack.len() && #[trigger] inside(stack[j], r, c) implies open_at(m, r, c) by {
        assert(!spec_is_wall(m.square(r, c)));
    }
    assert forall|u: Point| is_cell(m, u) implies #[trigger] reaches(m, pt(1, 1), u) by {
        assert forall|r: int, c: int| 1 <= r <= m.rows_spec() - 2 && 1 <= c <= m.cols_spec() - 2 implies #[trigger] open_at(m, r, c) by {
            assert(!spec_is_wall(m.square(r, c)));
        }
        lemma_rect_reaches(m, 1, 1, m.rows_spec() - 2, m.cols_spec() - 2, pt(1, 1), u);
    }
}

/// Dropping the last chamber keeps the rest apart and open inside.
proof fn lemma_drop_apart(m: &Maze, before: Seq<Chamber>)
    requires
        before.len() > 0,
        insides_open(m, before),
        chambers_apart(before),
    ensures
        insides_open(m, before.drop_last()),
        chambers_apart(before.drop_last()),
{
    let after = before.drop_last();
    assert forall|j: int, r: int, c: int| 0 <= j < after.len() && #[trigger] inside(after[j], r, c) implies open_at(m, r, c) by {
        assert(after[j] == before[j]);
    }
    assert forall|i: int, j: int, r: int, c: int|
        0 <= i < after.len() && 0 <= j < after.len() && i != j && #[trigger] inside(after[j], r, c) implies !#[trigger] covers(
        after[i],
        r,
        c,
    ) by {
        assert(after[i] == before[i] && after[j] == before[j]);
    }
}

/// The builder bit lies above the low bits.
proof fn lemma_builder_low()
    ensures
        low_bits(crate::maze::BUILDER_BIT) == 0,
{
    assert(0x1000_0000u32 & 0x00FF_FFFFu32 == 0) by (bit_vector);
}

/// Builds the walls of row `row` from column `col` over `span` squares, but
/// the one at `passage`; or, when `across` is false, of column `col` from
/// row `row` over `span` squares but the one at `passage`.
fn build_divider(
    maze: &mut Maze,
    row: i32,
    col: i32,
    span: i32,
    passage: i32,
    across: bool,
    Ghost(edge): Ghost<bool>,
)
    requires
        old(maze).wf(),
        cells_open(old(maze)),
        edge ==> perimeter_walls(old(maze)),
        0 <= row,
        0 <= col,
        1 <= span,
        across ==> row % 2 == 0 && row < old(maze).rows_spec() && col + span <= old(maze).cols_spec(),
        !across ==> col % 2 == 0 && col < old(maze).cols_spec() && row + span <= old(maze).rows_spec(),
    ensures
        reshaped(final(maze), old(maze)),
        cells_open(final(maze)),
        edge ==> perimeter_walls(final(maze)),
        forall|r: int, c: int|
            old(maze).in_bounds(r, c) ==> spec_is_wall(#[trigger] final(maze).square(r, c)) == (spec_is_wall(
                old(maze).square(r, c),
            ) || on_divider(row as int, col as int, span as int, passage as int, across, r, c)),
        forall|r: int, c: int|
            old(maze).in_bounds(r, c) ==> low_bits(#[trigger] final(maze).square(r, c)) == low_bits(old(maze).square(r, c)),
{
    let mut i: i32 = 0;
    while i < span
        invariant
            reshaped(maze, old(maze)),
            cells_open(maze),
            edge ==> perimeter_walls(maze),
            forall|r: int, c: int|
                old(maze).in_bounds(r, c) ==> spec_is_wall(#[trigger] maze.square(r, c)) == (spec_is_wall(
                    old(maze).square(r, c),
                ) || on_divider(row as int, col as int, i as int, passage as int, across, r, c)),
            0 <= row,
            0 <= col,
            0 <= i <= span,
            forall|r: int, c: int|
                old(maze).in_bounds(r, c) ==> low_bits(#[trigger] maze.square(r, c)) == low_bits(old(maze).square(r, c)),
            across ==> row % 2 == 0 && row < maze.rows_spec() && col + span <= maze.cols_spec(),
            !across ==> col % 2 == 0 && col < maze.cols_spec() && row + span <= maze.rows_spec(),
        decreases span - i,
    {
        if i != passage {
            let p = if across { Point { row, col: col + i } } else { Point { row: row + i, col } };
            let ghost m0 = *maze;
            build_wall_line(maze, p);
            proof {
                lemma_wall_line_state(&m0, maze, p, edge);
                lemma_builder_low();
                lemma_wall_joined_low(&m0, maze, p, crate::maze::BUILDER_BIT);
                assert forall|r: int, c: int| old(maze).in_bounds(r, c) implies low_bits(#[trigger] maze.square(r, c))
                    == low_bits(old(maze).square(r, c)) by {
                    assert(low_bits(m0.square(r, c)) == low_bits(old(maze).square(r, c)));
                }
                crate::builders::build_ops::lemma_wall_joined_paths(&m0, maze, p, crate::maze::BUILDER_BIT, false);
                assert forall|r: int, c: int| old(maze).in_bounds(r, c) implies spec_is_wall(#[trigger] maze.square(r, c))
                    == (spec_is_wall(old(maze).square(r, c)) || on_divider(
                    row as int,
                    col as int,
                    i + 1,
                    passage as int,
                    across,
                    r,
                    c,
                )) by {
                    assert(spec_is_wall(m0.square(r, c)) == (spec_is_wall(old(maze).square(r, c)) || on_divider(
                        row as int,
                        col as int,
                        i as int,
                        passage as int,
                        across,
                        r,
                        c,
                    )));
                    if r == p.row && c == p.col {
                        assert(maze.square(r, c) == sq(maze, p));
                    }
                }
            }
        } else {
            proof {
                assert forall|r: int, c: int| old(maze).in_bounds(r, c) implies spec_is_wall(#[trigger] maze.square(r, c))
                    == (spec_is_wall(old(maze).square(r, c)) || on_divider(
                    row as int,
                    col as int,
                    i + 1,
                    passage as int,
                    across,
                    r,
                    c,
                )) by {
                    assert(spec_is_wall(maze.square(r, c)) == (spec_is_wall(old(maze).square(r, c)) || on_divider(
                        row as int,
                        col as int,
                        i as int,
                        passage as int,
                        across,
                        r,
                        c,
                    )));
                }
            }
        }
        i = i + 1;
    }
}

/// `build_divider`, recorded in the build history.
fn build_divider_history(
    maze: &mut Maze,
    row: i32,
    col: i32,
    span: i32,
    passage: i32,
    across: bool,
    Ghost(edge): Ghost<bool>,
)
    requires
        old(maze).wf(),
        cells_open(old(maze)),
        edge ==> perimeter_walls(old(maze)),
        0 <= row,
        0 <= col,
        1 <= span,
        0 <= passage < span,
        across ==> row % 2 == 0 && row < old(maze).rows_spec() && col + span <= old(maze).cols_spec(),
        !across ==> col % 2 == 0 && col < old(maze).cols_spec() && row + span <= old(maze).rows_spec(),
        old(maze).build_history.deltas().len() + 5 * span <= usize::MAX,
    ensures
        recorded(old(maze), final(maze)),
        cells_open(final(maze)),
        edge ==> perimeter_walls(final(maze)),
        final(maze).build_history.deltas().len() <= old(maze).build_history.deltas().len() + 5 * (span - 1),
        forall|r: int, c: int|
            old(maze).in_bounds(r, c) ==> spec_is_wall(#[trigger] final(maze).square(r, c)) == (spec_is_wall(
                old(maze).square(r, c),
            ) || on_divider(row as int, col as int, span as int, passage as int, across, r, c)),
{
    let ghost m00 = *maze;
    proof { crate::maze::lemma_recorded_refl(maze); }
    let mut i: i32 = 0;
    let ghost mut built: int = 0;
    while i < span
        invariant
            recorded(&m00, maze),
            m00.wf(),
            cells_open(maze),
            edge ==> perimeter_walls(maze),
            0 <= row,
            0 <= col,
            0 <= i <= span,
            across ==> row % 2 == 0 && row < maze.rows_spec() && col + span <= maze.cols_spec(),
            !across ==> col % 2 == 0 && col < maze.cols_spec() && row + span <= maze.rows_spec(),
            0 <= passage < span,
            0 <= built,
            built + (if passage < i { 1int } else { 0int }) <= i,
            maze.build_history.deltas().len() <= m00.build_history.deltas().len() + 5 * built,
            m00.build_history.deltas().len() + 5 * span <= usize::MAX,
            maze.same_shape(&m00),
            forall|r: int, c: int|
                m00.in_bounds(r, c) ==> spec_is_wall(#[trigger] maze.square(r, c)) == (spec_is_wall(
                    m00.square(r, c),
                ) || on_divider(row as int, col as int, i as int, passage as int, across, r, c)),
        decreases span - i,
    {
        if i != passage {
            let p = if across { Point { row, col: col + i } } else { Point { row: row + i, col } };
            let ghost m0 = *maze;
            build_wall_line_history(maze, p);
            proof {
                lemma_wall_line_state(&m0, maze, p, edge);
                lemma_recorded_trans(&m00, &m0, maze);
                built = built + 1;
                crate::builders::build_ops::lemma_wall_joined_paths(&m0, maze, p, crate::maze::BUILDER_BIT, false);
                assert forall|r: int, c: int| m00.in_bounds(r, c) implies spec_is_wall(#[trigger] maze.square(r, c))
                    == (spec_is_wall(m00.square(r, c)) || on_divider(row as int, col as int, i + 1, passage as int, across, r, c)) by {
                    assert(spec_is_wall(m0.square(r, c)) == (spec_is_wall(m00.square(r, c)) || on_divider(
                        row as int, col as int, i as int, passage as int, across, r, c)));
                    if r == p.row && c == p.col {
                        assert(maze.square(r, c) == sq(maze, p));
                    }
                }
            }
        } else {
            proof {
                assert forall|r: int, c: int| m00.in_bounds(r, c) implies spec_is_wall(#[trigger] maze.square(r, c))
                    == (spec_is_wall(m00.square(r, c)) || on_divider(row as int, col as int, i + 1, passage as int, across, r, c)) by {
                    assert(spec_is_wall(maze.square(r, c)) == (spec_is_wall(m00.square(r, c)) || on_divider(
                        row as int, col as int, i as int, passage as int, across, r, c)));
                }
            }
        }
        i = i + 1;
    }
}

/// A recursive subdivision maze: an open floor inside walls, then each
/// chamber wider than the smallest is cut by a wall along its shorter side,
/// on an even offset with one passage at an odd offset, into two chambers
/// that are cut in turn.
pub fn generate_maze(maze: &mut Maze)
    requires
        old(maze).wf(),
    ensures
        reshaped(final(maze), old(maze)),
        perimeter_walls(final(maze)),
        cells_open(final(maze)),
        old(maze).rows_spec() % 2 == 1 && old(maze).cols_spec() % 2 == 1 ==> posts_walled(final(maze)),
        old(maze).rows_spec() % 2 == 1 && old(maze).cols_spec() % 2 == 1 && old(maze).rows_spec() >= 3
            && old(maze).cols_spec() >= 3 ==> cells_connected(final(maze)),
        forall|r: int, c: int|
            old(maze).in_bounds(r, c) ==> low_bits(#[trigger] final(maze).square(r, c)) == low_bits(old(maze).square(r, c)),
{
    let ghost odd = old(maze).rows_spec() % 2 == 1 && old(maze).cols_spec() % 2 == 1;
    build_wall_outline(maze);
    let mut chamber_stack: Vec<Chamber> = vec![
        Chamber { offset: Point { row: 0, col: 0 }, h: maze.rows(), w: maze.cols() },
    ];
    proof {
        assert forall|u: Point| is_cell(maze, u) implies !spec_is_wall(#[trigger] sq(maze, u)) by {}
        if odd {
            assert forall|r: int, c: int| maze.in_bounds(r, c) && r % 2 == 0 && c % 2 == 0 implies spec_is_wall(#[trigger] maze.square(r, c))
                || exists|j: int| 0 <= j < chamber_stack@.len() && inside(chamber_stack@[j], r, c) by {
                if 0 < r < maze.rows_spec() - 1 && 0 < c < maze.cols_spec() - 1 {
                    assert(inside(chamber_stack@[0], r, c));
                }
            }
            assert(odd_chamber(chamber_stack@[0]));
            lemma_open_start(maze, chamber_stack@);
        }
    }
    while chamber_stack.len() > 0
        invariant
            reshaped(maze, old(maze)),
            divide_state(maze, chamber_stack@, true),
            odd == (old(maze).rows_spec() % 2 == 1 && old(maze).cols_spec() % 2 == 1),
            odd ==> posts_covered(maze, chamber_stack@) && odd_chambers(chamber_stack@),
            odd ==> insides_open(maze, chamber_stack@) && chambers_apart(chamber_stack@) && all_cells_reached(maze, pt(1, 1)),
            forall|r: int, c: int|
                old(maze).in_bounds(r, c) ==> low_bits(#[trigger] maze.square(r, c)) == low_bits(old(maze).square(r, c)),
        decreases stack_weight(chamber_stack@),
    {
        let ghost before = chamber_stack@;
        let chamber = chamber_stack.pop().unwrap();
        proof {
            assert(before.drop_last() =~= chamber_stack@);
            assert(chamber == before[before.len() - 1]);
            lemma_stack_weight(before);
            lemma_stack_weight(chamber_stack@);
        }
        if chamber.h >= chamber.w && chamber.w > MIN_CHAMBER {
            let divide = random_even_div(chamber.h);
            let passage = rand_odd_pass(chamber.w);
            let ghost m0 = *maze;
            build_divider(maze, chamber.offset.row + divide, chamber.offset.col, chamber.w, passage, true, Ghost(true));
            proof {
                assert forall|r: int, c: int| old(maze).in_bounds(r, c) implies low_bits(#[trigger] maze.square(r, c))
                    == low_bits(old(maze).square(r, c)) by {
                    assert(low_bits(m0.square(r, c)) == low_bits(old(maze).square(r, c)));
                }
            }
            let ghost mid = chamber_stack@;
            chamber_stack.push(Chamber { offset: chamber.offset, h: divide + 1, w: chamber.w });
            let ghost mid2 = chamber_stack@;
            chamber_stack.push(
                Chamber {
                    offset: Point { row: chamber.offset.row + divide, col: chamber.offset.col },
                    h: chamber.h - divide,
                    w: chamber.w,
                },
            );
            proof {
                lemma_push_weight(mid, mid2.last());
                lemma_push_weight(mid2, chamber_stack@.last());
                assert(mid2 == mid.push(mid2.last()));
                assert(chamber_stack@ == mid2.push(chamber_stack@.last()));
                lemma_divide_weight(chamber.h as int, chamber.w as int, divide as int);
                assert(chamber_weight(mid2.last()) == 2 * (divide - 1) * (chamber.w - 2) + 1);
                assert(chamber_weight(chamber_stack@.last()) == 2 * (chamber.h - divide - 2) * (chamber.w - 2) + 1);
                assert(chamber_weight(chamber) == 2 * (chamber.h - 2) * (chamber.w - 2) + 1);
                assert(stack_weight(chamber_stack@) < stack_weight(before));
                assert forall|j: int| 0 <= j < chamber_stack@.len() implies chamber_ok(maze, #[trigger] chamber_stack@[j]) by {
                    if j < mid.len() {
                        assert(chamber_stack@[j] == before[j]);
                    }
                }
                if odd {
                    assert(chamber_ok(&m0, before[before.len() - 1]));
                    assert forall|j: int| 0 <= j < before.len() - 1 implies chamber_stack@[j] == before[j] by {}
                    lemma_divide_covers(&m0, maze, before, chamber_stack@, divide as int, passage as int, true);
                    assert(chamber_ok(&m0, before[before.len() - 1]));
                    assert(is_cell(&m0, pt(1, 1)));
                    lemma_cut_state(&m0, maze, before, chamber_stack@, divide as int, passage as int, true, pt(1, 1));
                }
            }
        } else if chamber.w > chamber.h && chamber.h > MIN_CHAMBER {
            let divide = random_even_div(chamber.w);
            let passage = rand_odd_pass(chamber.h);
            let ghost m0 = *maze;
            build_divider(maze, chamber.offset.row, chamber.offset.col + divide, chamber.h, passage, false, Ghost(true));
            proof {
                assert forall|r: int, c: int| old(maze).in_bounds(r, c) implies low_bits(#[trigger] maze.square(r, c))
                    == low_bits(old(maze).square(r, c)) by {
                    assert(low_bits(m0.square(r, c)) == low_bits(old(maze).square(r, c)));
                }
            }
            let ghost mid = chamber_stack@;
            chamber_stack.push(Chamber { offset: chamber.offset, h: chamber.h, w: divide + 1 });
            let ghost mid2 = chamber_stack@;
            chamber_stack.push(
                Chamber {
                    offset: Point { row: chamber.offset.row, col: chamber.offset.col + divide },
                    h: chamber.h,
                    w: chamber.w - divide,
                },
            );
            proof {
                lemma_push_weight(mid, mid2.last());
                lemma_push_weight(mid2, chamber_stack@.last());
                assert(mid2 == mid.push(mid2.last()));
                assert(chamber_stack@ == mid2.push(chamber_stack@.last()));
                lemma_divide_weight(chamber.w as int, chamber.h as int, divide as int);
                assert(chamber_weight(mid2.last()) == 2 * (chamber.h - 2) * (divide - 1) + 1);
                assert(chamber_weight(chamber_stack@.last()) == 2 * (chamber.h - 2) * (chamber.w - divide - 2) + 1);
                assert(chamber_weight(chamber) == 2 * (chamber.h - 2) * (chamber.w - 2) + 1);
                assert(2 * (chamber.h - 2) * (divide - 1) == 2 * (divide - 1) * (chamber.h - 2)) by (nonlinear_arith);
                assert(2 * (chamber.h - 2) * (chamber.w - divide - 2) == 2 * (chamber.w - divide - 2) * (chamber.h - 2)) by (nonlinear_arith);
                assert(2 * (chamber.h - 2) * (chamber.w - 2) == 2 * (chamber.w - 2) * (chamber.h - 2)) by (nonlinear_arith);
                assert(stack_weight(chamber_stack@) < stack_weight(before));
                assert forall|j: int| 0 <= j < chamber_stack@.len() implies chamber_ok(maze, #[trigger] chamber_stack@[j]) by {
                    if j < mid.len() {
                        assert(chamber_stack@[j] == before[j]);
                    }
                }
                if odd {
                    assert(chamber_ok(&m0, before[before.len() - 1]));
                    assert forall|j: int| 0 <= j < before.len() - 1 implies chamber_stack@[j] == before[j] by {}
                    lemma_divide_covers(&m0, maze, before, chamber_stack@, divide as int, passage as int, false);
                    assert(chamber_ok(&m0, before[before.len() - 1]));
                    assert(is_cell(&m0, pt(1, 1)));
                    lemma_cut_state(&m0, maze, before, chamber_stack@, divide as int, passage as int, false, pt(1, 1));
                }
            }
        } else {
            proof {
                assert forall|j: int| 0 <= j < chamber_stack@.len() implies chamber_ok(maze, #[trigger] chamber_stack@[j]) by {
                    assert(chamber_stack@[j] == before[j]);
                }
                lemma_chamber_weight(chamber);
                assert(stack_weight(chamber_stack@) < stack_weight(before));
                if odd {
                    assert(chamber_ok(maze, before[before.len() - 1]));
                    lemma_small_covers(maze, before);
                    lemma_drop_apart(maze, before);
                }
            }
        }
    }
    proof {
        if odd {
            lemma_covered_walled(maze);
            if maze.rows_spec() >= 3 && maze.cols_spec() >= 3 {
                assert(is_cell(maze, pt(1, 1)));
            }
        }
    }
}

/// `generate_maze`, recorded: the outline and each wall are recorded in the
/// build history; the edge squares keep their path bit from the outline on,
/// so the edge ends walled when it started so, as in a fresh maze; on a
/// fresh maze the history replays to the maze from the empty grid.
pub fn generate_history(maze: &mut Maze)
    requires
        old(maze).wf(),
        old(maze).build_history.deltas().len() + 15 * old(maze).squares().len() + 5 <= usize::MAX,
    ensures
        final(maze).wf(),
        final(maze).same_shape(old(maze)),
        final(maze).solve_history == old(maze).solve_history,
        perimeter_walls(old(maze)) ==> perimeter_walls(final(maze)),
        crate::builders::arena::fresh(old(maze)) ==> perimeter_walls(final(maze)),
        cells_open(final(maze)),
        crate::builders::arena::fresh(old(maze)) ==> recorded(old(maze), final(maze)),
        crate::builders::arena::fresh(old(maze)) ==> final(maze).build_history.framed(),
        perimeter_walls(old(maze)) && old(maze).rows_spec() % 2 == 1 && old(maze).cols_spec() % 2 == 1 ==> posts_walled(
            final(maze),
        ),
        crate::builders::arena::fresh(old(maze)) && old(maze).rows_spec() % 2 == 1 && old(maze).cols_spec() % 2 == 1
            ==> posts_walled(final(maze)),
        (perimeter_walls(old(maze)) || crate::builders::arena::fresh(old(maze))) && old(maze).rows_spec() % 2 == 1
            && old(maze).cols_spec() % 2 == 1 && old(maze).rows_spec() >= 3 && old(maze).cols_spec() >= 3 ==> cells_connected(
            final(maze),
        ),
{
    let ghost odd = old(maze).rows_spec() % 2 == 1 && old(maze).cols_spec() % 2 == 1;
    let ghost m00 = *maze;
    let ghost n = m00.squares().len() as int;
    let ghost d0 = m00.build_history.deltas().len() as int;
    let ghost edge = perimeter_walls(&m00);
    proof {
        if crate::builders::arena::fresh(&m00) {
            assert forall|r: int, c: int|
                m00.in_bounds(r, c) && !(0 < r < m00.rows_spec() - 1 && 0 < c < m00.cols_spec() - 1) implies spec_is_wall(
                #[trigger] m00.square(r, c),
            ) by {
                m00.maze.lemma_index(r, c);
                assert(m00.squares()[m00.maze.index_of(r, c)] == 0);
                assert(0u32 & 0x2000_0000u32 == 0) by (bit_vector);
            }
        }
    }
    build_wall_outline_history(maze);
    proof {
        let rows = m00.rows_spec();
        let cols = m00.cols_spec();
        let a: int = if rows > 2 { rows - 2 } else { 0 };
        let b: int = if cols > 2 { cols - 2 } else { 0 };
        assert(a * b <= rows * cols) by (nonlinear_arith)
            requires
                0 <= a <= rows,
                0 <= b <= cols,
        ;
    }
    let mut chamber_stack: Vec<Chamber> = vec![
        Chamber { offset: Point { row: 0, col: 0 }, h: maze.rows(), w: maze.cols() },
    ];
    proof {
        assert forall|u: Point| is_cell(maze, u) implies !spec_is_wall(#[trigger] sq(maze, u)) by {}
        if edge {
            assert forall|r: int, c: int|
                maze.in_bounds(r, c) && !(0 < r < maze.rows_spec() - 1 && 0 < c < maze.cols_spec() - 1) implies spec_is_wall(
                #[trigger] maze.square(r, c),
            ) by {
                assert(spec_is_wall(m00.square(r, c)));
            }
            if odd {
                assert forall|r: int, c: int| maze.in_bounds(r, c) && r % 2 == 0 && c % 2 == 0 implies spec_is_wall(#[trigger] maze.square(r, c))
                    || exists|j: int| 0 <= j < chamber_stack@.len() && inside(chamber_stack@[j], r, c) by {
                    if 0 < r < maze.rows_spec() - 1 && 0 < c < maze.cols_spec() - 1 {
                        assert(inside(chamber_stack@[0], r, c));
                    }
                }
                assert(odd_chamber(chamber_stack@[0]));
                lemma_open_start(maze, chamber_stack@);
            }
        }
    }
    proof {
        lemma_push_weight(Seq::<Chamber>::empty(), chamber_stack@[0]);
        assert(Seq::<Chamber>::empty().push(chamber_stack@[0]) =~= chamber_stack@);
        assert(stack_weight(Seq::<Chamber>::empty()) == 0);
        let rows = m00.rows_spec();
        let cols = m00.cols_spec();
        let a: int = if rows > 2 { rows - 2 } else { 0 };
        let b: int = if cols > 2 { cols - 2 } else { 0 };
        assert(chamber_weight(chamber_stack@[0]) == 2 * a * b + 1);
        assert(2 * a * b == 2 * (a * b)) by (nonlinear_arith);
        assert(stack_weight(chamber_stack@) <= 2 * n + 1);
        lemma_chamber_weight(chamber_stack@[0]);
    }
    while chamber_stack.len() > 0
        invariant
            maze.wf(),
            maze.same_shape(&m00),
            m00 == *old(maze),
            maze.solve_history == m00.solve_history,
            n == maze.squares().len(),
            divide_state(maze, chamber_stack@, edge),
            edge == perimeter_walls(&m00),
            crate::builders::arena::fresh(&m00) ==> edge,
            stack_weight(chamber_stack@) >= 0,
            maze.build_history.deltas().len() + 5 * stack_weight(chamber_stack@) <= d0 + 15 * n + 5,
            d0 + 15 * n + 5 <= usize::MAX,
            crate::builders::arena::fresh(&m00) ==> recorded(&m00, maze),
            crate::builders::arena::fresh(&m00) ==> maze.build_history.framed(),
            odd == (m00.rows_spec() % 2 == 1 && m00.cols_spec() % 2 == 1),
            edge && odd ==> posts_covered(maze, chamber_stack@) && odd_chambers(chamber_stack@),
            edge && odd ==> insides_open(maze, chamber_stack@) && chambers_apart(chamber_stack@) && all_cells_reached(
                maze,
                pt(1, 1),
            ),
        decreases stack_weight(chamber_stack@),
    {
        let ghost before = chamber_stack@;
        let chamber = chamber_stack.pop().unwrap();
        proof {
            assert(before.drop_last() =~= chamber_stack@);
            assert(chamber == before[before.len() - 1]);
            lemma_stack_weight(before);
            lemma_stack_weight(chamber_stack@);
        }
        if chamber.h >= chamber.w && chamber.w > MIN_CHAMBER {
            let divide = random_even_div(chamber.h);
            let passage = rand_odd_pass(chamber.w);
            let ghost m0 = *maze;
            proof { lemma_divide_weight(chamber.h as int, chamber.w as int, divide as int); }
            build_divider_history(maze, chamber.offset.row + divide, chamber.offset.col, chamber.w, passage, true, Ghost(edge));
            proof {
                if crate::builders::arena::fresh(&m00) {
                    lemma_recorded_trans(&m00, &m0, maze);
                }
            }
            let ghost mid = chamber_stack@;
            chamber_stack.push(Chamber { offset: chamber.offset, h: divide + 1, w: chamber.w });
            let ghost mid2 = chamber_stack@;
            chamber_stack.push(
                Chamber {
                    offset: Point { row: chamber.offset.row + divide, col: chamber.offset.col },
                    h: chamber.h - divide,
                    w: chamber.w,
                },
            );
            proof {
                lemma_push_weight(mid, mid2.last());
                lemma_push_weight(mid2, chamber_stack@.last());
                assert(mid2 == mid.push(mid2.last()));
                assert(chamber_stack@ == mid2.push(chamber_stack@.last()));
                lemma_divide_weight(chamber.h as int, chamber.w as int, divide as int);
                assert(chamber_weight(mid2.last()) == 2 * (divide - 1) * (chamber.w - 2) + 1);
                assert(chamber_weight(chamber_stack@.last()) == 2 * (chamber.h - divide - 2) * (chamber.w - 2) + 1);
                assert(chamber_weight(chamber) == 2 * (chamber.h - 2) * (chamber.w - 2) + 1);
                assert(stack_weight(chamber_stack@) < stack_weight(before));
                assert forall|j: int| 0 <= j < chamber_stack@.len() implies chamber_ok(maze, #[trigger] chamber_stack@[j]) by {
                    if j < mid.len() {
                        assert(chamber_stack@[j] == before[j]);
                    }
                }
                if edge && odd {
                    assert(chamber_ok(&m0, before[before.len() - 1]));
                    assert forall|j: int| 0 <= j < before.len() - 1 implies chamber_stack@[j] == before[j] by {}
                    lemma_divide_covers(&m0, maze, before, chamber_stack@, divide as int, passage as int, true);
                    assert(chamber_ok(&m0, before[before.len() - 1]));
                    assert(is_cell(&m0, pt(1, 1)));
                    lemma_cut_state(&m0, maze, before, chamber_stack@, divide as int, passage as int, true, pt(1, 1));
                }
            }
        } else if chamber.w > chamber.h && chamber.h > MIN_CHAMBER {
            let divide = random_even_div(chamber.w);
            let passage = rand_odd_pass(chamber.h);
            let ghost m0 = *maze;
            proof {
                lemma_divide_weight(chamber.w as int, chamber.h as int, divide as int);
                assert(2 * (chamber.h - 2) * (chamber.w - 2) == 2 * (chamber.w - 2) * (chamber.h - 2)) by (nonlinear_arith);
            }
            build_divider_history(maze, chamber.offset.row, chamber.offset.col + divide, chamber.h, passage, false, Ghost(edge));
            proof {
                if crate::builders::arena::fresh(&m00) {
                    lemma_recorded_trans(&m00, &m0, maze);
                }
            }
            let ghost mid = chamber_stack@;
            chamber_stack.push(Chamber { offset: chamber.offset, h: chamber.h, w: divide + 1 });
            let ghost mid2 = chamber_stack@;
            chamber_stack.push(
                Chamber {
                    offset: Point { row: chamber.offset.row, col: chamber.offset.col + divide },
                    h: chamber.h,
                    w: chamber.w - divide,
                },
            );
            proof {
                lemma_push_weight(mid, mid2.last());
                lemma_push_weight(mid2, chamber_stack@.last());
                assert(mid2 == mid.push(mid2.last()));
                assert(chamber_stack@ == mid2.push(chamber_stack@.last()));
                lemma_divide_weight(chamber.w as int, chamber.h as int, divide as int);
                assert(chamber_weight(mid2.last()) == 2 * (chamber.h - 2) * (divide - 1) + 1);
                assert(chamber_weight(chamber_stack@.last()) == 2 * (chamber.h - 2) * (chamber.w - divide - 2) + 1);
                assert(chamber_weight(chamber) == 2 * (chamber.h - 2) * (chamber.w - 2) + 1);
                assert(2 * (chamber.h - 2) * (divide - 1) == 2 * (divide - 1) * (chamber.h - 2)) by (nonlinear_arith);
                assert(2 * (chamber.h - 2) * (chamber.w - divide - 2) == 2 * (chamber.w - divide - 2) * (chamber.h - 2)) by (nonlinear_arith);
                assert(2 * (chamber.h - 2) * (chamber.w - 2) == 2 * (chamber.w - 2) * (chamber.h - 2)) by (nonlinear_arith);
                assert(stack_weight(chamber_stack@) < stack_weight(before));
                assert forall|j: int| 0 <= j < chamber_stack@.len() implies chamber_ok(maze, #[trigger] chamber_stack@[j]) by {
                    if j < mid.len() {
                        assert(chamber_stack@[j] == before[j]);
                    }
                }
                if edge && odd {
                    assert(chamber_ok(&m0, before[before.len() - 1]));
                    assert forall|j: int| 0 <= j < before.len() - 1 implies chamber_stack@[j] == before[j] by {}
                    lemma_divide_covers(&m0, maze, before, chamber_stack@, divide as int, passage as int, false);
                    assert(chamber_ok(&m0, before[before.len() - 1]));
                    assert(is_cell(&m0, pt(1, 1)));
                    lemma_cut_state(&m0, maze, before, chamber_stack@, divide as int, passage as int, false, pt(1, 1));
                }
            }
        } else {
            proof {
                assert forall|j: int| 0 <= j < chamber_stack@.len() implies chamber_ok(maze, #[trigger] chamber_stack@[j]) by {
                    assert(chamber_stack@[j] == before[j]);
                }
                lemma_chamber_weight(chamber);
                assert(stack_weight(chamber_stack@) < stack_weight(before));
                if edge && odd {
                    assert(chamber_ok(maze, before[before.len() - 1]));
                    lemma_small_covers(maze, before);
                    lemma_drop_apart(maze, before);
                }
            }
        }
    }
    proof {
        if edge && odd {
            lemma_covered_walled(maze);
            if maze.rows_spec() >= 3 && maze.cols_spec() >= 3 {
                assert(is_cell(maze, pt(1, 1)));
            }
        }
    }
}

} // verus!
