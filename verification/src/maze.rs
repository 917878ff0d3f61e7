use vstd::prelude::*;

verus! {

/// One cell of the maze. The high bits carry the path, builder and wall
/// information; the low bits are free for builders and solvers.
pub type Square = u32;
pub type WallLine = u32;

#[derive(Clone, Copy, Debug, PartialEq, Eq, Structural, Hash)]
pub struct Point {
    pub row: i32,
    pub col: i32,
}

#[derive(Clone, Copy, Debug)]
pub struct Offset {
    pub add_rows: i32,
    pub add_cols: i32,
}

pub const CLEAR_AVAILABLE_BITS: Square = 0x10FF_FFFF;
pub const DEFAULT_ROWS: i32 = 31;
pub const DEFAULT_COLS: i32 = 111;
pub const PATH_BIT: Square = 0x2000_0000;
/// Builders that remember visited squares in place use this bit.
pub const BUILDER_BIT: Square = 0x1000_0000;
pub const WALL_MASK: WallLine = 0x0F00_0000;
pub const WALL_SHIFT: usize = 24;
pub const FLOATING_WALL: WallLine = 0;
pub const NORTH_WALL: WallLine = 0x0100_0000;
pub const EAST_WALL: WallLine = 0x0200_0000;
pub const SOUTH_WALL: WallLine = 0x0400_0000;
pub const WEST_WALL: WallLine = 0x0800_0000;
pub const WALL_ROW: usize = 16;

pub const WALL_STYLES: [char; 128] = [
    '▀', '▀', '▀', '▀', '█', '█', '█', '█', '▀', '▀', '▀', '▀', '█', '█', '█', '█',
    '■', '╵', '╶', '└', '╷', '│', '┌', '├', '╴', '┘', '─', '┴', '┐', '┤', '┬', '┼',
    '●', '╵', '╶', '╰', '╷', '│', '╭', '├', '╴', '╯', '─', '┴', '╮', '┤', '┬', '┼',
    '◫', '║', '═', '╚', '║', '║', '╔', '╠', '═', '╝', '═', '╩', '╗', '╣', '╦', '╬',
    '■', '╹', '╺', '┗', '╻', '┃', '┏', '┣', '╸', '┛', '━', '┻', '┓', '┫', '┳', '╋',
    '█', '█', '█', '█', '█', '█', '█', '█', '█', '█', '█', '█', '█', '█', '█', '█',
    '▄', '█', '▄', '█', '▄', '█', '▄', '█', '▄', '█', '▄', '█', '▄', '█', '▄', '█',
    '✸', '╀', '┾', '╊', '╁', '╂', '╆', '╊', '┽', '╃', '┿', '╇', '╅', '╉', '╈', '╋',
];


#[derive(Clone, Copy, Debug, PartialEq, Eq, Structural)]
pub enum MazeStyle {
    Mini,
    Sharp,
    Round,
    Doubles,
    Bold,
    Contrast,
    Half,
    Spikes,
}

#[derive(Clone, Copy)]
pub struct MazeArgs {
    pub odd_rows: i32,
    pub odd_cols: i32,
    pub offset: Offset,
    pub style: MazeStyle,
}

/// The grid itself: a row-major buffer of squares and its dimensions.
#[derive(Debug, Clone)]
pub struct Blueprint {
    pub buf: Vec<Square>,
    pub rows: i32,
    pub cols: i32,
    pub offset: Offset,
    pub wall_style_index: usize,
}

/// One recorded change of one square.
#[derive(Debug, Clone, Copy)]
pub struct Delta {
    pub id: Point,
    pub before: Square,
    pub after: Square,
    /// How many deltas, this one included, make up the frame it belongs to.
    pub burst: usize,
}

/// A history of deltas with a cursor for stepping through it.
#[derive(Debug, Clone)]
pub struct Tape {
    steps: Vec<Delta>,
    i: usize,
}

/// A maze together with the histories of how it was built and solved.
#[derive(Debug, Clone)]
pub struct Maze {
    pub maze: Blueprint,
    pub build_history: Tape,
    pub solve_history: Tape,
}

/// The north, east, south and west neighbors, in that order.
pub open spec fn spec_cardinal(i: int) -> Point {
    if i == 0 {
        Point { row: -1i32, col: 0 }
    } else if i == 1 {
        Point { row: 0, col: 1 }
    } else if i == 2 {
        Point { row: 1, col: 0 }
    } else {
        Point { row: 0, col: -1i32 }
    }
}

pub fn cardinal_direction(i: usize) -> (p: Point)
    requires
        i < 4,
    ensures
        p == spec_cardinal(i as int),
{
    if i == 0 {
        Point { row: -1i32, col: 0 }
    } else if i == 1 {
        Point { row: 0, col: 1 }
    } else if i == 2 {
        Point { row: 1, col: 0 }
    } else {
        Point { row: 0, col: -1i32 }
    }
}

/// South, south-east, east, north-east, north, north-west, west, south-west.
pub open spec fn spec_any_direction(i: int) -> Point {
    if i == 0 {
        Point { row: 1, col: 0 }
    } else if i == 1 {
        Point { row: 1, col: 1 }
    } else if i == 2 {
        Point { row: 0, col: 1 }
    } else if i == 3 {
        Point { row: -1i32, col: 1 }
    } else if i == 4 {
        Point { row: -1i32, col: 0 }
    } else if i == 5 {
        Point { row: -1i32, col: -1i32 }
    } else if i == 6 {
        Point { row: 0, col: -1i32 }
    } else {
        Point { row: 1, col: -1i32 }
    }
}

pub fn any_direction(i: usize) -> (p: Point)
    requires
        i < 8,
    ensures
        p == spec_any_direction(i as int),
{
    if i == 0 {
        Point { row: 1, col: 0 }
    } else if i == 1 {
        Point { row: 1, col: 1 }
    } else if i == 2 {
        Point { row: 0, col: 1 }
    } else if i == 3 {
        Point { row: -1i32, col: 1 }
    } else if i == 4 {
        Point { row: -1i32, col: 0 }
    } else if i == 5 {
        Point { row: -1i32, col: -1i32 }
    } else if i == 6 {
        Point { row: 0, col: -1i32 }
    } else {
        Point { row: 1, col: -1i32 }
    }
}

/// The four wall bits of a square, as a number from 0 to 15.
pub open spec fn wall_bits(square: Square) -> int {
    ((square & WALL_MASK) >> 24u32) as int
}

pub proof fn lemma_wall_bits_range(square: Square)
    ensures
        0 <= wall_bits(square) < 16,
{
    assert(((square & 0x0F00_0000u32) >> 24u32) < 16u32) by (bit_vector);
}

/// The character that draws `square` in the wall style `style_index`.
pub fn wall_char(style_index: usize, square: Square) -> (c: char)
    requires
        style_index < 8,
    ensures
        c == WALL_STYLES@[style_index * 16 + wall_bits(square)],
{
    proof { lemma_wall_bits_range(square); }
    WALL_STYLES[style_index * WALL_ROW + ((square & WALL_MASK) >> 24u32) as usize]
}


pub open spec fn spec_is_wall(square: Square) -> bool {
    square & PATH_BIT == 0
}

/// A square is a wall exactly when its path bit is clear.
pub fn is_wall(square: Square) -> (b: bool)
    ensures
        b == spec_is_wall(square),
{
    (square & PATH_BIT) == 0
}

/// A square is a path exactly when its path bit is set.
pub fn is_path(square: Square) -> (b: bool)
    ensures
        b == !spec_is_wall(square),
{
    (square & PATH_BIT) != 0
}

/// The sixteen characters of one wall style, indexed by wall bits.
pub fn wall_row(row_index: usize) -> (row: Vec<char>)
    requires
        row_index < 8,
    ensures
        row@ == WALL_STYLES@.subrange(row_index * 16, row_index * 16 + 16),
{
    let mut row: Vec<char> = Vec::new();
    let start = row_index * WALL_ROW;
    let mut k: usize = 0;
    while k < WALL_ROW
        invariant
            k <= 16,
            start == row_index * 16,
            row_index < 8,
            row@ == WALL_STYLES@.subrange(start as int, start + k),
        decreases 16 - k,
    {
        row.push(WALL_STYLES[start + k]);
        k = k + 1;
        assert(row@ =~= WALL_STYLES@.subrange(start as int, start + k));
    }
    row
}

/// The number of a wall style, which is also its row in `WALL_STYLES`.
pub open spec fn spec_style_index(style: MazeStyle) -> int {
    match style {
        MazeStyle::Mini => 0,
        MazeStyle::Sharp => 1,
        MazeStyle::Round => 2,
        MazeStyle::Doubles => 3,
        MazeStyle::Bold => 4,
        MazeStyle::Contrast => 5,
        MazeStyle::Half => 6,
        MazeStyle::Spikes => 7,
    }
}

/// A style's number is its place in the declaration of `MazeStyle`, so
/// each style draws with its own row of `WALL_STYLES`: the mini row first,
/// then sharp, round, double, bold, contrast, half and spiked walls.
pub proof fn lemma_style_rows()
    ensures
        spec_style_index(MazeStyle::Mini) == 0,
        spec_style_index(MazeStyle::Sharp) == 1,
        spec_style_index(MazeStyle::Round) == 2,
        spec_style_index(MazeStyle::Doubles) == 3,
        spec_style_index(MazeStyle::Bold) == 4,
        spec_style_index(MazeStyle::Contrast) == 5,
        spec_style_index(MazeStyle::Half) == 6,
        spec_style_index(MazeStyle::Spikes) == 7,
{
}

/// Each style draws with its own row of `WALL_STYLES`: a lone post and the
/// corner of a north and an east wall are, in the order of `MazeStyle`,
/// half blocks, sharp, round, double, bold, solid, lower half and spiked.
pub proof fn lemma_style_corners()
    ensures
        WALL_STYLES@[spec_style_index(MazeStyle::Mini) * 16] == '▀',
        WALL_STYLES@[spec_style_index(MazeStyle::Mini) * 16 + 3] == '▀',
        WALL_STYLES@[spec_style_index(MazeStyle::Sharp) * 16] == '■',
        WALL_STYLES@[spec_style_index(MazeStyle::Sharp) * 16 + 3] == '└',
        WALL_STYLES@[spec_style_index(MazeStyle::Round) * 16] == '●',
        WALL_STYLES@[spec_style_index(MazeStyle::Round) * 16 + 3] == '╰',
        WALL_STYLES@[spec_style_index(MazeStyle::Doubles) * 16] == '◫',
        WALL_STYLES@[spec_style_index(MazeStyle::Doubles) * 16 + 3] == '╚',
        WALL_STYLES@[spec_style_index(MazeStyle::Bold) * 16] == '■',
        WALL_STYLES@[spec_style_index(MazeStyle::Bold) * 16 + 3] == '┗',
        WALL_STYLES@[spec_style_index(MazeStyle::Contrast) * 16] == '█',
        WALL_STYLES@[spec_style_index(MazeStyle::Contrast) * 16 + 3] == '█',
        WALL_STYLES@[spec_style_index(MazeStyle::Half) * 16] == '▄',
        WALL_STYLES@[spec_style_index(MazeStyle::Half) * 16 + 3] == '█',
        WALL_STYLES@[spec_style_index(MazeStyle::Spikes) * 16] == '✸',
        WALL_STYLES@[spec_style_index(MazeStyle::Spikes) * 16 + 3] == '╊',
{
}

pub fn style_number(style: MazeStyle) -> (n: usize)
    ensures
        n == spec_style_index(style),
        style == MazeStyle::Mini ==> n == 0,
        style == MazeStyle::Sharp ==> n == 1,
        style == MazeStyle::Round ==> n == 2,
        style == MazeStyle::Doubles ==> n == 3,
        style == MazeStyle::Bold ==> n == 4,
        style == MazeStyle::Contrast ==> n == 5,
        style == MazeStyle::Half ==> n == 6,
        style == MazeStyle::Spikes ==> n == 7,
{
    match style {
        MazeStyle::Mini => 0,
        MazeStyle::Sharp => 1,
        MazeStyle::Round => 2,
        MazeStyle::Doubles => 3,
        MazeStyle::Bold => 4,
        MazeStyle::Contrast => 5,
        MazeStyle::Half => 6,
        MazeStyle::Spikes => 7,
    }
}

/// Row-major position of a cell in a buffer with `cols` columns.
pub open spec fn cell_index(row: int, col: int, cols: int) -> int {
    row * cols + col
}

pub proof fn lemma_cell_index_bounds(row: int, col: int, rows: int, cols: int)
    requires
        0 <= row < rows,
        0 <= col < cols,
    ensures
        0 <= cell_index(row, col, cols) < rows * cols,
        cell_index(row, col, cols) <= rows * cols - cols + col,
{
    assert(0 <= row * cols) by (nonlinear_arith)
        requires
            0 <= row,
            0 <= col < cols,
    ;
    assert(row * cols <= (rows - 1) * cols) by (nonlinear_arith)
        requires
            0 <= row < rows,
            0 <= col < cols,
    ;
    assert((rows - 1) * cols == rows * cols - cols) by (nonlinear_arith);
}

/// Distinct cells of a grid have distinct positions in its buffer.
pub proof fn lemma_cell_index_injective(r1: int, c1: int, r2: int, c2: int, cols: int)
    requires
        0 <= c1 < cols,
        0 <= c2 < cols,
        r1 != r2 || c1 != c2,
    ensures
        cell_index(r1, c1, cols) != cell_index(r2, c2, cols),
{
    if r1 < r2 {
        assert(r1 * cols + cols <= r2 * cols) by (nonlinear_arith)
            requires
                r1 < r2,
                0 < cols,
        ;
    } else if r2 < r1 {
        assert(r2 * cols + cols <= r1 * cols) by (nonlinear_arith)
            requires
                r2 < r1,
                0 < cols,
        ;
    }
}

impl Blueprint {
    /// The buffer holds exactly one square per cell and every position fits an `i32`.
    pub open spec fn wf(&self) -> bool {
        &&& 1 <= self.rows
        &&& 1 <= self.cols
        &&& self.rows * self.cols <= i32::MAX
        &&& self.buf@.len() == self.rows * self.cols
        &&& self.wall_style_index < 8
    }

    pub open spec fn in_bounds(&self, row: int, col: int) -> bool {
        0 <= row < self.rows && 0 <= col < self.cols
    }

    pub open spec fn index_of(&self, row: int, col: int) -> int {
        cell_index(row, col, self.cols as int)
    }

    pub open spec fn square(&self, row: int, col: int) -> Square {
        self.buf@[self.index_of(row, col)]
    }

    /// The same grid with one square replaced.
    pub open spec fn with_square(&self, row: int, col: int, s: Square) -> Seq<Square> {
        self.buf@.update(self.index_of(row, col), s)
    }

    pub proof fn lemma_index(&self, row: int, col: int)
        requires
            self.wf(),
            self.in_bounds(row, col),
        ensures
            0 <= self.index_of(row, col) < self.buf@.len(),
            self.index_of(row, col) < i32::MAX,
    {
        lemma_cell_index_bounds(row, col, self.rows as int, self.cols as int);
    }

    fn position(&self, row: i32, col: i32) -> (i: usize)
        requires
            self.wf(),
            self.in_bounds(row as int, col as int),
        ensures
            i == self.index_of(row as int, col as int),
            i < self.buf@.len(),
    {
        proof { self.lemma_index(row as int, col as int); }
        (row * self.cols + col) as usize
    }

    pub fn get(&self, row: i32, col: i32) -> (s: Square)
        requires
            self.wf(),
            self.in_bounds(row as int, col as int),
        ensures
            s == self.square(row as int, col as int),
    {
        let i = self.position(row, col);
        self.buf[i]
    }

    pub fn get_mut(&mut self, row: i32, col: i32) -> (s: &mut Square)
        requires
            old(self).wf(),
            old(self).in_bounds(row as int, col as int),
        ensures
            *s == old(self).square(row as int, col as int),
            final(self).buf@ == old(self).with_square(row as int, col as int, *final(s)),
            final(self).buf@.len() == old(self).buf@.len(),
            final(self).rows == old(self).rows,
            final(self).cols == old(self).cols,
            final(self).offset == old(self).offset,
            final(self).wall_style_index == old(self).wall_style_index,
    {
        let i = self.position(row, col);
        &mut self.buf[i]
    }

    pub fn wall_char(&self, square: Square) -> (c: char)
        requires
            self.wall_style_index < 8,
        ensures
            c == WALL_STYLES@[self.wall_style_index * 16 + wall_bits(square)],
    {
        wall_char(self.wall_style_index, square)
    }

    pub fn wall_row(&self) -> (row: Vec<char>)
        requires
            self.wall_style_index < 8,
        ensures
            row@ == WALL_STYLES@.subrange(
                self.wall_style_index * 16,
                self.wall_style_index * 16 + 16,
            ),
    {
        wall_row(self.wall_style_index)
    }

    pub fn wall_at(&self, row: i32, col: i32) -> (b: bool)
        requires
            self.wf(),
            self.in_bounds(row as int, col as int),
        ensures
            b == spec_is_wall(self.square(row as int, col as int)),
    {
        is_wall(self.get(row, col))
    }

    pub fn path_at(&self, row: i32, col: i32) -> (b: bool)
        requires
            self.wf(),
            self.in_bounds(row as int, col as int),
        ensures
            b == !spec_is_wall(self.square(row as int, col as int)),
    {
        is_path(self.get(row, col))
    }

    pub fn is_mini(&self) -> (b: bool)
        ensures
            b == (self.wall_style_index == 0),
    {
        self.wall_style_index == 0
    }
}


/// Where the cursor of `steps` moves on a step forward: to the start of the
/// next frame, or nowhere when the current frame is the last one.
pub open spec fn spec_next_index(steps: Seq<Delta>, i: int) -> int {
    if steps.len() == 0 || i + steps[i].burst >= steps.len() {
        i
    } else {
        i + steps[i].burst
    }
}

/// Where the cursor of `steps` moves on a step back: to the start of the
/// previous frame, whose length the delta just before the cursor records.
pub open spec fn spec_prev_index(steps: Seq<Delta>, i: int) -> int {
    if steps.len() == 0 || i == 0 || steps[i - 1].burst > i {
        i
    } else {
        i - steps[i - 1].burst
    }
}

/// The deltas of the frame that starts at `i`.
pub open spec fn spec_frame(steps: Seq<Delta>, i: int) -> Seq<Delta> {
    steps.subrange(i, i + steps[i].burst)
}

/// A frame whose first and last delta both record its length.
pub open spec fn is_burst(steps: Seq<Delta>) -> bool {
    steps.len() == 0 || (steps[0].burst == steps.len() && steps.last().burst == steps.len())
}

/// `steps` from position `p` on splits into whole frames, each recorded by
/// its length at both ends.
pub open spec fn frames_from(steps: Seq<Delta>, p: int) -> bool
    decreases steps.len() - p,
{
    if p < 0 || p > steps.len() {
        false
    } else if p == steps.len() {
        true
    } else {
        let b = steps[p].burst as int;
        &&& 1 <= b
        &&& p + b <= steps.len()
        &&& steps[p + b - 1].burst == b
        &&& frames_from(steps, p + b)
    }
}

/// Stepping forward from a frame whose last delta records its length, then
/// stepping back, returns to where the step started.
pub proof fn lemma_next_then_prev(steps: Seq<Delta>, i: int)
    requires
        0 <= i < steps.len(),
        i + steps[i].burst < steps.len(),
        steps[i + steps[i].burst - 1].burst == steps[i].burst,
    ensures
        spec_prev_index(steps, spec_next_index(steps, i)) == i,
{
}

/// Stepping back to a frame whose first delta records its length, then
/// stepping forward, returns to where the step started.
pub proof fn lemma_prev_then_next(steps: Seq<Delta>, i: int)
    requires
        0 < i < steps.len(),
        1 <= steps[i - 1].burst <= i,
        steps[i - steps[i - 1].burst].burst == steps[i - 1].burst,
    ensures
        spec_next_index(steps, spec_prev_index(steps, i)) == i,
{
}

/// On a tape made of whole frames, a step forward from a frame boundary lands
/// on a frame boundary, and stepping back from there returns.
pub proof fn lemma_frames_step(steps: Seq<Delta>, p: int)
    requires
        frames_from(steps, p),
        p < steps.len(),
    ensures
        frames_from(steps, spec_next_index(steps, p)),
        spec_next_index(steps, p) != p ==> spec_prev_index(steps, spec_next_index(steps, p))
            == p,
{
}

/// Appending a whole frame to a tape made of whole frames keeps it so.
pub proof fn lemma_frames_append(steps: Seq<Delta>, frame: Seq<Delta>, p: int)
    requires
        frames_from(steps, p),
        frame.len() > 0,
        is_burst(frame),
    ensures
        frames_from(steps + frame, p),
    decreases steps.len() - p,
{
    let all = steps + frame;
    if p == steps.len() {
        let b = frame.len() as int;
        assert(all[p] == frame[0]);
        assert(all[p + b - 1] == frame[b - 1]);
        assert(frames_from(all, p + b));
    } else {
        let b = steps[p].burst as int;
        lemma_frames_append(steps, frame, p + b);
        assert(all[p] == steps[p]);
        assert(all[p + b - 1] == steps[p + b - 1]);
    }
}

impl Tape {
    pub closed spec fn deltas(&self) -> Seq<Delta> {
        self.steps@
    }

    pub closed spec fn pos(&self) -> int {
        self.i as int
    }

    /// The cursor stands on a delta, or at zero on an empty tape.
    pub open spec fn wf(&self) -> bool {
        if self.deltas().len() == 0 {
            self.pos() == 0
        } else {
            0 <= self.pos() < self.deltas().len()
        }
    }

    /// The whole tape splits into frames recorded at both ends.
    pub open spec fn framed(&self) -> bool {
        frames_from(self.deltas(), 0)
    }

    /// The frame under the cursor lies inside the tape.
    pub open spec fn frame_fits(&self) -> bool {
        self.deltas().len() > 0 ==> self.pos() + self.deltas()[self.pos()].burst
            <= self.deltas().len()
    }

    /// Moving forward from the cursor does not overflow.
    pub open spec fn step_fits(&self) -> bool {
        self.deltas().len() > 0 ==> self.pos() + self.deltas()[self.pos()].burst <= usize::MAX
    }

    pub open spec fn next_index(&self) -> int {
        spec_next_index(self.deltas(), self.pos())
    }

    pub open spec fn prev_index(&self) -> int {
        spec_prev_index(self.deltas(), self.pos())
    }

    /// A frame follows the one under the cursor.
    pub open spec fn can_advance(&self) -> bool {
        self.deltas().len() > 0 && self.pos() + self.deltas()[self.pos()].burst
            < self.deltas().len()
    }

    /// The delta before the cursor records a frame that fits before it.
    pub open spec fn can_retreat(&self) -> bool {
        self.pos() > 0 && self.deltas()[self.pos() - 1].burst <= self.pos()
    }

    pub fn new() -> (t: Tape)
        ensures
            t.deltas() == Seq::<Delta>::empty(),
            t.pos() == 0,
            t.wf(),
    {
        Tape { steps: Vec::new(), i: 0 }
    }

    pub fn index(&self, index: usize) -> (d: &Delta)
        requires
            index < self.deltas().len(),
        ensures
            *d == self.deltas()[index as int],
    {
        &self.steps[index]
    }

    pub fn index_mut(&mut self, index: usize) -> (d: &mut Delta)
        requires
            index < old(self).deltas().len(),
        ensures
            *d == old(self).deltas()[index as int],
            final(self).deltas() == old(self).deltas().update(index as int, *final(d)),
            final(self).pos() == old(self).pos(),
    {
        &mut self.steps[index]
    }

    pub fn slice(&self, start: usize, end: usize) -> (s: &[Delta])
        requires
            start <= end <= self.deltas().len(),
        ensures
            s@ == self.deltas().subrange(start as int, end as int),
    {
        &self.steps[start..end]
    }

    pub fn slice_mut(&mut self, start: usize, end: usize) -> (s: &mut [Delta])
        requires
            start <= end <= old(self).deltas().len(),
        ensures
            s@ == old(self).deltas().subrange(start as int, end as int),
            final(self).deltas() == old(self).deltas().subrange(0, start as int) + final(s)@
                + old(self).deltas().subrange(end as int, old(self).deltas().len() as int),
            final(self).pos() == old(self).pos(),
    {
        let all = self.steps.as_mut_slice();
        let (_, rest) = all.split_at_mut(start);
        let (mid, _) = rest.split_at_mut(end - start);
        mid
    }

    pub fn is_empty(&self) -> (b: bool)
        ensures
            b == (self.deltas().len() == 0),
    {
        self.steps.len() == 0
    }

    pub fn len(&self) -> (n: usize)
        ensures
            n == self.deltas().len(),
    {
        self.steps.len()
    }

    /// Moves the cursor to the last delta; an empty tape has none.
    pub fn end(&mut self)
        requires
            old(self).deltas().len() > 0,
        ensures
            final(self).deltas() == old(self).deltas(),
            final(self).pos() == old(self).deltas().len() - 1,
            final(self).wf(),
    {
        self.i = self.steps.len() - 1;
    }

    /// Moves the cursor to the first delta; an empty tape has none.
    pub fn start(&mut self)
        requires
            old(self).deltas().len() > 0,
        ensures
            final(self).deltas() == old(self).deltas(),
            final(self).pos() == 0,
            final(self).wf(),
    {
        self.i = 0;
    }

    /// The frame under the cursor, or `None` on an empty tape.
    pub fn cur_step(&self) -> (r: Option<&[Delta]>)
        requires
            self.wf(),
            self.frame_fits(),
        ensures
            r is None <==> self.deltas().len() == 0,
            r matches Some(s) ==> s@ == spec_frame(self.deltas(), self.pos()),
    {
        if self.steps.len() == 0 {
            return None;
        }
        Some(&self.steps[self.i..self.i + self.steps[self.i].burst])
    }

    fn peek_next_index(&self) -> (n: usize)
        requires
            self.wf(),
            self.step_fits(),
        ensures
            n == self.next_index(),
    {
        if self.steps.len() == 0 || self.i + self.steps[self.i].burst >= self.steps.len() {
            return self.i;
        }
        self.i + self.steps[self.i].burst
    }

    fn peek_prev_index(&self) -> (n: usize)
        requires
            self.wf(),
        ensures
            n == self.prev_index(),
    {
        if self.steps.len() == 0 || self.i == 0 || self.steps[self.i - 1].burst > self.i {
            return self.i;
        }
        self.i - self.steps[self.i - 1].burst
    }

    /// The frame under the cursor, unless it is the last frame of the tape.
    pub fn peek_next_delta(&self) -> (r: Option<&[Delta]>)
        requires
            self.wf(),
            self.step_fits(),
            self.deltas().len() > 0,
        ensures
            r is None <==> self.pos() + self.deltas()[self.pos()].burst >= self.deltas().len(),
            r matches Some(s) ==> s@ == spec_frame(self.deltas(), self.pos()),
    {
        if self.i + self.steps[self.i].burst >= self.steps.len() {
            return None;
        }
        Some(&self.steps[self.i..self.i + self.steps[self.i].burst])
    }

    /// The frame that ends just before the cursor, if there is one.
    pub fn peek_prev_delta(&self) -> (r: Option<&[Delta]>)
        requires
            self.wf(),
        ensures
            r is None <==> (self.pos() == 0 || self.deltas()[self.pos() - 1].burst > self.pos()),
            r matches Some(s) ==> s@ == self.deltas().subrange(
                self.prev_index(),
                self.pos(),
            ),
    {
        if self.i == 0 || self.steps[self.i - 1].burst > self.i {
            return None;
        }
        Some(&self.steps[self.i - self.steps[self.i - 1].burst..self.i])
    }

    /// Steps forward one frame and returns the new frame; `None`, with the
    /// cursor unchanged, at the last frame.
    pub fn next_delta(&mut self) -> (r: Option<&[Delta]>)
        requires
            old(self).wf(),
            old(self).step_fits(),
            old(self).can_advance() ==> old(self).next_index()
                + old(self).deltas()[old(self).next_index()].burst <= old(self).deltas().len(),
        ensures
            final(self).deltas() == old(self).deltas(),
            final(self).pos() == old(self).next_index(),
            final(self).wf(),
            r is None <==> !old(self).can_advance(),
            r matches Some(s) ==> s@ == spec_frame(final(self).deltas(), final(self).pos()),
    {
        if self.steps.len() == 0 || self.i + self.steps[self.i].burst >= self.steps.len() {
            return None;
        }
        self.i = self.i + self.steps[self.i].burst;
        Some(&self.steps[self.i..self.i + self.steps[self.i].burst])
    }

    /// Steps back one frame and returns the new frame; `None`, with the
    /// cursor unchanged, where there is no frame before the cursor.
    pub fn prev_delta(&mut self) -> (r: Option<&[Delta]>)
        requires
            old(self).wf(),
            old(self).can_retreat() ==> old(self).prev_index()
                + old(self).deltas()[old(self).prev_index()].burst <= old(self).deltas().len(),
        ensures
            final(self).deltas() == old(self).deltas(),
            final(self).pos() == old(self).prev_index(),
            final(self).wf(),
            r is None <==> !old(self).can_retreat(),
            r matches Some(s) ==> s@ == spec_frame(final(self).deltas(), final(self).pos()),
    {
        if self.i == 0 || self.steps[self.i - 1].burst > self.i {
            return None;
        }
        let len = self.steps.len();
        self.i = self.i - self.steps[self.i - 1].burst;
        Some(&self.steps[self.i..self.i + self.steps[self.i].burst])
    }

    /// Appends a whole frame; its first and last delta must record its length.
    pub fn push_burst(&mut self, steps: &[Delta])
        requires
            is_burst(steps@),
            old(self).deltas().len() + steps@.len() <= usize::MAX,
        ensures
            final(self).deltas() == old(self).deltas() + steps@,
            final(self).pos() == old(self).pos(),
            old(self).framed() ==> final(self).framed(),
    {
        let mut k: usize = 0;
        while k < steps.len()
            invariant
                k <= steps@.len(),
                self.steps@ == old(self).steps@ + steps@.subrange(0, k as int),
                self.i == old(self).i,
            decreases steps@.len() - k,
        {
            self.steps.push(steps[k]);
            k = k + 1;
            assert(self.steps@ =~= old(self).steps@ + steps@.subrange(0, k as int));
        }
        assert(steps@.subrange(0, steps@.len() as int) =~= steps@);
        proof {
            if old(self).framed() && steps@.len() > 0 {
                lemma_frames_append(old(self).deltas(), steps@, 0);
            }
            if steps@.len() == 0 {
                assert(self.steps@ =~= old(self).steps@);
            }
        }
    }

    pub fn push(&mut self, s: Delta)
        ensures
            final(self).deltas() == old(self).deltas().push(s),
            final(self).pos() == old(self).pos(),
            old(self).framed() && s.burst == 1 ==> final(self).framed(),
    {
        self.steps.push(s);
        proof {
            if old(self).framed() && s.burst == 1 {
                lemma_frames_append(old(self).deltas(), seq![s], 0);
                assert(old(self).deltas() + seq![s] =~= old(self).deltas().push(s));
            }
        }
    }

    /// The cursor stands on the last frame.
    pub fn at_end(&self) -> (b: bool)
        requires
            self.wf(),
            self.step_fits(),
        ensures
            b == (self.next_index() == self.pos()),
    {
        self.i == self.peek_next_index()
    }

    /// No frame lies before the cursor.
    pub fn at_start(&self) -> (b: bool)
        requires
            self.wf(),
        ensures
            b == (self.prev_index() == self.pos()),
    {
        self.i == self.peek_prev_index()
    }

    /// Moves the cursor back one frame; says whether it moved.
    pub fn set_prev(&mut self) -> (moved: bool)
        requires
            old(self).wf(),
        ensures
            final(self).deltas() == old(self).deltas(),
            final(self).pos() == old(self).prev_index(),
            final(self).wf(),
            moved == (old(self).prev_index() != old(self).pos()),
    {
        let prev = self.i;
        self.i = self.peek_prev_index();
        self.i != prev
    }

    /// Moves the cursor forward one frame; says whether it moved.
    pub fn set_next(&mut self) -> (moved: bool)
        requires
            old(self).wf(),
            old(self).step_fits(),
        ensures
            final(self).deltas() == old(self).deltas(),
            final(self).pos() == old(self).next_index(),
            final(self).wf(),
            moved == (old(self).next_index() != old(self).pos()),
    {
        let prev = self.i;
        self.i = self.peek_next_index();
        self.i != prev
    }
}


/// The buffer after writing the `after` value of each delta, in order.
#[verifier::opaque]
pub open spec fn replay(s: Seq<Square>, cols: int, ds: Seq<Delta>) -> Seq<Square>
    decreases ds.len(),
{
    if ds.len() == 0 {
        s
    } else {
        let d = ds.last();
        let prev = replay(s, cols, ds.drop_last());
        let k = cell_index(d.id.row as int, d.id.col as int, cols);
        if 0 <= k < prev.len() {
            prev.update(k, d.after)
        } else {
            prev
        }
    }
}

/// The buffer after restoring the `before` value of each delta, last first.
#[verifier::opaque]
pub open spec fn rewind(s: Seq<Square>, cols: int, ds: Seq<Delta>) -> Seq<Square>
    decreases ds.len(),
{
    if ds.len() == 0 {
        s
    } else {
        let d = ds.last();
        let k = cell_index(d.id.row as int, d.id.col as int, cols);
        if 0 <= k < s.len() {
            rewind(s.update(k, d.before), cols, ds.drop_last())
        } else {
            rewind(s, cols, ds.drop_last())
        }
    }
}

/// Each delta names a square of the buffer and records, as `before`, what
/// that square held when the delta was made.
#[verifier::opaque]
pub open spec fn consistent(s: Seq<Square>, cols: int, ds: Seq<Delta>) -> bool
    decreases ds.len(),
{
    if ds.len() == 0 {
        true
    } else {
        let d = ds.last();
        let k = cell_index(d.id.row as int, d.id.col as int, cols);
        &&& consistent(s, cols, ds.drop_last())
        &&& 0 <= k < s.len()
        &&& replay(s, cols, ds.drop_last())[k] == d.before
    }
}

pub proof fn lemma_replay_len(s: Seq<Square>, cols: int, ds: Seq<Delta>)
    ensures
        replay(s, cols, ds).len() == s.len(),
    decreases ds.len(),
{
    reveal(replay);
    if ds.len() > 0 {
        lemma_replay_len(s, cols, ds.drop_last());
    }
}

/// Replaying a history and then rewinding it gives back the buffer it started
/// from, when every delta recorded what it changed.
pub proof fn lemma_rewind_replay(s: Seq<Square>, cols: int, ds: Seq<Delta>)
    requires
        consistent(s, cols, ds),
    ensures
        rewind(replay(s, cols, ds), cols, ds) == s,
    decreases ds.len(),
{
    reveal(replay);
    reveal(rewind);
    reveal(consistent);
    if ds.len() > 0 {
        let d = ds.last();
        let k = cell_index(d.id.row as int, d.id.col as int, cols);
        let prev = replay(s, cols, ds.drop_last());
        lemma_replay_len(s, cols, ds.drop_last());
        assert(prev.update(k, d.after).update(k, d.before) =~= prev);
        lemma_rewind_replay(s, cols, ds.drop_last());
    }
}

/// Replaying two histories one after the other is replaying them joined.
pub proof fn lemma_replay_append(s: Seq<Square>, cols: int, a: Seq<Delta>, b: Seq<Delta>)
    ensures
        replay(s, cols, a + b) == replay(replay(s, cols, a), cols, b),
        consistent(s, cols, a) && consistent(replay(s, cols, a), cols, b) ==> consistent(s, cols, a + b),
    decreases b.len(),
{
    reveal(replay);
    reveal(consistent);
    if b.len() == 0 {
        assert(a + b =~= a);
    } else {
        assert((a + b).drop_last() =~= a + b.drop_last());
        assert((a + b).last() == b.last());
        lemma_replay_append(s, cols, a, b.drop_last());
        lemma_replay_len(s, cols, a);
    }
}

/// An empty history changes nothing and is consistent with anything.
pub proof fn lemma_replay_empty(s: Seq<Square>, cols: int)
    ensures
        replay(s, cols, Seq::<Delta>::empty()) == s,
        consistent(s, cols, Seq::<Delta>::empty()),
{
    reveal(replay);
    reveal(consistent);
}

/// A replayed delta appended at the end.
pub proof fn lemma_replay_push(s: Seq<Square>, cols: int, ds: Seq<Delta>, d: Delta)
    ensures
        0 <= cell_index(d.id.row as int, d.id.col as int, cols) < s.len() ==> replay(
            s,
            cols,
            ds.push(d),
        ) == replay(s, cols, ds).update(cell_index(d.id.row as int, d.id.col as int, cols), d.after),
        consistent(s, cols, ds.push(d)) == (consistent(s, cols, ds) && 0 <= cell_index(
            d.id.row as int,
            d.id.col as int,
            cols,
        ) < s.len() && replay(s, cols, ds)[cell_index(d.id.row as int, d.id.col as int, cols)]
            == d.before),
{
    reveal(replay);
    reveal(consistent);
    assert(ds.push(d).drop_last() =~= ds);
    lemma_replay_len(s, cols, ds);
}

/// Two histories that change the same squares in the same way, whatever
/// frame lengths they record.
pub open spec fn same_changes(a: Seq<Delta>, b: Seq<Delta>) -> bool {
    &&& a.len() == b.len()
    &&& forall|i: int|
        0 <= i < a.len() ==> (#[trigger] a[i]).id == b[i].id && a[i].before == b[i].before
            && a[i].after == b[i].after
}

/// Replay and consistency do not look at the frame lengths.
pub proof fn lemma_replay_same_changes(s: Seq<Square>, cols: int, a: Seq<Delta>, b: Seq<Delta>)
    requires
        same_changes(a, b),
    ensures
        replay(s, cols, a) == replay(s, cols, b),
        consistent(s, cols, a) == consistent(s, cols, b),
        loosely_consistent(s, cols, a) == loosely_consistent(s, cols, b),
    decreases a.len(),
{
    reveal(replay);
    reveal(consistent);
    reveal(loosely_consistent);
    if a.len() > 0 {
        assert(same_changes(a.drop_last(), b.drop_last()));
        lemma_replay_same_changes(s, cols, a.drop_last(), b.drop_last());
        assert(a.last().id == b.last().id);
    }
}

/// Two buffers that agree on every bit but the builder bit.
pub open spec fn same_but_builder(a: Seq<Square>, b: Seq<Square>) -> bool {
    &&& a.len() == b.len()
    &&& forall|k: int| 0 <= k < a.len() ==> #[trigger] (a[k] & !BUILDER_BIT) == b[k] & !BUILDER_BIT
}

/// Like `consistent`, but each `before` need only agree with the replayed
/// square on the bits other than the builder bit.
#[verifier::opaque]
pub open spec fn loosely_consistent(s: Seq<Square>, cols: int, ds: Seq<Delta>) -> bool
    decreases ds.len(),
{
    if ds.len() == 0 {
        true
    } else {
        let d = ds.last();
        let k = cell_index(d.id.row as int, d.id.col as int, cols);
        &&& loosely_consistent(s, cols, ds.drop_last())
        &&& 0 <= k < s.len()
        &&& replay(s, cols, ds.drop_last())[k] & !BUILDER_BIT == d.before & !BUILDER_BIT
    }
}

pub proof fn lemma_consistent_loosely(s: Seq<Square>, cols: int, ds: Seq<Delta>)
    requires
        consistent(s, cols, ds),
    ensures
        loosely_consistent(s, cols, ds),
    decreases ds.len(),
{
    reveal(consistent);
    reveal(loosely_consistent);
    if ds.len() > 0 {
        lemma_consistent_loosely(s, cols, ds.drop_last());
    }
}

/// Replaying from buffers that agree but for builder bits gives buffers that
/// agree but for builder bits, and the same deltas fit both.
pub proof fn lemma_replay_but_builder(t: Seq<Square>, u: Seq<Square>, cols: int, ds: Seq<Delta>)
    requires
        same_but_builder(t, u),
    ensures
        same_but_builder(replay(t, cols, ds), replay(u, cols, ds)),
        loosely_consistent(t, cols, ds) == loosely_consistent(u, cols, ds),
    decreases ds.len(),
{
    reveal(replay);
    reveal(loosely_consistent);
    if ds.len() > 0 {
        lemma_replay_but_builder(t, u, cols, ds.drop_last());
        lemma_replay_len(t, cols, ds.drop_last());
        lemma_replay_len(u, cols, ds.drop_last());
    }
}

proof fn lemma_loosely_append(s: Seq<Square>, cols: int, a: Seq<Delta>, b: Seq<Delta>)
    requires
        loosely_consistent(s, cols, a),
        loosely_consistent(replay(s, cols, a), cols, b),
    ensures
        loosely_consistent(s, cols, a + b),
    decreases b.len(),
{
    reveal(loosely_consistent);
    if b.len() == 0 {
        assert(a + b =~= a);
    } else {
        assert((a + b).drop_last() =~= a + b.drop_last());
        assert((a + b).last() == b.last());
        lemma_loosely_append(s, cols, a, b.drop_last());
        lemma_replay_append(s, cols, a, b.drop_last());
        lemma_replay_len(s, cols, a);
    }
}

/// Rewinding a replayed history gives back, but for builder bits, the buffer
/// it started from.
pub proof fn lemma_rewind_replay_loosely(s: Seq<Square>, cols: int, ds: Seq<Delta>)
    requires
        loosely_consistent(s, cols, ds),
    ensures
        same_but_builder(rewind(replay(s, cols, ds), cols, ds), s),
    decreases ds.len(),
{
    reveal(replay);
    reveal(rewind);
    reveal(loosely_consistent);
    if ds.len() > 0 {
        let d = ds.last();
        let k = cell_index(d.id.row as int, d.id.col as int, cols);
        let prev = replay(s, cols, ds.drop_last());
        lemma_replay_len(s, cols, ds.drop_last());
        let back = prev.update(k, d.after).update(k, d.before);
        assert(same_but_builder(back, prev));
        lemma_rewind_but_builder(back, prev, cols, ds.drop_last());
        lemma_rewind_replay_loosely(s, cols, ds.drop_last());
    }
}

/// Rewinding from buffers that agree but for builder bits gives buffers that
/// agree but for builder bits.
pub proof fn lemma_rewind_but_builder(t: Seq<Square>, u: Seq<Square>, cols: int, ds: Seq<Delta>)
    requires
        same_but_builder(t, u),
    ensures
        same_but_builder(rewind(t, cols, ds), rewind(u, cols, ds)),
    decreases ds.len(),
{
    reveal(rewind);
    if ds.len() > 0 {
        let d = ds.last();
        let k = cell_index(d.id.row as int, d.id.col as int, cols);
        if 0 <= k < t.len() {
            lemma_rewind_but_builder(t.update(k, d.before), u.update(k, d.before), cols, ds.drop_last());
        } else {
            lemma_rewind_but_builder(t, u, cols, ds.drop_last());
        }
    }
}

/// `new` extends the build history of `old` with deltas that record, from the
/// squares of `old`, the squares of `new` on every bit but the builder bit;
/// the cursor stays, and a history made of whole frames stays so.
pub open spec fn recorded(old: &Maze, new: &Maze) -> bool {
    let d0 = old.build_history.deltas();
    let d1 = new.build_history.deltas();
    let added = d1.subrange(d0.len() as int, d1.len() as int);
    &&& d0.len() <= d1.len()
    &&& d1.subrange(0, d0.len() as int) == d0
    &&& loosely_consistent(old.squares(), old.cols_spec(), added)
    &&& same_but_builder(replay(old.squares(), old.cols_spec(), added), new.squares())
    &&& new.build_history.pos() == old.build_history.pos()
    &&& old.build_history.framed() ==> new.build_history.framed()
    &&& new.build_history.wf()
    &&& new.maze.wf()
    &&& new.same_shape(old)
    &&& new.solve_history == old.solve_history
}

/// A step whose deltas record exactly what it changed is recorded.
pub proof fn lemma_recorded_exactly(old: &Maze, new: &Maze)
    requires
        ({
            let d0 = old.build_history.deltas();
            let d1 = new.build_history.deltas();
            let added = d1.subrange(d0.len() as int, d1.len() as int);
            &&& d0.len() <= d1.len()
            &&& d1.subrange(0, d0.len() as int) == d0
            &&& consistent(old.squares(), old.cols_spec(), added)
            &&& replay(old.squares(), old.cols_spec(), added) == new.squares()
            &&& new.build_history.pos() == old.build_history.pos()
            &&& old.build_history.framed() ==> new.build_history.framed()
            &&& new.build_history.wf()
            &&& new.maze.wf()
            &&& new.same_shape(old)
            &&& new.solve_history == old.solve_history
        }),
    ensures
        recorded(old, new),
{
    let d0 = old.build_history.deltas();
    let d1 = new.build_history.deltas();
    let added = d1.subrange(d0.len() as int, d1.len() as int);
    lemma_consistent_loosely(old.squares(), old.cols_spec(), added);
}

/// Setting the builder bit of a square without recording it keeps a step
/// recorded.
pub proof fn lemma_recorded_builder_bit(old: &Maze, mid: &Maze, new: &Maze, k: int)
    requires
        recorded(old, mid),
        0 <= k < mid.squares().len(),
        new.squares() == mid.squares().update(k, mid.squares()[k] | BUILDER_BIT),
        new.build_history == mid.build_history,
        new.maze.wf(),
        new.same_shape(mid),
        new.solve_history == mid.solve_history,
    ensures
        recorded(old, new),
{
    let x = mid.squares()[k];
    assert((x | BUILDER_BIT) & !BUILDER_BIT == x & !BUILDER_BIT) by (bit_vector);
    let d0 = old.build_history.deltas();
    let d1 = new.build_history.deltas();
    let added = d1.subrange(d0.len() as int, d1.len() as int);
    let r = replay(old.squares(), old.cols_spec(), added);
    assert forall|j: int| 0 <= j < r.len() implies #[trigger] (r[j] & !BUILDER_BIT) == new.squares()[j] & !BUILDER_BIT by {
        if j == k {
        } else {
        }
    }
}

/// Recording is transitive: two recorded steps make one.
pub proof fn lemma_recorded_trans(a: &Maze, b: &Maze, c: &Maze)
    requires
        recorded(a, b),
        recorded(b, c),
    ensures
        recorded(a, c),
{
    let da = a.build_history.deltas();
    let db = b.build_history.deltas();
    let dc = c.build_history.deltas();
    let cols = a.cols_spec();
    let ab = db.subrange(da.len() as int, db.len() as int);
    let bc = dc.subrange(db.len() as int, dc.len() as int);
    let ac = dc.subrange(da.len() as int, dc.len() as int);
    assert(ac =~= ab + bc);
    assert(dc.subrange(0, da.len() as int) =~= db.subrange(0, da.len() as int));
    lemma_replay_append(a.squares(), cols, ab, bc);
    let mid = replay(a.squares(), cols, ab);
    lemma_replay_but_builder(mid, b.squares(), cols, bc);
    lemma_loosely_append(a.squares(), cols, ab, bc);
    let r1 = replay(mid, cols, bc);
    let r2 = replay(b.squares(), cols, bc);
    assert forall|k: int| 0 <= k < r1.len() implies #[trigger] (r1[k] & !BUILDER_BIT) == c.squares()[k] & !BUILDER_BIT by {
        assert(r1[k] & !BUILDER_BIT == r2[k] & !BUILDER_BIT);
    }
}

/// Any maze is recorded from itself by an empty step.
pub proof fn lemma_recorded_refl(m: &Maze)
    requires
        m.wf(),
    ensures
        recorded(m, m),
{
    let d = m.build_history.deltas();
    reveal(replay);
    reveal(loosely_consistent);
    assert(d.subrange(d.len() as int, d.len() as int) =~= Seq::<Delta>::empty());
    assert(d.subrange(0, d.len() as int) =~= d);
}

impl Default for Tape {
    fn default() -> (t: Tape)
        ensures
            t.deltas() == Seq::<Delta>::empty(),
            t.pos() == 0,
    {
        Tape::new()
    }
}

impl Default for MazeArgs {
    fn default() -> (args: MazeArgs)
        ensures
            args.odd_rows == DEFAULT_ROWS,
            args.odd_cols == DEFAULT_COLS,
            args.style == MazeStyle::Sharp,
            args.offset == (Offset { add_rows: 0, add_cols: 0 }),
    {
        MazeArgs {
            odd_rows: DEFAULT_ROWS,
            odd_cols: DEFAULT_COLS,
            offset: Offset { add_rows: 0, add_cols: 0 },
            style: MazeStyle::Sharp,
        }
    }
}

/// The odd number a requested dimension is rounded up to.
pub open spec fn odd_dimension(n: int) -> int {
    if n % 2 == 1 {
        n
    } else {
        n + 1
    }
}

impl Maze {
    pub open spec fn wf(&self) -> bool {
        &&& self.maze.wf()
        &&& self.build_history.wf()
        &&& self.solve_history.wf()
    }

    pub open spec fn rows_spec(&self) -> int {
        self.maze.rows as int
    }

    pub open spec fn cols_spec(&self) -> int {
        self.maze.cols as int
    }

    pub open spec fn in_bounds(&self, row: int, col: int) -> bool {
        self.maze.in_bounds(row, col)
    }

    pub open spec fn square(&self, row: int, col: int) -> Square {
        self.maze.square(row, col)
    }

    pub open spec fn squares(&self) -> Seq<Square> {
        self.maze.buf@
    }

    /// The same grid, dimensions and histories: only squares may differ.
    pub open spec fn same_shape(&self, other: &Maze) -> bool {
        &&& self.maze.rows == other.maze.rows
        &&& self.maze.cols == other.maze.cols
        &&& self.maze.offset == other.maze.offset
        &&& self.maze.wall_style_index == other.maze.wall_style_index
        &&& self.maze.buf@.len() == other.maze.buf@.len()
    }

    /// An empty maze of the requested size, each dimension rounded up to an
    /// odd number, with every square zero and both histories empty.
    pub fn new(args: MazeArgs) -> (m: Maze)
        requires
            0 <= args.odd_rows < i32::MAX,
            0 <= args.odd_cols < i32::MAX,
            odd_dimension(args.odd_rows as int) * odd_dimension(args.odd_cols as int) <= i32::MAX,
        ensures
            m.wf(),
            m.maze.rows == odd_dimension(args.odd_rows as int),
            m.maze.cols == odd_dimension(args.odd_cols as int),
            m.maze.offset == args.offset,
            m.maze.wall_style_index == spec_style_index(args.style),
            args.style == MazeStyle::Mini ==> m.maze.wall_style_index == 0,
            args.style == MazeStyle::Sharp ==> m.maze.wall_style_index == 1,
            args.style == MazeStyle::Round ==> m.maze.wall_style_index == 2,
            args.style == MazeStyle::Doubles ==> m.maze.wall_style_index == 3,
            args.style == MazeStyle::Bold ==> m.maze.wall_style_index == 4,
            args.style == MazeStyle::Contrast ==> m.maze.wall_style_index == 5,
            args.style == MazeStyle::Half ==> m.maze.wall_style_index == 6,
            args.style == MazeStyle::Spikes ==> m.maze.wall_style_index == 7,
            forall|k: int| 0 <= k < m.squares().len() ==> m.squares()[k] == 0,
            m.build_history.deltas().len() == 0,
            m.solve_history.deltas().len() == 0,
    {
        let rows = args.odd_rows + 1 - (args.odd_rows % 2);
        let cols = args.odd_cols + 1 - (args.odd_cols % 2);
        assert(1 <= rows && 1 <= cols);
        assert(rows * cols >= 1) by (nonlinear_arith)
            requires
                1 <= rows,
                1 <= cols,
        ;
        let total = (rows * cols) as usize;
        let buf: Vec<Square> = vec![0u32; total];
        Maze {
            maze: Blueprint {
                buf,
                rows,
                cols,
                offset: args.offset,
                wall_style_index: style_number(args.style),
            },
            build_history: Tape::new(),
            solve_history: Tape::new(),
        }
    }

    pub fn rows(&self) -> (r: i32)
        ensures
            r == self.maze.rows,
    {
        self.maze.rows
    }

    pub fn offset(&self) -> (o: Offset)
        ensures
            o == self.maze.offset,
    {
        self.maze.offset
    }

    pub fn cols(&self) -> (c: i32)
        ensures
            c == self.maze.cols,
    {
        self.maze.cols
    }

    pub fn wall_char(&self, square: Square) -> (c: char)
        requires
            self.maze.wall_style_index < 8,
        ensures
            c == WALL_STYLES@[self.maze.wall_style_index * 16 + wall_bits(square)],
    {
        self.maze.wall_char(square)
    }

    pub fn wall_row(&self) -> (row: Vec<char>)
        requires
            self.maze.wall_style_index < 8,
        ensures
            row@ == WALL_STYLES@.subrange(
                self.maze.wall_style_index * 16,
                self.maze.wall_style_index * 16 + 16,
            ),
    {
        self.maze.wall_row()
    }

    pub fn style_index(&self) -> (i: usize)
        ensures
            i == self.maze.wall_style_index,
    {
        self.maze.wall_style_index
    }

    pub fn is_mini(&self) -> (b: bool)
        ensures
            b == (self.maze.wall_style_index == 0),
    {
        self.maze.is_mini()
    }

    pub fn as_slice(&self) -> (s: &[Square])
        ensures
            s@ == self.squares(),
    {
        self.maze.buf.as_slice()
    }

    pub fn as_slice_mut(&mut self) -> (s: &mut [Square])
        ensures
            s@ == old(self).squares(),
            final(self).squares() == final(s)@,
            final(self).maze.rows == old(self).maze.rows,
            final(self).maze.cols == old(self).maze.cols,
            final(self).maze.offset == old(self).maze.offset,
            final(self).maze.wall_style_index == old(self).maze.wall_style_index,
            final(self).build_history == old(self).build_history,
            final(self).solve_history == old(self).solve_history,
    {
        self.maze.buf.as_mut_slice()
    }

    pub fn get_mut(&mut self, row: i32, col: i32) -> (s: &mut Square)
        requires
            old(self).wf(),
            old(self).in_bounds(row as int, col as int),
        ensures
            *s == old(self).square(row as int, col as int),
            final(self).squares() == old(self).maze.with_square(row as int, col as int, *final(s)),
            final(self).same_shape(old(self)),
            final(self).build_history == old(self).build_history,
            final(self).solve_history == old(self).solve_history,
    {
        self.maze.get_mut(row, col)
    }

    pub fn get(&self, row: i32, col: i32) -> (s: Square)
        requires
            self.wf(),
            self.in_bounds(row as int, col as int),
        ensures
            s == self.square(row as int, col as int),
    {
        self.maze.get(row, col)
    }

    pub fn wall_at(&self, row: i32, col: i32) -> (b: bool)
        requires
            self.wf(),
            self.in_bounds(row as int, col as int),
        ensures
            b == spec_is_wall(self.square(row as int, col as int)),
    {
        self.maze.wall_at(row, col)
    }

    pub fn path_at(&self, row: i32, col: i32) -> (b: bool)
        requires
            self.wf(),
            self.in_bounds(row as int, col as int),
        ensures
            b == !spec_is_wall(self.square(row as int, col as int)),
    {
        self.maze.path_at(row, col)
    }

    /// Replaces one square, leaving the rest of the maze as it was.
    pub fn set(&mut self, row: i32, col: i32, s: Square)
        requires
            old(self).wf(),
            old(self).in_bounds(row as int, col as int),
        ensures
            final(self).squares() == old(self).maze.with_square(row as int, col as int, s),
            final(self).same_shape(old(self)),
            final(self).build_history == old(self).build_history,
            final(self).solve_history == old(self).solve_history,
            final(self).wf(),
    {
        let r = self.get_mut(row, col);
        *r = s;
    }
}

} // verus!
