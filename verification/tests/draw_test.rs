use maze_tui::builders::build_ops::{FROM_EAST, FROM_NORTH, FROM_SOUTH};
use maze_tui::builders::draw as build_draw;
use maze_tui::glyph::{thread_rgb, Cell, Shade};
use maze_tui::maze::{Maze, MazeArgs, MazeStyle, Offset, Point, EAST_WALL, NORTH_WALL, PATH_BIT, WEST_WALL};
use maze_tui::solvers::draw as solve_draw;
use maze_tui::solvers::solve::{FINISH_BIT, START_BIT};

fn blank(rows: i32, cols: i32, style: MazeStyle) -> Maze {
    Maze::new(MazeArgs { odd_rows: rows, odd_cols: cols, offset: Offset { add_rows: 0, add_cols: 0 }, style })
}

fn cell(symbol: char, fg: Shade, bg: Shade, bold: bool, blink: bool) -> Cell {
    Cell { symbol, fg, bg, bold, blink }
}

fn plain(symbol: char) -> Cell {
    cell(symbol, Shade::Reset, Shade::Reset, false, false)
}

#[test]
fn thread_paint_splits_into_red_green_and_blue() {
    assert_eq!(thread_rgb(PATH_BIT | 0x88_0044), Shade::Rgb(0x88, 0x00, 0x44));
    assert_eq!(thread_rgb(0x12_3456), Shade::Rgb(0x12, 0x34, 0x56));
}

#[test]
fn solved_squares_decode_by_kind() {
    let maze = blank(5, 5, MazeStyle::Sharp);
    let row = maze.wall_row();
    let paint = 0x76_6002;
    assert_eq!(
        solve_draw::decode_square(&row, PATH_BIT | FINISH_BIT | paint),
        cell('F', Shade::Indexed(14), Shade::Rgb(0x76, 0x60, 0x02), true, true)
    );
    assert_eq!(
        solve_draw::decode_square(&row, PATH_BIT | START_BIT | paint),
        cell('S', Shade::Indexed(14), Shade::Reset, true, false)
    );
    assert_eq!(
        solve_draw::decode_square(&row, PATH_BIT | paint),
        cell('█', Shade::Rgb(0x76, 0x60, 0x02), Shade::Reset, false, false)
    );
    let wall = NORTH_WALL | EAST_WALL;
    assert_eq!(solve_draw::decode_square(&row, wall), plain(maze.wall_char(wall)));
    assert_eq!(solve_draw::decode_square(&row, PATH_BIT), plain(' '));
}

#[test]
fn mini_paths_show_both_halves_of_a_cell() {
    let mut maze = blank(5, 5, MazeStyle::Mini);
    let a = 0x88_0044;
    let b = 0x00_9531;
    maze.set(1, 1, PATH_BIT | a);
    maze.set(2, 1, PATH_BIT | b);
    maze.set(3, 1, PATH_BIT);
    maze.set(1, 2, PATH_BIT | START_BIT);
    maze.set(2, 2, PATH_BIT);
    maze.set(3, 2, PATH_BIT | FINISH_BIT);
    let bp = &maze.maze;
    let at = |r, c| solve_draw::decode_mini_path(bp, Point { row: r, col: c });
    // An odd path under a wall keeps only its own paint.
    assert_eq!(at(1, 1), cell('▀', Shade::Reset, Shade::Rgb(0x88, 0, 0x44), false, false));
    // An even path over a path shows the paint below in its lower half.
    assert_eq!(at(2, 1), cell('▀', Shade::Rgb(0, 0, 0), Shade::Rgb(0, 0x95, 0x31), false, false));
    // An odd path under a path shows the paint above.
    assert_eq!(at(3, 1), cell('▀', Shade::Rgb(0, 0x95, 0x31), Shade::Rgb(0, 0, 0), false, false));
    // A wall in an even row over a path shows that path's paint.
    assert_eq!(at(0, 1), cell('▀', Shade::Reset, Shade::Rgb(0x88, 0, 0x44), false, false));
    // A start blinks, and so do the cells next to a start or finish.
    assert_eq!(at(1, 2), cell('▀', Shade::Indexed(14), Shade::Rgb(0, 0, 0), false, true));
    assert_eq!(at(2, 2), cell('▀', Shade::Indexed(14), Shade::Rgb(0, 0, 0), false, true));
    assert_eq!(at(0, 2), cell('▀', Shade::Reset, Shade::Indexed(14), false, true));
    // An even path over a wall, an odd wall, and an even wall over a wall.
    maze.set(3, 2, 0);
    let bp = &maze.maze;
    assert_eq!(
        solve_draw::decode_mini_path(bp, Point { row: 2, col: 2 }),
        cell('▄', Shade::Reset, Shade::Rgb(0, 0, 0), false, false)
    );
    assert_eq!(solve_draw::decode_mini_path(bp, Point { row: 1, col: 3 }), plain('█'));
    assert_eq!(solve_draw::decode_mini_path(bp, Point { row: 4, col: 3 }), plain('▀'));
}

#[test]
fn cursor_cells_use_the_thread_colors() {
    let mut maze = blank(5, 5, MazeStyle::Sharp);
    maze.set(1, 1, PATH_BIT | (1 << 4));
    maze.set(1, 2, PATH_BIT | FINISH_BIT | (5 << 4));
    maze.set(1, 3, PATH_BIT | START_BIT);
    maze.set(2, 1, PATH_BIT);
    let at = |m: &Maze, r, c| solve_draw::cursor_cell(m, Point { row: r, col: c });
    assert_eq!(at(&maze, 1, 1), cell('█', Shade::Indexed(1), Shade::Reset, false, false));
    assert_eq!(at(&maze, 1, 2), cell('F', Shade::Indexed(14), Shade::Indexed(201), true, true));
    assert_eq!(at(&maze, 1, 3), cell('S', Shade::Indexed(14), Shade::Reset, true, false));
    assert_eq!(at(&maze, 2, 1), plain(' '));
    assert_eq!(at(&maze, 0, 0), plain(maze.wall_char(0)));
}

#[test]
fn mini_cursor_cells_color_both_halves_by_thread() {
    let mut maze = blank(5, 5, MazeStyle::Mini);
    maze.set(1, 1, PATH_BIT | (2 << 4));
    maze.set(2, 1, PATH_BIT | (3 << 4));
    maze.set(3, 1, PATH_BIT);
    maze.set(1, 3, PATH_BIT | FINISH_BIT | (1 << 4));
    maze.set(2, 3, PATH_BIT);
    let at = |m: &Maze, r, c| solve_draw::mini_path_cell(m, Point { row: r, col: c });
    assert_eq!(at(&maze, 1, 1), cell('▀', Shade::Reset, Shade::Indexed(2), false, false));
    assert_eq!(at(&maze, 2, 1), cell('▀', Shade::Indexed(0), Shade::Indexed(3), false, false));
    assert_eq!(at(&maze, 3, 1), cell('▀', Shade::Indexed(3), Shade::Indexed(0), false, false));
    assert_eq!(at(&maze, 1, 3), cell('▀', Shade::Indexed(14), Shade::Indexed(1), false, true));
    maze.set(3, 3, 0);
    assert_eq!(at(&maze, 2, 3), cell('▄', Shade::Reset, Shade::Indexed(0), false, false));
    let wall = WEST_WALL;
    maze.set(4, 4, wall);
    assert_eq!(solve_draw::mini_point_cell(&maze, Point { row: 4, col: 4 }), plain(maze.wall_char(wall)));
    assert_eq!(
        solve_draw::mini_point_cell(&maze, Point { row: 1, col: 1 }),
        cell('▀', Shade::Reset, Shade::Indexed(2), false, false)
    );
}

#[test]
fn building_squares_show_backtracking_arrows() {
    let maze = blank(5, 5, MazeStyle::Round);
    let row = maze.wall_row();
    assert_eq!(
        build_draw::decode_square(&row, PATH_BIT | FROM_EAST),
        cell('→', Shade::Indexed(15), Shade::Indexed(2), true, false)
    );
    assert_eq!(
        build_draw::decode_square(&row, FROM_NORTH),
        cell('↑', Shade::Indexed(15), Shade::Indexed(1), true, false)
    );
    assert_eq!(build_draw::decode_square(&row, EAST_WALL), plain(maze.wall_char(EAST_WALL)));
    assert_eq!(build_draw::decode_square(&row, PATH_BIT), plain(' '));
}

#[test]
fn mini_building_cells_carry_markers_into_both_halves() {
    let mut maze = blank(5, 5, MazeStyle::Mini);
    maze.set(1, 1, PATH_BIT | FROM_SOUTH);
    maze.set(2, 1, PATH_BIT);
    maze.set(3, 1, FROM_NORTH);
    let bp = &maze.maze;
    let at = |r, c| build_draw::decode_mini_square(bp, Point { row: r, col: c });
    // An odd path under a wall draws the wall half above it over its marker.
    assert_eq!(at(1, 1), cell('▀', Shade::Reset, Shade::Indexed(3), false, false));
    // An even path over a marked wall: the wall's marker in the lower half.
    assert_eq!(at(2, 1), cell('▄', Shade::Indexed(1), Shade::Indexed(0), false, false));
    // A marked wall in an odd row shows the path above it.
    assert_eq!(at(3, 1), cell('▀', Shade::Reset, Shade::Indexed(1), false, false));
    // An unmarked wall in an even row takes the marker below as its backdrop.
    assert_eq!(at(0, 1), cell(maze.wall_char(0), Shade::Reset, Shade::Indexed(3), false, false));

    let at = |m: &Maze, r, c| build_draw::mini_backtracker_cell(m, Point { row: r, col: c });
    assert_eq!(at(&maze, 1, 1), cell('▀', Shade::Reset, Shade::Indexed(3), false, false));
    assert_eq!(at(&maze, 2, 1), cell('▄', Shade::Reset, Shade::Indexed(0), false, false));
    assert_eq!(at(&maze, 3, 1), cell('▀', Shade::Reset, Shade::Indexed(1), false, false));
    assert_eq!(at(&maze, 0, 1), cell(maze.wall_char(0), Shade::Reset, Shade::Indexed(3), false, false));
}

#[test]
fn plain_mini_cells_draw_the_wall_halves() {
    let mut maze = blank(5, 5, MazeStyle::Mini);
    maze.set(1, 1, PATH_BIT);
    maze.set(2, 1, PATH_BIT);
    maze.set(0, 2, NORTH_WALL | EAST_WALL);
    let at = |m: &Maze, r, c| build_draw::mini_cell(m, Point { row: r, col: c });
    assert_eq!(at(&maze, 1, 1), plain('▀'));
    assert_eq!(at(&maze, 2, 1), plain('▄'));
    assert_eq!(at(&maze, 1, 2), plain(maze.wall_char(NORTH_WALL | EAST_WALL)));
    assert_eq!(at(&maze, 0, 3), plain(maze.wall_char(0)));
    maze.set(3, 1, PATH_BIT);
    assert_eq!(at(&maze, 2, 1), plain(' '));
}

#[test]
fn mini_points_share_a_line_two_rows_at_a_time() {
    let maze = Maze::new(MazeArgs {
        odd_rows: 9,
        odd_cols: 9,
        offset: Offset { add_rows: 3, add_cols: 5 },
        style: MazeStyle::Mini,
    });
    assert_eq!(solve_draw::mini_point_position(&maze, Point { row: 7, col: 2 }), Point { row: 6, col: 7 });
    assert_eq!(solve_draw::mini_point_position(&maze, Point { row: 6, col: 0 }), Point { row: 6, col: 5 });
    assert_eq!(solve_draw::mini_point_position(&maze, Point { row: 0, col: 8 }), Point { row: 3, col: 13 });
}
