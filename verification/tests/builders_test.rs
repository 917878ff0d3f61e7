use maze_tui::builders::{
    arena, build_ops, eller, grid, hunt_kill, kruskal, prim, recursive_backtracker, recursive_subdivision,
    wilson_adder,
};
use maze_tui::builders::cells::odd_at_or_below;
use maze_tui::maze::{Maze, MazeArgs, MazeStyle, Offset, Square, BUILDER_BIT, PATH_BIT};

fn fresh(rows: i32, cols: i32) -> Maze {
    Maze::new(MazeArgs {
        odd_rows: rows,
        odd_cols: cols,
        offset: Offset { add_rows: 0, add_cols: 0 },
        style: MazeStyle::Sharp,
    })
}

fn edge_is_walls(maze: &Maze) -> bool {
    for r in 0..maze.rows() {
        for c in 0..maze.cols() {
            let edge = r == 0 || c == 0 || r == maze.rows() - 1 || c == maze.cols() - 1;
            if edge && !maze.wall_at(r, c) {
                return false;
            }
        }
    }
    true
}

fn cells_are_paths(maze: &Maze) -> bool {
    let mut r = 1;
    while r < maze.rows() - 1 {
        let mut c = 1;
        while c < maze.cols() - 1 {
            if !maze.path_at(r, c) {
                return false;
            }
            c += 2;
        }
        r += 2;
    }
    true
}

fn cells_are_built(maze: &Maze) -> bool {
    let mut r = 1;
    while r < maze.rows() - 1 {
        let mut c = 1;
        while c < maze.cols() - 1 {
            if maze.get(r, c) & BUILDER_BIT == 0 {
                return false;
            }
            c += 2;
        }
        r += 2;
    }
    true
}

fn no_markers(maze: &Maze) -> bool {
    maze.as_slice().iter().all(|s| s & build_ops::MARKERS_MASK == 0)
}

/// Counts the cells reached from (1, 1) through paths.
fn reachable_cells(maze: &Maze) -> usize {
    let rows = maze.rows();
    let cols = maze.cols();
    let mut seen = vec![false; (rows * cols) as usize];
    let mut stack = vec![(1, 1)];
    seen[(cols + 1) as usize] = true;
    let mut cells = 0;
    while let Some((r, c)) = stack.pop() {
        if r % 2 == 1 && c % 2 == 1 {
            cells += 1;
        }
        for (dr, dc) in [(-1, 0), (0, 1), (1, 0), (0, -1)] {
            let (nr, nc) = (r + dr, c + dc);
            if nr < 0 || nc < 0 || nr >= rows || nc >= cols {
                continue;
            }
            let k = (nr * cols + nc) as usize;
            if !seen[k] && maze.path_at(nr, nc) {
                seen[k] = true;
                stack.push((nr, nc));
            }
        }
    }
    cells
}

fn cell_count(maze: &Maze) -> usize {
    (((maze.rows() - 1) / 2) * ((maze.cols() - 1) / 2)) as usize
}

/// Replays the build history over an all-zero grid.
fn replayed(maze: &Maze) -> Vec<Square> {
    let mut squares = vec![0u32; (maze.rows() * maze.cols()) as usize];
    for k in 0..maze.build_history.len() {
        let d = maze.build_history.index(k);
        squares[(d.id.row * maze.cols() + d.id.col) as usize] = d.after;
    }
    squares
}

fn history_matches(maze: &Maze) -> bool {
    let replay = replayed(maze);
    replay.iter().zip(maze.as_slice().iter()).all(|(a, b)| (a & !BUILDER_BIT) == (b & !BUILDER_BIT))
}

/// The history splits into frames whose first and last deltas record their length.
fn history_framed(maze: &Maze) -> bool {
    let n = maze.build_history.len();
    let mut p = 0;
    while p < n {
        let b = maze.build_history.index(p).burst;
        if b == 0 || p + b > n || maze.build_history.index(p + b - 1).burst != b {
            return false;
        }
        p += b;
    }
    true
}

#[test]
fn recursive_backtracker_makes_a_perfect_maze() {
    let mut maze = fresh(11, 21);
    recursive_backtracker::generate_maze(&mut maze);
    assert!(edge_is_walls(&maze));
    assert!(cells_are_paths(&maze));
    assert!(cells_are_built(&maze));
    assert!(no_markers(&maze));
    assert_eq!(reachable_cells(&maze), cell_count(&maze));
}

#[test]
fn recursive_backtracker_history_replays() {
    let mut maze = fresh(11, 21);
    recursive_backtracker::generate_history(&mut maze);
    assert!(edge_is_walls(&maze));
    assert!(cells_are_paths(&maze));
    assert!(history_matches(&maze));
    assert!(history_framed(&maze));
}

#[test]
fn hunt_kill_builds_every_cell() {
    let mut maze = fresh(11, 21);
    hunt_kill::generate_maze(&mut maze);
    assert!(edge_is_walls(&maze));
    assert!(cells_are_built(&maze));
    assert!(no_markers(&maze));
    assert_eq!(reachable_cells(&maze), cell_count(&maze));
}

#[test]
fn hunt_kill_history_replays() {
    let mut maze = fresh(11, 21);
    hunt_kill::generate_history(&mut maze);
    assert!(cells_are_built(&maze));
    assert!(history_matches(&maze));
    assert!(history_framed(&maze));
}

#[test]
fn grid_builds_every_cell() {
    let mut maze = fresh(9, 15);
    grid::generate_maze(&mut maze);
    assert!(edge_is_walls(&maze));
    assert!(cells_are_built(&maze));
    assert!(no_markers(&maze));
    assert_eq!(reachable_cells(&maze), cell_count(&maze));
}

#[test]
fn grid_history_replays() {
    let mut maze = fresh(9, 15);
    grid::generate_history(&mut maze);
    assert!(cells_are_built(&maze));
    assert!(history_matches(&maze));
    assert!(history_framed(&maze));
}

#[test]
fn prim_builds_every_cell() {
    let mut maze = fresh(11, 21);
    prim::generate_maze(&mut maze);
    assert!(edge_is_walls(&maze));
    assert!(cells_are_built(&maze));
    assert_eq!(reachable_cells(&maze), cell_count(&maze));
}

#[test]
fn prim_history_replays() {
    let mut maze = fresh(11, 21);
    prim::generate_history(&mut maze);
    assert!(history_matches(&maze));
    assert!(history_framed(&maze));
}

#[test]
fn kruskal_builds_every_cell() {
    let mut maze = fresh(11, 21);
    kruskal::generate_maze(&mut maze);
    assert!(edge_is_walls(&maze));
    assert!(cells_are_built(&maze));
    assert!(no_markers(&maze));
    assert_eq!(reachable_cells(&maze), cell_count(&maze));
}

#[test]
fn kruskal_history_replays() {
    let mut maze = fresh(11, 21);
    kruskal::generate_history(&mut maze);
    assert!(cells_are_built(&maze));
    assert!(history_matches(&maze));
    assert!(history_framed(&maze));
}

#[test]
fn eller_opens_every_cell() {
    let mut maze = fresh(11, 21);
    eller::generate_maze(&mut maze);
    assert!(edge_is_walls(&maze));
    assert!(cells_are_paths(&maze));
    assert!(no_markers(&maze));
    assert_eq!(reachable_cells(&maze), cell_count(&maze));
}

#[test]
fn eller_builds_every_cell_from_one_column_up() {
    for (rows, cols) in [(5, 3), (3, 5), (7, 7), (9, 15)] {
        let mut maze = fresh(rows, cols);
        eller::generate_maze(&mut maze);
        assert!(cells_are_built(&maze));
        assert_eq!(reachable_cells(&maze), cell_count(&maze));
    }
    let mut maze = fresh(3, 3);
    eller::generate_maze(&mut maze);
    assert!(!maze.path_at(1, 1));
}

#[test]
fn subdivision_keeps_cells_open() {
    let mut maze = fresh(11, 21);
    recursive_subdivision::generate_maze(&mut maze);
    assert!(edge_is_walls(&maze));
    assert!(cells_are_paths(&maze));
    assert_eq!(reachable_cells(&maze), cell_count(&maze));
}

#[test]
fn subdivision_history_replays() {
    let mut maze = fresh(11, 21);
    recursive_subdivision::generate_history(&mut maze);
    assert!(edge_is_walls(&maze));
    assert!(cells_are_paths(&maze));
    assert!(history_matches(&maze));
}

#[test]
fn arena_is_open_inside() {
    let mut maze = fresh(7, 9);
    arena::generate_maze(&mut maze);
    assert!(edge_is_walls(&maze));
    for r in 1..maze.rows() - 1 {
        for c in 1..maze.cols() - 1 {
            assert!(maze.path_at(r, c));
        }
    }
}

#[test]
fn arena_history_replays() {
    let mut maze = fresh(7, 9);
    arena::generate_history(&mut maze);
    assert!(edge_is_walls(&maze));
    assert!(history_matches(&maze));
    assert!(history_framed(&maze));
}

#[test]
fn wilson_adder_builds_every_post() {
    let mut maze = fresh(11, 21);
    let finished = wilson_adder::generate_maze(&mut maze);
    assert!(finished);
    assert!(edge_is_walls(&maze));
    assert!(cells_are_paths(&maze));
    assert!(no_markers(&maze));
    let mut r = 2;
    while r < maze.rows() - 1 {
        let mut c = 2;
        while c < maze.cols() - 1 {
            assert!(maze.get(r, c) & BUILDER_BIT != 0);
            assert!(maze.wall_at(r, c));
            c += 2;
        }
        r += 2;
    }
    for s in maze.as_slice() {
        assert_eq!(s & wilson_adder::WALK_BIT, 0);
    }
    assert_eq!(reachable_cells(&maze), cell_count(&maze));
}

#[test]
fn wall_outline_walls_the_edge_and_opens_the_inside() {
    let mut maze = fresh(5, 7);
    build_ops::build_wall_outline(&mut maze);
    assert!(edge_is_walls(&maze));
    for r in 1..4 {
        for c in 1..6 {
            assert!(maze.path_at(r, c));
        }
    }
    assert!(maze.get(0, 0) & BUILDER_BIT != 0);
    assert!(maze.get(2, 2) & PATH_BIT != 0);
}

#[test]
fn choose_point_finds_the_first_unbuilt_post() {
    let mut maze = fresh(7, 9);
    build_ops::build_wall_outline(&mut maze);
    let first = build_ops::choose_point_from_row_start(&maze, 2, build_ops::ParityPoint::Even);
    assert_eq!(first, Some(maze_tui::maze::Point { row: 2, col: 2 }));
    let s = maze.get(2, 2);
    maze.set(2, 2, s | BUILDER_BIT);
    let second = build_ops::choose_point_from_row_start(&maze, 2, build_ops::ParityPoint::Even);
    assert_eq!(second, Some(maze_tui::maze::Point { row: 2, col: 4 }));
    let odd = build_ops::choose_point_from_row_start(&maze, 1, build_ops::ParityPoint::Odd);
    assert_eq!(odd, Some(maze_tui::maze::Point { row: 1, col: 1 }));
}

#[test]
fn mark_line_history_marks_the_wall_and_the_post() {
    let mut maze = fresh(7, 9);
    build_ops::build_wall_outline(&mut maze);
    let before = maze.build_history.len();
    let walk = maze_tui::maze::Point { row: 2, col: 2 };
    let next = maze_tui::maze::Point { row: 2, col: 4 };
    wilson_adder::mark_line_history(&mut maze, walk, next);
    assert_eq!(maze.build_history.len(), before + 2);
    assert_eq!(maze.get(2, 3) & build_ops::MARKERS_MASK, build_ops::FROM_WEST);
    assert_eq!(maze.get(2, 4) & build_ops::MARKERS_MASK, build_ops::FROM_WEST);
    assert!(maze.wall_at(2, 3));
    assert!(maze.wall_at(2, 4));
}

#[test]
fn wilson_adder_history_builds_every_post() {
    let mut maze = fresh(11, 21);
    let finished = wilson_adder::generate_history(&mut maze);
    assert!(finished);
    assert!(edge_is_walls(&maze));
    assert!(cells_are_paths(&maze));
    assert!(no_markers(&maze));
    let mut r = 2;
    while r < maze.rows() - 1 {
        let mut c = 2;
        while c < maze.cols() - 1 {
            assert!(maze.get(r, c) & BUILDER_BIT != 0);
            assert!(maze.wall_at(r, c));
            c += 2;
        }
        r += 2;
    }
    assert!(maze.as_slice().iter().all(|s| s & wilson_adder::WALK_BIT == 0));
    assert_eq!(reachable_cells(&maze), cell_count(&maze));
    assert!(maze.build_history.len() > 0);
}

#[test]
fn hunt_and_kill_builds_every_cell_past_four_by_four() {
    for (rows, cols) in [(5, 5), (4, 6), (7, 9)] {
        let mut maze = fresh(rows, cols);
        hunt_kill::generate_maze(&mut maze);
        assert!(cells_are_built(&maze));
    }
}

#[test]
fn odd_at_or_below_keeps_odd_and_steps_even_up() {
    assert_eq!(odd_at_or_below(1), 1);
    assert_eq!(odd_at_or_below(2), 3);
    assert_eq!(odd_at_or_below(7), 7);
    assert_eq!(odd_at_or_below(10), 11);
}

fn posts_are_walls(maze: &Maze) -> bool {
    let mut r = 0;
    while r < maze.rows() {
        let mut c = 0;
        while c < maze.cols() {
            if !maze.wall_at(r, c) {
                return false;
            }
            c += 2;
        }
        r += 2;
    }
    true
}

#[test]
fn subdivision_walls_every_post() {
    for (rows, cols) in [(5, 5), (11, 21), (21, 9)] {
        let mut maze = fresh(rows, cols);
        recursive_subdivision::generate_maze(&mut maze);
        assert!(posts_are_walls(&maze));
        let mut maze = fresh(rows, cols);
        recursive_subdivision::generate_history(&mut maze);
        assert!(posts_are_walls(&maze));
    }
}

#[test]
fn prim_and_grid_histories_build_every_cell() {
    for (rows, cols) in [(7, 7), (9, 15)] {
        let mut maze = fresh(rows, cols);
        prim::generate_history(&mut maze);
        assert!(cells_are_built(&maze));
        let mut maze = fresh(rows, cols);
        grid::generate_history(&mut maze);
        assert!(cells_are_built(&maze));
    }
    let mut maze = fresh(5, 5);
    grid::generate_history(&mut maze);
    assert!(cells_are_built(&maze));
}

#[test]
fn mark_line_history_records_two_single_frames_in_order() {
    let mut maze = fresh(7, 9);
    build_ops::build_wall_outline(&mut maze);
    let before = maze.build_history.len();
    let walk = maze_tui::maze::Point { row: 2, col: 2 };
    let next = maze_tui::maze::Point { row: 2, col: 4 };
    let wall_before = maze.get(2, 3);
    let next_before = maze.get(2, 4);
    wilson_adder::mark_line_history(&mut maze, walk, next);
    let d1 = maze.build_history.index(before);
    assert_eq!(d1.id, maze_tui::maze::Point { row: 2, col: 3 });
    assert_eq!(d1.before, wall_before);
    assert_eq!(d1.after, (wall_before | build_ops::FROM_WEST) & !PATH_BIT);
    assert_eq!(d1.burst, 1);
    let d2 = maze.build_history.index(before + 1);
    assert_eq!(d2.id, next);
    assert_eq!(d2.before, next_before);
    assert_eq!(d2.after, (next_before | build_ops::FROM_WEST) & !PATH_BIT);
    assert_eq!(d2.burst, 1);
}

fn clean(maze: &Maze) -> bool {
    maze.as_slice().iter().all(|s| s & 0x00FF_FFFF == 0 && s & 0xC000_0000 == 0)
}

#[test]
fn builders_leave_no_marker_paint_start_or_finish() {
    let mut maze = fresh(11, 21);
    recursive_backtracker::generate_maze(&mut maze);
    assert!(clean(&maze));
    let mut maze = fresh(11, 21);
    recursive_backtracker::generate_history(&mut maze);
    assert!(clean(&maze));
    let mut maze = fresh(11, 21);
    hunt_kill::generate_maze(&mut maze);
    assert!(clean(&maze));
    let mut maze = fresh(11, 21);
    grid::generate_maze(&mut maze);
    assert!(clean(&maze));
    let mut maze = fresh(11, 21);
    grid::generate_history(&mut maze);
    assert!(clean(&maze));
    let mut maze = fresh(11, 21);
    prim::generate_maze(&mut maze);
    assert!(clean(&maze));
    let mut maze = fresh(11, 21);
    prim::generate_history(&mut maze);
    assert!(clean(&maze));
    let mut maze = fresh(11, 21);
    kruskal::generate_maze(&mut maze);
    assert!(clean(&maze));
    let mut maze = fresh(11, 21);
    kruskal::generate_history(&mut maze);
    assert!(clean(&maze));
    let mut maze = fresh(11, 21);
    eller::generate_maze(&mut maze);
    assert!(clean(&maze));
    let mut maze = fresh(11, 21);
    arena::generate_maze(&mut maze);
    assert!(clean(&maze));
}

#[test]
fn cross_drawn_with_and_without_history_agrees() {
    for (rows, cols) in [(9, 15), (11, 21), (7, 7)] {
        let mut plain = fresh(rows, cols);
        build_ops::fill_maze_with_walls(&mut plain);
        let mut recorded = fresh(rows, cols);
        build_ops::fill_maze_with_walls(&mut recorded);
        maze_tui::builders::modify::add_cross(&mut plain);
        maze_tui::builders::modify::add_cross_history(&mut recorded);
        assert_eq!(plain.as_slice(), recorded.as_slice());
        assert!(plain.path_at(rows / 2, 2));
        assert!(plain.path_at(2, cols / 2));
        assert!(!plain.path_at(rows / 2, 1));
    }
}

fn diagonal_columns(rows: i32, cols: i32) -> (Vec<i32>, Vec<i32>) {
    let row_size = rows as f32 - 2.0f32;
    let col_size = cols as f32 - 2.0f32;
    let rise = (2.0f32 - row_size) / (2.0f32 - col_size);
    let rise_b = 2.0f32 - (2.0f32 * rise);
    let fall = (2.0f32 - row_size) / (col_size - 2.0f32);
    let fall_b = row_size - (2.0f32 * fall);
    let mut rising = Vec::new();
    let mut falling = Vec::new();
    for r in 0..rows {
        rising.push(((r as f32 - rise_b) / rise) as i32);
        falling.push(((r as f32 - fall_b) / fall) as i32);
    }
    (rising, falling)
}

#[test]
fn x_drawn_with_and_without_history_agrees() {
    for (rows, cols) in [(9, 15), (11, 21), (21, 21)] {
        let (rising, falling) = diagonal_columns(rows, cols);
        let mut plain = fresh(rows, cols);
        build_ops::fill_maze_with_walls(&mut plain);
        let mut recorded = fresh(rows, cols);
        build_ops::fill_maze_with_walls(&mut recorded);
        maze_tui::builders::modify::add_x(&mut plain, &rising, &falling);
        maze_tui::builders::modify::add_x_history(&mut recorded, &rising, &falling);
        assert_eq!(plain.as_slice(), recorded.as_slice());
        let opened = plain.as_slice().iter().filter(|s| **s & PATH_BIT != 0).count();
        assert!(opened > 0);
        assert!(edge_is_walls(&plain));
    }
}

#[test]
fn subdivision_keeps_the_low_bits() {
    let mut maze = fresh(11, 21);
    maze.set(3, 3, 0x0000_0040);
    recursive_subdivision::generate_maze(&mut maze);
    assert_eq!(maze.get(3, 3) & 0x00FF_FFFF, 0x0000_0040);
    let others = maze.as_slice().iter().filter(|s| *s & 0x00FF_FFFF != 0).count();
    assert_eq!(others, 1);
}

fn open_slot_count(maze: &Maze) -> usize {
    let mut n = 0;
    for r in 0..maze.rows() {
        for c in 0..maze.cols() {
            if (r + c) % 2 == 1 && maze.path_at(r, c) {
                n += 1;
            }
        }
    }
    n
}

/// Connected, with one open wall fewer than cells, and every post a wall:
/// the paths form a tree over the cells.
fn is_tree(maze: &Maze) -> bool {
    reachable_cells(maze) == cell_count(maze) && open_slot_count(maze) + 1 == cell_count(maze) && posts_are_walls(maze)
}

#[test]
fn perfect_builders_make_trees() {
    for (rows, cols) in [(7, 7), (11, 21), (9, 15)] {
        let mut maze = fresh(rows, cols);
        recursive_backtracker::generate_maze(&mut maze);
        assert!(is_tree(&maze));
        let mut maze = fresh(rows, cols);
        recursive_backtracker::generate_history(&mut maze);
        assert!(is_tree(&maze));
        let mut maze = fresh(rows, cols);
        hunt_kill::generate_maze(&mut maze);
        assert!(is_tree(&maze));
        let mut maze = fresh(rows, cols);
        hunt_kill::generate_history(&mut maze);
        assert!(is_tree(&maze));
        let mut maze = fresh(rows, cols);
        prim::generate_maze(&mut maze);
        assert!(is_tree(&maze));
        let mut maze = fresh(rows, cols);
        prim::generate_history(&mut maze);
        assert!(is_tree(&maze));
        let mut maze = fresh(rows, cols);
        kruskal::generate_maze(&mut maze);
        assert!(is_tree(&maze));
        let mut maze = fresh(rows, cols);
        kruskal::generate_history(&mut maze);
        assert!(is_tree(&maze));
    }
}

#[test]
fn grid_connects_every_cell() {
    for (rows, cols) in [(7, 7), (11, 21), (9, 15)] {
        let mut maze = fresh(rows, cols);
        grid::generate_maze(&mut maze);
        assert_eq!(reachable_cells(&maze), cell_count(&maze));
        assert!(posts_are_walls(&maze));
        let mut maze = fresh(rows, cols);
        grid::generate_history(&mut maze);
        assert_eq!(reachable_cells(&maze), cell_count(&maze));
    }
}

#[test]
fn subdivision_connects_every_cell() {
    for (rows, cols) in [(7, 7), (11, 21), (9, 15), (21, 11)] {
        let mut maze = fresh(rows, cols);
        recursive_subdivision::generate_maze(&mut maze);
        assert_eq!(reachable_cells(&maze), cell_count(&maze));
        assert!(posts_are_walls(&maze));
        let mut maze = fresh(rows, cols);
        recursive_subdivision::generate_history(&mut maze);
        assert_eq!(reachable_cells(&maze), cell_count(&maze));
    }
}

#[test]
fn eller_connects_every_cell() {
    for (rows, cols) in [(7, 7), (11, 21), (9, 15), (5, 3), (3, 9)] {
        let mut maze = fresh(rows, cols);
        eller::generate_maze(&mut maze);
        assert_eq!(reachable_cells(&maze), cell_count(&maze));
        assert!(is_tree(&maze));
    }
}
