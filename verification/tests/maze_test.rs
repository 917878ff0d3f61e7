use maze_tui::builders::recursive_backtracker;
use maze_tui::maze::{cardinal_direction, is_path, is_wall, Maze, MazeArgs, MazeStyle, Offset, Point, PATH_BIT};
use maze_tui::solvers::solve::{
    is_finish, is_start, is_valid_start_or_finish, reset_solve, set_corner_starts, FINISH_BIT, START_BIT,
};

fn fresh(rows: i32, cols: i32) -> Maze {
    Maze::new(MazeArgs {
        odd_rows: rows,
        odd_cols: cols,
        offset: Offset { add_rows: 0, add_cols: 0 },
        style: MazeStyle::Round,
    })
}

#[test]
fn new_maze_rounds_dimensions_up_to_odd_and_starts_blank() {
    let maze = fresh(10, 20);
    assert_eq!(maze.rows(), 11);
    assert_eq!(maze.cols(), 21);
    assert!(maze.as_slice().iter().all(|s| *s == 0));
    assert_eq!(maze.build_history.len(), 0);
    let maze = fresh(7, 9);
    assert_eq!((maze.rows(), maze.cols()), (7, 9));
}

#[test]
fn set_then_get_gives_back_the_square() {
    let mut maze = fresh(5, 5);
    maze.set(2, 3, PATH_BIT);
    assert_eq!(maze.get(2, 3), PATH_BIT);
    assert!(maze.path_at(2, 3));
    assert!(maze.wall_at(2, 2));
    assert!(is_path(PATH_BIT));
    assert!(is_wall(0));
}

#[test]
fn cardinal_directions_go_north_east_south_west() {
    assert_eq!(cardinal_direction(0), Point { row: -1, col: 0 });
    assert_eq!(cardinal_direction(1), Point { row: 0, col: 1 });
    assert_eq!(cardinal_direction(2), Point { row: 1, col: 0 });
    assert_eq!(cardinal_direction(3), Point { row: 0, col: -1 });
}

#[test]
fn start_and_finish_bits_are_told_apart() {
    assert!(is_start(START_BIT));
    assert!(!is_start(FINISH_BIT));
    assert!(is_finish(FINISH_BIT | PATH_BIT));
}

#[test]
fn corner_starts_are_paths_and_reset_clears_solver_marks() {
    let mut maze = fresh(11, 21);
    recursive_backtracker::generate_maze(&mut maze);
    let starts = set_corner_starts(&maze);
    for s in starts {
        assert!(maze.path_at(s.row, s.col));
        assert!(is_valid_start_or_finish(&maze, s));
    }
    let s = maze.get(1, 1);
    maze.set(1, 1, s | START_BIT);
    assert!(!is_valid_start_or_finish(&maze, Point { row: 1, col: 1 }));
    reset_solve(&mut maze);
    assert!(!is_start(maze.get(1, 1)));
    assert!(maze.path_at(1, 1));
}
