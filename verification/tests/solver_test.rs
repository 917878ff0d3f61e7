use maze_tui::builders::{arena, recursive_backtracker};
use maze_tui::maze::{Maze, MazeArgs, MazeStyle, Offset, Point};
use maze_tui::monitor::Monitor;
use maze_tui::solvers::bfs::{
    corner_setup, finish_gather, finish_race, gather_setup, gatherer_step, has_valid, hunt_setup, hunter_step, mark, Search, BURST,
};
use maze_tui::solvers::dfs::{dfs_gatherer_step, dfs_hunter_step};
use maze_tui::solvers::floodfs::{flood_gatherer_step, flood_hunter_step};
use maze_tui::solvers::solve::{ThreadGuide, FINISH_BIT, START_BIT, THREAD_CACHES, THREAD_MASK, THREAD_MASKS};

fn fresh(rows: i32, cols: i32) -> Maze {
    Maze::new(MazeArgs {
        odd_rows: rows,
        odd_cols: cols,
        offset: Offset { add_rows: 0, add_cols: 0 },
        style: MazeStyle::Sharp,
    })
}

fn guide(index: usize, start: Point) -> ThreadGuide {
    ThreadGuide { index, paint: THREAD_MASKS[index], cache: THREAD_CACHES[index], start, speed: 0 }
}

#[test]
fn hunt_setup_marks_a_start_and_a_finish() {
    let mut maze = fresh(11, 21);
    recursive_backtracker::generate_maze(&mut maze);
    let start = hunt_setup(&mut maze, true, BURST).unwrap();
    assert!(maze.get(start.row, start.col) & START_BIT != 0);
    let finishes = maze.as_slice().iter().filter(|s| *s & FINISH_BIT != 0).count();
    assert_eq!(finishes, 1);
    assert_eq!(maze.solve_history.len(), 2);
}

#[test]
fn a_lone_hunter_reaches_the_finish_and_leaves_its_path() {
    let mut maze = fresh(11, 21);
    recursive_backtracker::generate_maze(&mut maze);
    let start = hunt_setup(&mut maze, false, BURST).unwrap();
    let mut mon = Monitor::new(maze);
    let g = guide(0, start);
    let mut search = Search::new(start);
    let mut steps = 0;
    while hunter_step(&mut mon, &mut search, &g, false) {
        steps += 1;
        assert!(steps < 10_000);
    }
    assert_eq!(mon.win, Some(0));
    assert!(!mon.win_path.is_empty());
    assert_eq!(mon.win_path.last().unwrap().0, start);
    for (p, paint) in mon.win_path.iter() {
        assert_eq!(*paint, THREAD_MASKS[0]);
        assert!(mon.maze.path_at(p.row, p.col));
    }
    let before = mon.maze.solve_history.len();
    finish_race(&mut mon, true, true, false);
    assert_eq!(mon.maze.solve_history.len(), before + mon.win_path.len());
    for (p, paint) in mon.win_path.iter() {
        assert_eq!(mon.maze.get(p.row, p.col) & THREAD_MASK, *paint);
    }
}

#[test]
fn a_hunter_stops_once_another_has_won() {
    let mut maze = fresh(7, 9);
    arena::generate_maze(&mut maze);
    let start = Point { row: 1, col: 1 };
    let mut mon = Monitor::new(maze);
    mon.win = Some(2);
    let g = guide(1, start);
    let mut search = Search::new(start);
    let before = mon.maze.get(1, 1);
    assert!(!hunter_step(&mut mon, &mut search, &g, true));
    assert_eq!(mon.maze.get(1, 1), before);
    assert_eq!(mon.win, Some(2));
}

#[test]
fn gatherers_mark_every_finish() {
    let mut maze = fresh(11, 21);
    recursive_backtracker::generate_maze(&mut maze);
    let start = gather_setup(&mut maze, true, BURST).unwrap();
    let mut mon = Monitor::new(maze);
    for i in 0..4 {
        let g = guide(i, start);
        let mut search = Search::new(start);
        while gatherer_step(&mut mon, &mut search, &g, true) {}
    }
    for s in mon.maze.as_slice() {
        if s & FINISH_BIT != 0 {
            assert!(s & THREAD_MASK != 0);
        }
    }
    assert_eq!(mon.maze.solve_history.index(0).burst, BURST);
}

#[test]
fn corner_setup_opens_the_middle() {
    let mut maze = fresh(11, 21);
    recursive_backtracker::generate_maze(&mut maze);
    let starts = corner_setup(&mut maze, true, BURST).unwrap();
    assert_eq!(starts.len(), 4);
    for s in starts.iter() {
        assert!(maze.get(s.row, s.col) & START_BIT != 0);
    }
    let mid = maze.get(maze.rows() / 2, maze.cols() / 2);
    assert!(mid & FINISH_BIT != 0);
    assert!(maze.path_at(maze.rows() / 2, maze.cols() / 2));
    assert!(maze.path_at(maze.rows() / 2 - 1, maze.cols() / 2 - 1));
}

#[test]
fn has_valid_is_false_on_a_solid_grid_and_mark_sets_bits() {
    let mut maze = fresh(5, 5);
    assert!(!has_valid(&maze));
    assert!(hunt_setup(&mut maze, false, BURST).is_none());
    arena::generate_maze(&mut maze);
    assert!(has_valid(&maze));
    mark(&mut maze, Point { row: 2, col: 2 }, FINISH_BIT, true, 1);
    assert!(maze.get(2, 2) & FINISH_BIT != 0);
    assert_eq!(maze.solve_history.index(0).after & FINISH_BIT, FINISH_BIT);
}

#[test]
fn a_lone_flooding_hunter_reaches_the_finish() {
    let mut maze = fresh(11, 21);
    recursive_backtracker::generate_maze(&mut maze);
    let start = hunt_setup(&mut maze, true, 1).unwrap();
    assert_eq!(maze.solve_history.index(0).burst, 1);
    let mut mon = Monitor::new(maze);
    let g = guide(2, start);
    let mut dfs = vec![start];
    let mut steps = 0;
    while flood_hunter_step(&mut mon, &mut dfs, &g, true) {
        steps += 1;
        assert!(steps < 10_000);
    }
    assert_eq!(mon.win, Some(2));
    let finish = mon.maze.as_slice().iter().position(|s| s & FINISH_BIT != 0).unwrap();
    assert!(mon.maze.as_slice()[finish] & THREAD_MASK != 0);
    assert!(dfs.iter().all(|p| mon.maze.path_at(p.row, p.col)));
}

#[test]
fn flooding_gatherers_mark_every_finish() {
    let mut maze = fresh(11, 21);
    recursive_backtracker::generate_maze(&mut maze);
    let start = gather_setup(&mut maze, false, 1).unwrap();
    let mut mon = Monitor::new(maze);
    for i in 0..4 {
        let g = guide(i, start);
        let mut dfs = vec![start];
        while flood_gatherer_step(&mut mon, &mut dfs, &g, false) {}
    }
    for s in mon.maze.as_slice() {
        if s & FINISH_BIT != 0 {
            assert!(s & THREAD_MASK != 0);
        }
    }
}

#[test]
fn depth_first_hunters_paint_their_stacks_once_one_wins() {
    let mut maze = fresh(11, 21);
    recursive_backtracker::generate_maze(&mut maze);
    let start = hunt_setup(&mut maze, false, 1).unwrap();
    let mut mon = Monitor::new(maze);
    let g0 = guide(0, start);
    let mut dfs0 = vec![start];
    let mut steps = 0;
    while dfs_hunter_step(&mut mon, &mut dfs0, &g0) {
        steps += 1;
        assert!(steps < 10_000);
    }
    assert_eq!(mon.win, Some(0));
    let g1 = guide(1, start);
    let mut dfs1 = vec![start];
    assert!(!dfs_hunter_step(&mut mon, &mut dfs1, &g1));
    assert!(mon.maze.get(start.row, start.col) & THREAD_MASKS[1] == THREAD_MASKS[1]);
}

#[test]
fn depth_first_gatherers_stop_on_a_finish() {
    let mut maze = fresh(11, 21);
    recursive_backtracker::generate_maze(&mut maze);
    let start = gather_setup(&mut maze, false, 1).unwrap();
    let mut mon = Monitor::new(maze);
    for i in 0..4 {
        let g = guide(i, start);
        let mut dfs = vec![start];
        while dfs_gatherer_step(&mut mon, &mut dfs, &g) {}
    }
    let painted = mon.maze.as_slice().iter().filter(|s| *s & FINISH_BIT != 0 && *s & THREAD_MASK != 0).count();
    assert!(painted >= 1);
    let seen = THREAD_MASKS[0] << 4;
    assert_eq!(mon.maze.get(start.row, start.col) & seen, seen);
}

#[test]
fn the_winning_path_follows_the_parents_back_to_the_start() {
    let mut maze = fresh(11, 21);
    recursive_backtracker::generate_maze(&mut maze);
    let start = hunt_setup(&mut maze, false, BURST).unwrap();
    let mut mon = Monitor::new(maze);
    let g = guide(0, start);
    let mut search = Search::new(start);
    while hunter_step(&mut mon, &mut search, &g, false) {}
    let finish = mon
        .maze
        .as_slice()
        .iter()
        .position(|s| s & FINISH_BIT != 0)
        .map(|i| Point { row: i as i32 / mon.maze.cols(), col: i as i32 % mon.maze.cols() })
        .unwrap();
    let parent_of = |p: Point| search.parents.iter().find(|e| e.0 == p).unwrap().1;
    let mut expected = Vec::new();
    let mut prev = parent_of(finish);
    while prev.row > 0 {
        expected.push((prev, THREAD_MASKS[0]));
        prev = parent_of(prev);
    }
    assert_eq!(mon.win_path, expected);
    for w in mon.win_path.windows(2) {
        let (a, b) = (w[0].0, w[1].0);
        assert_eq!((a.row - b.row).abs() + (a.col - b.col).abs(), 1);
    }
}

#[test]
fn finish_gather_frames_the_leftover_deltas_one_by_one() {
    let mut maze = fresh(11, 21);
    recursive_backtracker::generate_maze(&mut maze);
    let start = gather_setup(&mut maze, true, BURST).unwrap();
    let mut mon = Monitor::new(maze);
    let g = guide(0, start);
    let mut search = Search::new(start);
    let mut steps = 0;
    while steps < 7 && gatherer_step(&mut mon, &mut search, &g, true) {
        steps += 1;
    }
    let before: Vec<_> = (0..mon.maze.solve_history.len()).map(|k| *mon.maze.solve_history.index(k)).collect();
    let n = before.len();
    let cut = n - n % BURST;
    finish_gather(&mut mon);
    assert_eq!(mon.maze.solve_history.len(), n);
    for k in 0..n {
        let d = mon.maze.solve_history.index(k);
        assert_eq!((d.id, d.before, d.after), (before[k].id, before[k].before, before[k].after));
        assert_eq!(d.burst, if k < cut { before[k].burst } else { 1 });
    }
}

#[test]
fn gather_setup_marks_one_start_and_four_finishes() {
    let mut maze = fresh(11, 21);
    recursive_backtracker::generate_maze(&mut maze);
    let before: Vec<u32> = maze.as_slice().to_vec();
    let start = gather_setup(&mut maze, true, BURST).unwrap();
    let starts = maze.as_slice().iter().filter(|s| *s & START_BIT != 0).count();
    let finishes = maze.as_slice().iter().filter(|s| *s & FINISH_BIT != 0).count();
    assert_eq!(starts, 1);
    assert_eq!(finishes, 4);
    assert!(maze.get(start.row, start.col) & START_BIT != 0);
    assert_eq!(maze.solve_history.len(), 5);
    assert_eq!(maze.solve_history.index(0).id, start);
    for k in 0..5 {
        let d = maze.solve_history.index(k);
        let i = (d.id.row * maze.cols() + d.id.col) as usize;
        assert_eq!(d.before, before[i]);
        assert_eq!(d.after, before[i] | if k == 0 { START_BIT } else { FINISH_BIT });
        assert_eq!(d.burst, BURST);
    }
}

#[test]
fn corner_setup_records_thirteen_writes_in_order() {
    let mut maze = fresh(11, 21);
    recursive_backtracker::generate_maze(&mut maze);
    let starts = corner_setup(&mut maze, true, BURST).unwrap();
    assert_eq!(maze.solve_history.len(), 13);
    let mid = Point { row: maze.rows() / 2, col: maze.cols() / 2 };
    let dirs = [(1, 0), (1, 1), (0, 1), (-1, 1), (-1, 0), (-1, -1), (0, -1), (1, -1)];
    for (i, (dr, dc)) in dirs.iter().enumerate() {
        let p = Point { row: mid.row + dr, col: mid.col + dc };
        assert!(maze.path_at(p.row, p.col));
        let d = maze.solve_history.index(4 + i);
        assert_eq!(d.id, p);
        assert_eq!(d.after, (d.before & !maze_tui::maze::WALL_MASK) | maze_tui::maze::PATH_BIT);
    }
    let last = maze.solve_history.index(12);
    assert_eq!(last.id, mid);
    assert!(last.after & FINISH_BIT != 0);
    for k in 0..4 {
        let d = maze.solve_history.index(k);
        assert!(starts.contains(&d.id));
        assert_eq!(d.after, d.before | START_BIT);
    }
    let mut plain = fresh(11, 21);
    recursive_backtracker::generate_maze(&mut plain);
    assert!(corner_setup(&mut plain, false, BURST).is_some());
    assert_eq!(plain.solve_history.len(), 0);
}

#[test]
fn finish_race_written_without_record_lays_the_path() {
    let mut maze = fresh(11, 21);
    recursive_backtracker::generate_maze(&mut maze);
    let start = hunt_setup(&mut maze, false, BURST).unwrap();
    let mut mon = Monitor::new(maze);
    let g = guide(1, start);
    let mut search = Search::new(start);
    while hunter_step(&mut mon, &mut search, &g, false) {}
    let squares: Vec<u32> = mon.maze.as_slice().to_vec();
    finish_race(&mut mon, false, true, false);
    assert_eq!(mon.maze.solve_history.len(), 0);
    for (p, paint) in mon.win_path.iter() {
        let i = (p.row * mon.maze.cols() + p.col) as usize;
        assert_eq!(mon.maze.as_slice()[i], (squares[i] & !THREAD_MASK) | *paint);
    }
}
