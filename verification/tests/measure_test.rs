use maze_tui::builders::{arena, recursive_backtracker};
use maze_tui::maze::{Maze, MazeArgs, MazeStyle, Offset, Point};
use maze_tui::measure::{center_point, measure_distance_from_center, measure_run_lengths, next_run_length};
use maze_tui::painters::MEASURED;

fn fresh(rows: i32, cols: i32) -> Maze {
    Maze::new(MazeArgs {
        odd_rows: rows,
        odd_cols: cols,
        offset: Offset { add_rows: 0, add_cols: 0 },
        style: MazeStyle::Sharp,
    })
}

#[test]
fn center_is_an_odd_square_near_the_middle() {
    let maze = fresh(11, 21);
    assert_eq!(center_point(&maze), Point { row: 5, col: 11 });
    let maze = fresh(9, 13);
    assert_eq!(center_point(&maze), Point { row: 5, col: 7 });
}

#[test]
fn distances_in_an_open_arena_are_manhattan() {
    let mut maze = fresh(7, 9);
    arena::generate_maze(&mut maze);
    let map = measure_distance_from_center(&mut maze);
    let start = center_point(&maze);
    assert_eq!(map.distances[0], (start, 0));
    assert_eq!(map.distances.len(), 5 * 7);
    for (p, d) in map.distances.iter() {
        let manhattan = (p.row - start.row).abs() + (p.col - start.col).abs();
        assert_eq!(*d, manhattan as u64);
        assert!(maze.get(p.row, p.col) & MEASURED != 0);
    }
    assert_eq!(start, Point { row: 3, col: 5 });
    assert_eq!(map.max, 2 + 4);
}

#[test]
fn distances_reach_every_path_square_of_a_perfect_maze() {
    let mut maze = fresh(11, 21);
    recursive_backtracker::generate_maze(&mut maze);
    let map = measure_distance_from_center(&mut maze);
    let mut paths = 0;
    for r in 0..maze.rows() {
        for c in 0..maze.cols() {
            if maze.path_at(r, c) {
                paths += 1;
                assert!(maze.get(r, c) & MEASURED != 0);
            }
        }
    }
    assert_eq!(map.distances.len(), paths);
    assert!(map.distances.iter().all(|e| e.1 <= map.max));
    assert!(map.distances.iter().any(|e| e.1 == map.max));
}

#[test]
fn run_lengths_restart_at_turns() {
    let mut maze = fresh(7, 9);
    arena::generate_maze(&mut maze);
    let map = measure_run_lengths(&mut maze);
    let start = center_point(&maze);
    assert_eq!(map.distances[0], (start, 0));
    assert_eq!(map.distances.len(), 5 * 7);
    for (p, d) in map.distances.iter() {
        if p.row == start.row && p.col != start.col {
            assert_eq!(*d, (p.col - start.col).abs() as u64);
        }
        if p.col == start.col && p.row != start.row {
            assert_eq!(*d, (p.row - start.row).abs() as u64);
        }
    }
    assert!(map.distances.iter().all(|e| e.1 <= map.max));
}

#[test]
fn next_run_length_turns_and_goes_straight() {
    let prev = Point { row: 1, col: 1 };
    assert_eq!(next_run_length(prev, Point { row: 1, col: 3 }, 4), 5);
    assert_eq!(next_run_length(prev, Point { row: 2, col: 2 }, 4), 1);
    assert_eq!(next_run_length(prev, Point { row: 3, col: 1 }, 0), 1);
}

#[test]
fn neighboring_distances_differ_by_at_most_one() {
    let mut maze = fresh(11, 21);
    recursive_backtracker::generate_maze(&mut maze);
    let map = measure_distance_from_center(&mut maze);
    for (p, d) in map.distances.iter() {
        for (q, e) in map.distances.iter() {
            let steps = (p.row - q.row).abs() + (p.col - q.col).abs();
            if steps == 1 {
                assert!(*e <= *d + 1 && *d <= *e + 1);
            }
        }
        if *d > 0 {
            assert!(map
                .distances
                .iter()
                .any(|(q, e)| (p.row - q.row).abs() + (p.col - q.col).abs() == 1 && *e + 1 == *d));
        }
    }
}

fn earliest_neighbor(e: &[(Point, u64)], k: usize) -> usize {
    let p = e[k].0;
    (0..k)
        .find(|&j| (e[j].0.row - p.row).abs() + (e[j].0.col - p.col).abs() == 1)
        .unwrap()
}

#[test]
fn each_value_follows_from_the_earliest_neighbor() {
    let mut maze = fresh(11, 21);
    recursive_backtracker::generate_maze(&mut maze);
    let dist = measure_distance_from_center(&mut maze).distances;
    for k in 1..dist.len() {
        assert_eq!(dist[k].1, dist[earliest_neighbor(&dist, k)].1 + 1);
    }
    let mut maze = fresh(11, 21);
    recursive_backtracker::generate_maze(&mut maze);
    let runs = measure_run_lengths(&mut maze).distances;
    for k in 1..runs.len() {
        let j = earliest_neighbor(&runs, k);
        let from = if j == 0 { runs[0].0 } else { runs[earliest_neighbor(&runs, j)].0 };
        assert_eq!(runs[k].1, next_run_length(from, runs[k].0, runs[j].1));
    }
}
