use vstd::prelude::*;
use crate::maze::{Maze, Point, Square};

verus! {

/// The distance measured to each square reached, and the greatest of them.
pub struct MaxMap {
    pub max: u64,
    pub distances: Vec<(Point, u64)>,
}

impl MaxMap {
    /// A map that has measured only `p`, at `m`.
    pub fn new(p: Point, m: u64) -> (map: MaxMap)
        ensures
            map.max == m,
            map.distances@ == seq![(p, m)],
    {
        let mut distances: Vec<(Point, u64)> = Vec::new();
        distances.push((p, m));
        MaxMap { max: m, distances }
    }
}

impl Default for MaxMap {
    fn default() -> (map: MaxMap)
        ensures
            map.max == 0,
            map.distances@.len() == 0,
    {
        MaxMap { max: 0, distances: Vec::new() }
    }
}

/// What the builders and solvers of one maze share: the maze, the solver
/// that won, the path it won by, a map of distances and a count.
pub struct Monitor {
    pub maze: Maze,
    pub win: Option<usize>,
    pub win_path: Vec<(Point, Square)>,
    pub map: MaxMap,
    pub count: usize,
}

impl Monitor {
    /// A monitor over `maze` with nothing won, no path, an empty map and a
    /// count of zero.
    pub fn new(maze: Maze) -> (m: Monitor)
        ensures
            m.maze == maze,
            m.win is None,
            m.win_path@.len() == 0,
            m.map.max == 0,
            m.map.distances@.len() == 0,
            m.count == 0,
    {
        Monitor { maze, win: None, win_path: Vec::new(), map: MaxMap::default(), count: 0 }
    }
}

} // verus!
