pub mod solve;
pub mod bfs;
pub mod floodfs;
pub mod dfs;
pub mod draw;
