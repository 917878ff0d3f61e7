pub mod build_ops;
pub mod arena;
pub mod modify;
pub mod cells;
pub mod recursive_backtracker;
pub mod hunt_kill;
pub mod grid;
pub mod prim;
pub mod disjoint;
pub mod kruskal;
pub mod recursive_subdivision;
pub mod eller;
pub mod wilson_adder;
pub mod draw;
