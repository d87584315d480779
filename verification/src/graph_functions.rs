//! The searches.
pub mod astar;
pub mod bfs;
pub mod bfs_order;
pub mod dfs;
pub mod dfs_order;
pub mod dijkstra;
pub mod estimates;
pub mod frontier;
pub mod goal;
pub mod neighbourhood;
pub mod order;
pub mod weighted;
