//! A collection of graph algorithm implementations.
pub mod dfs;
pub mod bfs;
pub mod retain;
pub mod search;
pub mod reach;
pub mod tarjan_scc;
pub mod dijkstra_shortest_paths;
