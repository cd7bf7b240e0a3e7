//! Graph data types and algorithms with verified contracts.
pub mod directedness;
pub mod edge;
pub mod view;
pub mod graph;
pub mod property;
pub mod adjacency_list;
pub mod algo;
pub mod constraint;
pub mod vertex_map;
pub mod deref_graph;
pub mod ensured;
pub mod counts;
