pub mod dijkstra;
pub mod kmp;
pub mod lis;
pub mod matrix;
pub mod segment_tree;
