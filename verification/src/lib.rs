pub mod graph;
pub mod bfs;
pub mod symbol_graph;
pub mod stack;
