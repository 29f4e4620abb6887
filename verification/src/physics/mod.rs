pub mod graph_coloring;
pub mod culling;
pub mod sleeping;
pub mod cloth;
pub mod lra;
