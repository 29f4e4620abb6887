pub mod navigation;
pub mod navmesh;
pub mod structural_query;
