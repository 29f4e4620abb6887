pub mod grid;
pub mod topology;
pub mod connectivity;
pub mod cluster_graph;
pub mod coarse_narrow;
pub mod splitting;
pub mod destruction;
pub mod mip;
pub mod material;
pub mod svdag;
pub mod vox_import;
pub mod raycast;
pub mod articulation;
pub mod structural;
