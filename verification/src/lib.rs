pub mod ai;
pub mod compute;
pub mod fluid;
pub mod physics;
pub mod render;
pub mod scene;
pub mod terrain_compute;
pub mod voxel;
