[package]
name = "voxel_engine"
version = "0.1.0"
edition = "2021"
publish = false

[dependencies]
dot_vox = "5"
anyhow = "1"
glam = "0.29"
