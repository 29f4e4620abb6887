use voxel_engine::voxel::grid::VoxelGrid;
use voxel_engine::voxel::svdag::{next_pow2, Svdag};

#[test]
fn next_pow2_values() {
    assert_eq!(next_pow2(0), 1);
    assert_eq!(next_pow2(1), 1);
    assert_eq!(next_pow2(2), 2);
    assert_eq!(next_pow2(3), 4);
    assert_eq!(next_pow2(17), 32);
    assert_eq!(next_pow2(64), 64);
}

#[test]
fn query_matches_grid_everywhere() {
    let mut g = VoxelGrid::new(5, 3, 4);
    let solids = [(0, 0, 0), (4, 2, 3), (2, 1, 1), (3, 0, 2), (1, 2, 0)];
    for &(x, y, z) in &solids {
        g.set(x, y, z, 1);
    }
    let dag = Svdag::from_grid(&g);
    for z in 0..10 {
        for y in 0..10 {
            for x in 0..10 {
                let expected = matches!(g.get(x, y, z), Some(v) if v != 0);
                assert_eq!(dag.query(x, y, z), expected, "at {:?}", (x, y, z));
            }
        }
    }
}

#[test]
fn empty_and_full_grids_share_nodes() {
    let empty = VoxelGrid::new(8, 8, 8);
    let dag = Svdag::from_grid(&empty);
    // one empty leaf, one internal node per level above it
    assert_eq!(dag.node_count(), 3);
    assert!(!dag.query(3, 3, 3));

    let mut full = VoxelGrid::new(4, 4, 4);
    for z in 0..4 {
        for y in 0..4 {
            for x in 0..4 {
                full.set(x, y, z, 2);
            }
        }
    }
    let dag_full = Svdag::from_grid(&full);
    assert_eq!(dag_full.node_count(), 2);
    assert!(dag_full.query(0, 0, 0));
    assert!(dag_full.query(3, 3, 3));
    assert!(!dag_full.query(4, 0, 0));
}

#[test]
fn leaf_bits_follow_the_documented_layout() {
    let mut g = VoxelGrid::new(2, 2, 2);
    g.set(1, 0, 1, 5);
    let dag = Svdag::from_grid(&g);
    assert_eq!(dag.node_count(), 1);
    assert!(dag.query(1, 0, 1));
    assert!(!dag.query(0, 1, 0));
}
