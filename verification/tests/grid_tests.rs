use voxel_engine::voxel::destruction::remove_box;
use voxel_engine::voxel::grid::VoxelGrid;
use voxel_engine::voxel::mip::generate_mip;

fn grid_with(w: u32, h: u32, d: u32, cells: &[(u32, u32, u32, u8)]) -> VoxelGrid {
    let mut g = VoxelGrid::new(w, h, d);
    for &(x, y, z, v) in cells {
        g.set(x, y, z, v);
    }
    g
}

#[test]
fn new_grid_is_all_air() {
    let g = VoxelGrid::new(3, 4, 5);
    assert_eq!(g.dimensions(), (3, 4, 5));
    assert_eq!(g.data().len(), 60);
    assert!(g.data().iter().all(|&v| v == 0));
    assert_eq!(g.count_nonempty(), 0);
    assert_eq!(g.bounding_box_of_nonempty(), None);
}

#[test]
fn set_then_get_reads_back_the_write() {
    let mut g = VoxelGrid::new(4, 4, 4);
    g.set(1, 2, 3, 7);
    assert_eq!(g.get(1, 2, 3), Some(7));
    assert_eq!(g.get(3, 2, 1), Some(0));
    g.set(1, 2, 3, 9);
    assert_eq!(g.get(1, 2, 3), Some(9));
}

#[test]
fn out_of_range_get_is_none_and_set_is_ignored() {
    let mut g = VoxelGrid::new(2, 2, 2);
    assert_eq!(g.get(2, 0, 0), None);
    assert_eq!(g.get(0, 5, 0), None);
    g.set(5, 5, 5, 3);
    assert_eq!(g.count_nonempty(), 0);
}

#[test]
fn cell_index_is_layered_x_fastest() {
    let g = VoxelGrid::new(3, 4, 5);
    assert_eq!(g.cell_index(0, 0, 0), 0);
    assert_eq!(g.cell_index(2, 0, 0), 2);
    assert_eq!(g.cell_index(0, 1, 0), 3);
    assert_eq!(g.cell_index(0, 0, 1), 12);
    assert_eq!(g.cell_index(2, 3, 4), 59);
    let mut g2 = VoxelGrid::new(3, 4, 5);
    g2.set(2, 3, 4, 1);
    assert_eq!(g2.data()[59], 1);
}

#[test]
fn count_and_bounding_box() {
    let g = grid_with(5, 5, 5, &[(1, 2, 3, 1), (3, 0, 1, 4), (2, 4, 2, 2)]);
    assert_eq!(g.count_nonempty(), 3);
    assert_eq!(g.bounding_box_of_nonempty(), Some(((1, 0, 1), (3, 4, 3))));
}

#[test]
fn remove_box_clears_and_counts() {
    let mut g = grid_with(4, 4, 4, &[(0, 0, 0, 1), (1, 1, 1, 2), (3, 3, 3, 3), (2, 1, 1, 5)]);
    let removed = remove_box(&mut g, (1, 1, 1), (2, 2, 2));
    assert_eq!(removed, 2);
    assert_eq!(g.get(1, 1, 1), Some(0));
    assert_eq!(g.get(2, 1, 1), Some(0));
    assert_eq!(g.get(0, 0, 0), Some(1));
    assert_eq!(g.get(3, 3, 3), Some(3));
    assert_eq!(g.count_nonempty(), 2);
}

#[test]
fn remove_box_clamps_to_grid() {
    let mut g = grid_with(3, 3, 3, &[(2, 2, 2, 1), (0, 0, 0, 1)]);
    let removed = remove_box(&mut g, (1, 1, 1), (100, 100, 100));
    assert_eq!(removed, 1);
    assert_eq!(g.get(0, 0, 0), Some(1));
    assert_eq!(remove_box(&mut g, (1, 1, 1), (100, 100, 100)), 0);
}

#[test]
fn mip_takes_block_maximum() {
    // 3x2x2 grid, stride 2 -> 2x1x1 mip
    let mut data = vec![0u8; 12];
    data[0] = 3; // (0,0,0)
    data[4] = 9; // (1,1,0)
    data[2] = 5; // (2,0,0)
    data[11] = 1; // (2,1,1)
    let (mip, w, h, d) = generate_mip(&data, 3, 2, 2, 2);
    assert_eq!((w, h, d), (2, 1, 1));
    assert_eq!(mip, vec![9, 5]);
}

#[test]
fn mip_of_stride_one_is_a_copy() {
    let data: Vec<u8> = (0..8).collect();
    let (mip, w, h, d) = generate_mip(&data, 2, 2, 2, 1);
    assert_eq!((w, h, d), (2, 2, 2));
    assert_eq!(mip, data);
}

#[test]
fn mip_of_a_volume_without_layers_is_empty() {
    let data: Vec<u8> = Vec::new();
    let (mip, w, h, d) = generate_mip(&data, 5, 3, 0, 2);
    assert_eq!((w, h, d), (3, 2, 0));
    assert!(mip.is_empty());
}

#[test]
fn two_halvings_equal_one_quartering() {
    // a 5x6x3 volume with a few scattered values
    let (w, h, d) = (5u32, 6u32, 3u32);
    let mut data = vec![0u8; (w * h * d) as usize];
    for (i, v) in [(7usize, 4u8), (31, 9), (44, 2), (58, 6), (89, 3)] {
        data[i] = v;
    }
    let (m1, w1, h1, d1) = generate_mip(&data, w, h, d, 2);
    let two = generate_mip(&m1, w1, h1, d1, 2);
    let four = generate_mip(&data, w, h, d, 4);
    assert_eq!(two, four);
}
