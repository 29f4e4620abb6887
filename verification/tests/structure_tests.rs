use std::collections::HashSet;

use voxel_engine::ai::navigation::is_walkable;
use voxel_engine::ai::structural_query::graph_to_adj;
use voxel_engine::fluid::erosion::{surface_height, top_solid_voxel};
use voxel_engine::physics::lra::lra_attachments;
use voxel_engine::voxel::cluster_graph::ClusterGraph;
use voxel_engine::voxel::coarse_narrow::coarse_connected_components;
use voxel_engine::voxel::grid::VoxelGrid;
use voxel_engine::voxel::structural::{cluster_voxels, support_order};

fn grid_with(w: u32, h: u32, d: u32, cells: &[(u32, u32, u32, u8)]) -> VoxelGrid {
    let mut g = VoxelGrid::new(w, h, d);
    for &(x, y, z, v) in cells {
        g.set(x, y, z, v);
    }
    g
}

#[test]
fn walkable_needs_floor_and_headroom() {
    // column x=0: floor at y=0, ceiling at y=3
    let g = grid_with(2, 5, 1, &[(0, 0, 0, 1), (0, 3, 0, 1), (1, 0, 0, 1)]);
    assert!(is_walkable(&g, 0, 0, 0, 2));
    assert!(!is_walkable(&g, 0, 0, 0, 3));
    // no floor
    assert!(!is_walkable(&g, 0, 1, 0, 1));
    // open sky above the grid counts as free
    assert!(is_walkable(&g, 1, 0, 0, 10));
    // a floor cell outside the grid counts as solid; the sky above is free
    assert!(is_walkable(&g, 0, 7, 0, 3));
    // zero headroom only needs the floor
    assert!(is_walkable(&g, 0, 3, 0, 0));
}

#[test]
fn walkable_blocked_by_cells_outside_the_grid() {
    let g = grid_with(1, 4, 1, &[]);
    // x outside: floor counts as solid, but the cell above is outside too
    assert!(!is_walkable(&g, 5, 0, 0, 1));
}

#[test]
fn top_solid_and_surface_height() {
    let g = grid_with(3, 6, 1, &[(0, 1, 0, 2), (0, 4, 0, 3), (1, 0, 0, 1)]);
    assert_eq!(top_solid_voxel(&g, 0, 0), Some(4));
    assert_eq!(top_solid_voxel(&g, 1, 0), Some(0));
    assert_eq!(top_solid_voxel(&g, 2, 0), None);
    assert_eq!(surface_height(&g, 0, 0), 5);
    assert_eq!(surface_height(&g, 1, 0), 1);
    assert_eq!(surface_height(&g, 2, 0), 0);
}

#[test]
fn adjacency_numbers_nodes_by_position() {
    // three clusters in a row along x, cluster size 2
    let g = grid_with(6, 2, 2, &[(1, 0, 0, 1), (2, 0, 0, 1), (3, 0, 0, 1), (4, 0, 0, 1)]);
    let graph = ClusterGraph::build(&g, 2);
    let adj = graph_to_adj(&graph);
    let nodes = graph.nodes();
    assert_eq!(adj.len(), nodes.len());
    assert_eq!(nodes.len(), 3);
    for (i, &a) in nodes.iter().enumerate() {
        let expected: HashSet<u32> = graph
            .neighbors(a)
            .iter()
            .map(|n| nodes.iter().position(|m| m == n).unwrap() as u32)
            .collect();
        let got: HashSet<u32> = adj[&(i as u32)].iter().copied().collect();
        assert_eq!(got, expected);
        assert_eq!(got.len(), adj[&(i as u32)].len());
    }
    let ends = adj.values().filter(|l| l.len() == 1).count();
    let middle = adj.values().filter(|l| l.len() == 2).count();
    assert_eq!((ends, middle), (2, 1));
}

#[test]
fn support_order_is_breadth_first_from_sources() {
    // a column of three clusters on top of each other, plus a detached one
    let g = grid_with(
        4,
        6,
        2,
        &[(0, 0, 0, 1), (0, 1, 0, 1), (0, 2, 0, 1), (0, 3, 0, 1), (0, 4, 0, 1), (3, 5, 1, 1)],
    );
    let graph = ClusterGraph::build(&g, 2);
    let order = support_order(&graph, &[(0, 0, 0)]);
    assert_eq!(order, vec![(0, 0, 0), (0, 1, 0), (0, 2, 0)]);
    let all = support_order(&graph, &[(1, 2, 0), (0, 0, 0), (1, 2, 0)]);
    assert_eq!(all, vec![(1, 2, 0), (0, 0, 0), (0, 1, 0), (0, 2, 0)]);
    assert!(support_order(&graph, &[]).is_empty());
}

#[test]
fn cluster_voxels_scans_x_then_y_then_z() {
    let g = grid_with(
        4,
        4,
        4,
        &[(1, 0, 0, 5), (0, 1, 0, 6), (0, 0, 1, 7), (1, 1, 1, 8), (2, 0, 0, 9), (3, 3, 3, 4)],
    );
    assert_eq!(cluster_voxels(&g, 2, (0, 0, 0)), vec![5, 6, 7, 8]);
    assert_eq!(cluster_voxels(&g, 2, (1, 0, 0)), vec![9]);
    assert_eq!(cluster_voxels(&g, 2, (1, 1, 1)), vec![4]);
    // a cluster cut at the grid's edge
    assert_eq!(cluster_voxels(&g, 3, (1, 1, 1)), vec![4]);
    assert!(cluster_voxels(&g, 2, (0, 1, 1)).is_empty());
    // a cluster outside the grid holds nothing
    assert!(cluster_voxels(&g, 2, (5, 0, 0)).is_empty());
}

#[test]
fn lra_finds_nearest_pin_and_steps() {
    // 4 x 3 grid, top row pinned
    let width = 4;
    let height = 3;
    let mut pinned = vec![false; width * height];
    for x in 0..width {
        pinned[x] = true;
    }
    let lra = lra_attachments(width, height, &pinned);
    assert_eq!(lra.len(), 8);
    for &(v, pin, steps) in &lra {
        assert!(!pinned[v]);
        assert!(pinned[pin]);
        assert_eq!(pin, v % width);
        assert_eq!(steps, v / width);
    }
    let vertices: Vec<usize> = lra.iter().map(|e| e.0).collect();
    assert_eq!(vertices, (4..12).collect::<Vec<usize>>());
}

#[test]
fn lra_single_pin_uses_grid_distance() {
    let mut pinned = vec![false; 9];
    pinned[4] = true;
    let lra = lra_attachments(3, 3, &pinned);
    assert_eq!(
        lra,
        vec![(0, 4, 2), (1, 4, 1), (2, 4, 2), (3, 4, 1), (5, 4, 1), (6, 4, 2), (7, 4, 1), (8, 4, 2)]
    );
}

#[test]
fn lra_without_pins_is_empty() {
    assert!(lra_attachments(3, 2, &vec![false; 6]).is_empty());
    assert!(lra_attachments(0, 5, &[]).is_empty());
}

#[test]
fn removal_splits_the_coarse_graph() {
    let g = grid_with(6, 2, 2, &[(1, 0, 0, 1), (2, 0, 0, 1), (3, 0, 0, 1), (4, 0, 0, 1)]);
    let graph = ClusterGraph::build(&g, 2);
    assert_eq!(coarse_connected_components(&graph).len(), 1);
    let cut = graph.without(&[(1, 0, 0)]);
    let comps = coarse_connected_components(&cut);
    assert_eq!(comps.len(), 2);
    let mut firsts: Vec<(u32, u32, u32)> = comps.iter().map(|c| c[0]).collect();
    firsts.sort();
    assert_eq!(firsts, vec![(0, 0, 0), (2, 0, 0)]);
}

#[test]
fn support_order_finishes_a_layer_before_the_next() {
    // a bar along x through clusters (0,0,0), (1,0,0), (2,0,0), and a
    // column on (0,0,0) up into (0,1,0); the search starts in the middle
    let g = grid_with(
        6,
        4,
        2,
        &[(0, 0, 0, 1), (1, 0, 0, 1), (2, 0, 0, 1), (3, 0, 0, 1), (4, 0, 0, 1), (5, 0, 0, 1), (0, 1, 0, 1), (0, 2, 0, 1), (0, 3, 0, 1)],
    );
    let graph = ClusterGraph::build(&g, 2);
    let order = support_order(&graph, &[(1, 0, 0)]);
    assert_eq!(order.len(), 4);
    assert_eq!(order[0], (1, 0, 0));
    let second: HashSet<(u32, u32, u32)> = order[1..3].iter().copied().collect();
    assert_eq!(second, [(0, 0, 0), (2, 0, 0)].into_iter().collect());
    assert_eq!(order[3], (0, 1, 0));
}
