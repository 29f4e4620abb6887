use voxel_engine::voxel::cluster_graph::ClusterGraph;
use voxel_engine::voxel::coarse_narrow::coarse_then_narrow_components;
use voxel_engine::voxel::connectivity::{find_anchored_and_fragments, find_connected_components, ground_anchors};
use voxel_engine::voxel::grid::VoxelGrid;
use voxel_engine::voxel::splitting::split_into_fragments;

fn grid_with(w: u32, h: u32, d: u32, cells: &[(u32, u32, u32)]) -> VoxelGrid {
    let mut g = VoxelGrid::new(w, h, d);
    for &(x, y, z) in cells {
        g.set(x, y, z, 1);
    }
    g
}

fn sorted(mut v: Vec<(u32, u32, u32)>) -> Vec<(u32, u32, u32)> {
    v.sort_by_key(|&(x, y, z)| (z, y, x));
    v
}

#[test]
fn two_separate_blobs_are_two_components() {
    let g = grid_with(5, 1, 1, &[(0, 0, 0), (1, 0, 0), (3, 0, 0), (4, 0, 0)]);
    let comps = find_connected_components(&g);
    assert_eq!(comps.len(), 2);
    assert_eq!(sorted(comps[0].clone()), vec![(0, 0, 0), (1, 0, 0)]);
    assert_eq!(sorted(comps[1].clone()), vec![(3, 0, 0), (4, 0, 0)]);
}

#[test]
fn diagonal_voxels_are_not_connected() {
    let g = grid_with(2, 2, 1, &[(0, 0, 0), (1, 1, 0)]);
    assert_eq!(find_connected_components(&g).len(), 2);
}

#[test]
fn empty_grid_has_no_components() {
    let g = VoxelGrid::new(3, 3, 3);
    assert!(find_connected_components(&g).is_empty());
    assert!(split_into_fragments(&g, 1).is_empty());
}

#[test]
fn components_partition_the_solid_voxels() {
    let cells = [(0, 0, 0), (0, 1, 0), (2, 2, 2), (2, 2, 1), (0, 2, 2)];
    let g = grid_with(3, 3, 3, &cells);
    let comps = find_connected_components(&g);
    let mut all: Vec<_> = comps.iter().flatten().copied().collect();
    all = sorted(all);
    assert_eq!(all, sorted(cells.to_vec()));
    assert_eq!(comps.len(), 3);
}

#[test]
fn ground_anchors_are_bottom_layer_solids() {
    let g = grid_with(3, 2, 2, &[(0, 0, 0), (2, 0, 1), (1, 1, 0)]);
    assert_eq!(ground_anchors(&g), vec![(0, 0, 0), (2, 0, 1)]);
}

#[test]
fn floating_piece_is_a_fragment() {
    // a pillar on the ground and a detached block above the ground
    let g = grid_with(4, 4, 1, &[(0, 0, 0), (0, 1, 0), (0, 2, 0), (2, 2, 0), (3, 2, 0)]);
    let anchors = ground_anchors(&g);
    let (supported, fragments) = find_anchored_and_fragments(&g, &anchors);
    assert_eq!(sorted(supported), vec![(0, 0, 0), (0, 1, 0), (0, 2, 0)]);
    assert_eq!(fragments.len(), 1);
    assert_eq!(sorted(fragments[0].clone()), vec![(2, 2, 0), (3, 2, 0)]);
}

#[test]
fn split_discards_small_pieces_and_keeps_offsets() {
    let g = grid_with(6, 3, 1, &[(0, 0, 0), (4, 1, 0), (5, 1, 0), (5, 2, 0)]);
    let frags = split_into_fragments(&g, 2);
    assert_eq!(frags.len(), 1);
    let f = &frags[0];
    assert_eq!(f.offset, (4, 1, 0));
    assert_eq!(f.grid.dimensions(), (2, 2, 1));
    assert_eq!(f.grid.get(0, 0, 0), Some(1));
    assert_eq!(f.grid.get(1, 0, 0), Some(1));
    assert_eq!(f.grid.get(1, 1, 0), Some(1));
    assert_eq!(f.grid.get(0, 1, 0), Some(0));
    // min_voxels of 0 behaves like 1
    assert_eq!(split_into_fragments(&g, 0).len(), 2);
}

#[test]
fn cluster_graph_links_touching_clusters() {
    // a bar along x crossing from cluster (0,0,0) into (1,0,0); a lone voxel in (0,1,0)
    let g = grid_with(4, 4, 1, &[(1, 0, 0), (2, 0, 0), (0, 3, 0)]);
    let cg = ClusterGraph::build(&g, 2);
    assert_eq!(cg.cluster_size(), 2);
    assert_eq!(cg.node_count(), 3);
    assert_eq!(cg.edge_count(), 1);
    assert_eq!(cg.edges(), &vec![((0, 0, 0), (1, 0, 0))]);
    assert_eq!(cg.neighbors((0, 0, 0)), vec![(1, 0, 0)]);
    assert!(cg.neighbors((0, 1, 0)).is_empty());
}

#[test]
fn cluster_graph_remove_and_recompute() {
    let mut g = grid_with(4, 2, 1, &[(1, 0, 0), (2, 0, 0)]);
    let mut cg = ClusterGraph::build(&g, 2);
    assert_eq!(cg.edge_count(), 1);
    cg.remove_node((1, 0, 0));
    assert_eq!(cg.node_count(), 1);
    assert_eq!(cg.edge_count(), 0);
    cg.recompute_cluster(&g, (1, 0, 0));
    assert_eq!(cg.node_count(), 2);
    assert_eq!(cg.edge_count(), 1);
    g.set(2, 0, 0, 0);
    cg.recompute_cluster(&g, (1, 0, 0));
    assert_eq!(cg.node_count(), 1);
    assert_eq!(cg.edge_count(), 0);
}

#[test]
fn coarse_then_narrow_counts_components() {
    let g = grid_with(4, 4, 4, &[(0, 0, 0), (3, 3, 3)]);
    let r = coarse_then_narrow_components(&g, 2);
    assert_eq!(r.component_count, 2);
    assert!(!r.used_coarse_shortcut);

    let one = grid_with(4, 4, 4, &[(0, 0, 0), (1, 0, 0)]);
    let r1 = coarse_then_narrow_components(&one, 4);
    assert!(r1.used_coarse_shortcut);
    assert_eq!(r1.component_count, 1);

    let empty = VoxelGrid::new(4, 4, 4);
    let r0 = coarse_then_narrow_components(&empty, 2);
    assert!(r0.used_coarse_shortcut);
    assert_eq!(r0.component_count, 0);
}

#[test]
fn coarse_then_narrow_agrees_with_flood_fill() {
    let g = grid_with(6, 6, 2, &[(0, 0, 0), (1, 0, 0), (1, 1, 0), (4, 4, 1), (5, 5, 1), (5, 4, 1), (3, 0, 0)]);
    let direct = find_connected_components(&g).len();
    for cs in 1..5 {
        assert_eq!(coarse_then_narrow_components(&g, cs).component_count, direct);
    }
}

#[test]
fn grid_without_layers_has_no_ground_anchors() {
    let g = VoxelGrid::new(2, 0, 2);
    assert!(ground_anchors(&g).is_empty());
}

#[test]
fn without_a_solid_anchor_the_fragments_are_the_components() {
    let cells = [(0, 0, 0), (0, 1, 0), (2, 2, 2), (2, 2, 1), (0, 2, 2)];
    let g = grid_with(3, 3, 3, &cells);
    let (sup, frs) = find_anchored_and_fragments(&g, &[(1, 1, 1), (2, 0, 0)]);
    assert!(sup.is_empty());
    let comps = find_connected_components(&g);
    let as_sets = |v: &Vec<Vec<(u32, u32, u32)>>| {
        let mut s: Vec<Vec<(u32, u32, u32)>> = v.iter().map(|c| sorted(c.clone())).collect();
        s.sort();
        s
    };
    assert_eq!(as_sets(&frs), as_sets(&comps));
}

#[test]
fn coarse_shortcut_only_for_a_single_cluster() {
    let one = grid_with(4, 4, 4, &[(0, 0, 0), (1, 1, 1)]);
    assert_eq!(ClusterGraph::build(&one, 2).node_count(), 1);
    let r = coarse_then_narrow_components(&one, 2);
    assert!(r.used_coarse_shortcut);
    assert_eq!(r.component_count, 1);
    let two = grid_with(4, 4, 4, &[(0, 0, 0), (3, 3, 3)]);
    assert_eq!(ClusterGraph::build(&two, 2).node_count(), 2);
    let r = coarse_then_narrow_components(&two, 2);
    assert!(!r.used_coarse_shortcut);
    assert_eq!(r.component_count, find_connected_components(&two).len());
}

#[test]
fn recomputing_a_changed_cluster_matches_a_fresh_build() {
    let mut g = grid_with(6, 4, 2, &[(1, 1, 0), (2, 1, 0), (3, 1, 0), (1, 2, 0), (4, 1, 0)]);
    let mut cg = ClusterGraph::build(&g, 2);
    // change only cluster (1, 0, 0): voxels with x in 2..4, y in 0..2
    g.set(2, 1, 0, 0);
    g.set(3, 0, 1, 5);
    cg.recompute_cluster(&g, (1, 0, 0));
    let fresh = ClusterGraph::build(&g, 2);
    let mut a = cg.nodes().clone();
    let mut b = fresh.nodes().clone();
    a.sort();
    b.sort();
    assert_eq!(a, b);
    let mut ea = cg.edges().clone();
    let mut eb = fresh.edges().clone();
    ea.sort();
    eb.sort();
    assert_eq!(ea, eb);
}
