use std::collections::HashMap;
use voxel_engine::voxel::articulation::find_articulation_points;

fn undirected(edges: &[(u32, u32)]) -> HashMap<u32, Vec<u32>> {
    let mut adj: HashMap<u32, Vec<u32>> = HashMap::new();
    for &(a, b) in edges {
        adj.entry(a).or_default().push(b);
        adj.entry(b).or_default().push(a);
    }
    adj
}

fn points(adj: &HashMap<u32, Vec<u32>>) -> Vec<(u32, u32)> {
    let mut v: Vec<(u32, u32)> = find_articulation_points(adj).iter().map(|p| (p.node, p.disconnect_count)).collect();
    v.sort();
    v
}

#[test]
fn empty_graph_has_no_articulation_points() {
    let adj: HashMap<u32, Vec<u32>> = HashMap::new();
    assert!(find_articulation_points(&adj).is_empty());
}

#[test]
fn path_middle_nodes_are_articulation_points() {
    let adj = undirected(&[(1, 2), (2, 3), (3, 4)]);
    assert_eq!(points(&adj), vec![(2, 1), (3, 1)]);
}

#[test]
fn cycle_has_none() {
    let adj = undirected(&[(1, 2), (2, 3), (3, 4), (4, 1)]);
    assert!(points(&adj).is_empty());
}

#[test]
fn star_center_splits_into_many() {
    let adj = undirected(&[(0, 1), (0, 2), (0, 3), (0, 4)]);
    assert_eq!(points(&adj), vec![(0, 3)]);
}

#[test]
fn two_triangles_joined_at_a_node() {
    let adj = undirected(&[(1, 2), (2, 3), (3, 1), (3, 4), (4, 5), (5, 3)]);
    assert_eq!(points(&adj), vec![(3, 1)]);
}

#[test]
fn nodes_holding_pendants_are_reported() {
    // a cycle 1-2-3-4 with pendants 5 on 1 and 6 on 3
    let adj = undirected(&[(1, 2), (2, 3), (3, 4), (4, 1), (1, 5), (3, 6)]);
    assert_eq!(points(&adj), vec![(1, 1), (3, 1)]);
}

#[test]
fn count_is_measured_against_the_pieces_already_there() {
    // a path 1-2-3 beside a node 9 with no neighbours: removing 2 turns
    // two pieces into three
    let mut adj = undirected(&[(1, 2), (2, 3)]);
    adj.insert(9, Vec::new());
    assert_eq!(points(&adj), vec![(2, 1)]);
}

#[test]
fn removing_an_isolated_node_splits_nothing() {
    let mut adj: HashMap<u32, Vec<u32>> = HashMap::new();
    adj.insert(4, Vec::new());
    adj.insert(7, Vec::new());
    assert!(points(&adj).is_empty());
}

#[test]
fn shared_node_of_two_triangles_is_reported() {
    let adj = undirected(&[(0, 1), (1, 2), (2, 0), (0, 3), (3, 4), (4, 0)]);
    assert_eq!(points(&adj), vec![(0, 1)]);
}
