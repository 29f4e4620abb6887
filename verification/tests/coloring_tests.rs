use std::collections::HashMap;
use voxel_engine::physics::graph_coloring::greedy_color;

fn undirected(edges: &[(u32, u32)], nodes: &[u32]) -> HashMap<u32, Vec<u32>> {
    let mut adj: HashMap<u32, Vec<u32>> = HashMap::new();
    for &n in nodes {
        adj.entry(n).or_default();
    }
    for &(a, b) in edges {
        adj.entry(a).or_default().push(b);
        adj.entry(b).or_default().push(a);
    }
    adj
}

fn is_proper(adj: &HashMap<u32, Vec<u32>>, colors: &HashMap<u32, u32>) -> bool {
    adj.iter().all(|(u, nbs)| nbs.iter().all(|v| v == u || colors[u] != colors[v]))
}

#[test]
fn empty_graph_has_no_colors() {
    let adj: HashMap<u32, Vec<u32>> = HashMap::new();
    let r = greedy_color(&adj);
    assert_eq!(r.num_colors(), 0);
    assert!(r.assignments().is_empty());
    assert_eq!(r.color_of(1), None);
}

#[test]
fn isolated_nodes_all_get_color_zero() {
    let adj = undirected(&[], &[1, 2, 3]);
    let r = greedy_color(&adj);
    assert_eq!(r.num_colors(), 1);
    for n in [1, 2, 3] {
        assert_eq!(r.color_of(n), Some(0));
    }
}

#[test]
fn triangle_needs_three_colors() {
    let adj = undirected(&[(1, 2), (2, 3), (3, 1)], &[]);
    let r = greedy_color(&adj);
    assert_eq!(r.num_colors(), 3);
    assert!(is_proper(&adj, r.assignments()));
}

#[test]
fn star_center_is_colored_first() {
    // the hub has the highest degree, so it is colored first with 0
    let adj = undirected(&[(10, 1), (10, 2), (10, 3), (10, 4)], &[]);
    let r = greedy_color(&adj);
    assert_eq!(r.color_of(10), Some(0));
    for n in 1..5 {
        assert_eq!(r.color_of(n), Some(1));
    }
    assert_eq!(r.num_colors(), 2);
}

#[test]
fn coloring_is_proper_on_a_grid_graph() {
    let mut edges = Vec::new();
    for y in 0..5u32 {
        for x in 0..5u32 {
            let id = y * 5 + x;
            if x + 1 < 5 {
                edges.push((id, id + 1));
            }
            if y + 1 < 5 {
                edges.push((id, id + 5));
            }
        }
    }
    let adj = undirected(&edges, &[]);
    let r = greedy_color(&adj);
    assert_eq!(r.assignments().len(), 25);
    assert!(is_proper(&adj, r.assignments()));
    let max = r.assignments().values().copied().max().unwrap();
    assert_eq!(r.num_colors(), max + 1);
    assert!(r.num_colors() <= 5);
}

#[test]
fn neighbors_outside_the_keys_are_ignored() {
    let mut adj: HashMap<u32, Vec<u32>> = HashMap::new();
    adj.insert(1, vec![99]);
    let r = greedy_color(&adj);
    assert_eq!(r.color_of(1), Some(0));
    assert_eq!(r.color_of(99), None);
    assert_eq!(r.num_colors(), 1);
}
