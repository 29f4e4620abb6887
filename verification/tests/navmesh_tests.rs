use voxel_engine::ai::navmesh::NavMesh;
use voxel_engine::voxel::grid::VoxelGrid;

/// An 8x2x8 grid whose floor is solid except for the cells in `holes`.
fn floor_grid(holes: &[(u32, u32)]) -> VoxelGrid {
    let mut g = VoxelGrid::new(8, 2, 8);
    for z in 0..8 {
        for x in 0..8 {
            if !holes.contains(&(x, z)) {
                g.set(x, 0, z, 1);
            }
        }
    }
    g
}

fn mesh_for(g: &VoxelGrid) -> NavMesh {
    let mut m = NavMesh::new(4, 2);
    for tz in 0..2 {
        for tx in 0..2 {
            m.build_tile(g, tx, tz);
        }
    }
    m
}

fn is_valid_walk(m: &NavMesh, path: &[(u32, u32)], start: (u32, u32), goal: (u32, u32)) -> bool {
    if path.first() != Some(&start) || path.last() != Some(&goal) {
        return false;
    }
    path.iter().all(|&(x, z)| m.is_walkable(x, z))
        && path.windows(2).all(|w| {
            let (a, b) = (w[0], w[1]);
            let dx = (a.0 as i64 - b.0 as i64).abs();
            let dz = (a.1 as i64 - b.1 as i64).abs();
            dx + dz == 1
        })
}

#[test]
fn walkability_follows_solid_columns() {
    let g = floor_grid(&[(2, 3)]);
    let m = mesh_for(&g);
    assert!(m.is_walkable(0, 0));
    assert!(m.is_walkable(7, 7));
    assert!(!m.is_walkable(2, 3));
    // beyond the built tiles
    assert!(!m.is_walkable(8, 0));
    assert!(!m.is_walkable(0, 100));
}

#[test]
fn unbuilt_mesh_walks_nowhere() {
    let m = NavMesh::new(4, 2);
    assert!(!m.is_walkable(0, 0));
    assert_eq!(m.find_path((0, 0), (1, 0)), None);
}

#[test]
fn straight_path_has_manhattan_length() {
    let g = floor_grid(&[]);
    let m = mesh_for(&g);
    let p = m.find_path((0, 0), (5, 3)).expect("path");
    assert!(is_valid_walk(&m, &p, (0, 0), (5, 3)));
    assert_eq!(p.len(), 9);
}

#[test]
fn path_to_self_is_one_waypoint() {
    let g = floor_grid(&[]);
    let m = mesh_for(&g);
    assert_eq!(m.find_path((3, 3), (3, 3)), Some(vec![(3, 3)]));
}

#[test]
fn path_goes_around_a_wall() {
    // wall of holes at x = 3 for z in 0..7, gap at z = 7
    let holes: Vec<(u32, u32)> = (0..7).map(|z| (3, z)).collect();
    let g = floor_grid(&holes);
    let m = mesh_for(&g);
    let p = m.find_path((0, 0), (6, 0)).expect("path");
    assert!(is_valid_walk(&m, &p, (0, 0), (6, 0)));
    assert!(p.contains(&(3, 7)));
    assert_eq!(p.len(), 21);
}

#[test]
fn unwalkable_ends_and_unreachable_goals_give_none() {
    let holes: Vec<(u32, u32)> = (0..8).map(|z| (3, z)).collect();
    let g = floor_grid(&holes);
    let m = mesh_for(&g);
    assert_eq!(m.find_path((3, 0), (0, 0)), None);
    assert_eq!(m.find_path((0, 0), (3, 5)), None);
    assert_eq!(m.find_path((0, 0), (6, 0)), None);
}

#[test]
fn rebuild_after_destruction_updates_walkability() {
    let mut g = floor_grid(&[]);
    let mut m = mesh_for(&g);
    assert!(m.is_walkable(1, 1));
    g.set(1, 0, 1, 0);
    m.mark_dirty(0, 0);
    m.build_tile(&g, 0, 0);
    assert!(!m.is_walkable(1, 1));
    assert!(m.is_walkable(2, 1));
}
