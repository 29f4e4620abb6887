use vstd::prelude::*;
use std::collections::{HashMap, HashSet};
use crate::voxel::grid::VoxelGrid;

verus! {

broadcast use vstd::std_specs::hash::group_hash_axioms;

/// A navmesh tile covering a `tile_size × tile_size` XZ area.
pub struct NavTile {
    pub tile_x: i32,
    pub tile_z: i32,
    /// Walkability of each column, row-major in z then x.
    pub walkable: Vec<bool>,
    pub dirty: bool,
}

/// Tile-based navmesh with incremental rebuild and A* pathfinding.
pub struct NavMesh {
    tiles: HashMap<u64, NavTile>,
    tile_size: usize,
    agent_height: u32,
}

/// Map key of tile `(tx, tz)`.
pub open spec fn tile_key(tx: i32, tz: i32) -> int {
    (tx + 0x8000_0000) * 0x1_0000_0000 + (tz + 0x8000_0000)
}

proof fn lemma_tile_key(tx: i32, tz: i32)
    ensures
        0 <= tile_key(tx, tz) <= u64::MAX,
        tile_key(tx, tz) / 0x1_0000_0000 == tx + 0x8000_0000,
        tile_key(tx, tz) % 0x1_0000_0000 == tz + 0x8000_0000,
{
    let a = tx + 0x8000_0000;
    let b = tz + 0x8000_0000;
    assert(0 <= a * 0x1_0000_0000 <= 0xffff_ffff * 0x1_0000_0000) by (nonlinear_arith)
        requires 0 <= a <= 0xffff_ffff;
    vstd::arithmetic::div_mod::lemma_fundamental_div_mod_converse(tile_key(tx, tz), 0x1_0000_0000, a, b);
}

proof fn lemma_tile_key_injective(a: i32, b: i32, c: i32, d: i32)
    requires
        tile_key(a, b) == tile_key(c, d),
    ensures
        a == c && b == d,
{
    lemma_tile_key(a, b);
    lemma_tile_key(c, d);
}

fn compute_tile_key(tx: i32, tz: i32) -> (k: u64)
    ensures
        k == tile_key(tx, tz),
{
    proof {
        lemma_tile_key(tx, tz);
    }
    let a = (tx as i64 + 0x8000_0000) as u64;
    let b = (tz as i64 + 0x8000_0000) as u64;
    proof {
        assert(a * 0x1_0000_0000 <= 0xffff_ffff * 0x1_0000_0000) by (nonlinear_arith)
            requires a <= 0xffff_ffff;
    }
    a * 0x1_0000_0000 + b
}

/// Grid coordinate where tile index `t` starts: `t * ts`, clamped at 0.
pub open spec fn tile_base(t: i32, ts: int) -> int {
    if t * ts > 0 { t * ts } else { 0 }
}

/// A stored tile sits under its own coordinates and holds one flag per
/// column of a `ts × ts` tile.
pub open spec fn tile_fits(t: Option<NavTile>, tx: i32, tz: i32, ts: int) -> bool {
    match t {
        Some(t) => t.tile_x == tx && t.tile_z == tz && t.walkable@.len() == ts * ts,
        None => true,
    }
}

/// Some cell of column `(x, z)` is solid.
pub open spec fn column_solid(grid: VoxelGrid, x: int, z: int) -> bool {
    exists|y: int| #[trigger] grid.filled(x, y, z)
}

/// The walkability a tile built from `grid` holds: a column is walkable
/// when it has a floor (a solid voxel) with headroom above it.
pub open spec fn built_walkable(grid: VoxelGrid, tx: i32, tz: i32, ts: int) -> Seq<bool> {
    Seq::new((ts * ts) as nat, |i: int| column_solid(grid, tile_base(tx, ts) + i % ts, tile_base(tz, ts) + i / ts))
}

/// Whether column `(gx, gz)` has a floor with `agent_height` cells of
/// headroom: the highest solid voxel is the floor, and the cells above it,
/// up to the agent's height and the top of the grid, must be empty.
fn column_walkable(grid: &VoxelGrid, gx: u32, gz: u32, agent_height: u32) -> (r: bool)
    requires
        grid.wf(),
        gx < grid.spec_width(),
        gz < grid.spec_depth(),
    ensures
        r == column_solid(*grid, gx as int, gz as int),
{
    let (_gw, gh, _gd) = grid.dimensions();
    let mut floor_y: Option<u32> = None;
    let mut y = gh;
    while y > 0
        invariant_except_break
            floor_y is None,
            forall|yy: int| y <= yy < gh ==> !#[trigger] grid.filled(gx as int, yy, gz as int),
        invariant
            grid.wf(),
            gx < grid.spec_width(),
            gz < grid.spec_depth(),
            gh == grid.spec_height(),
            y <= gh,
        ensures
            floor_y is None ==> forall|yy: int| 0 <= yy < gh ==> !#[trigger] grid.filled(gx as int, yy, gz as int),
            floor_y matches Some(fy) ==> fy < gh && grid.filled(gx as int, fy as int, gz as int)
                && forall|yy: int| fy < yy < gh ==> !#[trigger] grid.filled(gx as int, yy, gz as int),
        decreases y,
    {
        let yy = y - 1;
        if grid.get(gx, yy, gz) != Some(0u8) {
            floor_y = Some(yy);
            break;
        }
        y = yy;
    }
    match floor_y {
        Some(fy) => {
            let top: u32 = if agent_height >= gh - 1 - fy { gh - 1 } else { fy + agent_height };
            let mut has_headroom = true;
            let mut check_y = fy + 1;
            while check_y <= top
                invariant
                    grid.wf(),
                    gx < grid.spec_width(),
                    gz < grid.spec_depth(),
                    gh == grid.spec_height(),
                    fy < gh,
                    top < gh,
                    fy < check_y,
                    has_headroom,
                    forall|yy: int| fy < yy < gh ==> !#[trigger] grid.filled(gx as int, yy, gz as int),
                decreases top + 1 - check_y,
            {
                assert(!grid.filled(gx as int, check_y as int, gz as int));
                if grid.get(gx, check_y, gz) != Some(0u8) {
                    has_headroom = false;
                    break;
                }
                check_y = check_y + 1;
            }
            proof {
                assert(grid.filled(gx as int, fy as int, gz as int));
            }
            has_headroom
        },
        None => {
            proof {
                assert forall|yy: int| !#[trigger] grid.filled(gx as int, yy, gz as int) by {
                    if 0 <= yy < gh {
                    }
                }
            }
            false
        },
    }
}

impl NavMesh {
    pub closed spec fn spec_tile_size(&self) -> usize {
        self.tile_size
    }

    pub closed spec fn spec_agent_height(&self) -> u32 {
        self.agent_height
    }

    /// The tile stored for `(tx, tz)`, if one was built.
    pub closed spec fn spec_tile(&self, tx: i32, tz: i32) -> Option<NavTile> {
        if self.tiles@.contains_key(tile_key(tx, tz) as u64) {
            Some(self.tiles@[tile_key(tx, tz) as u64])
        } else {
            None
        }
    }

    /// Every stored tile knows its own coordinates and holds one flag per
    /// column of the tile.
    pub open spec fn wf(&self) -> bool {
        forall|tx: i32, tz: i32| tile_fits(#[trigger] self.spec_tile(tx, tz), tx, tz, self.spec_tile_size() as int)
    }

    /// What `is_walkable` answers for world column `(x, z)`: the flag of
    /// that column in the tile holding it, or `false` where no tile is built.
    pub open spec fn walkable_at(&self, x: u32, z: u32) -> bool {
        let ts = self.spec_tile_size() as int;
        let (xi, zi) = (x as int, z as int);
        match self.spec_tile((xi / ts) as i32, (zi / ts) as i32) {
            Some(t) => t.walkable@[(zi % ts) * ts + xi % ts],
            None => false,
        }
    }

    pub fn new(tile_size: usize, agent_height: u32) -> (m: Self)
        ensures
            m.wf(),
            m.spec_tile_size() == tile_size,
            m.spec_agent_height() == agent_height,
            forall|tx: i32, tz: i32| #[trigger] m.spec_tile(tx, tz) is None,
    {
        NavMesh { tiles: HashMap::new(), tile_size, agent_height }
    }

    /// Build or rebuild the tile `(tile_x, tile_z)` from the voxel grid. A
    /// column is walkable when it has a floor (its highest solid voxel) with
    /// `agent_height` empty cells above it, cut off at the top of the grid;
    /// columns outside the grid are not walkable. The tile covers the grid
    /// from `tile_x * tile_size` (clamped at 0) on each axis.
    pub fn build_tile(&mut self, grid: &VoxelGrid, tile_x: i32, tile_z: i32)
        requires
            old(self).wf(),
            grid.wf(),
            old(self).spec_tile_size() * old(self).spec_tile_size() <= usize::MAX,
            old(self).spec_tile_size() <= i32::MAX,
            i32::MIN <= tile_x * old(self).spec_tile_size() <= i32::MAX,
            i32::MIN <= tile_z * old(self).spec_tile_size() <= i32::MAX,
        ensures
            final(self).wf(),
            final(self).spec_tile_size() == old(self).spec_tile_size(),
            final(self).spec_agent_height() == old(self).spec_agent_height(),
            final(self).spec_tile(tile_x, tile_z) matches Some(t) && t.tile_x == tile_x && t.tile_z == tile_z
                && !t.dirty && t.walkable@ == built_walkable(*grid, tile_x, tile_z, old(self).spec_tile_size() as int),
            forall|a: i32, b: i32| (a, b) != (tile_x, tile_z) ==> #[trigger] final(self).spec_tile(a, b) == old(self).spec_tile(a, b),
    {
        let ts = self.tile_size;
        let (gw, _gh, gd) = grid.dimensions();
        let bx: i32 = tile_x * (ts as i32);
        let bz: i32 = tile_z * (ts as i32);
        let base_x: u32 = if bx > 0 { bx as u32 } else { 0 };
        let base_z: u32 = if bz > 0 { bz as u32 } else { 0 };
        let ghost expected = built_walkable(*grid, tile_x, tile_z, ts as int);
        let mut walkable: Vec<bool> = Vec::new();
        let mut lz: usize = 0;
        while lz < ts
            invariant
                grid.wf(),
                gw == grid.spec_width(),
                gd == grid.spec_depth(),
                ts * ts <= usize::MAX,
                ts <= i32::MAX,
                base_x == tile_base(tile_x, ts as int),
                base_z == tile_base(tile_z, ts as int),
                base_x <= i32::MAX,
                base_z <= i32::MAX,
                expected == built_walkable(*grid, tile_x, tile_z, ts as int),
                lz <= ts,
                walkable@.len() == lz * ts,
                forall|i: int| 0 <= i < walkable@.len() ==> walkable@[i] == expected[i],
            decreases ts - lz,
        {
            let mut lx: usize = 0;
            while lx < ts
                invariant
                    grid.wf(),
                    gw == grid.spec_width(),
                    gd == grid.spec_depth(),
                    ts * ts <= usize::MAX,
                    ts <= i32::MAX,
                    base_x == tile_base(tile_x, ts as int),
                    base_z == tile_base(tile_z, ts as int),
                    base_x <= i32::MAX,
                    base_z <= i32::MAX,
                    expected == built_walkable(*grid, tile_x, tile_z, ts as int),
                    lz < ts,
                    lx <= ts,
                    walkable@.len() == lz * ts + lx,
                    forall|i: int| 0 <= i < walkable@.len() ==> walkable@[i] == expected[i],
                decreases ts - lx,
            {
                let gx = base_x + lx as u32;
                let gz = base_z + lz as u32;
                let w = if gx >= gw || gz >= gd {
                    false
                } else {
                    column_walkable(grid, gx, gz, self.agent_height)
                };
                proof {
                    let i = lz * ts + lx;
                    assert(i < ts * ts) by (nonlinear_arith)
                        requires i == lz * ts + lx, lz < ts, lx < ts;
                    vstd::arithmetic::div_mod::lemma_fundamental_div_mod_converse(i as int, ts as int, lz as int, lx as int);
                    assert(expected[i as int] == column_solid(*grid, gx as int, gz as int));
                }
                walkable.push(w);
                lx = lx + 1;
            }
            proof {
                assert(lz * ts + ts == (lz + 1) * ts) by (nonlinear_arith);
            }
            lz = lz + 1;
        }
        let key = compute_tile_key(tile_x, tile_z);
        self.tiles.insert(key, NavTile { tile_x, tile_z, walkable, dirty: false });
        proof {
            assert(walkable@ =~= expected);
            assert forall|a: i32, b: i32| (a, b) != (tile_x, tile_z) implies #[trigger] self.spec_tile(a, b) == old(self).spec_tile(a, b) by {
                lemma_tile_key(a, b);
                lemma_tile_key(tile_x, tile_z);
                if tile_key(a, b) == tile_key(tile_x, tile_z) {
                    lemma_tile_key_injective(a, b, tile_x, tile_z);
                }
            }
            assert forall|a: i32, b: i32| tile_fits(#[trigger] self.spec_tile(a, b), a, b, self.spec_tile_size() as int) by {
                if (a, b) != (tile_x, tile_z) {
                    assert(old(self).spec_tile(a, b) == self.spec_tile(a, b));
                }
            }
        }
    }

    /// Mark a tile as dirty (needs rebuild after destruction).
    pub fn mark_dirty(&mut self, tile_x: i32, tile_z: i32)
        requires
            old(self).wf(),
        ensures
            final(self).wf(),
            final(self).spec_tile_size() == old(self).spec_tile_size(),
            final(self).spec_agent_height() == old(self).spec_agent_height(),
            final(self).spec_tile(tile_x, tile_z) == (match old(self).spec_tile(tile_x, tile_z) {
                Some(t) => Some(NavTile { tile_x: t.tile_x, tile_z: t.tile_z, walkable: t.walkable, dirty: true }),
                None => None,
            }),
            forall|a: i32, b: i32| (a, b) != (tile_x, tile_z) ==> #[trigger] final(self).spec_tile(a, b) == old(self).spec_tile(a, b),
    {
        let key = compute_tile_key(tile_x, tile_z);
        match self.tiles.remove(&key) {
            Some(t) => {
                let NavTile { tile_x: x, tile_z: z, walkable, dirty: _ } = t;
                self.tiles.insert(key, NavTile { tile_x: x, tile_z: z, walkable, dirty: true });
            },
            None => {},
        }
        proof {
            lemma_tile_key(tile_x, tile_z);
            assert forall|a: i32, b: i32| (a, b) != (tile_x, tile_z) implies #[trigger] self.spec_tile(a, b) == old(self).spec_tile(a, b) by {
                lemma_tile_key(a, b);
                if tile_key(a, b) == tile_key(tile_x, tile_z) {
                    lemma_tile_key_injective(a, b, tile_x, tile_z);
                }
            }
            assert forall|a: i32, b: i32| tile_fits(#[trigger] self.spec_tile(a, b), a, b, self.spec_tile_size() as int) by {
                if (a, b) != (tile_x, tile_z) {
                    assert(old(self).spec_tile(a, b) == self.spec_tile(a, b));
                } else {
                    assert(tile_fits(old(self).spec_tile(a, b), a, b, old(self).spec_tile_size() as int));
                }
            }
        }
    }

    /// Whether world column `(world_x, world_z)` is walkable.
    pub fn is_walkable(&self, world_x: u32, world_z: u32) -> (r: bool)
        requires
            self.wf(),
            self.spec_tile_size() > 0,
        ensures
            r == self.walkable_at(world_x, world_z),
    {
        let ts = self.tile_size;
        let tx = (world_x as usize / ts) as i32;
        let tz = (world_z as usize / ts) as i32;
        let lx = world_x as usize % ts;
        let lz = world_z as usize % ts;
        let key = compute_tile_key(tx, tz);
        match self.tiles.get(&key) {
            Some(t) => {
                let cells = t.walkable.len();
                proof {
                    assert(cells == ts * ts);
                    assert(self.spec_tile(tx, tz) is Some);
                    assert(tile_fits(self.spec_tile(tx, tz), tx, tz, ts as int));
                    assert(lz * ts + lx < ts * ts) by (nonlinear_arith)
                        requires lz < ts, lx < ts;
                }
                t.walkable[lz * ts + lx]
            },
            None => false,
        }
    }
}

/// Columns `a` and `b` share an edge (4-neighbourhood).
pub open spec fn adjacent4(a: (u32, u32), b: (u32, u32)) -> bool {
    ||| a.0 == b.0 && (a.1 + 1 == b.1 || b.1 + 1 == a.1)
    ||| a.1 == b.1 && (a.0 + 1 == b.0 || b.0 + 1 == a.0)
}

/// Search-table key of column `p`.
pub open spec fn pos_key(p: (u32, u32)) -> u64 {
    (p.0 * 0x1_0000_0000 + p.1) as u64
}

proof fn lemma_pos_key(p: (u32, u32))
    ensures
        pos_key(p) == p.0 * 0x1_0000_0000 + p.1,
        pos_key(p) / 0x1_0000_0000 == p.0,
        pos_key(p) % 0x1_0000_0000 == p.1,
{
    assert(p.0 * 0x1_0000_0000 <= 0xffff_ffff * 0x1_0000_0000) by (nonlinear_arith)
        requires p.0 <= 0xffff_ffff;
    vstd::arithmetic::div_mod::lemma_fundamental_div_mod_converse(
        p.0 * 0x1_0000_0000 + p.1,
        0x1_0000_0000,
        p.0 as int,
        p.1 as int,
    );
}

proof fn lemma_pos_key_injective(p: (u32, u32), q: (u32, u32))
    requires
        pos_key(p) == pos_key(q),
    ensures
        p == q,
{
    lemma_pos_key(p);
    lemma_pos_key(q);
}

fn compute_pos_key(p: (u32, u32)) -> (k: u64)
    ensures
        k == pos_key(p),
{
    proof {
        lemma_pos_key(p);
    }
    (p.0 as u64) * 0x1_0000_0000 + (p.1 as u64)
}

/// Manhattan distance between two columns.
pub open spec fn manhattan(a: (u32, u32), b: (u32, u32)) -> int {
    (if a.0 >= b.0 { a.0 - b.0 } else { b.0 - a.0 }) + (if a.1 >= b.1 { a.1 - b.1 } else { b.1 - a.1 })
}

fn heuristic(a: (u32, u32), b: (u32, u32)) -> (h: u128)
    ensures
        h == manhattan(a, b),
{
    let dx: u128 = if a.0 >= b.0 { (a.0 - b.0) as u128 } else { (b.0 - a.0) as u128 };
    let dz: u128 = if a.1 >= b.1 { (a.1 - b.1) as u128 } else { (b.1 - a.1) as u128 };
    dx + dz
}

/// Open-list order: by estimated cost, then by column.
pub open spec fn entry_lt(a: (u128, u32, u32), b: (u128, u32, u32)) -> bool {
    ||| a.0 < b.0
    ||| a.0 == b.0 && a.1 < b.1
    ||| a.0 == b.0 && a.1 == b.1 && a.2 < b.2
}

/// Index of the least entry of `open`.
fn min_entry(open: &Vec<(u128, u32, u32)>) -> (i: usize)
    requires
        open@.len() > 0,
    ensures
        i < open@.len(),
        forall|j: int| 0 <= j < open@.len() ==> !entry_lt(#[trigger] open@[j], open@[i as int]),
{
    let mut best: usize = 0;
    let mut j: usize = 1;
    while j < open.len()
        invariant
            best < j <= open@.len(),
            forall|k: int| 0 <= k < j ==> !entry_lt(#[trigger] open@[k], open@[best as int]),
        decreases open@.len() - j,
    {
        let a = open[j];
        let b = open[best];
        if a.0 < b.0 || (a.0 == b.0 && (a.1 < b.1 || (a.1 == b.1 && a.2 < b.2))) {
            best = j;
        }
        j = j + 1;
    }
    best
}

impl NavMesh {
    /// Every walkable column lies below `i32::MAX` on both axes, so that a
    /// search can step to its neighbours in signed arithmetic.
    pub open spec fn coords_in_range(&self) -> bool {
        forall|x: u32, z: u32| #[trigger] self.walkable_at(x, z) ==> x < 0x7fff_ffff && z < 0x7fff_ffff
    }

    /// `path` walks from `start` to `goal` over walkable columns, one
    /// 4-neighbour step at a time.
    pub open spec fn is_walk(&self, path: Seq<(u32, u32)>, start: (u32, u32), goal: (u32, u32)) -> bool {
        &&& path.len() >= 1
        &&& path[0] == start
        &&& path[path.len() - 1] == goal
        &&& forall|i: int| 0 <= i < path.len() ==> self.walkable_at(#[trigger] path[i].0, path[i].1)
        &&& forall|i: int| 0 <= i < path.len() - 1 ==> adjacent4(#[trigger] path[i], path[i + 1])
    }

    /// The walkable 4-neighbours of `pos`, in the order -x, +x, -z, +z.
    fn walkable_neighbors(&self, pos: (u32, u32)) -> (nb: Vec<(u32, u32)>)
        requires
            self.wf(),
            self.spec_tile_size() > 0,
            self.coords_in_range(),
            self.walkable_at(pos.0, pos.1),
        ensures
            nb@.len() <= 4,
            forall|i: int| 0 <= i < nb@.len() ==> adjacent4(pos, #[trigger] nb@[i]) && self.walkable_at(nb@[i].0, nb@[i].1),
            forall|q: (u32, u32)| adjacent4(pos, q) && #[trigger] self.walkable_at(q.0, q.1) ==> nb@.contains(q),
    {
        let mut nb: Vec<(u32, u32)> = Vec::new();
        let px = pos.0 as i32;
        let pz = pos.1 as i32;
        let mut d: usize = 0;
        while d < 4
            invariant
                self.wf(),
                self.spec_tile_size() > 0,
                self.coords_in_range(),
                self.walkable_at(pos.0, pos.1),
                pos.0 < 0x7fff_ffff,
                pos.1 < 0x7fff_ffff,
                px == pos.0,
                pz == pos.1,
                d <= 4,
                nb@.len() <= d,
                forall|i: int| 0 <= i < nb@.len() ==> adjacent4(pos, #[trigger] nb@[i]) && self.walkable_at(nb@[i].0, nb@[i].1),
                forall|q: (u32, u32)| #![trigger self.walkable_at(q.0, q.1)]
                    adjacent4(pos, q) && self.walkable_at(q.0, q.1) && (
                        (d > 0 && q.0 + 1 == pos.0) || (d > 1 && q.0 == pos.0 + 1)
                        || (d > 2 && q.1 + 1 == pos.1 && q.0 == pos.0)
                        || (d > 3 && q.1 == pos.1 + 1 && q.0 == pos.0)) ==> nb@.contains(q),
            decreases 4 - d,
        {
            let (dx, dz): (i32, i32) = if d == 0 {
                (-1, 0)
            } else if d == 1 {
                (1, 0)
            } else if d == 2 {
                (0, -1)
            } else {
                (0, 1)
            };
            let nx = px + dx;
            let nz = pz + dz;
            let ghost before = nb@;
            if nx >= 0 && nz >= 0 {
                let n = (nx as u32, nz as u32);
                if self.is_walkable(n.0, n.1) {
                    nb.push(n);
                    proof {
                        assert(nb@[nb@.len() - 1] == n);
                    }
                }
            }
            proof {
                assert forall|q: (u32, u32)| #![trigger self.walkable_at(q.0, q.1)]
                    adjacent4(pos, q) && self.walkable_at(q.0, q.1) && (
                        (d + 1 > 0 && q.0 + 1 == pos.0) || (d + 1 > 1 && q.0 == pos.0 + 1)
                        || (d + 1 > 2 && q.1 + 1 == pos.1 && q.0 == pos.0)
                        || (d + 1 > 3 && q.1 == pos.1 + 1 && q.0 == pos.0)) implies nb@.contains(q) by {
                    if (d > 0 && q.0 + 1 == pos.0) || (d > 1 && q.0 == pos.0 + 1)
                        || (d > 2 && q.1 + 1 == pos.1 && q.0 == pos.0)
                        || (d > 3 && q.1 == pos.1 + 1 && q.0 == pos.0) {
                        assert(before.contains(q));
                        let k = choose|k: int| 0 <= k < before.len() && before[k] == q;
                        assert(nb@[k] == q);
                    } else {
                        assert(q.0 as int == nx && q.1 as int == nz);
                        assert(nb@[nb@.len() - 1] == q);
                    }
                }
            }
            d = d + 1;
        }
        nb
    }
}

impl NavMesh {
    /// The A* tables are consistent: every scored column is walkable and is
    /// the start or has a parent; a parent is a closed, scored 4-neighbour
    /// one step cheaper; closed columns are scored; no score exceeds the
    /// number of closed columns.
    #[verifier::opaque]
    pub open spec fn search_inv(
        &self,
        start: (u32, u32),
        g: Map<u64, u128>,
        cf: Map<u64, (u32, u32)>,
        closed: Set<u64>,
    ) -> bool {
        &&& g.contains_key(pos_key(start))
        &&& g[pos_key(start)] == 0
        &&& forall|p: (u32, u32)| #[trigger] g.contains_key(pos_key(p)) ==> self.walkable_at(p.0, p.1) && (p == start
            || cf.contains_key(pos_key(p)))
        &&& forall|p: (u32, u32)| #[trigger] cf.contains_key(pos_key(p)) ==> {
            let q = cf[pos_key(p)];
            &&& g.contains_key(pos_key(p))
            &&& g.contains_key(pos_key(q))
            &&& closed.contains(pos_key(q))
            &&& adjacent4(q, p)
            &&& g[pos_key(p)] == g[pos_key(q)] + 1
        }
        &&& closed.subset_of(g.dom())
        &&& forall|k: u64| #[trigger] g.contains_key(k) ==> g[k] <= closed.len()
    }

    proof fn lemma_parent(
        &self,
        start: (u32, u32),
        g: Map<u64, u128>,
        cf: Map<u64, (u32, u32)>,
        closed: Set<u64>,
        c: (u32, u32),
    )
        requires
            self.search_inv(start, g, cf, closed),
            g.contains_key(pos_key(c)),
        ensures
            self.walkable_at(c.0, c.1),
            g[pos_key(start)] == 0,
            !cf.contains_key(pos_key(c)) ==> c == start,
            cf.contains_key(pos_key(c)) ==> {
                let q = cf[pos_key(c)];
                &&& g.contains_key(pos_key(q))
                &&& closed.contains(pos_key(q))
                &&& adjacent4(q, c)
                &&& g[pos_key(c)] == g[pos_key(q)] + 1
                &&& self.walkable_at(q.0, q.1)
            },
    {
        reveal(NavMesh::search_inv);
        if cf.contains_key(pos_key(c)) {
            let q = cf[pos_key(c)];
            assert(g.contains_key(pos_key(q)));
        }
    }

    /// Follows parents from `goal` back to `start` and returns the walk
    /// from `start` to `goal`.
    fn reconstruct(
        &self,
        g: &HashMap<u64, u128>,
        came_from: &HashMap<u64, (u32, u32)>,
        closed: Ghost<Set<u64>>,
        start: (u32, u32),
        goal: (u32, u32),
    ) -> (path: Vec<(u32, u32)>)
        requires
            self.search_inv(start, g@, came_from@, closed@),
            g@.contains_key(pos_key(goal)),
        ensures
            self.is_walk(path@, start, goal),
            path@.len() == g@[pos_key(goal)] + 1,
    {
        let mut rev: Vec<(u32, u32)> = Vec::new();
        rev.push(goal);
        proof {
            self.lemma_parent(start, g@, came_from@, closed@, goal);
        }
        let mut c = goal;
        loop
            invariant
                self.search_inv(start, g@, came_from@, closed@),
                g@.contains_key(pos_key(c)),
                rev@.len() >= 1,
                rev@.len() + g@[pos_key(c)] == g@[pos_key(goal)] + 1,
                rev@[0] == goal,
                rev@[rev@.len() - 1] == c,
                forall|i: int| 0 <= i < rev@.len() ==> self.walkable_at(#[trigger] rev@[i].0, rev@[i].1),
                forall|i: int| 0 <= i < rev@.len() - 1 ==> adjacent4(#[trigger] rev@[i + 1], rev@[i]),
            ensures
                c == start,
                rev@.len() == g@[pos_key(goal)] + 1,
            decreases g@[pos_key(c)],
        {
            let ck = compute_pos_key(c);
            proof {
                self.lemma_parent(start, g@, came_from@, closed@, c);
            }
            match came_from.get(&ck) {
                Some(prev) => {
                    let prev = *prev;
                    rev.push(prev);
                    c = prev;
                    if c.0 == start.0 && c.1 == start.1 {
                        proof {
                            self.lemma_parent(start, g@, came_from@, closed@, c);
                        }
                        break;
                    }
                },
                None => {
                    break;
                },
            }
        }
        let mut path: Vec<(u32, u32)> = Vec::new();
        let mut i = rev.len();
        while i > 0
            invariant
                i <= rev@.len(),
                path@.len() == rev@.len() - i,
                forall|j: int| 0 <= j < path@.len() ==> path@[j] == rev@[rev@.len() - 1 - j],
            decreases i,
        {
            i = i - 1;
            path.push(rev[i]);
        }
        proof {
            let n = rev@.len() as int;
            assert forall|j: int| 0 <= j < path@.len() implies self.walkable_at(#[trigger] path@[j].0, path@[j].1) by {
                assert(path@[j] == rev@[n - 1 - j]);
            }
            assert forall|j: int| 0 <= j < path@.len() - 1 implies adjacent4(#[trigger] path@[j], path@[j + 1]) by {
                assert(path@[j] == rev@[n - 1 - j]);
                assert(path@[j + 1] == rev@[n - 2 - j]);
                assert(adjacent4(rev@[(n - 2 - j) + 1], rev@[n - 2 - j]));
            }
        }
        path
    }
}

impl NavMesh {
    proof fn lemma_search_init(&self, start: (u32, u32))
        requires
            self.walkable_at(start.0, start.1),
        ensures
            self.search_inv(
                start,
                Map::<u64, u128>::empty().insert(pos_key(start), 0),
                Map::<u64, (u32, u32)>::empty(),
                Set::<u64>::empty(),
            ),
    {
        reveal(NavMesh::search_inv);
        let g = Map::<u64, u128>::empty().insert(pos_key(start), 0);
        assert forall|p: (u32, u32)| #[trigger] g.contains_key(pos_key(p)) implies self.walkable_at(p.0, p.1) && (p == start
            || Map::<u64, (u32, u32)>::empty().contains_key(pos_key(p))) by {
            lemma_pos_key_injective(p, start);
        }
    }

    proof fn lemma_close(
        &self,
        start: (u32, u32),
        g: Map<u64, u128>,
        cf: Map<u64, (u32, u32)>,
        closed: Set<u64>,
        k: u64,
    )
        requires
            self.search_inv(start, g, cf, closed),
            g.dom().finite(),
            g.contains_key(k),
            !closed.contains(k),
        ensures
            self.search_inv(start, g, cf, closed.insert(k)),
            closed.finite(),
            closed.insert(k).len() == closed.len() + 1,
            closed.insert(k).len() <= g.dom().len(),
            g[k] + 1 <= closed.insert(k).len(),
    {
        reveal(NavMesh::search_inv);
        vstd::set_lib::lemma_len_subset(closed.insert(k), g.dom());
        vstd::set_lib::lemma_len_subset(closed, g.dom());
    }

    proof fn lemma_relax(
        &self,
        start: (u32, u32),
        g: Map<u64, u128>,
        cf: Map<u64, (u32, u32)>,
        closed: Set<u64>,
        cur: (u32, u32),
        nb: (u32, u32),
        tentative: u128,
    )
        requires
            self.search_inv(start, g, cf, closed),
            closed.contains(pos_key(cur)),
            g.contains_key(pos_key(cur)),
            tentative == g[pos_key(cur)] + 1,
            tentative <= closed.len(),
            !closed.contains(pos_key(nb)),
            adjacent4(cur, nb),
            self.walkable_at(nb.0, nb.1),
            !g.contains_key(pos_key(nb)) || tentative < g[pos_key(nb)],
        ensures
            self.search_inv(start, g.insert(pos_key(nb), tentative), cf.insert(pos_key(nb), cur), closed),
    {
        reveal(NavMesh::search_inv);
        let g2 = g.insert(pos_key(nb), tentative);
        let cf2 = cf.insert(pos_key(nb), cur);
        assert(nb != start) by {
            if nb == start {
                assert(g[pos_key(start)] == 0);
            }
        }
        assert forall|p: (u32, u32)| #[trigger] g2.contains_key(pos_key(p)) implies self.walkable_at(p.0, p.1) && (p
            == start || cf2.contains_key(pos_key(p))) by {
            if pos_key(p) == pos_key(nb) {
                lemma_pos_key_injective(p, nb);
            }
        }
        assert forall|p: (u32, u32)| #[trigger] cf2.contains_key(pos_key(p)) implies {
            let q = cf2[pos_key(p)];
            &&& g2.contains_key(pos_key(p))
            &&& g2.contains_key(pos_key(q))
            &&& closed.contains(pos_key(q))
            &&& adjacent4(q, p)
            &&& g2[pos_key(p)] == g2[pos_key(q)] + 1
        } by {
            if pos_key(p) == pos_key(nb) {
                lemma_pos_key_injective(p, nb);
                assert(pos_key(cur) != pos_key(nb));
            } else {
                let q = cf[pos_key(p)];
                assert(closed.contains(pos_key(q)));
                assert(pos_key(q) != pos_key(nb));
            }
        }
        assert forall|k: u64| #[trigger] g2.contains_key(k) implies g2[k] <= closed.len() by {}
    }
}

impl NavMesh {
    /// A* pathfinding on the navmesh grid: 4-neighbour steps of cost 1 over
    /// walkable columns, guided by the Manhattan distance to the goal.
    /// Returns the waypoints `(world_x, world_z)` from `start` to `goal`, or
    /// `None` when either end is not walkable or the search runs out of
    /// columns.
    pub fn find_path(&self, start: (u32, u32), goal: (u32, u32)) -> (r: Option<Vec<(u32, u32)>>)
        requires
            self.wf(),
            self.spec_tile_size() > 0,
            self.coords_in_range(),
        ensures
            !self.walkable_at(start.0, start.1) || !self.walkable_at(goal.0, goal.1) ==> r is None,
            r matches Some(p) ==> self.is_walk(p@, start, goal),
            r matches Some(p) ==> forall|w: Seq<(u32, u32)>| #[trigger] self.is_walk(w, start, goal) ==> p@.len() <= w.len(),
            self.reachable(start, goal) ==> r is Some,
    {
        if !self.is_walkable(start.0, start.1) || !self.is_walkable(goal.0, goal.1) {
            return None;
        }
        let mut open: Vec<(u128, u32, u32)> = Vec::new();
        let mut g_score: HashMap<u64, u128> = HashMap::new();
        let mut came_from: HashMap<u64, (u32, u32)> = HashMap::new();
        let mut closed: HashSet<u64> = HashSet::new();
        let sk = compute_pos_key(start);
        g_score.insert(sk, 0);
        open.push((heuristic(start, goal), start.0, start.1));
        proof {
            self.lemma_astar_init(start, goal);
            self.lemma_frontier_init(start, goal, open@[0].0);
            assert(open@ =~= seq![(open@[0].0, start.0, start.1)]);
            self.lemma_search_init(start);
            assert(g_score@ =~= Map::<u64, u128>::empty().insert(pos_key(start), 0));
            assert(came_from@ =~= Map::<u64, (u32, u32)>::empty());
            assert(closed@ =~= Set::<u64>::empty());
            assert((open@[0].1, open@[0].2) == start);
        }
        while open.len() > 0
            invariant
                self.wf(),
                self.spec_tile_size() > 0,
                self.coords_in_range(),
                self.walkable_at(start.0, start.1),
                self.walkable_at(goal.0, goal.1),
                self.search_inv(start, g_score@, came_from@, closed@),
                self.frontier_inv(goal, g_score@, closed@, open@, None),
                self.astar_inv(start, goal, g_score@, closed@, open@, None),
                closed@.finite(),
                closed@.len() <= usize::MAX,
                forall|i: int| 0 <= i < open@.len() ==> g_score@.contains_key(pos_key((#[trigger] open@[i].1, open@[i].2))),
            decreases (usize::MAX - closed@.len()) * 5 + open@.len(),
        {
            let idx = min_entry(&open);
            let ghost open_before = open@;
            let entry = open.swap_remove(idx);
            let current = (entry.1, entry.2);
            proof {
                assert(g_score@.contains_key(pos_key((open_before[idx as int].1, open_before[idx as int].2))));
                assert forall|i: int| 0 <= i < open@.len() implies g_score@.contains_key(pos_key((#[trigger] open@[i].1, open@[i].2))) by {
                    if i == idx {
                        assert(open@[i] == open_before[open_before.len() - 1]);
                    } else {
                        assert(open@[i] == open_before[i]);
                    }
                }
            }
            proof {
                self.lemma_astar_pop(start, goal, g_score@, came_from@, closed@, open_before, open@, idx as int);
            }
            if current.0 == goal.0 && current.1 == goal.1 {
                proof {
                    self.lemma_goal_open(goal, g_score@, closed@, open_before);
                    self.lemma_pop_optimal(start, goal, g_score@, came_from@, closed@, open_before, idx as int);
                }
                let path = self.reconstruct(&g_score, &came_from, Ghost(closed@), start, goal);
                return Some(path);
            }
            let ck = compute_pos_key(current);
            let ghost closed_before = closed@;
            proof {
                self.lemma_frontier_pop(goal, g_score@, closed_before, open_before, open@, idx as int);
            }
            let newly = closed.insert(ck);
            if !newly {
                proof {
                    assert(closed@ =~= closed_before);
                }
                continue;
            }
            proof {
                let n = g_score.len();
                assert(g_score@.dom().len() <= usize::MAX);
                self.lemma_close(start, g_score@, came_from@, closed_before, ck);
                self.lemma_parent(start, g_score@, came_from@, closed@, current);
            }
            let current_g = *g_score.get(&ck).unwrap();
            let nbs = self.walkable_neighbors(current);
            let ghost open_len0 = open@.len();
            let mut t: usize = 0;
            while t < nbs.len()
                invariant
                    self.wf(),
                    self.spec_tile_size() > 0,
                    self.coords_in_range(),
                    self.search_inv(start, g_score@, came_from@, closed@),
                    self.frontier_inv(goal, g_score@, closed@, open@, Some(current)),
                    self.astar_inv(start, goal, g_score@, closed@, open@, Some(current)),
                    forall|i: int| 0 <= i < t ==> g_score@.contains_key(pos_key(#[trigger] nbs@[i])) && g_score@[pos_key(nbs@[i])]
                        <= current_g + 1,
                    closed@.finite(),
                    closed@.len() <= usize::MAX,
                    closed@.contains(pos_key(current)),
                    g_score@.contains_key(pos_key(current)),
                    g_score@[pos_key(current)] == current_g,
                    current_g + 1 <= closed@.len(),
                    nbs@.len() <= 4,
                    forall|i: int| 0 <= i < nbs@.len() ==> adjacent4(current, #[trigger] nbs@[i]) && self.walkable_at(nbs@[i].0, nbs@[i].1),
                    t <= nbs@.len(),
                    open@.len() <= open_len0 + t,
                    forall|i: int| 0 <= i < open@.len() ==> g_score@.contains_key(pos_key((#[trigger] open@[i].1, open@[i].2))),
                decreases nbs@.len() - t,
            {
                let nb = nbs[t];
                let nk = compute_pos_key(nb);
                if !closed.contains(&nk) {
                    let tentative: u128 = current_g + 1;
                    let better = match g_score.get(&nk) {
                        Some(gv) => tentative < *gv,
                        None => true,
                    };
                    let ghost old_g = g_score@;
                    if better {
                        proof {
                            assert(adjacent4(current, nbs@[t as int]));
                            self.lemma_relax(start, g_score@, came_from@, closed@, current, nb, tentative);
                        }
                        g_score.insert(nk, tentative);
                        came_from.insert(nk, current);
                        let f = tentative + heuristic(nb, goal);
                        let ghost open_mid = open@;
                        proof {
                            self.lemma_frontier_relax(goal, old_g, closed@, open_mid, Some(current), nb, tentative, f);
                            self.lemma_astar_relax(start, goal, old_g, closed@, open_mid, Some(current), current, nb, tentative, f);
                        }
                        open.push((f, nb.0, nb.1));
                        proof {
                            assert(pos_key(current) != pos_key(nb));
                            assert forall|i: int| 0 <= i < open@.len() implies g_score@.contains_key(pos_key((#[trigger] open@[i].1, open@[i].2))) by {
                                if i < open_mid.len() {
                                    assert(open@[i] == open_mid[i]);
                                }
                            }
                        }
                    }
                }
                proof {
                    self.lemma_closed_scored(start, g_score@, came_from@, closed@, nk);
                    if closed@.contains(nk) {
                        self.lemma_closed_nbr_bound(start, goal, g_score@, closed@, open@, Some(current), current, nb);
                    }
                }
                t = t + 1;
            }
            proof {
                assert forall|q: (u32, u32)| adjacent4(current, q) && #[trigger] self.walkable_at(q.0, q.1) implies g_score@.contains_key(pos_key(q))
                    && g_score@[pos_key(q)] <= g_score@[pos_key(current)] + 1 by {
                    assert(nbs@.contains(q));
                    let i = choose|i: int| 0 <= i < nbs@.len() && nbs@[i] == q;
                    assert(g_score@.contains_key(pos_key(nbs@[i])));
                }
                self.lemma_frontier_expanded(goal, g_score@, closed@, open@, current);
                self.lemma_astar_expanded(start, goal, g_score@, closed@, open@, current);
            }
        }
        proof {
            assert(open@ =~= Seq::<(u128, u32, u32)>::empty());
            self.lemma_exhausted(start, goal, g_score@, came_from@, closed@);
        }
        None
    }

    proof fn lemma_goal_open(
        &self,
        goal: (u32, u32),
        g: Map<u64, u128>,
        closed: Set<u64>,
        open: Seq<(u128, u32, u32)>,
    )
        requires
            self.frontier_inv(goal, g, closed, open, None),
        ensures
            !closed.contains(pos_key(goal)),
    {
        reveal(NavMesh::frontier_inv);
    }

    proof fn lemma_closed_scored(
        &self,
        start: (u32, u32),
        g: Map<u64, u128>,
        cf: Map<u64, (u32, u32)>,
        closed: Set<u64>,
        k: u64,
    )
        requires
            self.search_inv(start, g, cf, closed),
        ensures
            closed.contains(k) ==> g.contains_key(k),
    {
        reveal(NavMesh::search_inv);
    }
}

/// Some entry of `open` is for column `p`.
pub open spec fn open_has(open: Seq<(u128, u32, u32)>, p: (u32, u32)) -> bool {
    exists|i: int| 0 <= i < open.len() && #[trigger] open[i].1 == p.0 && open[i].2 == p.1
}

impl NavMesh {
    /// `goal` can be reached from `start` by a walk over walkable columns.
    pub open spec fn reachable(&self, start: (u32, u32), goal: (u32, u32)) -> bool {
        exists|path: Seq<(u32, u32)>| self.is_walk(path, start, goal)
    }

    /// Every walkable 4-neighbour of `p` has a score.
    pub open spec fn nbrs_scored(&self, g: Map<u64, u128>, p: (u32, u32)) -> bool {
        forall|q: (u32, u32)| adjacent4(p, q) && #[trigger] self.walkable_at(q.0, q.1) ==> g.contains_key(pos_key(q))
    }

    /// The search frontier: closed columns (other than `skip`, while it is
    /// being expanded) have all walkable neighbours scored; every scored
    /// column is closed or waits in `open`; the goal is never closed.
    #[verifier::opaque]
    pub open spec fn frontier_inv(
        &self,
        goal: (u32, u32),
        g: Map<u64, u128>,
        closed: Set<u64>,
        open: Seq<(u128, u32, u32)>,
        skip: Option<(u32, u32)>,
    ) -> bool {
        &&& forall|p: (u32, u32)| #[trigger] closed.contains(pos_key(p)) && skip != Some(p) ==> self.nbrs_scored(g, p)
        &&& forall|p: (u32, u32)| #[trigger] g.contains_key(pos_key(p)) ==> closed.contains(pos_key(p)) || open_has(open, p)
        &&& !closed.contains(pos_key(goal))
    }

    /// With nothing left open, the closed columns are closed under walkable
    /// steps and hold the start but not the goal, so no walk joins them.
    proof fn lemma_exhausted(
        &self,
        start: (u32, u32),
        goal: (u32, u32),
        g: Map<u64, u128>,
        cf: Map<u64, (u32, u32)>,
        closed: Set<u64>,
    )
        requires
            self.search_inv(start, g, cf, closed),
            self.frontier_inv(goal, g, closed, Seq::empty(), None),
        ensures
            !self.reachable(start, goal),
    {
        reveal(NavMesh::search_inv);
        reveal(NavMesh::frontier_inv);
        if self.reachable(start, goal) {
            let path = choose|path: Seq<(u32, u32)>| self.is_walk(path, start, goal);
            assert(closed.contains(pos_key(path[0])));
            self.lemma_walk_closed(path, start, goal, g, closed, path.len() - 1);
            assert(closed.contains(pos_key(goal)));
        }
    }

    proof fn lemma_walk_closed(
        &self,
        path: Seq<(u32, u32)>,
        start: (u32, u32),
        goal: (u32, u32),
        g: Map<u64, u128>,
        closed: Set<u64>,
        i: int,
    )
        requires
            self.is_walk(path, start, goal),
            self.frontier_inv(goal, g, closed, Seq::empty(), None),
            closed.contains(pos_key(path[0])),
            0 <= i < path.len(),
        ensures
            closed.contains(pos_key(path[i])),
        decreases i,
    {
        if i > 0 {
            self.lemma_walk_closed(path, start, goal, g, closed, i - 1);
            reveal(NavMesh::frontier_inv);
            assert(adjacent4(path[i - 1], path[(i - 1) + 1]));
            assert(self.walkable_at(path[i].0, path[i].1));
            assert(self.nbrs_scored(g, path[i - 1]));
            assert(g.contains_key(pos_key(path[i])));
            assert(!open_has(Seq::<(u128, u32, u32)>::empty(), path[i]));
        }
    }

    proof fn lemma_frontier_init(&self, start: (u32, u32), goal: (u32, u32), h: u128)
        ensures
            self.frontier_inv(
                goal,
                Map::<u64, u128>::empty().insert(pos_key(start), 0),
                Set::<u64>::empty(),
                seq![(h, start.0, start.1)],
                None,
            ),
    {
        reveal(NavMesh::frontier_inv);
        let g = Map::<u64, u128>::empty().insert(pos_key(start), 0);
        let open = seq![(h, start.0, start.1)];
        assert forall|p: (u32, u32)| #[trigger] g.contains_key(pos_key(p)) implies Set::<u64>::empty().contains(pos_key(p))
            || open_has(open, p) by {
            lemma_pos_key_injective(p, start);
            assert(open[0].1 == p.0);
        }
    }

    /// Popping entry `idx` and closing its column keeps the frontier, with
    /// that column now being expanded.
    proof fn lemma_frontier_pop(
        &self,
        goal: (u32, u32),
        g: Map<u64, u128>,
        closed: Set<u64>,
        open: Seq<(u128, u32, u32)>,
        rest: Seq<(u128, u32, u32)>,
        idx: int,
    )
        requires
            self.frontier_inv(goal, g, closed, open, None),
            0 <= idx < open.len(),
            rest.len() == open.len() - 1,
            forall|i: int| 0 <= i < rest.len() && i != idx ==> rest[i] == open[i],
            idx < rest.len() ==> rest[idx] == open[open.len() - 1],
            (open[idx].1, open[idx].2) != goal,
        ensures
            self.frontier_inv(goal, g, closed.insert(pos_key((open[idx].1, open[idx].2))), rest, Some((open[idx].1, open[idx].2))),
            closed.contains(pos_key((open[idx].1, open[idx].2))) ==> self.frontier_inv(goal, g, closed, rest, None),
    {
        reveal(NavMesh::frontier_inv);
        let cur = (open[idx].1, open[idx].2);
        let closed2 = closed.insert(pos_key(cur));
        assert forall|p: (u32, u32)| #[trigger] g.contains_key(pos_key(p)) implies closed2.contains(pos_key(p)) || open_has(rest, p) by {
            if !closed2.contains(pos_key(p)) {
                let i = choose|i: int| 0 <= i < open.len() && #[trigger] open[i].1 == p.0 && open[i].2 == p.1;
                if i == idx {
                    assert(p == cur);
                } else if i == open.len() - 1 {
                    assert(rest[idx].1 == p.0);
                } else {
                    assert(rest[i].1 == p.0);
                }
            }
        }
        assert forall|p: (u32, u32)| #[trigger] closed2.contains(pos_key(p)) && Some(cur) != Some(p) implies self.nbrs_scored(g, p) by {
            if pos_key(p) == pos_key(cur) {
                lemma_pos_key_injective(p, cur);
            }
        }
        assert(!closed2.contains(pos_key(goal))) by {
            if pos_key(goal) == pos_key(cur) {
                lemma_pos_key_injective(goal, cur);
            }
        }
        if closed.contains(pos_key(cur)) {
            assert(closed2 =~= closed);
            assert forall|p: (u32, u32)| #[trigger] closed.contains(pos_key(p)) && None::<(u32, u32)> != Some(p) implies self.nbrs_scored(g, p) by {
                if pos_key(p) == pos_key(cur) {
                    lemma_pos_key_injective(p, cur);
                }
            }
        }
    }

    /// Scoring `nb` and queueing it keeps the frontier.
    proof fn lemma_frontier_relax(
        &self,
        goal: (u32, u32),
        g: Map<u64, u128>,
        closed: Set<u64>,
        open: Seq<(u128, u32, u32)>,
        skip: Option<(u32, u32)>,
        nb: (u32, u32),
        tentative: u128,
        f: u128,
    )
        requires
            self.frontier_inv(goal, g, closed, open, skip),
        ensures
            self.frontier_inv(goal, g.insert(pos_key(nb), tentative), closed, open.push((f, nb.0, nb.1)), skip),
    {
        reveal(NavMesh::frontier_inv);
        let g2 = g.insert(pos_key(nb), tentative);
        let open2 = open.push((f, nb.0, nb.1));
        assert forall|p: (u32, u32)| #[trigger] closed.contains(pos_key(p)) && skip != Some(p) implies self.nbrs_scored(g2, p) by {
            assert(self.nbrs_scored(g, p));
        }
        assert forall|p: (u32, u32)| #[trigger] g2.contains_key(pos_key(p)) implies closed.contains(pos_key(p)) || open_has(open2, p) by {
            if pos_key(p) == pos_key(nb) {
                lemma_pos_key_injective(p, nb);
                assert(open2[open.len() as int].1 == p.0);
            } else if !closed.contains(pos_key(p)) {
                let i = choose|i: int| 0 <= i < open.len() && #[trigger] open[i].1 == p.0 && open[i].2 == p.1;
                assert(open2[i].1 == p.0);
            }
        }
    }

    /// Once every walkable neighbour of the expanded column is scored, the
    /// frontier holds in full again.
    proof fn lemma_frontier_expanded(
        &self,
        goal: (u32, u32),
        g: Map<u64, u128>,
        closed: Set<u64>,
        open: Seq<(u128, u32, u32)>,
        cur: (u32, u32),
    )
        requires
            self.frontier_inv(goal, g, closed, open, Some(cur)),
            self.nbrs_scored(g, cur),
        ensures
            self.frontier_inv(goal, g, closed, open, None),
    {
        reveal(NavMesh::frontier_inv);
        assert forall|p: (u32, u32)| #[trigger] closed.contains(pos_key(p)) && None::<(u32, u32)> != Some(p) implies self.nbrs_scored(g, p) by {
            if p != cur {
                assert(Some(cur) != Some(p));
            }
        }
    }
}

/// Some entry of `open` is for column `p` with estimate `f`.
pub open spec fn exact_entry(open: Seq<(u128, u32, u32)>, p: (u32, u32), f: int) -> bool {
    exists|i: int| 0 <= i < open.len() && #[trigger] open[i].1 == p.0 && open[i].2 == p.1 && open[i].0 == f
}

impl NavMesh {
    /// No walk from `start` reaches `p` in fewer steps than its score.
    pub open spec fn shortest_to(&self, start: (u32, u32), g: Map<u64, u128>, p: (u32, u32)) -> bool {
        forall|w: Seq<(u32, u32)>| #[trigger] self.is_walk(w, start, p) ==> g[pos_key(p)] + 1 <= w.len()
    }

    /// Some walk from `start` reaches `p` in exactly its score of steps.
    pub open spec fn realized(&self, start: (u32, u32), g: Map<u64, u128>, p: (u32, u32)) -> bool {
        exists|w: Seq<(u32, u32)>| #[trigger] self.is_walk(w, start, p) && w.len() == g[pos_key(p)] + 1
    }

    /// Every walkable neighbour of `p` is scored at most one step above `p`.
    pub open spec fn nbrs_bounded(&self, g: Map<u64, u128>, p: (u32, u32)) -> bool {
        forall|q: (u32, u32)| adjacent4(p, q) && #[trigger] self.walkable_at(q.0, q.1) ==> g.contains_key(pos_key(q))
            && g[pos_key(q)] <= g[pos_key(p)] + 1
    }

    /// The A* invariant: closed columns have shortest scores; their
    /// neighbours (but those of `skip`, being expanded) are relaxed; every
    /// score is the length of some walk; open entries never underestimate
    /// their column's current estimate, and each open column has an entry
    /// with exactly that estimate.
    #[verifier::opaque]
    pub open spec fn astar_inv(
        &self,
        start: (u32, u32),
        goal: (u32, u32),
        g: Map<u64, u128>,
        closed: Set<u64>,
        open: Seq<(u128, u32, u32)>,
        skip: Option<(u32, u32)>,
    ) -> bool {
        &&& forall|p: (u32, u32)| #[trigger] closed.contains(pos_key(p)) ==> self.shortest_to(start, g, p)
        &&& forall|p: (u32, u32)| #[trigger] closed.contains(pos_key(p)) && skip != Some(p) ==> self.nbrs_bounded(g, p)
        &&& forall|p: (u32, u32)| #[trigger] g.contains_key(pos_key(p)) ==> self.realized(start, g, p)
        &&& forall|i: int| 0 <= i < open.len() ==> g.contains_key(pos_key(((#[trigger] open[i]).1, open[i].2)))
        &&& forall|i: int| 0 <= i < open.len() ==> (#[trigger] open[i]).0 >= g[pos_key((open[i].1, open[i].2))]
            + manhattan((open[i].1, open[i].2), goal)
        &&& forall|p: (u32, u32)| #[trigger] g.contains_key(pos_key(p)) && !closed.contains(pos_key(p)) ==> exact_entry(
            open,
            p,
            g[pos_key(p)] + manhattan(p, goal),
        )
    }

    proof fn lemma_walk_prefix(&self, w: Seq<(u32, u32)>, start: (u32, u32), end: (u32, u32), j: int)
        requires
            self.is_walk(w, start, end),
            1 <= j <= w.len(),
        ensures
            self.is_walk(w.take(j), start, w[j - 1]),
    {
        let t = w.take(j);
        assert forall|i: int| 0 <= i < t.len() - 1 implies adjacent4(#[trigger] t[i], t[i + 1]) by {
            assert(adjacent4(w[i], w[i + 1]));
        }
        assert forall|i: int| 0 <= i < t.len() implies self.walkable_at(#[trigger] t[i].0, t[i].1) by {
            assert(self.walkable_at(w[i].0, w[i].1));
        }
    }

    proof fn lemma_walk_manhattan(&self, w: Seq<(u32, u32)>, start: (u32, u32), end: (u32, u32), goal: (u32, u32), j: int)
        requires
            self.is_walk(w, start, end),
            0 <= j < w.len(),
        ensures
            manhattan(w[j], goal) <= manhattan(end, goal) + (w.len() - 1 - j),
        decreases w.len() - j,
    {
        if j < w.len() - 1 {
            self.lemma_walk_manhattan(w, start, end, goal, j + 1);
            assert(adjacent4(w[j], w[j + 1]));
        }
    }

    /// The first column of `w`, from index `k` on, that is not closed, when
    /// the ones before `k` all are and the last one is not.
    proof fn lemma_first_unclosed(&self, w: Seq<(u32, u32)>, closed: Set<u64>, k: int) -> (j: int)
        requires
            0 <= k < w.len(),
            !closed.contains(pos_key(w[w.len() - 1])),
            forall|i: int| 0 <= i < k ==> closed.contains(pos_key(#[trigger] w[i])),
        ensures
            k <= j < w.len(),
            !closed.contains(pos_key(w[j])),
            forall|i: int| 0 <= i < j ==> closed.contains(pos_key(#[trigger] w[i])),
        decreases w.len() - k,
    {
        if !closed.contains(pos_key(w[k])) {
            k
        } else {
            self.lemma_first_unclosed(w, closed, k + 1)
        }
    }

    /// Popping the least entry of `open` for a column that is not closed
    /// yields a shortest score for it.
    proof fn lemma_pop_optimal(
        &self,
        start: (u32, u32),
        goal: (u32, u32),
        g: Map<u64, u128>,
        cf: Map<u64, (u32, u32)>,
        closed: Set<u64>,
        open: Seq<(u128, u32, u32)>,
        idx: int,
    )
        requires
            self.search_inv(start, g, cf, closed),
            self.astar_inv(start, goal, g, closed, open, None),
            0 <= idx < open.len(),
            forall|j: int| 0 <= j < open.len() ==> !entry_lt(#[trigger] open[j], open[idx]),
            g.contains_key(pos_key((open[idx].1, open[idx].2))),
            !closed.contains(pos_key((open[idx].1, open[idx].2))),
        ensures
            self.shortest_to(start, g, (open[idx].1, open[idx].2)),
    {
        let u = (open[idx].1, open[idx].2);
        self.lemma_astar_entry_lb(start, goal, g, closed, open, None, idx);
        self.lemma_start_scored(start, g, cf, closed);
        assert forall|w: Seq<(u32, u32)>| #[trigger] self.is_walk(w, start, u) implies g[pos_key(u)] + 1 <= w.len() by {
            let n = w.len() as int;
            let j = self.lemma_first_unclosed(w, closed, 0);
            let y = w[j];
            assert(self.walkable_at(y.0, y.1));
            if j == 0 {
                assert(y == start);
            } else {
                let x = w[j - 1];
                assert(closed.contains(pos_key(x)));
                self.lemma_astar_closed(start, goal, g, closed, open, None, x);
                self.lemma_walk_prefix(w, start, u, j);
                assert(self.shortest_to(start, g, x));
                assert(self.is_walk(w.take(j), start, x));
                assert(g[pos_key(x)] + 1 <= j);
                assert(self.nbrs_bounded(g, x));
                assert(adjacent4(w[j - 1], w[(j - 1) + 1]));
            }
            assert(g.contains_key(pos_key(y)));
            assert(g[pos_key(y)] <= j);
            self.lemma_astar_exact(start, goal, g, closed, open, None, y);
            assert(exact_entry(open, y, g[pos_key(y)] + manhattan(y, goal)));
            let iy = choose|i: int| 0 <= i < open.len() && #[trigger] open[i].1 == y.0 && open[i].2 == y.1 && open[i].0 == g[pos_key(y)]
                + manhattan(y, goal);
            assert(!entry_lt(open[iy], open[idx]));
            self.lemma_walk_manhattan(w, start, u, goal, j);
        }
    }

    proof fn lemma_start_scored(
        &self,
        start: (u32, u32),
        g: Map<u64, u128>,
        cf: Map<u64, (u32, u32)>,
        closed: Set<u64>,
    )
        requires
            self.search_inv(start, g, cf, closed),
        ensures
            g.contains_key(pos_key(start)),
            g[pos_key(start)] == 0,
    {
        reveal(NavMesh::search_inv);
    }

    proof fn lemma_astar_closed(
        &self,
        start: (u32, u32),
        goal: (u32, u32),
        g: Map<u64, u128>,
        closed: Set<u64>,
        open: Seq<(u128, u32, u32)>,
        skip: Option<(u32, u32)>,
        p: (u32, u32),
    )
        requires
            self.astar_inv(start, goal, g, closed, open, skip),
            closed.contains(pos_key(p)),
        ensures
            self.shortest_to(start, g, p),
            skip != Some(p) ==> self.nbrs_bounded(g, p),
    {
        reveal(NavMesh::astar_inv);
    }

    proof fn lemma_astar_exact(
        &self,
        start: (u32, u32),
        goal: (u32, u32),
        g: Map<u64, u128>,
        closed: Set<u64>,
        open: Seq<(u128, u32, u32)>,
        skip: Option<(u32, u32)>,
        p: (u32, u32),
    )
        requires
            self.astar_inv(start, goal, g, closed, open, skip),
            g.contains_key(pos_key(p)),
            !closed.contains(pos_key(p)),
        ensures
            exact_entry(open, p, g[pos_key(p)] + manhattan(p, goal)),
    {
        reveal(NavMesh::astar_inv);
    }

    proof fn lemma_astar_entry_lb(
        &self,
        start: (u32, u32),
        goal: (u32, u32),
        g: Map<u64, u128>,
        closed: Set<u64>,
        open: Seq<(u128, u32, u32)>,
        skip: Option<(u32, u32)>,
        i: int,
    )
        requires
            self.astar_inv(start, goal, g, closed, open, skip),
            0 <= i < open.len(),
        ensures
            open[i].0 >= g[pos_key((open[i].1, open[i].2))] + manhattan((open[i].1, open[i].2), goal),
    {
        reveal(NavMesh::astar_inv);
        assert(open[i] == open[i]);
    }

    proof fn lemma_astar_realized(
        &self,
        start: (u32, u32),
        goal: (u32, u32),
        g: Map<u64, u128>,
        closed: Set<u64>,
        open: Seq<(u128, u32, u32)>,
        skip: Option<(u32, u32)>,
        p: (u32, u32),
    )
        requires
            self.astar_inv(start, goal, g, closed, open, skip),
            g.contains_key(pos_key(p)),
        ensures
            self.realized(start, g, p),
    {
        reveal(NavMesh::astar_inv);
    }
}

impl NavMesh {
    proof fn lemma_astar_init(&self, start: (u32, u32), goal: (u32, u32))
        requires
            self.walkable_at(start.0, start.1),
        ensures
            self.astar_inv(
                start,
                goal,
                Map::<u64, u128>::empty().insert(pos_key(start), 0),
                Set::<u64>::empty(),
                seq![(manhattan(start, goal) as u128, start.0, start.1)],
                None,
            ),
    {
        reveal(NavMesh::astar_inv);
        let g = Map::<u64, u128>::empty().insert(pos_key(start), 0);
        let open = seq![(manhattan(start, goal) as u128, start.0, start.1)];
        let w = seq![start];
        assert(self.is_walk(w, start, start));
        assert forall|p: (u32, u32)| #[trigger] g.contains_key(pos_key(p)) implies self.realized(start, g, p) by {
            lemma_pos_key_injective(p, start);
            assert(self.is_walk(w, start, p));
        }
        assert forall|p: (u32, u32)| #[trigger] g.contains_key(pos_key(p)) && !Set::<u64>::empty().contains(pos_key(p))
            implies exact_entry(open, p, g[pos_key(p)] + manhattan(p, goal)) by {
            lemma_pos_key_injective(p, start);
            assert(open[0].1 == p.0);
        }
        assert forall|i: int| 0 <= i < open.len() implies (#[trigger] open[i]).0 >= g[pos_key((open[i].1, open[i].2))]
            + manhattan((open[i].1, open[i].2), goal) by {
            assert(open[0].0 == manhattan(start, goal));
        }
    }

    /// A closed neighbour of a scored column is scored at most one above it.
    proof fn lemma_closed_nbr_bound(
        &self,
        start: (u32, u32),
        goal: (u32, u32),
        g: Map<u64, u128>,
        closed: Set<u64>,
        open: Seq<(u128, u32, u32)>,
        skip: Option<(u32, u32)>,
        cur: (u32, u32),
        q: (u32, u32),
    )
        requires
            self.astar_inv(start, goal, g, closed, open, skip),
            closed.contains(pos_key(q)),
            g.contains_key(pos_key(cur)),
            adjacent4(cur, q),
            self.walkable_at(q.0, q.1),
        ensures
            g[pos_key(q)] <= g[pos_key(cur)] + 1,
    {
        self.lemma_astar_realized(start, goal, g, closed, open, skip, cur);
        self.lemma_astar_closed(start, goal, g, closed, open, skip, q);
        let w = choose|w: Seq<(u32, u32)>| #[trigger] self.is_walk(w, start, cur) && w.len() == g[pos_key(cur)] + 1;
        let w2 = w.push(q);
        assert forall|i: int| 0 <= i < w2.len() - 1 implies adjacent4(#[trigger] w2[i], w2[i + 1]) by {
            if i < w.len() - 1 {
                assert(adjacent4(w[i], w[i + 1]));
            }
        }
        assert forall|i: int| 0 <= i < w2.len() implies self.walkable_at(#[trigger] w2[i].0, w2[i].1) by {
            if i < w.len() {
                assert(self.walkable_at(w[i].0, w[i].1));
            }
        }
        assert(self.is_walk(w2, start, q));
    }

    proof fn lemma_astar_relax(
        &self,
        start: (u32, u32),
        goal: (u32, u32),
        g: Map<u64, u128>,
        closed: Set<u64>,
        open: Seq<(u128, u32, u32)>,
        skip: Option<(u32, u32)>,
        cur: (u32, u32),
        nb: (u32, u32),
        t: u128,
        f: u128,
    )
        requires
            self.astar_inv(start, goal, g, closed, open, skip),
            closed.contains(pos_key(cur)),
            g.contains_key(pos_key(cur)),
            t == g[pos_key(cur)] + 1,
            !closed.contains(pos_key(nb)),
            adjacent4(cur, nb),
            self.walkable_at(nb.0, nb.1),
            !g.contains_key(pos_key(nb)) || t < g[pos_key(nb)],
            f == t + manhattan(nb, goal),
        ensures
            self.astar_inv(start, goal, g.insert(pos_key(nb), t), closed, open.push((f, nb.0, nb.1)), skip),
    {
        self.lemma_astar_realized(start, goal, g, closed, open, skip, cur);
        reveal(NavMesh::astar_inv);
        let g2 = g.insert(pos_key(nb), t);
        let open2 = open.push((f, nb.0, nb.1));
        assert forall|p: (u32, u32)| #[trigger] closed.contains(pos_key(p)) implies self.shortest_to(start, g2, p) by {
            assert(pos_key(p) != pos_key(nb));
            assert(self.shortest_to(start, g, p));
        }
        assert forall|p: (u32, u32)| #[trigger] closed.contains(pos_key(p)) && skip != Some(p) implies self.nbrs_bounded(g2, p) by {
            assert(pos_key(p) != pos_key(nb));
            assert(self.nbrs_bounded(g, p));
            assert forall|q: (u32, u32)| adjacent4(p, q) && #[trigger] self.walkable_at(q.0, q.1) implies g2.contains_key(pos_key(q))
                && g2[pos_key(q)] <= g2[pos_key(p)] + 1 by {
                assert(g.contains_key(pos_key(q)));
            }
        }
        let wc = choose|w: Seq<(u32, u32)>| #[trigger] self.is_walk(w, start, cur) && w.len() == g[pos_key(cur)] + 1;
        let wn = wc.push(nb);
        assert forall|i: int| 0 <= i < wn.len() - 1 implies adjacent4(#[trigger] wn[i], wn[i + 1]) by {
            if i < wc.len() - 1 {
                assert(adjacent4(wc[i], wc[i + 1]));
            }
        }
        assert forall|i: int| 0 <= i < wn.len() implies self.walkable_at(#[trigger] wn[i].0, wn[i].1) by {
            if i < wc.len() {
                assert(self.walkable_at(wc[i].0, wc[i].1));
            }
        }
        assert(self.is_walk(wn, start, nb));
        assert forall|p: (u32, u32)| #[trigger] g2.contains_key(pos_key(p)) implies self.realized(start, g2, p) by {
            if pos_key(p) == pos_key(nb) {
                lemma_pos_key_injective(p, nb);
                assert(self.is_walk(wn, start, p));
            } else {
                assert(self.realized(start, g, p));
                let w = choose|w: Seq<(u32, u32)>| #[trigger] self.is_walk(w, start, p) && w.len() == g[pos_key(p)] + 1;
                assert(self.is_walk(w, start, p));
            }
        }
        assert forall|i: int| 0 <= i < open2.len() implies g2.contains_key(pos_key(((#[trigger] open2[i]).1, open2[i].2))) by {
            if i < open.len() {
                assert(open2[i] == open[i]);
            }
        }
        assert forall|i: int| 0 <= i < open2.len() implies (#[trigger] open2[i]).0 >= g2[pos_key((open2[i].1, open2[i].2))]
            + manhattan((open2[i].1, open2[i].2), goal) by {
            if i < open.len() {
                assert(open2[i] == open[i]);
                assert(g.contains_key(pos_key((open[i].1, open[i].2))));
            }
        }
        assert forall|p: (u32, u32)| #[trigger] g2.contains_key(pos_key(p)) && !closed.contains(pos_key(p)) implies exact_entry(
            open2,
            p,
            g2[pos_key(p)] + manhattan(p, goal),
        ) by {
            if pos_key(p) == pos_key(nb) {
                lemma_pos_key_injective(p, nb);
                assert(open2[open.len() as int].1 == p.0);
            } else {
                assert(exact_entry(open, p, g[pos_key(p)] + manhattan(p, goal)));
                let i = choose|i: int| 0 <= i < open.len() && #[trigger] open[i].1 == p.0 && open[i].2 == p.1 && open[i].0 == g[pos_key(p)]
                    + manhattan(p, goal);
                assert(open2[i].1 == p.0);
            }
        }
    }

    proof fn lemma_astar_pop(
        &self,
        start: (u32, u32),
        goal: (u32, u32),
        g: Map<u64, u128>,
        cf: Map<u64, (u32, u32)>,
        closed: Set<u64>,
        open: Seq<(u128, u32, u32)>,
        rest: Seq<(u128, u32, u32)>,
        idx: int,
    )
        requires
            self.search_inv(start, g, cf, closed),
            self.astar_inv(start, goal, g, closed, open, None),
            0 <= idx < open.len(),
            forall|j: int| 0 <= j < open.len() ==> !entry_lt(#[trigger] open[j], open[idx]),
            rest.len() == open.len() - 1,
            forall|i: int| 0 <= i < rest.len() && i != idx ==> rest[i] == open[i],
            idx < rest.len() ==> rest[idx] == open[open.len() - 1],
        ensures
            !closed.contains(pos_key((open[idx].1, open[idx].2))) ==> self.astar_inv(
                start,
                goal,
                g,
                closed.insert(pos_key((open[idx].1, open[idx].2))),
                rest,
                Some((open[idx].1, open[idx].2)),
            ),
            closed.contains(pos_key((open[idx].1, open[idx].2))) ==> self.astar_inv(start, goal, g, closed, rest, None),
    {
        let u = (open[idx].1, open[idx].2);
        self.lemma_astar_scored_entry(start, goal, g, closed, open, None, idx);
        if !closed.contains(pos_key(u)) {
            self.lemma_pop_optimal(start, goal, g, cf, closed, open, idx);
        }
        reveal(NavMesh::astar_inv);
        let closed2 = if closed.contains(pos_key(u)) { closed } else { closed.insert(pos_key(u)) };
        let skip2 = if closed.contains(pos_key(u)) { None } else { Some(u) };
        assert forall|p: (u32, u32)| #[trigger] closed2.contains(pos_key(p)) implies self.shortest_to(start, g, p) by {
            if pos_key(p) == pos_key(u) {
                lemma_pos_key_injective(p, u);
            }
        }
        assert forall|p: (u32, u32)| #[trigger] closed2.contains(pos_key(p)) && skip2 != Some(p) implies self.nbrs_bounded(g, p) by {
            if pos_key(p) == pos_key(u) {
                lemma_pos_key_injective(p, u);
            }
        }
        assert forall|i: int| 0 <= i < rest.len() implies g.contains_key(pos_key(((#[trigger] rest[i]).1, rest[i].2))) && rest[i].0
            >= g[pos_key((rest[i].1, rest[i].2))] + manhattan((rest[i].1, rest[i].2), goal) by {
            if i == idx {
                assert(rest[i] == open[open.len() - 1]);
            } else {
                assert(rest[i] == open[i]);
            }
        }
        assert forall|p: (u32, u32)| #[trigger] g.contains_key(pos_key(p)) && !closed2.contains(pos_key(p)) implies exact_entry(
            rest,
            p,
            g[pos_key(p)] + manhattan(p, goal),
        ) by {
            assert(!closed.contains(pos_key(p)));
            let i = choose|i: int| 0 <= i < open.len() && #[trigger] open[i].1 == p.0 && open[i].2 == p.1 && open[i].0 == g[pos_key(p)]
                + manhattan(p, goal);
            if i == idx {
                assert(p == u);
            } else if i == open.len() - 1 {
                assert(rest[idx].1 == p.0);
            } else {
                assert(rest[i].1 == p.0);
            }
        }
    }

    proof fn lemma_astar_scored_entry(
        &self,
        start: (u32, u32),
        goal: (u32, u32),
        g: Map<u64, u128>,
        closed: Set<u64>,
        open: Seq<(u128, u32, u32)>,
        skip: Option<(u32, u32)>,
        i: int,
    )
        requires
            self.astar_inv(start, goal, g, closed, open, skip),
            0 <= i < open.len(),
        ensures
            g.contains_key(pos_key((open[i].1, open[i].2))),
    {
        reveal(NavMesh::astar_inv);
        assert(open[i] == open[i]);
    }

    proof fn lemma_astar_expanded(
        &self,
        start: (u32, u32),
        goal: (u32, u32),
        g: Map<u64, u128>,
        closed: Set<u64>,
        open: Seq<(u128, u32, u32)>,
        cur: (u32, u32),
    )
        requires
            self.astar_inv(start, goal, g, closed, open, Some(cur)),
            self.nbrs_bounded(g, cur),
        ensures
            self.astar_inv(start, goal, g, closed, open, None),
    {
        reveal(NavMesh::astar_inv);
        assert forall|p: (u32, u32)| #[trigger] closed.contains(pos_key(p)) && None::<(u32, u32)> != Some(p) implies self.nbrs_bounded(g, p) by {
            if p != cur {
                assert(Some(cur) != Some(p));
            }
        }
    }
}

} // verus!
