use vstd::prelude::*;
use crate::voxel::grid::VoxelGrid;
use crate::voxel::topology::{Voxel, is_filled, all_filled, in_grid, components_outside, deep, is_component};
use crate::voxel::connectivity::find_connected_components;

verus! {

/// A fragment produced by splitting a disconnected grid.
pub struct Fragment {
    /// The fragment's voxels in a grid sized to their bounding box.
    pub grid: VoxelGrid,
    /// Offset of this fragment's grid origin in the grid it was split from.
    pub offset: (u32, u32, u32),
}

/// `f` holds exactly the voxels `c` of `g`: its offset is their minimum
/// corner, its grid spans their bounding box, and each of its cells carries
/// the value `g` holds at a voxel of `c`, and air elsewhere.
pub open spec fn is_fragment_of(g: VoxelGrid, c: Seq<Voxel>, f: Fragment) -> bool {
    let (ox, oy, oz) = (f.offset.0 as int, f.offset.1 as int, f.offset.2 as int);
    &&& f.grid.wf()
    &&& forall|i: int| #![trigger c[i]] 0 <= i < c.len() ==> f.grid.in_bounds(c[i].0 - ox, c[i].1 - oy, c[i].2 - oz)
    &&& exists|i: int| 0 <= i < c.len() && #[trigger] c[i].0 == ox
    &&& exists|i: int| 0 <= i < c.len() && #[trigger] c[i].1 == oy
    &&& exists|i: int| 0 <= i < c.len() && #[trigger] c[i].2 == oz
    &&& exists|i: int| 0 <= i < c.len() && #[trigger] c[i].0 == ox + f.grid.spec_width() - 1
    &&& exists|i: int| 0 <= i < c.len() && #[trigger] c[i].1 == oy + f.grid.spec_height() - 1
    &&& exists|i: int| 0 <= i < c.len() && #[trigger] c[i].2 == oz + f.grid.spec_depth() - 1
    &&& forall|x: int, y: int, z: int|
        #![trigger f.grid.cell(x, y, z)]
        f.grid.in_bounds(x, y, z) ==> f.grid.cell(x, y, z) == (if c.contains(
            ((x + ox) as u32, (y + oy) as u32, (z + oz) as u32),
        ) {
            g.cell(x + ox, y + oy, z + oz)
        } else {
            0u8
        })
}

/// `frags` are, in order, the fragments of the components of `comps` that have
/// at least `t` voxels.
pub open spec fn fragments_of(g: VoxelGrid, comps: Seq<Seq<Voxel>>, t: int, frags: Seq<Fragment>) -> bool {
    exists|idx: Seq<int>|
        #![trigger idx.len()]
        idx.len() == frags.len() && fragments_at(g, comps, t, frags, idx)
}

pub open spec fn fragments_at(g: VoxelGrid, comps: Seq<Seq<Voxel>>, t: int, frags: Seq<Fragment>, idx: Seq<int>) -> bool {
    &&& idx.len() == frags.len()
    &&& forall|i: int, j: int| #![trigger idx[i], idx[j]] 0 <= i < j < idx.len() ==> idx[i] < idx[j]
    &&& forall|i: int|
        #![trigger idx[i]]
        0 <= i < idx.len() ==> 0 <= idx[i] < comps.len() && comps[idx[i]].len() >= t && is_fragment_of(
            g,
            comps[idx[i]],
            frags[i],
        )
    &&& forall|k: int|
        #![trigger comps[k]]
        0 <= k < comps.len() && comps[k].len() >= t ==> exists|i: int| 0 <= i < idx.len() && #[trigger] idx[i] == k
}

/// The fragment holding the voxels `comp` of `g`.
fn make_fragment(g: &VoxelGrid, comp: &Vec<Voxel>) -> (f: Fragment)
    requires
        g.wf(),
        comp@.len() > 0,
        comp@.no_duplicates(),
        all_filled(*g, comp@),
    ensures
        is_fragment_of(*g, comp@, f),
{
    let c = comp;
    let mut min_x = u32::MAX;
    let mut min_y = u32::MAX;
    let mut min_z = u32::MAX;
    let mut max_x = 0u32;
    let mut max_y = 0u32;
    let mut max_z = 0u32;
    let ghost mut wit: Seq<int> = seq![0, 0, 0, 0, 0, 0];
    let mut i: usize = 0;
    while i < c.len()
        invariant
            g.wf(),
            all_filled(*g, c@),
            c@.len() > 0,
            i <= c.len(),
            wit.len() == 6,
            forall|j: int| #![trigger c@[j]] 0 <= j < i ==> min_x <= c@[j].0 <= max_x && min_y <= c@[j].1 <= max_y && min_z <= c@[j].2 <= max_z,
            i > 0 ==> (0 <= wit[0] < i && c@[wit[0]].0 == min_x && 0 <= wit[1] < i && c@[wit[1]].1 == min_y && 0 <= wit[2] < i && c@[wit[2]].2 == min_z
                && 0 <= wit[3] < i && c@[wit[3]].0 == max_x && 0 <= wit[4] < i && c@[wit[4]].1 == max_y && 0 <= wit[5] < i && c@[wit[5]].2 == max_z),
            i == 0 ==> min_x == u32::MAX && min_y == u32::MAX && min_z == u32::MAX && max_x == 0 && max_y == 0 && max_z == 0,
        decreases c.len() - i,
    {
        let (x, y, z) = c[i];
        let ghost ii = i as int;
        if i == 0 || x < min_x {
            min_x = x;
            proof { wit = wit.update(0, ii); }
        }
        if i == 0 || y < min_y {
            min_y = y;
            proof { wit = wit.update(1, ii); }
        }
        if i == 0 || z < min_z {
            min_z = z;
            proof { wit = wit.update(2, ii); }
        }
        if i == 0 || x > max_x {
            max_x = x;
            proof { wit = wit.update(3, ii); }
        }
        if i == 0 || y > max_y {
            max_y = y;
            proof { wit = wit.update(4, ii); }
        }
        if i == 0 || z > max_z {
            max_z = z;
            proof { wit = wit.update(5, ii); }
        }
        i = i + 1;
    }
    proof {
        assert(is_filled(*g, c@[wit[3]]));
        assert(is_filled(*g, c@[wit[4]]));
        assert(is_filled(*g, c@[wit[5]]));
    }
    let w = max_x - min_x + 1;
    let h = max_y - min_y + 1;
    let d = max_z - min_z + 1;
    proof {
        let (gw, gh, gd) = (g.spec_width() as int, g.spec_height() as int, g.spec_depth() as int);
        assert(w <= gw && h <= gh && d <= gd);
        assert(w * h <= gw * gh) by (nonlinear_arith)
            requires 0 <= w <= gw, 0 <= h <= gh;
        assert(w * h * d <= gw * gh * gd) by (nonlinear_arith)
            requires 0 <= w * h <= gw * gh, 0 <= d <= gd, 0 <= gw * gh;
    }
    let mut ng = VoxelGrid::new(w, h, d);
    let ghost (ox, oy, oz) = (min_x as int, min_y as int, min_z as int);
    proof {
        assert forall|x: int, y: int, z: int| #![trigger ng.cell(x, y, z)] ng.in_bounds(x, y, z) implies ng.cell(x, y, z) == 0u8 by {
            crate::voxel::grid::lemma_linear_index(w as int, h as int, d as int, x, y, z);
            assert(w * h * d == ng.volume());
        }
    }
    let mut k: usize = 0;
    while k < c.len()
        invariant
            g.wf(),
            ng.wf(),
            all_filled(*g, c@),
            c@.no_duplicates(),
            k <= c.len(),
            ng.spec_width() == w && ng.spec_height() == h && ng.spec_depth() == d,
            w == max_x - min_x + 1, h == max_y - min_y + 1, d == max_z - min_z + 1,
            ox == min_x, oy == min_y, oz == min_z,
            forall|j: int| #![trigger c@[j]] 0 <= j < c.len() ==> min_x <= c@[j].0 <= max_x && min_y <= c@[j].1 <= max_y && min_z <= c@[j].2 <= max_z,
            forall|x: int, y: int, z: int|
                #![trigger ng.cell(x, y, z)]
                ng.in_bounds(x, y, z) ==> ng.cell(x, y, z) == (if c@.take(k as int).contains(((x + ox) as u32, (y + oy) as u32, (z + oz) as u32)) {
                    g.cell(x + ox, y + oy, z + oz)
                } else {
                    0u8
                }),
        decreases c.len() - k,
    {
        let (x, y, z) = c[k];
        proof {
            assert(is_filled(*g, c@[k as int]));
        }
        let val = match g.get(x, y, z) {
            Some(v) => v,
            None => 0u8,
        };
        let ghost pg = ng;
        ng.set(x - min_x, y - min_y, z - min_z, val);
        proof {
            let lx = (x - min_x) as int;
            let ly = (y - min_y) as int;
            let lz = (z - min_z) as int;
            crate::voxel::grid::lemma_linear_index(w as int, h as int, d as int, lx, ly, lz);
            assert(c@.take(k as int + 1) == c@.take(k as int).push(c@[k as int]));
            assert forall|xx: int, yy: int, zz: int|
                #![trigger ng.cell(xx, yy, zz)]
                ng.in_bounds(xx, yy, zz) implies ng.cell(xx, yy, zz) == (if c@.take(k as int + 1).contains(((xx + ox) as u32, (yy + oy) as u32, (zz + oz) as u32)) {
                    g.cell(xx + ox, yy + oy, zz + oz)
                } else {
                    0u8
                }) by {
                crate::voxel::grid::lemma_linear_index(w as int, h as int, d as int, xx, yy, zz);
                if xx == lx && yy == ly && zz == lz {
                    assert(c@.take(k as int + 1)[k as int] == c@[k as int]);
                } else {
                    if ng.index_of(xx, yy, zz) == ng.index_of(lx, ly, lz) {
                        crate::voxel::grid::lemma_linear_index_injective(w as int, h as int, d as int, xx, yy, zz, lx, ly, lz);
                    }
                    assert(pg.cell(xx, yy, zz) == ng.cell(xx, yy, zz));
                    let p: Voxel = ((xx + ox) as u32, (yy + oy) as u32, (zz + oz) as u32);
                    if c@.take(k as int + 1).contains(p) && !c@.take(k as int).contains(p) {
                        let e = c@.take(k as int + 1).index_of(p);
                        if e < k {
                            assert(c@.take(k as int)[e] == p);
                        } else {
                            assert(p == c@[k as int]);
                        }
                    }
                    if c@.take(k as int).contains(p) {
                        let e = c@.take(k as int).index_of(p);
                        assert(c@.take(k as int + 1)[e] == p);
                    }
                }
            }
        }
        k = k + 1;
    }
    proof {
        assert(c@.take(c.len() as int) == c@);
        assert(0 <= wit[0] < c.len());
        assert(c@[wit[0]].0 == ox);
        assert(c@[wit[1]].1 == oy);
        assert(c@[wit[2]].2 == oz);
        assert(c@[wit[3]].0 == ox + w - 1);
        assert(c@[wit[4]].1 == oy + h - 1);
        assert(c@[wit[5]].2 == oz + d - 1);
    }
    Fragment { grid: ng, offset: (min_x, min_y, min_z) }
}

/// Splits a grid into one fragment per connected component of its non-air
/// voxels, dropping components with fewer than `min_voxels` voxels (and
/// never producing an empty fragment).
pub fn split_into_fragments(grid: &VoxelGrid, min_voxels: usize) -> (r: Vec<Fragment>)
    requires
        grid.wf(),
    ensures
        exists|comps: Seq<Seq<Voxel>>|
            #![trigger comps.len()]
            components_outside(*grid, comps, Seq::empty()) && fragments_of(
                *grid,
                comps,
                if min_voxels > 1 { min_voxels as int } else { 1 },
                r@,
            ),
{
    let components = find_connected_components(grid);
    let ghost comps = deep(components@);
    let threshold: usize = if min_voxels > 1 { min_voxels } else { 1 };
    let mut frags: Vec<Fragment> = Vec::new();
    let ghost mut idx: Seq<int> = seq![];
    let mut k: usize = 0;
    while k < components.len()
        invariant
            grid.wf(),
            comps == deep(components@),
            components_outside(*grid, comps, Seq::empty()),
            k <= components.len(),
            idx.len() == frags@.len(),
            forall|i: int, j: int| #![trigger idx[i], idx[j]] 0 <= i < j < idx.len() ==> idx[i] < idx[j],
            forall|i: int|
                #![trigger idx[i]]
                0 <= i < idx.len() ==> 0 <= idx[i] < k && comps[idx[i]].len() >= threshold && is_fragment_of(
                    *grid,
                    comps[idx[i]],
                    frags@[i],
                ),
            forall|kk: int|
                #![trigger comps[kk]]
                0 <= kk < k && comps[kk].len() >= threshold ==> exists|i: int| 0 <= i < idx.len() && #[trigger] idx[i] == kk,
        decreases components.len() - k,
    {
        let comp = &components[k];
        proof {
            assert(comps[k as int] == comp@);
            assert(is_component(*grid, comps[k as int]));
        }
        if comp.len() >= threshold {
            let f = make_fragment(grid, comp);
            let ghost pidx = idx;
            frags.push(f);
            proof {
                idx = idx.push(k as int);
                assert forall|kk: int|
                    #![trigger comps[kk]]
                    0 <= kk < k + 1 && comps[kk].len() >= threshold implies exists|i: int| 0 <= i < idx.len() && #[trigger] idx[i] == kk by {
                    if kk < k {
                        let i = choose|i: int| 0 <= i < pidx.len() && #[trigger] pidx[i] == kk;
                        assert(idx[i] == kk);
                    } else {
                        assert(idx[pidx.len() as int] == kk);
                    }
                }
            }
        }
        k = k + 1;
    }
    proof {
        assert(fragments_at(*grid, comps, threshold as int, frags@, idx));
        assert(fragments_of(*grid, comps, threshold as int, frags@));
    }
    frags
}

} // verus!
