use vstd::prelude::*;
use crate::voxel::grid::{VoxelGrid, count_nonzero, lemma_count_nonzero_clear, lemma_count_nonzero_le};

verus! {

/// `(x, y, z)` lies in the box from `min` to `max` (inclusive).
pub open spec fn in_box(min: (u32, u32, u32), max: (u32, u32, u32), x: int, y: int, z: int) -> bool {
    min.0 <= x <= max.0 && min.1 <= y <= max.1 && min.2 <= z <= max.2
}

/// Clears every voxel of the box from `min` to `max` (inclusive, clamped to
/// the grid) and returns how many of them were non-air.
pub fn remove_box(grid: &mut VoxelGrid, min: (u32, u32, u32), max: (u32, u32, u32)) -> (removed: usize)
    requires
        old(grid).wf(),
        old(grid).spec_width() > 0,
        old(grid).spec_height() > 0,
        old(grid).spec_depth() > 0,
    ensures
        final(grid).wf(),
        final(grid).spec_width() == old(grid).spec_width(),
        final(grid).spec_height() == old(grid).spec_height(),
        final(grid).spec_depth() == old(grid).spec_depth(),
        forall|x: int, y: int, z: int|
            #![trigger final(grid).cell(x, y, z)]
            old(grid).in_bounds(x, y, z) ==> final(grid).cell(x, y, z) == (if in_box(min, max, x, y, z) {
                0u8
            } else {
                old(grid).cell(x, y, z)
            }),
        removed == count_nonzero(old(grid).cells()) - count_nonzero(final(grid).cells()),
{
    let ghost g0 = *grid;
    let (w, h, d) = grid.dimensions();
    let x0 = min.0;
    let y0 = min.1;
    let z0 = min.2;
    let x1 = if max.0 <= w - 1 { max.0 } else { w - 1 };
    let y1 = if max.1 <= h - 1 { max.1 } else { h - 1 };
    let z1 = if max.2 <= d - 1 { max.2 } else { d - 1 };
    let mut removed: usize = 0;
    proof {
        lemma_count_nonzero_le(g0.cells());
    }
    let mut z = z0;
    while z <= z1
        invariant
            grid.wf(),
            (w, h, d) == (grid.spec_width(), grid.spec_height(), grid.spec_depth()),
            (w, h, d) == (g0.spec_width(), g0.spec_height(), g0.spec_depth()),
            g0.wf(),
            x0 == min.0, y0 == min.1, z0 == min.2,
            x1 < w, y1 < h, z1 < d,
            x1 as int == if max.0 <= w - 1 { max.0 as int } else { w - 1 },
            y1 as int == if max.1 <= h - 1 { max.1 as int } else { h - 1 },
            z1 as int == if max.2 <= d - 1 { max.2 as int } else { d - 1 },
            z0 <= z,
            z <= z1 + 1 || z == z0,
            removed == count_nonzero(g0.cells()) - count_nonzero(grid.cells()),
            count_nonzero(grid.cells()) <= count_nonzero(g0.cells()),
            count_nonzero(g0.cells()) <= g0.cells().len(),
            forall|x: int, y: int, zz: int|
                #![trigger grid.cell(x, y, zz)]
                g0.in_bounds(x, y, zz) ==> grid.cell(x, y, zz) == (if in_box(min, max, x, y, zz) && zz < z { 0u8 } else { g0.cell(x, y, zz) }),
        decreases z1 + 1 - z,
    {
        let mut y = y0;
        while y <= y1
            invariant
                grid.wf(),
                (w, h, d) == (grid.spec_width(), grid.spec_height(), grid.spec_depth()),
                (w, h, d) == (g0.spec_width(), g0.spec_height(), g0.spec_depth()),
                g0.wf(),
                x0 == min.0, y0 == min.1, z0 == min.2,
                x1 < w, y1 < h, z1 < d,
                x1 as int == if max.0 <= w - 1 { max.0 as int } else { w - 1 },
                y1 as int == if max.1 <= h - 1 { max.1 as int } else { h - 1 },
                z1 as int == if max.2 <= d - 1 { max.2 as int } else { d - 1 },
                z0 <= z <= z1,
                y0 <= y,
                y <= y1 + 1 || y == y0,
                removed == count_nonzero(g0.cells()) - count_nonzero(grid.cells()),
                count_nonzero(grid.cells()) <= count_nonzero(g0.cells()),
                count_nonzero(g0.cells()) <= g0.cells().len(),
                forall|x: int, yy: int, zz: int|
                    #![trigger grid.cell(x, yy, zz)]
                    g0.in_bounds(x, yy, zz) ==> grid.cell(x, yy, zz) == (if in_box(min, max, x, yy, zz) && (zz < z || (zz == z && yy < y)) { 0u8 } else { g0.cell(x, yy, zz) }),
            decreases y1 + 1 - y,
        {
            let mut x = x0;
            while x <= x1
                invariant
                    grid.wf(),
                    (w, h, d) == (grid.spec_width(), grid.spec_height(), grid.spec_depth()),
                    (w, h, d) == (g0.spec_width(), g0.spec_height(), g0.spec_depth()),
                    g0.wf(),
                    x0 == min.0, y0 == min.1, z0 == min.2,
                    x1 < w, y1 < h, z1 < d,
                    x1 as int == if max.0 <= w - 1 { max.0 as int } else { w - 1 },
                    y1 as int == if max.1 <= h - 1 { max.1 as int } else { h - 1 },
                    z1 as int == if max.2 <= d - 1 { max.2 as int } else { d - 1 },
                    z0 <= z <= z1,
                    y0 <= y <= y1,
                    x0 <= x,
                    x <= x1 + 1 || x == x0,
                    removed == count_nonzero(g0.cells()) - count_nonzero(grid.cells()),
                    count_nonzero(grid.cells()) <= count_nonzero(g0.cells()),
                    count_nonzero(g0.cells()) <= g0.cells().len(),
                    forall|xx: int, yy: int, zz: int|
                        #![trigger grid.cell(xx, yy, zz)]
                        g0.in_bounds(xx, yy, zz) ==> grid.cell(xx, yy, zz) == (if in_box(min, max, xx, yy, zz) && (zz < z || (zz == z && (yy < y || (yy == y && xx < x)))) { 0u8 } else { g0.cell(xx, yy, zz) }),
                decreases x1 + 1 - x,
            {
                let ghost pg = *grid;
                proof {
                    crate::voxel::grid::lemma_linear_index(w as int, h as int, d as int, x as int, y as int, z as int);
                }
                if grid.get(x, y, z) != Some(0u8) {
                    grid.set(x, y, z, 0);
                    proof {
                        lemma_count_nonzero_clear(pg.cells(), pg.index_of(x as int, y as int, z as int));
                    }
                    removed = removed + 1;
                }
                proof {
                    assert forall|xx: int, yy: int, zz: int|
                        #![trigger grid.cell(xx, yy, zz)]
                        g0.in_bounds(xx, yy, zz) implies grid.cell(xx, yy, zz) == (if in_box(min, max, xx, yy, zz) && (zz < z || (zz == z && (yy < y || (yy == y && xx < x + 1)))) { 0u8 } else { g0.cell(xx, yy, zz) }) by {
                        crate::voxel::grid::lemma_linear_index(w as int, h as int, d as int, xx, yy, zz);
                        if !(xx == x && yy == y && zz == z) {
                            if grid.index_of(xx, yy, zz) == grid.index_of(x as int, y as int, z as int) {
                                crate::voxel::grid::lemma_linear_index_injective(w as int, h as int, d as int, xx, yy, zz, x as int, y as int, z as int);
                            }
                            assert(pg.cell(xx, yy, zz) == grid.cell(xx, yy, zz));
                        } else {
                            assert(pg.cell(xx, yy, zz) == g0.cell(xx, yy, zz));
                        }
                    }
                }
                x = x + 1;
            }
            y = y + 1;
        }
        z = z + 1;
    }
    proof {
        assert forall|xx: int, yy: int, zz: int|
            #![trigger grid.cell(xx, yy, zz)]
            g0.in_bounds(xx, yy, zz) implies grid.cell(xx, yy, zz) == (if in_box(min, max, xx, yy, zz) { 0u8 } else { g0.cell(xx, yy, zz) }) by {
        }
    }
    removed
}

} // verus!
