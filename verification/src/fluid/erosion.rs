use vstd::prelude::*;
use crate::voxel::grid::VoxelGrid;

verus! {

/// `y` is the highest cell of column `(x, z)` that is not air.
pub open spec fn is_top_solid(grid: VoxelGrid, x: int, z: int, y: int) -> bool {
    &&& 0 <= y < grid.spec_height()
    &&& grid.not_air(x, y, z)
    &&& forall|yy: int| y < yy < grid.spec_height() ==> !#[trigger] grid.not_air(x, yy, z)
}

/// No cell of column `(x, z)` below the top of the grid is anything but air.
pub open spec fn column_empty(grid: VoxelGrid, x: int, z: int) -> bool {
    forall|yy: int| 0 <= yy < grid.spec_height() ==> !#[trigger] grid.not_air(x, yy, z)
}

/// The highest cell of column `(x, z)` that is not air, scanning down from
/// the top of the grid; `None` when the whole column is air.
pub fn top_solid_voxel(grid: &VoxelGrid, x: u32, z: u32) -> (r: Option<u32>)
    requires
        grid.wf(),
    ensures
        match r {
            Some(y) => is_top_solid(*grid, x as int, z as int, y as int),
            None => column_empty(*grid, x as int, z as int),
        },
{
    let (_w, h, _d) = grid.dimensions();
    let mut y = h;
    while y > 0
        invariant
            grid.wf(),
            h == grid.spec_height(),
            y <= h,
            forall|yy: int| y <= yy < h ==> !#[trigger] grid.not_air(x as int, yy, z as int),
        decreases y,
    {
        let yy = y - 1;
        if grid.get(x, yy, z) != Some(0u8) {
            return Some(yy);
        }
        y = yy;
    }
    None
}

/// The surface height of column `(x, z)`: one above its highest cell that
/// is not air, or zero when the column is empty.
pub fn surface_height(grid: &VoxelGrid, x: u32, z: u32) -> (r: u32)
    requires
        grid.wf(),
    ensures
        r == 0 ==> column_empty(*grid, x as int, z as int),
        r > 0 ==> is_top_solid(*grid, x as int, z as int, r - 1),
{
    let top = top_solid_voxel(grid, x, z);
    match top {
        Some(y) => y + 1,
        None => 0,
    }
}

} // verus!
