use vstd::prelude::*;
use crate::voxel::grid::VoxelGrid;

verus! {

/// Standing on `(x, floor_y, z)`: the floor cell is not air (a position
/// outside the grid counts as solid), and each of the `headroom` cells
/// above it that lies below the top of the grid is air.
pub open spec fn walkable_spec(grid: VoxelGrid, x: int, floor_y: int, z: int, headroom: int) -> bool {
    &&& grid.not_air(x, floor_y, z)
    &&& forall|k: int|
        0 <= k < headroom && floor_y + 1 + k < grid.spec_height() ==> !#[trigger] grid.not_air(
            x,
            floor_y + 1 + k,
            z,
        )
}

/// Whether an agent needing `headroom` free cells can stand at column
/// `(x, z)` on the floor cell `floor_y`. Open sky above the grid counts as
/// free; a cell outside the grid blocks.
pub fn is_walkable(grid: &VoxelGrid, x: u32, floor_y: u32, z: u32, headroom: u32) -> (r: bool)
    requires
        grid.wf(),
        floor_y < u32::MAX,
    ensures
        r == walkable_spec(*grid, x as int, floor_y as int, z as int, headroom as int),
{
    let (_w, h, _d) = grid.dimensions();
    if grid.get(x, floor_y, z) == Some(0u8) {
        return false;
    }
    let start_y = floor_y + 1;
    let mut dy: u32 = 0;
    while dy < headroom
        invariant
            grid.wf(),
            h == grid.spec_height(),
            start_y == floor_y + 1,
            floor_y < u32::MAX,
            dy <= headroom,
            start_y + dy <= u32::MAX,
            grid.not_air(x as int, floor_y as int, z as int),
            forall|k: int|
                0 <= k < dy && start_y + k < h ==> !#[trigger] grid.not_air(
                    x as int,
                    floor_y + 1 + k,
                    z as int,
                ),
        decreases headroom - dy,
    {
        let check_y = start_y + dy;
        if check_y >= h {
            return true;
        }
        if grid.get(x, check_y, z) != Some(0u8) {
            assert(grid.not_air(x as int, floor_y + 1 + dy, z as int));
            return false;
        }
        dy = dy + 1;
    }
    true
}

} // verus!
