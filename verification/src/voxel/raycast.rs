use vstd::prelude::*;

verus! {

/// The face of a voxel a ray enters through.
#[derive(Debug, Clone, Copy, PartialEq, Eq, Structural)]
pub enum FaceDir {
    PosX,
    NegX,
    PosY,
    NegY,
    PosZ,
    NegZ,
}

} // verus!
