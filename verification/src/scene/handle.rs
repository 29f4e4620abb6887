use vstd::prelude::*;

verus! {

/// Opaque generational handle for a scene entity: a slot index and the
/// generation of the slot's occupant.
#[derive(Clone, Copy, Debug, PartialEq, Eq, Structural, Hash)]
pub struct EntityHandle {
    pub index: u32,
    pub generation: u32,
}

impl EntityHandle {
    /// The slot index.
    pub fn slot_index(self) -> (r: u32)
        ensures
            r == self.index,
    {
        self.index
    }

    /// The generation counter.
    pub fn generation(self) -> (r: u32)
        ensures
            r == self.generation,
    {
        self.generation
    }
}

/// Opaque generational handle for a voxel chunk.
#[derive(Clone, Copy, Debug, PartialEq, Eq, Structural, Hash)]
pub struct ChunkHandle {
    pub index: u32,
    pub generation: u32,
}

} // verus!
