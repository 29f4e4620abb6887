use vstd::prelude::*;

verus! {

/// Handle to a GPU field (storage buffer): its index among the harness's
/// fields.
#[derive(Clone, Copy, Hash, Eq, PartialEq, Structural, Debug)]
pub struct FieldHandle(pub u32);

} // verus!
