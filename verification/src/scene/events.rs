use vstd::prelude::*;

verus! {

/// Why a fragment was cleaned out of the scene.
#[derive(Debug, Clone, Copy, PartialEq, Eq, Structural)]
pub enum CleanupReason {
    TooSmall,
    RestTimeout,
    BelowKillPlane,
    FragmentLimitExceeded,
    OutOfRange,
    OffscreenTimeout,
}

} // verus!
