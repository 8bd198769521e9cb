//! The closed set of failures a table operation can report.

use vstd::prelude::*;

verus! {

/// Everything that can go wrong during a table operation.
///
/// Only `CapacityExceeded` is ever produced by this crate; the other
/// variants are reserved.
#[derive(Debug, Clone, Copy, PartialEq, Eq, Structural)]
pub enum MapError {
    /// The requested size is too large, or a size computation overflowed.
    CapacityExceeded,
    /// Reserved: every kernel has a scalar fallback, so this cannot fire.
    UnsupportedSimd,
    /// Reserved for implementations that add runtime sharing checks.
    ConcurrentModification,
    /// Reserved: an internal consistency violation found during a mutation.
    InvalidSlotState,
}

impl MapError {
    /// A short description of the error, for embedding in messages.
    pub fn describe(&self) -> (s: &'static str)
        ensures
            *self is CapacityExceeded ==> s@ == "map capacity exceeded"@,
            *self is UnsupportedSimd ==> s@ == "simd not supported on this platform"@,
            *self is ConcurrentModification ==> s@ == "concurrent modification detected"@,
            *self is InvalidSlotState ==> s@ == "invalid slot state"@,
    {
        proof {
            reveal_strlit("map capacity exceeded");
            reveal_strlit("simd not supported on this platform");
            reveal_strlit("concurrent modification detected");
            reveal_strlit("invalid slot state");
        }
        match self {
            MapError::CapacityExceeded => "map capacity exceeded",
            MapError::UnsupportedSimd => "simd not supported on this platform",
            MapError::ConcurrentModification => "concurrent modification detected",
            MapError::InvalidSlotState => "invalid slot state",
        }
    }
}

} // verus!
