//! The ways in which loading a kernel can fail. Every one of them is final.

use vstd::prelude::*;

verus! {

/// Why the boot sequence stops.
#[derive(Clone, Copy, Debug, PartialEq, Eq, Structural)]
pub enum LoadError {
    /// No physical frame is left to hand out.
    ResourceExhaustion,
    /// The image header or its segment table is invalid.
    MalformedImage,
    /// A page would have to be writable and executable at once.
    InvalidSegmentPermissions,
    /// The firmware refused to retire its services because the memory map had changed.
    TransitionRaceFailure,
    /// The entry point lies in no executable part of the image.
    EntryUnreachable,
}

} // verus!
