//! The faults that end a dump or a load.
use vstd::prelude::*;

verus! {

/// What went wrong. Each of these shows a defect in a traversal routine or an
/// image that does not belong to the process; none can be repaired at run time.
#[derive(Clone, Copy, PartialEq, Eq, Structural, Debug)]
pub enum Fault {
    /// One address was registered as a complete object twice, with another size
    /// or alignment the second time.
    LayoutConflict,
    /// The dump was finished while a reference still had no owning object.
    DanglingReference,
    /// An emission would have had to move the write cursor back, or past the end
    /// of the object that is being written, or there was no such object.
    BackwardAdvance,
    /// A value of size zero was registered as a complete object.
    ZeroSizeRegistration,
    /// A bound or a root of the image was not found among the symbols of the
    /// process.
    UnresolvedSymbol,
    /// The byte ranges of two complete objects overlap: a region is registered
    /// across a known object, a root is dumped that is already written or being
    /// written, or the table of tags would reach past the end of the address
    /// space.
    OverlapViolation,
}

} // verus!
