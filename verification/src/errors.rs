use vstd::prelude::*;

verus! {

/// The ways an operation on the world state can fail.
///
/// Every accessor and mutator of the grids reports a recoverable failure
/// instead of panicking: a coordinate outside the grid is `OutOfBounds`, an
/// id with no registry entry is `UnknownBlockType` / `UnknownWallType`, a
/// malformed bulk input is `ShapeMismatch`, an inventory write of the wrong
/// length is `SizeMismatch`, a name lookup miss is `NotFound`, and a corrupt
/// snapshot is `SerializationFailure`. The crafting errors report a recipe
/// whose ingredients are missing or whose result has no free slot.
#[derive(Clone, Copy, PartialEq, Eq, Structural, Debug)]
pub enum WorldError {
    OutOfBounds,
    UnknownBlockType,
    UnknownWallType,
    ShapeMismatch,
    SizeMismatch,
    NotFound,
    SerializationFailure,
    CannotCraft,
    NoEmptySlot,
}

} // verus!
