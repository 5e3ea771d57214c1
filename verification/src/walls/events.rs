use vstd::prelude::*;

verus! {

/// Event that is fired when a wall has started breaking.
#[derive(Clone, Copy, PartialEq, Eq, Structural, Debug)]
pub struct WallStartedBreakingEvent {
    pub x: i32,
    pub y: i32,
}

/// Event that is fired when a wall has stopped breaking.
#[derive(Clone, Copy, PartialEq, Eq, Structural, Debug)]
pub struct WallStoppedBreakingEvent {
    pub x: i32,
    pub y: i32,
}

/// The domain events the wall layer can emit, as one type so that a
/// typed event queue can carry them.
#[derive(Clone, Copy, PartialEq, Eq, Structural, Debug)]
pub enum WallEvent {
    StartedBreaking(WallStartedBreakingEvent),
    StoppedBreaking(WallStoppedBreakingEvent),
}

} // verus!
