use vstd::prelude::*;

use crate::blocks::types::{BlockId, ToolId};

verus! {

/// Event that is fired when a block is changed.
#[derive(Clone, Copy, PartialEq, Eq, Structural, Debug)]
pub struct BlockChangeEvent {
    pub x: i32,
    pub y: i32,
    pub prev_block: BlockId,
}

impl BlockChangeEvent {
    pub fn new(x: i32, y: i32, prev_block: BlockId) -> (r: Self)
        ensures
            r == (BlockChangeEvent { x, y, prev_block }),
    {
        Self { x, y, prev_block }
    }
}

/// Event that is fired when a random tick hits a block.
#[derive(Clone, Copy, PartialEq, Eq, Structural, Debug)]
pub struct BlockRandomTickEvent {
    pub x: i32,
    pub y: i32,
}

impl BlockRandomTickEvent {
    pub fn new(x: i32, y: i32) -> (r: Self)
        ensures
            r == (BlockRandomTickEvent { x, y }),
    {
        Self { x, y }
    }
}

/// Event that is fired when a block is updated.
#[derive(Clone, Copy, PartialEq, Eq, Structural, Debug)]
pub struct BlockUpdateEvent {
    pub x: i32,
    pub y: i32,
}

impl BlockUpdateEvent {
    pub fn new(x: i32, y: i32) -> (r: Self)
        ensures
            r == (BlockUpdateEvent { x, y }),
    {
        Self { x, y }
    }
}

/// Event that is fired when the inventory of a block changes.
#[derive(Clone, Copy, PartialEq, Eq, Structural, Debug)]
pub struct BlockInventoryChangeEvent {
    pub x: i32,
    pub y: i32,
}

impl BlockInventoryChangeEvent {
    pub fn new(x: i32, y: i32) -> (r: Self)
        ensures
            r == (BlockInventoryChangeEvent { x, y }),
    {
        Self { x, y }
    }
}

/// Event that is fired when a block is broken.
#[derive(Clone, Copy, PartialEq, Eq, Structural, Debug)]
pub struct BlockBreakEvent {
    pub prev_block_id: BlockId,
    pub x: i32,
    pub y: i32,
}

impl BlockBreakEvent {
    pub fn new(x: i32, y: i32, prev_block_id: BlockId) -> (r: Self)
        ensures
            r == (BlockBreakEvent { prev_block_id, x, y }),
    {
        Self { prev_block_id, x, y }
    }
}

/// Event that is fired when a block has started breaking.
#[derive(Clone, Copy, PartialEq, Eq, Structural, Debug)]
pub struct BlockStartedBreakingEvent {
    pub x: i32,
    pub y: i32,
    pub tool: Option<ToolId>,
    pub tool_power: i32,
}

/// Event that is fired when a block has stopped breaking.
#[derive(Clone, Copy, PartialEq, Eq, Structural, Debug)]
pub struct BlockStoppedBreakingEvent {
    pub x: i32,
    pub y: i32,
}

/// The domain events the block grid can emit, as one type so that a typed
/// event queue can carry them.
#[derive(Clone, Copy, PartialEq, Eq, Structural, Debug)]
pub enum BlockEvent {
    Change(BlockChangeEvent),
    RandomTick(BlockRandomTickEvent),
    Update(BlockUpdateEvent),
    InventoryChange(BlockInventoryChangeEvent),
    Break(BlockBreakEvent),
    StartedBreaking(BlockStartedBreakingEvent),
    StoppedBreaking(BlockStoppedBreakingEvent),
}

} // verus!
