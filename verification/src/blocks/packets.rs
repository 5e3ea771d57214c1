use vstd::prelude::*;

use crate::blocks::types::{BlockId, ToolId};
use crate::items::ItemStack;

verus! {

/// A welcome packet that carries all the information about the world
/// blocks: the serialized grid snapshot sent once to a new connection.
pub struct BlocksWelcomePacket {
    pub data: Vec<u8>,
}

/// A packet that is sent to the clients to update the block at the
/// specified coordinates, together with its offset from its main cell and
/// the inventory of the cell.
pub struct BlockChangePacket {
    pub x: i32,
    pub y: i32,
    pub from_main_x: i32,
    pub from_main_y: i32,
    pub block: BlockId,
    pub inventory: Vec<Option<ItemStack>>,
}

/// A packet that is sent to the clients when the server starts to break a
/// block.
#[derive(Clone, Copy, PartialEq, Eq, Structural, Debug)]
pub struct BlockBreakStartPacket {
    pub x: i32,
    pub y: i32,
    pub tool: Option<ToolId>,
    pub tool_power: i32,
}

/// A packet that is sent to the server when a client starts to break a
/// block.
#[derive(Clone, Copy, PartialEq, Eq, Structural, Debug)]
pub struct ClientBlockBreakStartPacket {
    pub x: i32,
    pub y: i32,
}

/// A packet that is sent to the server when a client stops breaking a
/// block, and to the clients when the server stops breaking it; it carries
/// the progress the break retained.
#[derive(Clone, Copy, PartialEq, Eq, Structural, Debug)]
pub struct BlockBreakStopPacket {
    pub x: i32,
    pub y: i32,
    pub break_time: i32,
}

/// A packet that is sent to the server when a client right clicks a block.
#[derive(Clone, Copy, PartialEq, Eq, Structural, Debug)]
pub struct BlockRightClickPacket {
    pub x: i32,
    pub y: i32,
}

} // verus!
