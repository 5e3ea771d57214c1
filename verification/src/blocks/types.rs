use vstd::prelude::*;

verus! {

/// Handle of a registered block type: a small integer index into the
/// registry that the owning grid keeps. The id `-1` is the "undefined"
/// sentinel that no registered type carries.
#[derive(Clone, Copy, PartialEq, Eq, Hash, Structural, Debug)]
pub struct BlockId {
    pub id: i8,
}

impl BlockId {
    pub fn new() -> (r: Self)
        ensures
            r.id == -1,
    {
        Self { id: -1 }
    }

    pub fn undefined() -> (r: Self)
        ensures
            r.id == -1,
    {
        Self { id: -1 }
    }
}

/// Handle of a registered tool type.
#[derive(Clone, Copy, PartialEq, Eq, Hash, Structural, Debug)]
pub struct ToolId {
    pub id: i8,
}

impl ToolId {
    pub fn new() -> (r: Self)
        ensures
            r.id == -1,
    {
        Self { id: -1 }
    }
}

/// A tool type: breaking a block whose type names an effective tool is
/// gated on the breaker holding that tool with enough power.
#[derive(Clone, Debug)]
pub struct Tool {
    pub id: ToolId,
    pub name: String,
}

impl Tool {
    pub fn new() -> (r: Self)
        ensures
            r.id.id == -1,
            r.name@ == Seq::<char>::empty(),
    {
        Self { id: ToolId::new(), name: String::new() }
    }
}

/// A block type: the static metadata one registry entry carries.
///
/// The footprint is `width x height` cells, at least 1 x 1; more than one
/// cell makes the type a "big block". `break_time` is the accumulated
/// breaking effort needed to destroy a block of this type, `None` meaning
/// unbreakable. A type with an `effective_tool` can only be broken with
/// that tool carrying at least `required_tool_power`. `inventory_slots`
/// lists the position hints of the slots a main cell of this type owns;
/// its length is the slot count.
#[derive(Debug)]
pub struct Block {
    pub id: BlockId,
    pub name: String,
    pub width: i32,
    pub height: i32,
    pub break_time: Option<i32>,
    pub effective_tool: Option<ToolId>,
    pub required_tool_power: i32,
    pub ghost_block: bool,
    pub transparent: bool,
    pub light_emission: (u8, u8, u8),
    pub can_update_states: bool,
    pub feet_collidable: bool,
    pub clickable: bool,
    pub connects_to: Vec<BlockId>,
    pub inventory_slots: Vec<(i32, i32)>,
}

impl Block {
    /// A fresh type with the undefined id, a 1 x 1 footprint, no way to
    /// break it and no inventory; registration fills in the rest.
    pub fn new() -> (r: Self)
        ensures
            r.id.id == -1,
            r.name@ == Seq::<char>::empty(),
            r.width == 1,
            r.height == 1,
            r.break_time is None,
            r.effective_tool is None,
            r.required_tool_power == 0,
            !r.ghost_block,
            !r.transparent,
            r.light_emission == (0u8, 0u8, 0u8),
            !r.can_update_states,
            !r.feet_collidable,
            !r.clickable,
            r.connects_to@ == Seq::<BlockId>::empty(),
            r.inventory_slots@ == Seq::<(i32, i32)>::empty(),
    {
        Self {
            id: BlockId::new(),
            name: String::new(),
            width: 1,
            height: 1,
            break_time: None,
            effective_tool: None,
            required_tool_power: 0,
            ghost_block: false,
            transparent: false,
            light_emission: (0, 0, 0),
            can_update_states: false,
            feet_collidable: false,
            clickable: false,
            connects_to: Vec::new(),
            inventory_slots: Vec::new(),
        }
    }

    pub fn get_id(&self) -> (r: BlockId)
        ensures
            r == self.id,
    {
        self.id
    }
}

} // verus!
