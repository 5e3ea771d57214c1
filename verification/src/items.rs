use vstd::prelude::*;

verus! {

/// Handle of a registered item type.
///
/// The id `-1` is the "undefined" sentinel that no registered item carries.
#[derive(Clone, Copy, PartialEq, Eq, Hash, Structural, Debug)]
pub struct ItemId {
    pub id: i32,
}

impl ItemId {
    pub fn new() -> (r: Self)
        ensures
            r.id == -1,
    {
        Self { id: -1 }
    }
}

/// A stack of identical items: the item type and how many of it the stack
/// holds. Block inventories store one optional stack per slot.
#[derive(Clone, Copy, PartialEq, Eq, Structural, Debug)]
pub struct ItemStack {
    pub item: ItemId,
    pub count: i32,
}

impl ItemStack {
    pub fn new(item: ItemId, count: i32) -> (r: Self)
        ensures
            r.item == item,
            r.count == count,
    {
        Self { item, count }
    }
}

} // verus!
