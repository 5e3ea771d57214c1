use vstd::prelude::*;

verus! {

/// Handle of a registered wall type: a small integer index into the wall
/// registry. The id `-1` is the "undefined" sentinel that no registered
/// type carries.
#[derive(Clone, Copy, PartialEq, Eq, Hash, Structural, Debug)]
pub struct WallId {
    pub id: i8,
}

impl WallId {
    pub fn new() -> (r: Self)
        ensures
            r.id == -1,
    {
        Self { id: -1 }
    }
}

/// A wall type: the static metadata one wall registry entry carries.
/// `break_time` is the accumulated breaking effort needed to clear a wall
/// of this type, `None` meaning unbreakable.
#[derive(Clone, Debug)]
pub struct Wall {
    pub id: WallId,
    pub break_time: Option<i32>,
    pub name: String,
}

impl Wall {
    pub fn new() -> (r: Self)
        ensures
            r.id.id == -1,
            r.break_time is None,
            r.name@ == Seq::<char>::empty(),
    {
        Self { id: WallId::new(), break_time: None, name: String::new() }
    }

    pub fn get_id(&self) -> (r: WallId)
        ensures
            r == self.id,
    {
        self.id
    }
}

/// A wall that is currently being broken: the accumulated progress, and
/// whether progress is still accumulating or is paused.
#[derive(Clone, Copy, Debug)]
pub struct BreakingWall {
    pub break_progress: i32,
    pub is_breaking: bool,
    pub coord: (i32, i32),
}

impl BreakingWall {
    pub fn new(coord: (i32, i32)) -> (r: Self)
        ensures
            r.break_progress == 0,
            r.is_breaking,
            r.coord == coord,
    {
        Self { break_progress: 0, is_breaking: true, coord }
    }

    pub fn get_coord(&self) -> (r: (i32, i32))
        ensures
            r == self.coord,
    {
        self.coord
    }
}

} // verus!
