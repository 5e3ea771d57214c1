use vstd::prelude::*;
use vstd::pervasive::VecAdditionalExecFns;

use crate::blocks::breaking::BREAK_STAGE_COUNT;
use crate::errors::WorldError;
use crate::events::EventManager;
use crate::walls::events::{WallEvent, WallStartedBreakingEvent, WallStoppedBreakingEvent};
use crate::walls::types::{BreakingWall, Wall, WallId};
use crate::world_map::WorldMap;

verus! {

/// The index of the first wall tracker entry with the given coordinate,
/// `-1` when there is none.
pub open spec fn wall_tracker_index(s: Seq<BreakingWall>, c: (i32, i32)) -> int
    decreases s.len(),
{
    if s.len() == 0 {
        -1
    } else if s[0].coord == c {
        0
    } else {
        let r = wall_tracker_index(s.drop_first(), c);
        if r == -1 {
            -1
        } else {
            r + 1
        }
    }
}

/// The wall tracker entry for a coordinate, if any.
pub open spec fn wall_tracker_entry(s: Seq<BreakingWall>, c: (i32, i32)) -> Option<BreakingWall> {
    if wall_tracker_index(s, c) >= 0 {
        Some(s[wall_tracker_index(s, c)])
    } else {
        None
    }
}

/// What `wall_tracker_index` finds: a first index that carries the
/// coordinate, or a guarantee that no index does.
pub proof fn lemma_wall_tracker_index(s: Seq<BreakingWall>, c: (i32, i32))
    ensures
        wall_tracker_index(s, c) == -1 ==> forall|j: int|
            0 <= j < s.len() ==> (#[trigger] s[j]).coord != c,
        wall_tracker_index(s, c) != -1 ==> 0 <= wall_tracker_index(s, c) < s.len()
            && s[wall_tracker_index(s, c)].coord == c && (forall|j: int|
            0 <= j < wall_tracker_index(s, c) ==> (#[trigger] s[j]).coord != c),
    decreases s.len(),
{
    if s.len() == 0 {
    } else if s[0].coord == c {
    } else {
        lemma_wall_tracker_index(s.drop_first(), c);
        if wall_tracker_index(s, c) == -1 {
            assert forall|j: int| 0 <= j < s.len() implies (#[trigger] s[j]).coord != c by {
                if j > 0 {
                    assert(s.drop_first()[j - 1] == s[j]);
                }
            }
        } else {
            let t = wall_tracker_index(s, c);
            assert(s.drop_first()[t - 1] == s[t]);
            assert forall|j: int| 0 <= j < t implies (#[trigger] s[j]).coord != c by {
                if j > 0 {
                    assert(s.drop_first()[j - 1] == s[j]);
                }
            }
        }
    }
}

/// At most one wall tracker entry per coordinate.
pub open spec fn wall_coords_unique(s: Seq<BreakingWall>) -> bool {
    forall|i: int, j: int|
        #![trigger s[i], s[j]]
        0 <= i < j < s.len() ==> s[i].coord != s[j].coord
}

/// The wall tracker list with every entry at the given coordinate removed.
pub open spec fn wall_without_coord(s: Seq<BreakingWall>, c: (i32, i32)) -> Seq<BreakingWall> {
    s.filter(|b: BreakingWall| b.coord != c)
}

/// Removing a coordinate keeps a subset of the entries and preserves
/// uniqueness of coordinates.
pub proof fn lemma_wall_without_coord_props(s: Seq<BreakingWall>, c: (i32, i32))
    ensures
        wall_without_coord(s, c).len() <= s.len(),
        forall|i: int|
            0 <= i < wall_without_coord(s, c).len() ==> s.contains(
                #[trigger] wall_without_coord(s, c)[i],
            ) && wall_without_coord(s, c)[i].coord != c,
        wall_coords_unique(s) ==> wall_coords_unique(wall_without_coord(s, c)),
    decreases s.len(),
{
    reveal(Seq::filter);
    if s.len() == 0 {
    } else {
        let pre = s.drop_last();
        let last = s.last();
        lemma_wall_without_coord_props(pre, c);
        assert(forall|i: int|
            0 <= i < pre.len() ==> pre[i] == s[i] && s.contains(#[trigger] pre[i]));
        if last.coord != c {
            assert(wall_without_coord(s, c) == wall_without_coord(pre, c).push(last));
            assert(s.contains(last)) by {
                assert(s[s.len() - 1] == last);
            }
            if wall_coords_unique(s) {
                assert(wall_coords_unique(pre));
                let w = wall_without_coord(s, c);
                assert forall|i: int, j: int|
                    #![trigger w[i], w[j]]
                    0 <= i < j < w.len() implies w[i].coord != w[j].coord by {
                    if j < w.len() - 1 {
                        assert(w[i] == wall_without_coord(pre, c)[i]);
                        assert(w[j] == wall_without_coord(pre, c)[j]);
                    } else {
                        assert(w[j] == last);
                        assert(w[i] == wall_without_coord(pre, c)[i]);
                        assert(pre.contains(w[i]));
                        let k = choose|k: int| 0 <= k < pre.len() && pre[k] == w[i];
                        assert(s[k] == w[i]);
                        assert(s[s.len() - 1] == last);
                    }
                }
            }
        } else {
            assert(wall_without_coord(s, c) == wall_without_coord(pre, c));
            if wall_coords_unique(s) {
                assert(wall_coords_unique(pre));
            }
        }
    }
}

/// Wall progress accumulation capped at the top of the `i32` range.
pub open spec fn wall_sat_add(p: i32, f: i32) -> i32 {
    if p as int + f as int > i32::MAX as int {
        i32::MAX
    } else {
        ((p as int + f as int) as i32)
    }
}

/// One accumulation step of a wall tracker entry.
pub open spec fn wall_tick_entry(e: BreakingWall, f: i32) -> BreakingWall {
    if e.is_breaking {
        BreakingWall { break_progress: wall_sat_add(e.break_progress, f), ..e }
    } else {
        e
    }
}

/// The whole wall tracker after one accumulation step.
pub open spec fn wall_ticked(s: Seq<BreakingWall>, f: i32) -> Seq<BreakingWall> {
    Seq::new(s.len(), |i: int| wall_tick_entry(s[i], f))
}

/// The background wall layer: one wall id per cell, its own break tracker
/// and its own registry of wall types. The type with id 0 is always the
/// "clear" sentinel registered at construction.
pub struct Walls {
    map: WorldMap,
    walls: Vec<WallId>,
    breaking_walls: Vec<BreakingWall>,
    wall_types: Vec<Wall>,
    clear: WallId,
}

impl Walls {
    /// The bounds-keeping map of this grid.
    pub closed spec fn map_spec(self) -> WorldMap {
        self.map
    }

    /// The dense wall id of every cell, by linear index.
    pub closed spec fn grid(self) -> Seq<WallId> {
        self.walls@
    }

    /// The list of walls currently being broken.
    pub closed spec fn breaking(self) -> Seq<BreakingWall> {
        self.breaking_walls@
    }

    /// The registry of wall types, indexed by wall id.
    pub closed spec fn types(self) -> Seq<Wall> {
        self.wall_types@
    }

    /// The id of the clear sentinel type.
    pub closed spec fn clear_id(self) -> WallId {
        self.clear
    }

    pub open spec fn width(self) -> int {
        self.map_spec().width()
    }

    pub open spec fn height(self) -> int {
        self.map_spec().height()
    }

    pub open spec fn in_bounds(self, x: int, y: int) -> bool {
        self.map_spec().in_bounds(x, y)
    }

    pub open spec fn index_of(self, x: int, y: int) -> int {
        self.map_spec().index_of(x, y)
    }

    pub open spec fn wall_at(self, x: int, y: int) -> WallId {
        self.grid()[self.index_of(x, y)]
    }

    /// Whether an id has an entry in the wall type registry.
    pub open spec fn valid_id(self, id: WallId) -> bool {
        0 <= id.id < self.types().len()
    }

    /// The registry entry of a valid id.
    pub open spec fn type_of(self, id: WallId) -> Wall {
        self.types()[id.id as int]
    }

    /// Well-formedness of the wall layer: the dense array matches the
    /// map's dimensions, the registry assigns ids sequentially with clear
    /// first, and the tracker holds at most one in-bounds entry per
    /// coordinate with non-negative progress.
    pub open spec fn wf(self) -> bool {
        &&& self.map_spec().wf()
        &&& self.grid().len() as int == self.width() * self.height()
        &&& 1 <= self.types().len() <= 128
        &&& (forall|i: int|
            0 <= i < self.types().len() ==> (#[trigger] self.types()[i]).id == (WallId {
                id: i as i8,
            }))
        &&& self.clear_id() == (WallId { id: 0i8 })
        &&& wall_coords_unique(self.breaking())
        &&& (forall|i: int|
            0 <= i < self.breaking().len() ==> self.in_bounds(
                (#[trigger] self.breaking()[i]).coord.0 as int,
                self.breaking()[i].coord.1 as int,
            ) && self.breaking()[i].break_progress >= 0)
    }

    /// A fresh wall layer with no cells and only the clear type
    /// registered.
    pub fn new() -> (r: Self)
        ensures
            r.wf(),
            r.width() == 0,
            r.height() == 0,
            r.grid().len() == 0,
            r.types().len() == 1,
            r.types()[0].name@ == "clear"@,
            r.types()[0].break_time is None,
            r.clear_id() == (WallId { id: 0i8 }),
            r.breaking().len() == 0,
    {
        let mut clear = Wall::new();
        clear.id = WallId { id: 0 };
        clear.name = "clear".to_owned();
        proof {
            reveal_strlit("clear");
        }
        let mut wall_types: Vec<Wall> = Vec::new();
        wall_types.push(clear);
        Self {
            map: WorldMap::new_empty(),
            walls: Vec::new(),
            breaking_walls: Vec::new(),
            wall_types,
            clear: WallId { id: 0 },
        }
    }

    pub fn get_width(&self) -> (r: u32)
        ensures
            r as int == self.width(),
    {
        self.map.get_size().0
    }

    pub fn get_height(&self) -> (r: u32)
        ensures
            r as int == self.height(),
    {
        self.map.get_size().1
    }

    /// The id of the clear sentinel type.
    pub fn clear(&self) -> (r: WallId)
        ensures
            r == self.clear_id(),
    {
        self.clear
    }

    /// Creates an empty wall layer with the given width and height: every
    /// cell becomes clear and pending breaks are dropped. The registry is
    /// kept.
    pub fn create(&mut self, width: u32, height: u32)
        requires
            old(self).wf(),
            (width as int) * (height as int) <= usize::MAX as int,
        ensures
            final(self).wf(),
            final(self).width() == width as int,
            final(self).height() == height as int,
            final(self).grid().len() as int == (width as int) * (height as int),
            forall|i: int|
                0 <= i < final(self).grid().len() ==> #[trigger] final(self).grid()[i] == old(
                    self,
                ).clear_id(),
            final(self).types() == old(self).types(),
            final(self).clear_id() == old(self).clear_id(),
            final(self).breaking().len() == 0,
    {
        self.map = WorldMap::new((width, height));
        let n: usize = (width as usize) * (height as usize);
        self.walls = vec![self.clear; n];
        self.breaking_walls.clear();
    }

    /// Adds a new wall type to the registry, assigning it the next
    /// sequential id.
    pub fn register_new_wall_type(&mut self, wall_type: Wall) -> (r: WallId)
        requires
            old(self).types().len() < 128,
        ensures
            r == (WallId { id: old(self).types().len() as i8 }),
            final(self).types().len() == old(self).types().len() + 1,
            final(self).types()[old(self).types().len() as int] == (Wall { id: r, ..wall_type }),
            forall|i: int|
                0 <= i < old(self).types().len() ==> #[trigger] final(self).types()[i] == old(
                    self,
                ).types()[i],
            final(self).map_spec() == old(self).map_spec(),
            final(self).grid() == old(self).grid(),
            final(self).breaking() == old(self).breaking(),
            final(self).clear_id() == old(self).clear_id(),
            old(self).wf() ==> final(self).wf(),
    {
        let id = self.wall_types.len() as i8;
        let result = WallId { id };
        let mut wall_type = wall_type;
        wall_type.id = result;
        self.wall_types.push(wall_type);
        result
    }

    /// The wall id at a position.
    pub fn get_wall(&self, x: i32, y: i32) -> (r: Result<WallId, WorldError>)
        requires
            self.wf(),
        ensures
            self.in_bounds(x as int, y as int) ==> r == Result::<WallId, WorldError>::Ok(
                self.wall_at(x as int, y as int),
            ),
            !self.in_bounds(x as int, y as int) ==> r == Result::<WallId, WorldError>::Err(
                WorldError::OutOfBounds,
            ),
    {
        let idx = match self.map.translate_coords(x, y) {
            Ok(i) => i,
            Err(e) => {
                return Err(e);
            },
        };
        proof {
            crate::world_map::lemma_index_in_range(self.map, x as int, y as int);
        }
        Ok(self.walls[idx])
    }

    /// The registry entry of a wall id.
    pub fn get_wall_type(&self, id: WallId) -> (r: Result<&Wall, WorldError>)
        requires
            self.wf(),
        ensures
            self.valid_id(id) ==> (r matches Ok(t) && *t == self.type_of(id)),
            !self.valid_id(id) ==> r == Result::<&Wall, WorldError>::Err(
                WorldError::UnknownWallType,
            ),
    {
        if id.id < 0 || (id.id as usize) >= self.wall_types.len() {
            return Err(WorldError::UnknownWallType);
        }
        Ok(&self.wall_types[id.id as usize])
    }

    /// The registry entry of the wall occupying a position.
    pub fn get_wall_type_at(&self, x: i32, y: i32) -> (r: Result<&Wall, WorldError>)
        requires
            self.wf(),
        ensures
            !self.in_bounds(x as int, y as int) ==> r == Result::<&Wall, WorldError>::Err(
                WorldError::OutOfBounds,
            ),
            self.in_bounds(x as int, y as int) && !self.valid_id(self.wall_at(x as int, y as int))
                ==> r == Result::<&Wall, WorldError>::Err(WorldError::UnknownWallType),
            self.in_bounds(x as int, y as int) && self.valid_id(self.wall_at(x as int, y as int))
                ==> (r matches Ok(t) && *t == self.type_of(self.wall_at(x as int, y as int))),
    {
        let id = match self.get_wall(x, y) {
            Ok(id) => id,
            Err(e) => {
                return Err(e);
            },
        };
        self.get_wall_type(id)
    }

    /// The id of the first registered wall type with the given name.
    pub fn get_wall_id_by_name(&self, name: &String) -> (r: Result<WallId, WorldError>)
        requires
            self.wf(),
        ensures
            r matches Ok(id) ==> self.valid_id(id) && self.type_of(id).name@ == name@,
            r is Err ==> r == Result::<WallId, WorldError>::Err(WorldError::NotFound) && (forall|
                j: int,
            |
                0 <= j < self.types().len() ==> (#[trigger] self.types()[j]).name@ != name@),
    {
        let n = self.wall_types.len();
        let mut i: usize = 0;
        while i < n
            invariant
                self.wf(),
                n == self.types().len(),
                0 <= i <= n,
                forall|j: int| 0 <= j < i ==> (#[trigger] self.types()[j]).name@ != name@,
            decreases n - i,
        {
            if self.wall_types[i].name == *name {
                return Ok(self.wall_types[i].id);
            }
            i += 1;
        }
        Err(WorldError::NotFound)
    }

    /// Sets the type of the wall at a position, dropping any pending
    /// break of it.
    pub fn set_wall_type(&mut self, x: i32, y: i32, id: WallId) -> (r: Result<(), WorldError>)
        requires
            old(self).wf(),
        ensures
            final(self).wf(),
            !old(self).in_bounds(x as int, y as int) ==> r == Result::<(), WorldError>::Err(
                WorldError::OutOfBounds,
            ) && *final(self) == *old(self),
            old(self).in_bounds(x as int, y as int) && !old(self).valid_id(id) ==> r == Result::<
                (),
                WorldError,
            >::Err(WorldError::UnknownWallType) && *final(self) == *old(self),
            old(self).in_bounds(x as int, y as int) && old(self).valid_id(id) ==> {
                &&& r == Result::<(), WorldError>::Ok(())
                &&& final(self).grid() == old(self).grid().update(
                    old(self).index_of(x as int, y as int),
                    id,
                )
                &&& final(self).breaking() == wall_without_coord(old(self).breaking(), (x, y))
                &&& final(self).map_spec() == old(self).map_spec()
                &&& final(self).types() == old(self).types()
                &&& final(self).clear_id() == old(self).clear_id()
            },
    {
        let idx = match self.map.translate_coords(x, y) {
            Ok(i) => i,
            Err(e) => {
                return Err(e);
            },
        };
        if id.id < 0 || (id.id as usize) >= self.wall_types.len() {
            return Err(WorldError::UnknownWallType);
        }
        proof {
            crate::world_map::lemma_index_in_range(self.map, x as int, y as int);
        }
        self.walls.set(idx, id);
        let n = self.breaking_walls.len();
        let mut kept: Vec<BreakingWall> = Vec::new();
        let mut i: usize = 0;
        while i < n
            invariant
                n == self.breaking_walls@.len(),
                0 <= i <= n,
                kept@ == wall_without_coord(self.breaking_walls@.subrange(0, i as int), (x, y)),
            decreases n - i,
        {
            let b = self.breaking_walls[i];
            proof {
                reveal(Seq::filter);
                let sub = self.breaking_walls@.subrange(0, i as int);
                let sub2 = self.breaking_walls@.subrange(0, i as int + 1);
                assert(sub2.drop_last() =~= sub);
                assert(sub2.last() == b);
            }
            if !(b.coord.0 == x && b.coord.1 == y) {
                kept.push(b);
            }
            i += 1;
        }
        proof {
            assert(self.breaking_walls@.subrange(0, n as int) =~= self.breaking_walls@);
        }
        self.breaking_walls = kept;
        proof {
            lemma_wall_without_coord_props(old(self).breaking(), (x, y));
            let w = self.breaking();
            assert forall|i: int|
                0 <= i < w.len() implies self.in_bounds(
                (#[trigger] w[i]).coord.0 as int,
                w[i].coord.1 as int,
            ) && w[i].break_progress >= 0 by {
                assert(old(self).breaking().contains(w[i]));
                let j = choose|j: int|
                    0 <= j < old(self).breaking().len() && old(self).breaking()[j] == w[i];
            }
        }
        Ok(())
    }
}

/// Whether a wall tracker entry has accumulated more progress than the
/// break threshold of the wall now occupying its coordinate. A type
/// without a break time counts as threshold one, matching how completion
/// treats it.
pub open spec fn wall_past_threshold(b: Walls, e: BreakingWall) -> bool {
    let id = b.wall_at(e.coord.0 as int, e.coord.1 as int);
    b.valid_id(id) && e.break_progress as int > (match b.type_of(id).break_time {
        Some(bt) => bt as int,
        None => 1,
    })
}

/// The coordinates of the entries of a wall tracker list that are past
/// their threshold in a given state, in list order.
pub open spec fn wall_past_coords_of(b: Walls, s: Seq<BreakingWall>) -> Seq<(i32, i32)> {
    s.filter(|e: BreakingWall| wall_past_threshold(b, e)).map_values(|e: BreakingWall| e.coord)
}

/// Whether some wall tracker entry sits on a cell with an unregistered
/// id, so that the completion scan fails before processing anything.
pub open spec fn wall_scan_fails(b: Walls) -> bool {
    exists|i: int|
        0 <= i < b.breaking().len() && !b.valid_id(
            b.wall_at((#[trigger] b.breaking()[i]).coord.0 as int, b.breaking()[i].coord.1 as int),
        )
}

/// The accumulation phase of a wall tick: every entry still marked
/// breaking gains the frame length, and nothing else changes.
pub open spec fn wall_tick_rel(pre: Walls, mid: Walls, f: i32) -> bool {
    &&& mid.breaking() == wall_ticked(pre.breaking(), f)
    &&& mid.map_spec() == pre.map_spec()
    &&& mid.grid() == pre.grid()
    &&& mid.types() == pre.types()
    &&& mid.clear_id() == pre.clear_id()
}

/// One completed wall break during the completion phase: the entry's
/// cell becomes clear and the entry itself is dropped.
pub open spec fn wall_completion_step(pre: Walls, post: Walls, c: (i32, i32)) -> bool {
    &&& post.grid() == pre.grid().update(pre.index_of(c.0 as int, c.1 as int), pre.clear_id())
    &&& post.breaking() == wall_without_coord(pre.breaking(), c)
    &&& post.map_spec() == pre.map_spec()
    &&& post.types() == pre.types()
    &&& post.clear_id() == pre.clear_id()
}

/// A run of completed wall breaks, one `wall_completion_step` per
/// coordinate, with the intermediate states it passes through.
pub open spec fn wall_completion_chain(states: Seq<Walls>, coords: Seq<(i32, i32)>) -> bool {
    &&& states.len() == coords.len() + 1
    &&& forall|i: int|
        0 <= i < coords.len() ==> #[trigger] wall_completion_step(
            states[i],
            states[i + 1],
            coords[i],
        )
}

/// The completion phase of a wall tick: a scan over a cell with an
/// unregistered id fails the whole pass untouched; otherwise every entry
/// past its threshold is processed in scan order, each one clearing its
/// cell and dropping its entry, through the chain of intermediate states.
pub open spec fn wall_finish_rel(mid: Walls, post: Walls, r: Result<(), WorldError>) -> bool {
    &&& post.map_spec() == mid.map_spec()
    &&& post.types() == mid.types()
    &&& post.clear_id() == mid.clear_id()
    &&& if wall_scan_fails(mid) {
        r == Result::<(), WorldError>::Err(WorldError::UnknownWallType) && post == mid
    } else {
        &&& r == Result::<(), WorldError>::Ok(())
        &&& exists|states: Seq<Walls>|
            #[trigger] wall_completion_chain(states, wall_past_coords_of(mid, mid.breaking()))
                && states[0] == mid && states.last() == post
    }
}

/// There is a wall tracker entry in `s` with coordinate `c` that is past
/// its threshold in state `b`.
pub open spec fn wall_past_entry_exists(b: Walls, s: Seq<BreakingWall>, c: (i32, i32)) -> bool {
    exists|j: int| 0 <= j < s.len() && (#[trigger] s[j]).coord == c && wall_past_threshold(b, s[j])
}

/// Each coordinate of `wall_past_coords_of` belongs to a list entry that
/// is past its threshold.
pub proof fn lemma_wall_past_coords_membership(b: Walls, s: Seq<BreakingWall>)
    ensures
        wall_past_coords_of(b, s).len() <= s.len(),
        forall|i: int|
            0 <= i < wall_past_coords_of(b, s).len() ==> wall_past_entry_exists(
                b,
                s,
                #[trigger] wall_past_coords_of(b, s)[i],
            ),
    decreases s.len(),
{
    reveal(Seq::filter);
    if s.len() == 0 {
        assert(wall_past_coords_of(b, s) =~= Seq::<(i32, i32)>::empty());
    } else {
        let pre = s.drop_last();
        let last = s.last();
        lemma_wall_past_coords_membership(b, pre);
        assert(forall|j: int| 0 <= j < pre.len() ==> #[trigger] pre[j] == s[j]);
        if wall_past_threshold(b, last) {
            assert(wall_past_coords_of(b, s) =~= wall_past_coords_of(b, pre).push(last.coord));
        } else {
            assert(wall_past_coords_of(b, s) =~= wall_past_coords_of(b, pre));
        }
        assert forall|i: int|
            0 <= i < wall_past_coords_of(b, s).len() implies wall_past_entry_exists(
            b,
            s,
            #[trigger] wall_past_coords_of(b, s)[i],
        ) by {
            if wall_past_threshold(b, last) && i == wall_past_coords_of(b, s).len() - 1 {
                assert(s[s.len() - 1] == last);
                assert(s[s.len() - 1].coord == wall_past_coords_of(b, s)[i] && wall_past_threshold(
                    b,
                    s[s.len() - 1],
                ));
            } else {
                assert(wall_past_coords_of(b, s)[i] == wall_past_coords_of(b, pre)[i]);
                assert(wall_past_entry_exists(b, pre, wall_past_coords_of(b, pre)[i]));
                let j = choose|j: int|
                    0 <= j < pre.len() && (#[trigger] pre[j]).coord == wall_past_coords_of(
                        b,
                        pre,
                    )[i] && wall_past_threshold(b, pre[j]);
                assert(s[j].coord == wall_past_coords_of(b, s)[i] && wall_past_threshold(b, s[j]));
            }
        }
    }
}

impl Walls {
    /// The index of the wall tracker entry at a coordinate, if one
    /// exists.
    fn find_breaking_index(&self, x: i32, y: i32) -> (r: Option<usize>)
        ensures
            match r {
                Some(i) => i as int == wall_tracker_index(self.breaking(), (x, y)),
                None => wall_tracker_index(self.breaking(), (x, y)) == -1,
            },
    {
        proof {
            lemma_wall_tracker_index(self.breaking(), (x, y));
        }
        let n = self.breaking_walls.len();
        let mut i: usize = 0;
        while i < n
            invariant
                n == self.breaking_walls@.len(),
                0 <= i <= n,
                forall|j: int| 0 <= j < i ==> (#[trigger] self.breaking_walls@[j]).coord != (x, y),
            decreases n - i,
        {
            let e = self.breaking_walls[i];
            if e.coord.0 == x && e.coord.1 == y {
                proof {
                    lemma_wall_tracker_index(self.breaking(), (x, y));
                    let t = wall_tracker_index(self.breaking(), (x, y));
                    assert(self.breaking()[i as int].coord == (x, y));
                    if t == -1 {
                        assert(self.breaking()[i as int].coord != (x, y));
                    } else if t < i as int {
                        assert(self.breaking_walls@[t].coord != (x, y));
                    } else if t > i as int {
                        assert(self.breaking()[i as int].coord != (x, y));
                    }
                }
                return Some(i);
            }
            i += 1;
        }
        None
    }

    /// The breaking progress retained for a wall coordinate, zero when
    /// nothing at it is being or has been broken.
    pub fn get_break_progress(&self, x: i32, y: i32) -> (r: Result<i32, WorldError>)
        requires
            self.wf(),
        ensures
            !self.in_bounds(x as int, y as int) ==> r == Result::<i32, WorldError>::Err(
                WorldError::OutOfBounds,
            ),
            self.in_bounds(x as int, y as int) ==> r == Result::<i32, WorldError>::Ok(
                match wall_tracker_entry(self.breaking(), (x, y)) {
                    Some(e) => e.break_progress,
                    None => 0,
                },
            ),
    {
        match self.map.translate_coords(x, y) {
            Ok(_) => {},
            Err(e) => {
                return Err(e);
            },
        }
        match self.find_breaking_index(x, y) {
            Some(i) => {
                proof {
                    lemma_wall_tracker_index(self.breaking(), (x, y));
                }
                Ok(self.breaking_walls[i].break_progress)
            },
            None => Ok(0),
        }
    }

    /// The break stage rendered for a wall coordinate: the retained
    /// progress scaled to `BREAK_STAGE_COUNT` stages of the occupying
    /// type's break time.
    pub fn get_break_stage(&self, x: i32, y: i32) -> (r: Result<i32, WorldError>)
        requires
            self.wf(),
        ensures
            !self.in_bounds(x as int, y as int) ==> r == Result::<i32, WorldError>::Err(
                WorldError::OutOfBounds,
            ),
            self.in_bounds(x as int, y as int) && !self.valid_id(self.wall_at(x as int, y as int))
                ==> r == Result::<i32, WorldError>::Err(WorldError::UnknownWallType),
            self.in_bounds(x as int, y as int) && self.valid_id(self.wall_at(x as int, y as int))
                ==> r == Result::<i32, WorldError>::Ok(
                crate::blocks::breaking::break_stage_spec(
                    match wall_tracker_entry(self.breaking(), (x, y)) {
                        Some(e) => e.break_progress as int,
                        None => 0,
                    },
                    self.type_of(self.wall_at(x as int, y as int)).break_time,
                ) as i32,
            ),
    {
        let progress = match self.get_break_progress(x, y) {
            Ok(p) => p,
            Err(e) => {
                return Err(e);
            },
        };
        let bt = match self.get_wall_type_at(x, y) {
            Ok(t) => t.break_time,
            Err(e) => {
                return Err(e);
            },
        };
        match bt {
            None => Ok(0),
            Some(t) => {
                if t <= 0 || progress <= 0 {
                    return Ok(0);
                }
                let s64: i64 = (progress as i64) * (BREAK_STAGE_COUNT as i64) / (t as i64);
                if s64 > BREAK_STAGE_COUNT as i64 {
                    Ok(BREAK_STAGE_COUNT)
                } else {
                    Ok(s64 as i32)
                }
            },
        }
    }

    /// Starts (or resumes) breaking the wall at a coordinate. An
    /// unbreakable type is a silent no-op; otherwise the tracker entry is
    /// created or set breaking again, keeping any retained progress, and
    /// a started-breaking event is emitted.
    pub fn start_breaking_wall(
        &mut self,
        events: &mut EventManager<WallEvent>,
        x: i32,
        y: i32,
    ) -> (r: Result<(), WorldError>)
        requires
            old(self).wf(),
        ensures
            final(self).wf(),
            final(self).map_spec() == old(self).map_spec(),
            final(self).grid() == old(self).grid(),
            final(self).types() == old(self).types(),
            final(self).clear_id() == old(self).clear_id(),
            !old(self).in_bounds(x as int, y as int) ==> r == Result::<(), WorldError>::Err(
                WorldError::OutOfBounds,
            ) && *final(self) == *old(self) && final(events)@ == old(events)@,
            old(self).in_bounds(x as int, y as int) && !old(self).valid_id(
                old(self).wall_at(x as int, y as int),
            ) ==> r == Result::<(), WorldError>::Err(WorldError::UnknownWallType) && *final(self)
                == *old(self) && final(events)@ == old(events)@,
            old(self).in_bounds(x as int, y as int) && old(self).valid_id(
                old(self).wall_at(x as int, y as int),
            ) && old(self).type_of(old(self).wall_at(x as int, y as int)).break_time is None ==> r
                == Result::<(), WorldError>::Ok(()) && *final(self) == *old(self) && final(events)@
                == old(events)@,
            old(self).in_bounds(x as int, y as int) && old(self).valid_id(
                old(self).wall_at(x as int, y as int),
            ) && old(self).type_of(old(self).wall_at(x as int, y as int)).break_time is Some ==> {
                let i = wall_tracker_index(old(self).breaking(), (x, y));
                &&& r == Result::<(), WorldError>::Ok(())
                &&& (i >= 0 ==> final(self).breaking() == old(self).breaking().update(
                    i,
                    BreakingWall { is_breaking: true, ..old(self).breaking()[i] },
                ))
                &&& (i < 0 ==> final(self).breaking() == old(self).breaking().push(
                    BreakingWall { break_progress: 0, is_breaking: true, coord: (x, y) },
                ))
                &&& final(events)@ == old(events)@.push(
                    WallEvent::StartedBreaking(WallStartedBreakingEvent { x, y }),
                )
            },
    {
        proof {
            lemma_wall_tracker_index(old(self).breaking(), (x, y));
        }
        let bt = match self.get_wall_type_at(x, y) {
            Ok(t) => t,
            Err(e) => {
                return Err(e);
            },
        };
        if bt.break_time.is_none() {
            return Ok(());
        }
        match self.find_breaking_index(x, y) {
            Some(i) => {
                let e = self.breaking_walls[i];
                self.breaking_walls.set(
                    i,
                    BreakingWall {
                        break_progress: e.break_progress,
                        is_breaking: true,
                        coord: e.coord,
                    },
                );
            },
            None => {
                self.breaking_walls.push(BreakingWall::new((x, y)));
            },
        }
        events.push_event(WallEvent::StartedBreaking(WallStartedBreakingEvent { x, y }));
        proof {
            lemma_wall_tracker_index(old(self).breaking(), (x, y));
        }
        Ok(())
    }

    /// Stops breaking the wall at a coordinate: an existing tracker entry
    /// is paused with its progress retained and a stopped-breaking event
    /// is emitted; without an entry nothing happens.
    pub fn stop_breaking_wall(&mut self, events: &mut EventManager<WallEvent>, x: i32, y: i32)
        requires
            old(self).wf(),
        ensures
            final(self).wf(),
            final(self).map_spec() == old(self).map_spec(),
            final(self).grid() == old(self).grid(),
            final(self).types() == old(self).types(),
            final(self).clear_id() == old(self).clear_id(),
            ({
                let i = wall_tracker_index(old(self).breaking(), (x, y));
                &&& (i >= 0 ==> final(self).breaking() == old(self).breaking().update(
                    i,
                    BreakingWall { is_breaking: false, ..old(self).breaking()[i] },
                ) && final(events)@ == old(events)@.push(
                    WallEvent::StoppedBreaking(WallStoppedBreakingEvent { x, y }),
                ))
                &&& (i < 0 ==> *final(self) == *old(self) && final(events)@ == old(events)@)
            }),
    {
        proof {
            lemma_wall_tracker_index(old(self).breaking(), (x, y));
        }
        match self.find_breaking_index(x, y) {
            Some(i) => {
                let e = self.breaking_walls[i];
                self.breaking_walls.set(
                    i,
                    BreakingWall {
                        break_progress: e.break_progress,
                        is_breaking: false,
                        coord: e.coord,
                    },
                );
                events.push_event(WallEvent::StoppedBreaking(WallStoppedBreakingEvent { x, y }));
            },
            None => {},
        }
    }

    /// Advances every active wall break by one frame and completes every
    /// break whose progress has passed its wall's break time: a completed
    /// wall becomes clear and its tracker entry is dropped.
    #[verifier::loop_isolation(false)]
    pub fn update_breaking_walls(&mut self, frame_length: i32) -> (r: Result<(), WorldError>)
        requires
            old(self).wf(),
            frame_length >= 0,
        ensures
            final(self).wf(),
            exists|mid: Walls|
                #[trigger] wall_tick_rel(*old(self), mid, frame_length) && wall_finish_rel(
                    mid,
                    *final(self),
                    r,
                ),
    {
        let n = self.breaking_walls.len();
        let mut i: usize = 0;
        while i < n
            invariant
                n == self.breaking_walls@.len(),
                0 <= i <= n,
                forall|j: int|
                    0 <= j < i ==> #[trigger] self.breaking_walls@[j] == wall_tick_entry(
                        old(self).breaking_walls@[j],
                        frame_length,
                    ),
                forall|j: int|
                    i <= j < n ==> #[trigger] self.breaking_walls@[j] == old(
                        self,
                    ).breaking_walls@[j],
                self.map == old(self).map,
                self.walls == old(self).walls,
                self.wall_types == old(self).wall_types,
                self.clear == old(self).clear,
            decreases n - i,
        {
            let e = self.breaking_walls[i];
            if e.is_breaking {
                let np: i32 = if e.break_progress > i32::MAX - frame_length {
                    i32::MAX
                } else {
                    e.break_progress + frame_length
                };
                self.breaking_walls.set(
                    i,
                    BreakingWall { break_progress: np, is_breaking: true, coord: e.coord },
                );
            }
            i += 1;
        }
        let ghost mid = *self;
        proof {
            assert(mid.breaking() =~= wall_ticked(old(self).breaking(), frame_length));
            assert(wall_tick_rel(*old(self), mid, frame_length));
            assert(self.wf());
        }

        let mut pending: Vec<(i32, i32)> = Vec::new();
        let n2 = self.breaking_walls.len();
        let mut k: usize = 0;
        while k < n2
            invariant
                n2 == self.breaking_walls@.len(),
                0 <= k <= n2,
                forall|j: int|
                    0 <= j < k ==> mid.valid_id(
                        mid.wall_at(
                            (#[trigger] mid.breaking()[j]).coord.0 as int,
                            mid.breaking()[j].coord.1 as int,
                        ),
                    ),
                pending@ == wall_past_coords_of(mid, mid.breaking().subrange(0, k as int)),
            decreases n2 - k,
        {
            let e = self.breaking_walls[k];
            let bt = match self.get_wall_type_at(e.coord.0, e.coord.1) {
                Ok(t) => t.break_time,
                Err(err) => {
                    proof {
                        assert(mid.in_bounds(e.coord.0 as int, e.coord.1 as int));
                        assert(!mid.valid_id(mid.wall_at(e.coord.0 as int, e.coord.1 as int)));
                        assert(wall_scan_fails(mid));
                        assert(wall_finish_rel(mid, *self, Result::<(), WorldError>::Err(
                            WorldError::UnknownWallType,
                        )));
                    }
                    return Err(err);
                },
            };
            let threshold: i32 = match bt {
                Some(b) => b,
                None => 1,
            };
            proof {
                reveal(Seq::filter);
                let sub = mid.breaking().subrange(0, k as int);
                let sub2 = mid.breaking().subrange(0, k as int + 1);
                assert(sub2.drop_last() =~= sub);
                assert(sub2.last() == mid.breaking()[k as int]);
                if wall_past_threshold(mid, mid.breaking()[k as int]) {
                    assert(wall_past_coords_of(mid, sub2) =~= wall_past_coords_of(mid, sub).push(
                        mid.breaking()[k as int].coord,
                    ));
                } else {
                    assert(wall_past_coords_of(mid, sub2) =~= wall_past_coords_of(mid, sub));
                }
            }
            if e.break_progress > threshold {
                pending.push(e.coord);
            }
            k += 1;
        }
        proof {
            assert(mid.breaking().subrange(0, n2 as int) =~= mid.breaking());
            assert(pending@ == wall_past_coords_of(mid, mid.breaking()));
            if wall_scan_fails(mid) {
                let j = choose|j: int|
                    0 <= j < mid.breaking().len() && !mid.valid_id(
                        mid.wall_at(
                            (#[trigger] mid.breaking()[j]).coord.0 as int,
                            mid.breaking()[j].coord.1 as int,
                        ),
                    );
                assert(false);
            }
        }

        proof {
            lemma_wall_past_coords_membership(mid, mid.breaking());
        }
        let m = pending.len();
        let ghost mut sts: Seq<Walls> = seq![mid];
        let mut j: usize = 0;
        while j < m
            invariant
                0 <= j <= m,
                m == pending@.len(),
                self.wf(),
                self.map_spec() == mid.map_spec(),
                self.types() == mid.types(),
                self.clear_id() == mid.clear_id(),
                sts.len() == j + 1,
                sts[0] == mid,
                sts.last() == *self,
                wall_completion_chain(sts, pending@.subrange(0, j as int)),
            decreases m - j,
        {
            let c = pending[j];
            proof {
                assert(wall_past_entry_exists(mid, mid.breaking(), pending@[j as int]));
                let jj = choose|jj: int|
                    0 <= jj < mid.breaking().len() && (#[trigger] mid.breaking()[jj]).coord
                        == pending@[j as int] && wall_past_threshold(mid, mid.breaking()[jj]);
                assert(mid.in_bounds(c.0 as int, c.1 as int));
                assert(self.in_bounds(c.0 as int, c.1 as int));
                assert(self.valid_id(self.clear_id()));
            }
            let ghost prev = *self;
            let clear = self.clear;
            match self.set_wall_type(c.0, c.1, clear) {
                Ok(()) => {},
                Err(e) => {
                    proof {
                        assert(false);
                    }
                    return Err(e);
                },
            }
            proof {
                assert(wall_completion_step(prev, *self, c));
                let sts2 = sts.push(*self);
                assert(pending@.subrange(0, j as int + 1) =~= pending@.subrange(0, j as int).push(
                    pending@[j as int],
                ));
                assert forall|i: int|
                    0 <= i < j as int + 1 implies #[trigger] wall_completion_step(
                    sts2[i],
                    sts2[i + 1],
                    pending@.subrange(0, j as int + 1)[i],
                ) by {
                    if i < j as int {
                        assert(wall_completion_step(
                            sts[i],
                            sts[i + 1],
                            pending@.subrange(0, j as int)[i],
                        ));
                    }
                }
                sts = sts2;
            }
            j += 1;
        }
        proof {
            assert(pending@.subrange(0, j as int) =~= pending@);
            assert(wall_completion_chain(sts, wall_past_coords_of(mid, mid.breaking())));
            assert(wall_finish_rel(mid, *self, Result::<(), WorldError>::Ok(())));
            assert(wall_tick_rel(*old(self), mid, frame_length));
        }
        Ok(())
    }
}

} // verus!
