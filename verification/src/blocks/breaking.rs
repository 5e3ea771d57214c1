use vstd::prelude::*;
use vstd::pervasive::VecAdditionalExecFns;

use crate::blocks::events::{BlockEvent, BlockStartedBreakingEvent, BlockStoppedBreakingEvent};
use crate::blocks::grid::{
    break_rel, lemma_model, same_data, same_from_main, same_inv, same_registry, Blocks,
};
use crate::blocks::types::ToolId;
use crate::errors::WorldError;
use crate::events::EventManager;

verus! {

/// The number of break animation stages a break progresses through; the
/// rendered stage is the progress scaled to this range. The same scale is
/// used for blocks and for walls.
pub const BREAK_STAGE_COUNT: i32 = 9;

/// A block that is currently being broken: the accumulated progress, and
/// whether progress is still accumulating or is paused.
#[derive(Clone, Copy, Debug)]
pub struct BreakingBlock {
    pub break_progress: i32,
    pub is_breaking: bool,
    pub coord: (i32, i32),
}

impl BreakingBlock {
    pub fn new(coord: (i32, i32)) -> (r: Self)
        ensures
            r.break_progress == 0,
            r.is_breaking,
            r.coord == coord,
    {
        Self { break_progress: 0, is_breaking: true, coord }
    }

    pub fn get_coord(&self) -> (r: (i32, i32))
        ensures
            r == self.coord,
    {
        self.coord
    }
}

/// The index of the first tracker entry with the given coordinate, `-1`
/// when there is none. A well formed tracker has at most one entry per
/// coordinate, so "first" is "the" entry.
pub open spec fn tracker_index(s: Seq<BreakingBlock>, c: (i32, i32)) -> int
    decreases s.len(),
{
    if s.len() == 0 {
        -1
    } else if s[0].coord == c {
        0
    } else {
        let r = tracker_index(s.drop_first(), c);
        if r == -1 {
            -1
        } else {
            r + 1
        }
    }
}

/// The tracker entry for a coordinate, if any.
pub open spec fn tracker_entry(s: Seq<BreakingBlock>, c: (i32, i32)) -> Option<BreakingBlock> {
    if tracker_index(s, c) >= 0 {
        Some(s[tracker_index(s, c)])
    } else {
        None
    }
}

/// What `tracker_index` finds: a first index that carries the coordinate,
/// or a guarantee that no index does.
pub proof fn lemma_tracker_index(s: Seq<BreakingBlock>, c: (i32, i32))
    ensures
        tracker_index(s, c) == -1 ==> forall|j: int|
            0 <= j < s.len() ==> (#[trigger] s[j]).coord != c,
        tracker_index(s, c) != -1 ==> 0 <= tracker_index(s, c) < s.len() && s[tracker_index(
            s,
            c,
        )].coord == c && (forall|j: int|
            0 <= j < tracker_index(s, c) ==> (#[trigger] s[j]).coord != c),
    decreases s.len(),
{
    if s.len() == 0 {
    } else if s[0].coord == c {
    } else {
        lemma_tracker_index(s.drop_first(), c);
        if tracker_index(s, c) == -1 {
            assert forall|j: int| 0 <= j < s.len() implies (#[trigger] s[j]).coord != c by {
                if j > 0 {
                    assert(s.drop_first()[j - 1] == s[j]);
                }
            }
        } else {
            let t = tracker_index(s, c);
            assert(s.drop_first()[t - 1] == s[t]);
            assert forall|j: int| 0 <= j < t implies (#[trigger] s[j]).coord != c by {
                if j > 0 {
                    assert(s.drop_first()[j - 1] == s[j]);
                }
            }
        }
    }
}

/// At most one tracker entry per coordinate.
pub open spec fn coords_unique(s: Seq<BreakingBlock>) -> bool {
    forall|i: int, j: int|
        #![trigger s[i], s[j]]
        0 <= i < j < s.len() ==> s[i].coord != s[j].coord
}

/// The tracker list with every entry at the given coordinate removed.
pub open spec fn without_coord(s: Seq<BreakingBlock>, c: (i32, i32)) -> Seq<BreakingBlock> {
    s.filter(|b: BreakingBlock| b.coord != c)
}

/// Removing a coordinate keeps a subset of the entries: each survivor is
/// an entry of the original list away from the removed coordinate, and
/// uniqueness of coordinates is preserved.
pub proof fn lemma_without_coord_props(s: Seq<BreakingBlock>, c: (i32, i32))
    ensures
        without_coord(s, c).len() <= s.len(),
        forall|i: int|
            0 <= i < without_coord(s, c).len() ==> s.contains(#[trigger] without_coord(s, c)[i])
                && without_coord(s, c)[i].coord != c,
        coords_unique(s) ==> coords_unique(without_coord(s, c)),
    decreases s.len(),
{
    reveal(Seq::filter);
    if s.len() == 0 {
    } else {
        let pre = s.drop_last();
        let last = s.last();
        lemma_without_coord_props(pre, c);
        assert(forall|i: int|
            0 <= i < pre.len() ==> pre[i] == s[i] && s.contains(#[trigger] pre[i]));
        if last.coord != c {
            assert(without_coord(s, c) == without_coord(pre, c).push(last));
            assert(s.contains(last)) by {
                assert(s[s.len() - 1] == last);
            }
            if coords_unique(s) {
                assert(coords_unique(pre));
                let w = without_coord(s, c);
                assert forall|i: int, j: int|
                    #![trigger w[i], w[j]]
                    0 <= i < j < w.len() implies w[i].coord != w[j].coord by {
                    if j < w.len() - 1 {
                        assert(w[i] == without_coord(pre, c)[i]);
                        assert(w[j] == without_coord(pre, c)[j]);
                    } else {
                        assert(w[j] == last);
                        assert(w[i] == without_coord(pre, c)[i]);
                        assert(pre.contains(w[i]));
                        let k = choose|k: int| 0 <= k < pre.len() && pre[k] == w[i];
                        assert(s[k] == w[i]);
                        assert(s[s.len() - 1] == last);
                    }
                }
            }
        } else {
            assert(without_coord(s, c) == without_coord(pre, c));
            if coords_unique(s) {
                assert(coords_unique(pre));
            }
        }
    }
}

/// Progress accumulation capped at the top of the `i32` range.
pub open spec fn sat_add(p: i32, f: i32) -> i32 {
    if p as int + f as int > i32::MAX as int {
        i32::MAX
    } else {
        ((p as int + f as int) as i32)
    }
}

/// One accumulation step: an entry still marked breaking gains the frame
/// length, a paused entry is untouched.
pub open spec fn tick_entry(e: BreakingBlock, f: i32) -> BreakingBlock {
    if e.is_breaking {
        BreakingBlock { break_progress: sat_add(e.break_progress, f), ..e }
    } else {
        e
    }
}

/// The whole tracker after one accumulation step.
pub open spec fn ticked(s: Seq<BreakingBlock>, f: i32) -> Seq<BreakingBlock> {
    Seq::new(s.len(), |i: int| tick_entry(s[i], f))
}

/// Whether a tracker entry has accumulated more progress than the break
/// threshold of the block now occupying its coordinate. A type without a
/// break time counts as threshold one, matching how completion treats it.
pub open spec fn past_threshold(b: Blocks, e: BreakingBlock) -> bool {
    let id = b.block_at(e.coord.0 as int, e.coord.1 as int);
    b.valid_id(id) && e.break_progress as int > (match b.type_of(id).break_time {
        Some(bt) => bt as int,
        None => 1,
    })
}

/// The coordinates of the entries of a tracker list that are past their
/// threshold in a given state, in list order.
pub open spec fn past_coords_of(b: Blocks, s: Seq<BreakingBlock>) -> Seq<(i32, i32)> {
    s.filter(|e: BreakingBlock| past_threshold(b, e)).map_values(|e: BreakingBlock| e.coord)
}

/// The coordinates of the tracker entries past their threshold, in list
/// order.
pub open spec fn past_coords(b: Blocks) -> Seq<(i32, i32)> {
    past_coords_of(b, b.breaking())
}

/// There is a tracker entry in `s` with coordinate `c` that is past its
/// threshold in state `b`.
pub open spec fn past_entry_exists(b: Blocks, s: Seq<BreakingBlock>, c: (i32, i32)) -> bool {
    exists|j: int| 0 <= j < s.len() && (#[trigger] s[j]).coord == c && past_threshold(b, s[j])
}

/// Each coordinate of `past_coords_of` belongs to a list entry that is
/// past its threshold.
pub proof fn lemma_past_coords_membership(b: Blocks, s: Seq<BreakingBlock>)
    ensures
        past_coords_of(b, s).len() <= s.len(),
        forall|i: int|
            0 <= i < past_coords_of(b, s).len() ==> past_entry_exists(
                b,
                s,
                #[trigger] past_coords_of(b, s)[i],
            ),
    decreases s.len(),
{
    reveal(Seq::filter);
    if s.len() == 0 {
        assert(past_coords_of(b, s) =~= Seq::<(i32, i32)>::empty());
    } else {
        let pre = s.drop_last();
        let last = s.last();
        lemma_past_coords_membership(b, pre);
        assert(forall|j: int| 0 <= j < pre.len() ==> #[trigger] pre[j] == s[j]);
        if past_threshold(b, last) {
            assert(past_coords_of(b, s) =~= past_coords_of(b, pre).push(last.coord));
        } else {
            assert(past_coords_of(b, s) =~= past_coords_of(b, pre));
        }
        assert forall|i: int|
            0 <= i < past_coords_of(b, s).len() implies past_entry_exists(
            b,
            s,
            #[trigger] past_coords_of(b, s)[i],
        ) by {
            if past_threshold(b, last) && i == past_coords_of(b, s).len() - 1 {
                assert(s[s.len() - 1] == last);
                assert(s[s.len() - 1].coord == past_coords_of(b, s)[i] && past_threshold(
                    b,
                    s[s.len() - 1],
                ));
            } else {
                assert(past_coords_of(b, s)[i] == past_coords_of(b, pre)[i]);
                assert(past_entry_exists(b, pre, past_coords_of(b, pre)[i]));
                let j = choose|j: int|
                    0 <= j < pre.len() && (#[trigger] pre[j]).coord == past_coords_of(b, pre)[i]
                        && past_threshold(b, pre[j]);
                assert(s[j].coord == past_coords_of(b, s)[i] && past_threshold(b, s[j]));
            }
        }
    }
}

/// Whether some tracker entry sits on a cell with an unregistered id, so
/// that the completion scan fails before processing anything.
pub open spec fn scan_fails(b: Blocks) -> bool {
    exists|i: int|
        0 <= i < b.breaking().len() && !b.valid_id(
            b.block_at((#[trigger] b.breaking()[i]).coord.0 as int, b.breaking()[i].coord.1 as int),
        )
}

/// The error `break_block` would report at a coordinate, if any.
pub open spec fn break_would_err(b: Blocks, x: i32, y: i32) -> Option<WorldError> {
    let fm = b.from_main_at(x as int, y as int);
    let tx = x as int - fm.0 as int;
    let ty = y as int - fm.1 as int;
    if !(i32::MIN as int <= tx <= i32::MAX as int) || !(i32::MIN as int <= ty <= i32::MAX as int)
        || !b.in_bounds(tx, ty) {
        Some(WorldError::OutOfBounds)
    } else if !b.valid_id(b.block_at(tx, ty)) {
        Some(WorldError::UnknownBlockType)
    } else {
        None
    }
}

/// The accumulation phase of a tick: every entry still marked breaking
/// gains the frame length, and nothing else changes.
pub open spec fn tick_rel(pre: Blocks, mid: Blocks, f: i32) -> bool {
    &&& mid.breaking() == ticked(pre.breaking(), f)
    &&& mid.map_spec() == pre.map_spec()
    &&& mid.grid() == pre.grid()
    &&& same_registry(pre, mid)
    &&& same_data(pre, mid)
    &&& same_from_main(pre, mid)
    &&& same_inv(pre, mid)
}

/// One completed break during the completion phase: the entry's cell is
/// broken as `break_rel` describes and the entry itself is dropped.
pub open spec fn completion_step(
    pre: Blocks,
    post: Blocks,
    pre_ev: Seq<BlockEvent>,
    post_ev: Seq<BlockEvent>,
    c: (i32, i32),
) -> bool {
    exists|m: Blocks, me: Seq<BlockEvent>|
        #[trigger] break_rel(pre, m, pre_ev, me, c.0, c.1, Result::<(), WorldError>::Ok(())) && {
            &&& post.map_spec() == m.map_spec()
            &&& post.grid() == m.grid()
            &&& same_registry(m, post)
            &&& same_data(m, post)
            &&& same_from_main(m, post)
            &&& same_inv(m, post)
            &&& post.breaking() == without_coord(m.breaking(), c)
            &&& post_ev == me
        }
}

/// A run of completed breaks, one `completion_step` per coordinate, with
/// the intermediate states and event queues it passes through.
pub open spec fn completion_chain(
    states: Seq<Blocks>,
    evs: Seq<Seq<BlockEvent>>,
    coords: Seq<(i32, i32)>,
) -> bool {
    &&& states.len() == coords.len() + 1
    &&& evs.len() == coords.len() + 1
    &&& forall|i: int|
        0 <= i < coords.len() ==> #[trigger] completion_step(
            states[i],
            states[i + 1],
            evs[i],
            evs[i + 1],
            coords[i],
        )
}

/// The completion phase of a tick: a scan over a cell with an
/// unregistered id fails the whole pass untouched; no entry past its
/// threshold is a no-op; one completed entry is broken and dropped, with
/// a resolution error reported untouched; and with several completions
/// every one of them is processed in scan order, through the chain of
/// intermediate states, though a resolution error part way through the
/// pass is not pinned further than well-formedness.
pub open spec fn finish_rel(
    mid: Blocks,
    post: Blocks,
    pre_ev: Seq<BlockEvent>,
    post_ev: Seq<BlockEvent>,
    r: Result<(), WorldError>,
) -> bool {
    if scan_fails(mid) {
        r == Result::<(), WorldError>::Err(WorldError::UnknownBlockType) && post == mid && post_ev
            == pre_ev
    } else if past_coords(mid).len() == 0 {
        r == Result::<(), WorldError>::Ok(()) && post == mid && post_ev == pre_ev
    } else if past_coords(mid).len() == 1 {
        let c = past_coords(mid)[0];
        match break_would_err(mid, c.0, c.1) {
            Some(e) => r == Result::<(), WorldError>::Err(e) && post == mid && post_ev == pre_ev,
            None => r == Result::<(), WorldError>::Ok(()) && completion_step(
                mid,
                post,
                pre_ev,
                post_ev,
                c,
            ),
        }
    } else {
        r is Ok ==> exists|states: Seq<Blocks>, evs: Seq<Seq<BlockEvent>>|
            #[trigger] completion_chain(states, evs, past_coords(mid)) && states[0] == mid
                && states.last() == post && evs[0] == pre_ev && evs.last() == post_ev
    }
}

/// How `start_breaking_block` relates the states around it, over all its
/// cases: errors on a coordinate outside the grid or an unregistered id,
/// a silent no-op when the type's break gating rejects the attempt, and
/// otherwise the tracker entry set breaking (created fresh or resumed
/// with its retained progress) together with one started-breaking event.
pub open spec fn start_rel(
    pre: Blocks,
    post: Blocks,
    pre_ev: Seq<BlockEvent>,
    post_ev: Seq<BlockEvent>,
    x: i32,
    y: i32,
    tool: Option<ToolId>,
    tool_power: i32,
    r: Result<(), WorldError>,
) -> bool {
    &&& (!pre.in_bounds(x as int, y as int) ==> r == Result::<(), WorldError>::Err(
        WorldError::OutOfBounds,
    ) && post == pre && post_ev == pre_ev)
    &&& (pre.in_bounds(x as int, y as int) && !pre.valid_id(pre.block_at(x as int, y as int))
        ==> r == Result::<(), WorldError>::Err(WorldError::UnknownBlockType) && post == pre
        && post_ev == pre_ev)
    &&& (pre.in_bounds(x as int, y as int) && pre.valid_id(pre.block_at(x as int, y as int))
        && break_gate_blocks(pre.type_of(pre.block_at(x as int, y as int)), tool, tool_power)
        ==> r == Result::<(), WorldError>::Ok(()) && post == pre && post_ev == pre_ev)
    &&& (pre.in_bounds(x as int, y as int) && pre.valid_id(pre.block_at(x as int, y as int))
        && !break_gate_blocks(pre.type_of(pre.block_at(x as int, y as int)), tool, tool_power)
        ==> {
        let i = tracker_index(pre.breaking(), (x, y));
        &&& r == Result::<(), WorldError>::Ok(())
        &&& (i >= 0 ==> post.breaking() == pre.breaking().update(
            i,
            BreakingBlock { is_breaking: true, ..pre.breaking()[i] },
        ))
        &&& (i < 0 ==> post.breaking() == pre.breaking().push(
            BreakingBlock { break_progress: 0, is_breaking: true, coord: (x, y) },
        ))
        &&& post.map_spec() == pre.map_spec()
        &&& post.grid() == pre.grid()
        &&& same_registry(pre, post)
        &&& same_data(pre, post)
        &&& same_from_main(pre, post)
        &&& same_inv(pre, post)
        &&& post_ev == pre_ev.push(
            BlockEvent::StartedBreaking(BlockStartedBreakingEvent { x, y, tool, tool_power }),
        )
    })
}

/// How `stop_breaking_block` relates the states around it: an error on a
/// coordinate outside the grid, and otherwise the tracker entry paused
/// with its progress retained and one stopped-breaking event, exactly
/// when an entry exists.
pub open spec fn stop_rel(
    pre: Blocks,
    post: Blocks,
    pre_ev: Seq<BlockEvent>,
    post_ev: Seq<BlockEvent>,
    x: i32,
    y: i32,
    r: Result<(), WorldError>,
) -> bool {
    &&& (!pre.in_bounds(x as int, y as int) ==> r == Result::<(), WorldError>::Err(
        WorldError::OutOfBounds,
    ) && post == pre && post_ev == pre_ev)
    &&& (pre.in_bounds(x as int, y as int) ==> {
        let i = tracker_index(pre.breaking(), (x, y));
        &&& r == Result::<(), WorldError>::Ok(())
        &&& (i >= 0 ==> post.breaking() == pre.breaking().update(
            i,
            BreakingBlock { is_breaking: false, ..pre.breaking()[i] },
        ) && post_ev == pre_ev.push(
            BlockEvent::StoppedBreaking(BlockStoppedBreakingEvent { x, y }),
        ))
        &&& (i < 0 ==> post == pre && post_ev == pre_ev)
        &&& post.map_spec() == pre.map_spec()
        &&& post.grid() == pre.grid()
        &&& same_registry(pre, post)
        &&& same_data(pre, post)
        &&& same_from_main(pre, post)
        &&& same_inv(pre, post)
    })
}

/// The break stage shown for a given progress and break time: the
/// progress scaled to `BREAK_STAGE_COUNT` stages and clamped into them; a
/// block that cannot break shows stage zero.
pub open spec fn break_stage_spec(progress: int, break_time: Option<i32>) -> int {
    match break_time {
        Some(bt) => {
            if bt <= 0 || progress <= 0 {
                0
            } else {
                let s = progress * (BREAK_STAGE_COUNT as int) / (bt as int);
                if s > BREAK_STAGE_COUNT as int {
                    BREAK_STAGE_COUNT as int
                } else {
                    s
                }
            }
        },
        None => 0,
    }
}

impl Blocks {
    /// Drops every tracker entry at the given coordinate.
    pub(crate) fn remove_breaking_at(&mut self, x: i32, y: i32)
        ensures
            final(self).breaking() == without_coord(old(self).breaking(), (x, y)),
            final(self).map == old(self).map,
            final(self).blocks == old(self).blocks,
            final(self).block_from_main == old(self).block_from_main,
            final(self).block_data == old(self).block_data,
            final(self).block_inventory_data == old(self).block_inventory_data,
            final(self).block_types == old(self).block_types,
            final(self).tool_types == old(self).tool_types,
            final(self).air == old(self).air,
            old(self).wf() ==> final(self).wf(),
    {
        let n = self.breaking_blocks.len();
        let mut kept: Vec<BreakingBlock> = Vec::new();
        let mut i: usize = 0;
        while i < n
            invariant
                n == self.breaking_blocks@.len(),
                0 <= i <= n,
                kept@ == without_coord(self.breaking_blocks@.subrange(0, i as int), (x, y)),
            decreases n - i,
        {
            let b = self.breaking_blocks[i];
            proof {
                reveal(Seq::filter);
                let sub = self.breaking_blocks@.subrange(0, i as int);
                let sub2 = self.breaking_blocks@.subrange(0, i as int + 1);
                assert(sub2.drop_last() =~= sub);
                assert(sub2.last() == b);
            }
            if !(b.coord.0 == x && b.coord.1 == y) {
                kept.push(b);
            }
            i += 1;
        }
        proof {
            assert(self.breaking_blocks@.subrange(0, n as int) =~= self.breaking_blocks@);
        }
        self.breaking_blocks = kept;
        proof {
            lemma_model(*old(self));
            lemma_model(*self);
            lemma_without_coord_props(old(self).breaking(), (x, y));
            if old(self).wf() {
                let w = self.breaking();
                assert forall|i: int|
                    0 <= i < w.len() implies self.in_bounds(
                    (#[trigger] w[i]).coord.0 as int,
                    w[i].coord.1 as int,
                ) && w[i].break_progress >= 0 by {
                    assert(old(self).breaking().contains(w[i]));
                    let j = choose|j: int|
                        0 <= j < old(self).breaking().len() && old(self).breaking()[j] == w[i];
                }
            }
        }
    }

    /// The index of the tracker entry at a coordinate, if one exists.
    fn find_breaking_index(&self, x: i32, y: i32) -> (r: Option<usize>)
        ensures
            match r {
                Some(i) => i as int == tracker_index(self.breaking(), (x, y)),
                None => tracker_index(self.breaking(), (x, y)) == -1,
            },
    {
        proof {
            lemma_model(*self);
            lemma_tracker_index(self.breaking(), (x, y));
        }
        let n = self.breaking_blocks.len();
        let mut i: usize = 0;
        while i < n
            invariant
                n == self.breaking_blocks@.len(),
                0 <= i <= n,
                forall|j: int| 0 <= j < i ==> (#[trigger] self.breaking_blocks@[j]).coord != (x, y),
            decreases n - i,
        {
            let e = self.breaking_blocks[i];
            if e.coord.0 == x && e.coord.1 == y {
                proof {
                    lemma_model(*self);
                    lemma_tracker_index(self.breaking(), (x, y));
                    let t = tracker_index(self.breaking(), (x, y));
                    assert(self.breaking()[i as int].coord == (x, y));
                    if t == -1 {
                        assert(self.breaking()[i as int].coord != (x, y));
                    } else if t < i as int {
                        assert(self.breaking_blocks@[t].coord != (x, y));
                    } else if t > i as int {
                        assert(self.breaking()[i as int].coord != (x, y));
                    }
                }
                return Some(i);
            }
            i += 1;
        }
        None
    }

    /// The breaking progress retained for a coordinate, zero when nothing
    /// at it is being or has been broken.
    pub fn get_break_progress(&self, x: i32, y: i32) -> (r: Result<i32, WorldError>)
        requires
            self.wf(),
        ensures
            !self.in_bounds(x as int, y as int) ==> r == Result::<i32, WorldError>::Err(
                WorldError::OutOfBounds,
            ),
            self.in_bounds(x as int, y as int) ==> r == Result::<i32, WorldError>::Ok(
                match tracker_entry(self.breaking(), (x, y)) {
                    Some(e) => e.break_progress,
                    None => 0,
                },
            ),
    {
        proof {
            lemma_model(*self);
        }
        match self.map.translate_coords(x, y) {
            Ok(_) => {},
            Err(e) => {
                return Err(e);
            },
        }
        match self.find_breaking_index(x, y) {
            Some(i) => {
                proof {
                    lemma_tracker_index(self.breaking(), (x, y));
                }
                Ok(self.breaking_blocks[i].break_progress)
            },
            None => Ok(0),
        }
    }

    /// Stores the breaking progress for a coordinate, creating a paused
    /// tracker entry when none exists yet.
    pub fn set_break_progress(&mut self, x: i32, y: i32, progress: i32) -> (r: Result<
        (),
        WorldError,
    >)
        requires
            old(self).wf(),
            progress >= 0,
        ensures
            final(self).wf(),
            !old(self).in_bounds(x as int, y as int) ==> r == Result::<(), WorldError>::Err(
                WorldError::OutOfBounds,
            ) && *final(self) == *old(self),
            old(self).in_bounds(x as int, y as int) ==> {
                let i = tracker_index(old(self).breaking(), (x, y));
                &&& r == Result::<(), WorldError>::Ok(())
                &&& (i >= 0 ==> final(self).breaking() == old(self).breaking().update(
                    i,
                    BreakingBlock { break_progress: progress, ..old(self).breaking()[i] },
                ))
                &&& (i < 0 ==> final(self).breaking() == old(self).breaking().push(
                    BreakingBlock { break_progress: progress, is_breaking: false, coord: (x, y) },
                ))
                &&& final(self).map_spec() == old(self).map_spec()
                &&& final(self).grid() == old(self).grid()
                &&& same_registry(*old(self), *final(self))
                &&& same_data(*old(self), *final(self))
                &&& same_from_main(*old(self), *final(self))
                &&& same_inv(*old(self), *final(self))
            },
    {
        proof {
            lemma_model(*old(self));
            lemma_tracker_index(old(self).breaking(), (x, y));
        }
        match self.map.translate_coords(x, y) {
            Ok(_) => {},
            Err(e) => {
                return Err(e);
            },
        }
        match self.find_breaking_index(x, y) {
            Some(i) => {
                let e = self.breaking_blocks[i];
                self.breaking_blocks.set(
                    i,
                    BreakingBlock { break_progress: progress, is_breaking: e.is_breaking, coord: e.coord },
                );
            },
            None => {
                self.breaking_blocks.push(
                    BreakingBlock { break_progress: progress, is_breaking: false, coord: (x, y) },
                );
            },
        }
        proof {
            lemma_model(*self);
            lemma_tracker_index(old(self).breaking(), (x, y));
        }
        Ok(())
    }

    /// The break stage rendered for a coordinate: the retained progress
    /// scaled to `BREAK_STAGE_COUNT` stages of the occupying type's break
    /// time.
    pub fn get_break_stage(&self, x: i32, y: i32) -> (r: Result<i32, WorldError>)
        requires
            self.wf(),
        ensures
            !self.in_bounds(x as int, y as int) ==> r == Result::<i32, WorldError>::Err(
                WorldError::OutOfBounds,
            ),
            self.in_bounds(x as int, y as int) && !self.valid_id(
                self.block_at(x as int, y as int),
            ) ==> r == Result::<i32, WorldError>::Err(WorldError::UnknownBlockType),
            self.in_bounds(x as int, y as int) && self.valid_id(self.block_at(x as int, y as int))
                ==> r == Result::<i32, WorldError>::Ok(
                break_stage_spec(
                    match tracker_entry(self.breaking(), (x, y)) {
                        Some(e) => e.break_progress as int,
                        None => 0,
                    },
                    self.type_of(self.block_at(x as int, y as int)).break_time,
                ) as i32,
            ),
    {
        let progress = match self.get_break_progress(x, y) {
            Ok(p) => p,
            Err(e) => {
                return Err(e);
            },
        };
        let bt = match self.get_block_type_at(x, y) {
            Ok(t) => t.break_time,
            Err(e) => {
                return Err(e);
            },
        };
        proof {
            lemma_model(*self);
            lemma_tracker_index(self.breaking(), (x, y));
        }
        match bt {
            None => Ok(0),
            Some(t) => {
                if t <= 0 || progress <= 0 {
                    return Ok(0);
                }
                let s64: i64 = (progress as i64) * (BREAK_STAGE_COUNT as i64) / (t as i64);
                if s64 > BREAK_STAGE_COUNT as i64 {
                    Ok(BREAK_STAGE_COUNT)
                } else {
                    Ok(s64 as i32)
                }
            },
        }
    }

    /// Starts (or resumes) breaking the block at a coordinate.
    ///
    /// An unbreakable type is a silent no-op, as is a type whose declared
    /// effective tool is not the supplied one or demands more power than
    /// supplied: no entry is created and no event emitted. Otherwise the
    /// tracker entry is created or set breaking again, keeping any
    /// retained progress, and a started-breaking event is emitted.
    pub fn start_breaking_block(
        &mut self,
        events: &mut EventManager<BlockEvent>,
        x: i32,
        y: i32,
        tool: Option<ToolId>,
        tool_power: i32,
    ) -> (r: Result<(), WorldError>)
        requires
            old(self).wf(),
        ensures
            final(self).wf(),
            start_rel(
                *old(self),
                *final(self),
                old(events)@,
                final(events)@,
                x,
                y,
                tool,
                tool_power,
                r,
            ),
    {
        proof {
            lemma_model(*old(self));
            lemma_tracker_index(old(self).breaking(), (x, y));
        }
        let bt = match self.get_block_type_at(x, y) {
            Ok(t) => t,
            Err(e) => {
                return Err(e);
            },
        };
        if bt.break_time.is_none() {
            return Ok(());
        }
        match bt.effective_tool {
            Some(effective) => {
                let tool_matches = match tool {
                    Some(t) => t.id == effective.id,
                    None => false,
                };
                if !tool_matches || bt.required_tool_power > tool_power {
                    return Ok(());
                }
            },
            None => {},
        }
        match self.find_breaking_index(x, y) {
            Some(i) => {
                let e = self.breaking_blocks[i];
                self.breaking_blocks.set(
                    i,
                    BreakingBlock {
                        break_progress: e.break_progress,
                        is_breaking: true,
                        coord: e.coord,
                    },
                );
            },
            None => {
                self.breaking_blocks.push(BreakingBlock::new((x, y)));
            },
        }
        events.push_event(
            BlockEvent::StartedBreaking(BlockStartedBreakingEvent { x, y, tool, tool_power }),
        );
        proof {
            lemma_model(*self);
            lemma_tracker_index(old(self).breaking(), (x, y));
        }
        Ok(())
    }

    /// Stops breaking the block at a coordinate: an existing tracker
    /// entry is paused with its progress retained, and a stopped-breaking
    /// event is emitted; without an entry nothing happens.
    pub fn stop_breaking_block(
        &mut self,
        events: &mut EventManager<BlockEvent>,
        x: i32,
        y: i32,
    ) -> (r: Result<(), WorldError>)
        requires
            old(self).wf(),
        ensures
            final(self).wf(),
            stop_rel(*old(self), *final(self), old(events)@, final(events)@, x, y, r),
    {
        proof {
            lemma_model(*old(self));
            lemma_tracker_index(old(self).breaking(), (x, y));
        }
        match self.map.translate_coords(x, y) {
            Ok(_) => {},
            Err(e) => {
                return Err(e);
            },
        }
        match self.find_breaking_index(x, y) {
            Some(i) => {
                let e = self.breaking_blocks[i];
                self.breaking_blocks.set(
                    i,
                    BreakingBlock {
                        break_progress: e.break_progress,
                        is_breaking: false,
                        coord: e.coord,
                    },
                );
                events.push_event(
                    BlockEvent::StoppedBreaking(BlockStoppedBreakingEvent { x, y }),
                );
            },
            None => {},
        }
        proof {
            lemma_model(*self);
        }
        Ok(())
    }

    /// Advances every active break by one frame and completes every break
    /// whose progress has passed its block's break time: a completed
    /// break resolves to the block's main cell, breaks it, and drops the
    /// tracker entry.
    #[verifier::loop_isolation(false)]
    #[verifier::rlimit(100)]
    pub fn update_breaking_blocks(
        &mut self,
        events: &mut EventManager<BlockEvent>,
        frame_length: i32,
    ) -> (r: Result<(), WorldError>)
        requires
            old(self).wf(),
            frame_length >= 0,
        ensures
            final(self).wf(),
            exists|mid: Blocks|
                #[trigger] tick_rel(*old(self), mid, frame_length) && finish_rel(
                    mid,
                    *final(self),
                    old(events)@,
                    final(events)@,
                    r,
                ),
    {
        proof {
            lemma_model(*old(self));
        }
        let n = self.breaking_blocks.len();
        let mut i: usize = 0;
        while i < n
            invariant
                n == self.breaking_blocks@.len(),
                0 <= i <= n,
                forall|j: int|
                    0 <= j < i ==> #[trigger] self.breaking_blocks@[j] == tick_entry(
                        old(self).breaking_blocks@[j],
                        frame_length,
                    ),
                forall|j: int|
                    i <= j < n ==> #[trigger] self.breaking_blocks@[j] == old(
                        self,
                    ).breaking_blocks@[j],
                self.map == old(self).map,
                self.blocks == old(self).blocks,
                self.block_from_main == old(self).block_from_main,
                self.block_data == old(self).block_data,
                self.block_inventory_data == old(self).block_inventory_data,
                self.block_types == old(self).block_types,
                self.tool_types == old(self).tool_types,
                self.air == old(self).air,
            decreases n - i,
        {
            let e = self.breaking_blocks[i];
            if e.is_breaking {
                let np: i32 = if e.break_progress > i32::MAX - frame_length {
                    i32::MAX
                } else {
                    e.break_progress + frame_length
                };
                self.breaking_blocks.set(
                    i,
                    BreakingBlock { break_progress: np, is_breaking: true, coord: e.coord },
                );
            }
            i += 1;
        }
        let ghost mid = *self;
        proof {
            lemma_model(*old(self));
            lemma_model(mid);
            assert(mid.breaking() =~= ticked(old(self).breaking(), frame_length));
            assert(tick_rel(*old(self), mid, frame_length));
            assert(self.wf());
        }

        let mut pending: Vec<(i32, i32)> = Vec::new();
        let n2 = self.breaking_blocks.len();
        let mut k: usize = 0;
        while k < n2
            invariant
                n2 == self.breaking_blocks@.len(),
                0 <= k <= n2,
                forall|j: int|
                    0 <= j < k ==> mid.valid_id(
                        mid.block_at(
                            (#[trigger] mid.breaking()[j]).coord.0 as int,
                            mid.breaking()[j].coord.1 as int,
                        ),
                    ),
                pending@ == past_coords_of(mid, mid.breaking().subrange(0, k as int)),
            decreases n2 - k,
        {
            let e = self.breaking_blocks[k];
            let bt = match self.get_block_type_at(e.coord.0, e.coord.1) {
                Ok(t) => t.break_time,
                Err(err) => {
                    proof {
                        lemma_model(mid);
                        assert(mid.in_bounds(e.coord.0 as int, e.coord.1 as int));
                        assert(!mid.valid_id(mid.block_at(e.coord.0 as int, e.coord.1 as int)));
                        assert(scan_fails(mid));
                        assert(finish_rel(mid, *self, old(events)@, events@, Result::<
                            (),
                            WorldError,
                        >::Err(WorldError::UnknownBlockType)));
                    }
                    return Err(err);
                },
            };
            let threshold: i32 = match bt {
                Some(b) => b,
                None => 1,
            };
            proof {
                reveal(Seq::filter);
                let sub = mid.breaking().subrange(0, k as int);
                let sub2 = mid.breaking().subrange(0, k as int + 1);
                assert(sub2.drop_last() =~= sub);
                assert(sub2.last() == mid.breaking()[k as int]);
                if past_threshold(mid, mid.breaking()[k as int]) {
                    assert(past_coords_of(mid, sub2) =~= past_coords_of(mid, sub).push(
                        mid.breaking()[k as int].coord,
                    ));
                } else {
                    assert(past_coords_of(mid, sub2) =~= past_coords_of(mid, sub));
                }
            }
            if e.break_progress > threshold {
                pending.push(e.coord);
            }
            k += 1;
        }
        proof {
            assert(mid.breaking().subrange(0, n2 as int) =~= mid.breaking());
            assert(pending@ == past_coords(mid));
            if scan_fails(mid) {
                let j = choose|j: int|
                    0 <= j < mid.breaking().len() && !mid.valid_id(
                        mid.block_at(
                            (#[trigger] mid.breaking()[j]).coord.0 as int,
                            mid.breaking()[j].coord.1 as int,
                        ),
                    );
                assert(false);
            }
        }

        let m = pending.len();
        let ghost mut sts: Seq<Blocks> = seq![mid];
        let ghost mut evl: Seq<Seq<BlockEvent>> = seq![events@];
        let mut j: usize = 0;
        while j < m
            invariant
                0 <= j <= m,
                m == pending@.len(),
                self.wf(),
                j == 0 ==> *self == mid && events@ == old(events)@,
                sts.len() == j + 1,
                evl.len() == j + 1,
                sts[0] == mid,
                evl[0] == old(events)@,
                sts.last() == *self,
                evl.last() == events@,
                completion_chain(sts, evl, pending@.subrange(0, j as int)),
            decreases m - j,
        {
            let c = pending[j];
            let ghost prev = *self;
            let ghost prev_ev = events@;
            match self.break_block(events, c.0, c.1) {
                Ok(()) => {},
                Err(err) => {
                    proof {
                        if m == 1 {
                            lemma_past_coords_membership(mid, mid.breaking());
                            assert(past_entry_exists(mid, mid.breaking(), past_coords(mid)[0]));
                            let jj = choose|jj: int|
                                0 <= jj < mid.breaking().len() && (#[trigger] mid.breaking()[jj]).coord
                                    == past_coords(mid)[0] && past_threshold(
                                    mid,
                                    mid.breaking()[jj],
                                );
                            assert(mid.in_bounds(c.0 as int, c.1 as int));
                            assert(break_rel(mid, *self, old(events)@, events@, c.0, c.1, Result::<
                                (),
                                WorldError,
                            >::Err(err)));
                            assert(finish_rel(mid, *self, old(events)@, events@, Result::<
                                (),
                                WorldError,
                            >::Err(err)));
                        }
                    }
                    return Err(err);
                },
            }
            let ghost bstate = *self;
            let ghost bev = events@;
            self.remove_breaking_at(c.0, c.1);
            proof {
                lemma_model(bstate);
                lemma_model(*self);
                assert(completion_step(prev, *self, prev_ev, events@, c)) by {
                    assert(break_rel(prev, bstate, prev_ev, bev, c.0, c.1, Result::<
                        (),
                        WorldError,
                    >::Ok(())));
                }
                let sts2 = sts.push(*self);
                let evl2 = evl.push(events@);
                assert(pending@.subrange(0, j as int + 1) =~= pending@.subrange(0, j as int).push(
                    pending@[j as int],
                ));
                assert forall|i: int|
                    0 <= i < j as int + 1 implies #[trigger] completion_step(
                    sts2[i],
                    sts2[i + 1],
                    evl2[i],
                    evl2[i + 1],
                    pending@.subrange(0, j as int + 1)[i],
                ) by {
                    if i < j as int {
                        assert(completion_step(
                            sts[i],
                            sts[i + 1],
                            evl[i],
                            evl[i + 1],
                            pending@.subrange(0, j as int)[i],
                        ));
                    }
                }
                sts = sts2;
                evl = evl2;
            }
            j += 1;
        }
        proof {
            assert(pending@.subrange(0, m as int) =~= pending@);
            assert(completion_chain(sts, evl, pending@));
            if m == 1 {
                let c = pending@[0];
                assert(completion_chain(sts, evl, pending@.subrange(0, j as int)));
                assert(pending@.subrange(0, j as int)[0] == pending@[0]);
                assert(completion_step(
                    sts[0],
                    sts[0int + 1],
                    evl[0],
                    evl[0int + 1],
                    pending@.subrange(0, j as int)[0],
                ));
                assert(completion_step(sts[0], sts[1], evl[0], evl[1], pending@[0]));
                let (m1, me1) = choose|m1: Blocks, me1: Seq<BlockEvent>|
                    #[trigger] break_rel(mid, m1, old(events)@, me1, c.0, c.1, Result::<
                        (),
                        WorldError,
                    >::Ok(()));
                assert(break_would_err(mid, c.0, c.1) is None);
            }
            assert(finish_rel(mid, *self, old(events)@, events@, Result::<(), WorldError>::Ok(())));
            assert(tick_rel(*old(self), mid, frame_length));
        }
        Ok(())
    }

    /// The breaking blocks, for rendering.
    pub fn get_breaking_blocks(&self) -> (r: &Vec<BreakingBlock>)
        ensures
            r@ == self.breaking(),
    {
        proof {
            lemma_model(*self);
        }
        &self.breaking_blocks
    }
}

/// Whether a type's break gating rejects an attempt with the given tool
/// and power: the type cannot break at all, or it declares an effective
/// tool that was not supplied or came with too little power.
pub open spec fn break_gate_blocks(t: crate::blocks::types::Block, tool: Option<ToolId>, tool_power: i32) -> bool {
    ||| t.break_time is None
    ||| match t.effective_tool {
        Some(effective) => tool != Some(effective) || t.required_tool_power > tool_power,
        None => false,
    }
}

} // verus!
