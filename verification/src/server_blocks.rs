use vstd::prelude::*;

use std::collections::HashMap;

use crate::blocks::breaking::{finish_rel, start_rel, stop_rel, tick_rel, tracker_index};
use crate::blocks::codec::{spec_encode, same_world};
use crate::blocks::events::{BlockEvent, BlockUpdateEvent};
use crate::blocks::grid::{set_cell_rel, update_block_rel, Blocks};
use crate::blocks::packets::{BlockBreakStopPacket, BlockChangePacket, BlocksWelcomePacket};
use crate::blocks::types::{BlockId, ToolId};
use crate::compress::{snap_compressed, snap_decompressed};
use crate::errors::WorldError;
use crate::events::EventManager;

verus! {

broadcast use vstd::std_specs::hash::group_hash_axioms;

/// How the server's per-cell re-derivation relates the states around
/// it: the grid pass of `update_block_rel`, followed on success by one
/// block-update event for the cell, which drives the mod host's
/// on-update callback.
pub open spec fn server_update_rel(
    pre: Blocks,
    post: Blocks,
    pre_ev: Seq<BlockEvent>,
    post_ev: Seq<BlockEvent>,
    x: i32,
    y: i32,
    r: Result<(), WorldError>,
) -> bool {
    if r is Ok {
        exists|me: Seq<BlockEvent>|
            #[trigger] update_block_rel(pre, post, pre_ev, me, x, y, r) && post_ev == me.push(
                BlockEvent::Update(BlockUpdateEvent { x, y }),
            )
    } else {
        update_block_rel(pre, post, pre_ev, post_ev, x, y, r)
    }
}

/// The coordinate the k-th step of the neighbor pass around `(x, y)`
/// re-derives: the changed cell itself, then left, right, above, below.
pub open spec fn neighbor_coord(x: int, y: int, k: int) -> (int, int) {
    if k == 0 {
        (x, y)
    } else if k == 1 {
        (x - 1, y)
    } else if k == 2 {
        (x + 1, y)
    } else if k == 3 {
        (x, y - 1)
    } else {
        (x, y + 1)
    }
}

/// One conditional step of the neighbor re-derivation pass: the cell is
/// updated when its coordinate is addressable and in bounds, and skipped
/// otherwise.
pub open spec fn neighbor_step(
    pre: Blocks,
    post: Blocks,
    pre_ev: Seq<BlockEvent>,
    post_ev: Seq<BlockEvent>,
    x: int,
    y: int,
) -> bool {
    if i32::MIN as int <= x <= i32::MAX as int && i32::MIN as int <= y <= i32::MAX as int
        && pre.in_bounds(x, y) {
        server_update_rel(pre, post, pre_ev, post_ev, x as i32, y as i32, Result::<
            (),
            WorldError,
        >::Ok(()))
    } else {
        post == pre && post_ev == pre_ev
    }
}

/// The first `k` steps of the neighbor pass after a block change at
/// `(x, y)`, through the intermediate states and event queues the chain
/// records.
pub open spec fn neighbor_chain_upto(
    states: Seq<Blocks>,
    evs: Seq<Seq<BlockEvent>>,
    x: int,
    y: int,
    k: int,
) -> bool {
    &&& states.len() == k + 1
    &&& evs.len() == k + 1
    &&& forall|i: int|
        0 <= i < k ==> #[trigger] neighbor_step(
            states[i],
            states[i + 1],
            evs[i],
            evs[i + 1],
            neighbor_coord(x, y, i).0,
            neighbor_coord(x, y, i).1,
        )
}

/// The whole neighbor pass: the changed cell and its four neighbors are
/// re-derived, in that order.
pub open spec fn neighbor_chain(
    states: Seq<Blocks>,
    evs: Seq<Seq<BlockEvent>>,
    x: int,
    y: int,
) -> bool {
    neighbor_chain_upto(states, evs, x, y, 5)
}

/// Whether a right click at `(x, y)` can place a block of the given
/// registered type: the footprint is at least one by one, every cell of
/// it is addressable, in bounds and air.
pub open spec fn placement_clear(w: Blocks, x: i32, y: i32, block: BlockId) -> bool {
    let bw = w.type_of(block).width as int;
    let bh = w.type_of(block).height as int;
    &&& w.valid_id(block)
    &&& bw >= 1
    &&& bh >= 1
    &&& x as int + bw - 1 <= i32::MAX as int
    &&& i32::MIN as int <= y as int - bh + 1
    &&& forall|cx: int, cy: int|
        x as int <= cx < x as int + bw && y as int - bh < cy <= y as int ==> w.in_bounds(cx, cy)
            && #[trigger] w.block_at(cx, cy) == w.air_id()
}

/// The server side of the block subsystem: the authoritative grid, and
/// which cell each connection is currently breaking.
pub struct ServerBlocks {
    blocks: Blocks,
    conns_breaking: HashMap<u64, (i32, i32)>,
}

impl ServerBlocks {
    /// The authoritative world state.
    pub closed spec fn world(self) -> Blocks {
        self.blocks
    }

    /// Which cell each connection is currently breaking.
    pub closed spec fn conns(self) -> Map<u64, (i32, i32)> {
        self.conns_breaking@
    }

    pub open spec fn wf(self) -> bool {
        self.world().wf()
    }

    pub fn new() -> (r: Self)
        ensures
            r.wf(),
            r.world().width() == 0,
            r.world().height() == 0,
            r.world().types().len() == 1,
            r.world().breaking().len() == 0,
            r.conns() == Map::<u64, (i32, i32)>::empty(),
    {
        Self { blocks: Blocks::new(), conns_breaking: HashMap::new() }
    }

    /// The world, for reading.
    pub fn get_blocks(&self) -> (r: &Blocks)
        ensures
            *r == self.world(),
    {
        &self.blocks
    }

    /// The world, for mutating through its own operations.
    pub fn get_blocks_mut(&mut self) -> (r: &mut Blocks)
        ensures
            *r == old(self).world(),
            final(self).world() == *final(r),
            final(self).conns() == old(self).conns(),
    {
        &mut self.blocks
    }

    /// The snapshot packet a newly connected client receives before any
    /// live event.
    pub fn on_new_connection(&self) -> (r: Result<BlocksWelcomePacket, WorldError>)
        requires
            self.wf(),
        ensures
            r matches Ok(p) ==> p.data@ == snap_compressed(spec_encode(self.world()))
                && snap_decompressed(p.data@) == Some(spec_encode(self.world())),
            spec_encode(self.world()).len() < 3000000000 ==> r is Ok,
    {
        match self.blocks.serialize() {
            Ok(data) => Ok(BlocksWelcomePacket { data }),
            Err(e) => Err(e),
        }
    }

    /// Handles a client's request to start breaking a cell: any break the
    /// connection already drives is paused first, the connection is
    /// recorded on the new cell, and the break is started with the tool
    /// the client holds.
    pub fn on_break_start_request(
        &mut self,
        events: &mut EventManager<BlockEvent>,
        conn: u64,
        x: i32,
        y: i32,
        tool: Option<ToolId>,
        tool_power: i32,
    ) -> (r: Result<(), WorldError>)
        requires
            old(self).wf(),
        ensures
            final(self).wf(),
            ({
                let w = old(self).world();
                if !old(self).conns().contains_key(conn) {
                    &&& start_rel(
                        w,
                        final(self).world(),
                        old(events)@,
                        final(events)@,
                        x,
                        y,
                        tool,
                        tool_power,
                        r,
                    )
                    &&& final(self).conns() == old(self).conns().insert(conn, (x, y))
                } else {
                    let pos = old(self).conns()[conn];
                    if !w.in_bounds(pos.0 as int, pos.1 as int) {
                        &&& r == Result::<(), WorldError>::Err(WorldError::OutOfBounds)
                        &&& final(self).world() == w
                        &&& final(events)@ == old(events)@
                        &&& final(self).conns() == old(self).conns()
                    } else {
                        &&& (exists|m: Blocks, me: Seq<BlockEvent>|
                            #[trigger] stop_rel(w, m, old(events)@, me, pos.0, pos.1, Result::<
                                (),
                                WorldError,
                            >::Ok(())) && start_rel(
                                m,
                                final(self).world(),
                                me,
                                final(events)@,
                                x,
                                y,
                                tool,
                                tool_power,
                                r,
                            ))
                        &&& final(self).conns() == old(self).conns().insert(conn, (x, y))
                    }
                }
            }),
    {
        let prev = match self.conns_breaking.get(&conn) {
            Some(p) => Some(*p),
            None => None,
        };
        match prev {
            Some(pos) => {
                match self.blocks.stop_breaking_block(events, pos.0, pos.1) {
                    Ok(()) => {},
                    Err(e) => {
                        return Err(e);
                    },
                }
            },
            None => {},
        }
        let ghost m = self.blocks;
        let ghost me = events@;
        self.conns_breaking.insert(conn, (x, y));
        let r = self.blocks.start_breaking_block(events, x, y, tool, tool_power);
        proof {
            if old(self).conns().contains_key(conn) {
                let pos = old(self).conns()[conn];
                assert(stop_rel(old(self).world(), m, old(events)@, me, pos.0, pos.1, Result::<
                    (),
                    WorldError,
                >::Ok(())));
            }
        }
        r
    }

    /// Handles a client's request to stop breaking: the connection's
    /// record is dropped and the break at the cell is paused, keeping its
    /// progress.
    pub fn on_break_stop_request(
        &mut self,
        events: &mut EventManager<BlockEvent>,
        conn: u64,
        x: i32,
        y: i32,
    ) -> (r: Result<(), WorldError>)
        requires
            old(self).wf(),
        ensures
            final(self).wf(),
            final(self).conns() == old(self).conns().remove(conn),
            stop_rel(
                old(self).world(),
                final(self).world(),
                old(events)@,
                final(events)@,
                x,
                y,
                r,
            ),
    {
        self.conns_breaking.remove(&conn);
        self.blocks.stop_breaking_block(events, x, y)
    }

    /// The break-stop packet broadcast for a cell, carrying the progress
    /// the break retained.
    pub fn make_break_stop_packet(&self, x: i32, y: i32) -> (r: Result<
        BlockBreakStopPacket,
        WorldError,
    >)
        requires
            self.wf(),
        ensures
            !self.world().in_bounds(x as int, y as int) ==> r == Result::<
                BlockBreakStopPacket,
                WorldError,
            >::Err(WorldError::OutOfBounds),
            self.world().in_bounds(x as int, y as int) ==> (r matches Ok(p) && p.x == x && p.y == y
                && p.break_time == (match tracker_index(self.world().breaking(), (x, y)) {
                i if i >= 0 => self.world().breaking()[i].break_progress,
                _ => 0,
            })),
    {
        let progress = match self.blocks.get_break_progress(x, y) {
            Ok(p) => p,
            Err(e) => {
                return Err(e);
            },
        };
        Ok(BlockBreakStopPacket { x, y, break_time: progress })
    }

    /// The block-change packet broadcast for a cell: its id, its offset
    /// from its main cell and its inventory.
    pub fn make_block_change_packet(&self, x: i32, y: i32) -> (r: Result<
        BlockChangePacket,
        WorldError,
    >)
        requires
            self.wf(),
        ensures
            !self.world().in_bounds(x as int, y as int) ==> r == Result::<
                BlockChangePacket,
                WorldError,
            >::Err(WorldError::OutOfBounds),
            self.world().in_bounds(x as int, y as int) ==> (r matches Ok(p) && p.x == x && p.y == y
                && p.block == self.world().block_at(x as int, y as int) && (p.from_main_x,
            p.from_main_y) == self.world().from_main_at(x as int, y as int) && p.inventory@
                == self.world().inv_at(x as int, y as int)),
    {
        let block = match self.blocks.get_block(x, y) {
            Ok(b) => b,
            Err(e) => {
                return Err(e);
            },
        };
        let fm = match self.blocks.get_block_from_main(x, y) {
            Ok(p) => p,
            Err(e) => {
                return Err(e);
            },
        };
        let inventory = match self.blocks.get_block_inventory_data(x, y) {
            Ok(v) => v,
            Err(e) => {
                return Err(e);
            },
        };
        Ok(BlockChangePacket { x, y, from_main_x: fm.0, from_main_y: fm.1, block, inventory })
    }

    /// Re-derives the multicell structure around a changed cell: the cell
    /// itself and its four neighbors, in a fixed order. This is how a big
    /// block grows its continuation cells and how it disintegrates when
    /// its main cell is destroyed, one step per change event.
    ///
    /// On success all five steps ran; on an error the chain records how
    /// many steps were applied and relates the failing in-bounds step to
    /// the re-derivation's own error cases, so an error is owed only
    /// where one of them can arise.
    pub fn on_block_change_event(
        &mut self,
        events: &mut EventManager<BlockEvent>,
        x: i32,
        y: i32,
    ) -> (r: Result<(), WorldError>)
        requires
            old(self).wf(),
        ensures
            final(self).wf(),
            final(self).conns() == old(self).conns(),
            exists|states: Seq<Blocks>, evs: Seq<Seq<BlockEvent>>, k: int|
                #![trigger neighbor_chain_upto(states, evs, x as int, y as int, k)]
                {
                    &&& 0 <= k <= 5
                    &&& neighbor_chain_upto(states, evs, x as int, y as int, k)
                    &&& states[0] == old(self).world()
                    &&& evs[0] == old(events)@
                    &&& if r is Ok {
                        k == 5 && states[5] == final(self).world() && evs[5] == final(events)@
                    } else {
                        let c = neighbor_coord(x as int, y as int, k);
                        &&& k < 5
                        &&& i32::MIN as int <= c.0 <= i32::MAX as int
                        &&& i32::MIN as int <= c.1 <= i32::MAX as int
                        &&& states[k].in_bounds(c.0, c.1)
                        &&& server_update_rel(
                            states[k],
                            final(self).world(),
                            evs[k],
                            final(events)@,
                            c.0 as i32,
                            c.1 as i32,
                            r,
                        )
                    }
                },
    {
        let ghost s0 = self.blocks;
        let ghost e0 = events@;
        match self.update_neighbor(events, x as i64, y as i64) {
            Ok(()) => {},
            Err(e) => {
                proof {
                    assert(neighbor_chain_upto(seq![s0], seq![e0], x as int, y as int, 0));
                }
                return Err(e);
            },
        }
        let ghost s1 = self.blocks;
        let ghost e1 = events@;
        match self.update_neighbor(events, x as i64 - 1, y as i64) {
            Ok(()) => {},
            Err(e) => {
                proof {
                    assert(neighbor_chain_upto(
                        seq![s0, s1],
                        seq![e0, e1],
                        x as int,
                        y as int,
                        1,
                    ));
                }
                return Err(e);
            },
        }
        let ghost s2 = self.blocks;
        let ghost e2 = events@;
        match self.update_neighbor(events, x as i64 + 1, y as i64) {
            Ok(()) => {},
            Err(e) => {
                proof {
                    assert(neighbor_chain_upto(
                        seq![s0, s1, s2],
                        seq![e0, e1, e2],
                        x as int,
                        y as int,
                        2,
                    ));
                }
                return Err(e);
            },
        }
        let ghost s3 = self.blocks;
        let ghost e3 = events@;
        match self.update_neighbor(events, x as i64, y as i64 - 1) {
            Ok(()) => {},
            Err(e) => {
                proof {
                    assert(neighbor_chain_upto(
                        seq![s0, s1, s2, s3],
                        seq![e0, e1, e2, e3],
                        x as int,
                        y as int,
                        3,
                    ));
                }
                return Err(e);
            },
        }
        let ghost s4 = self.blocks;
        let ghost e4 = events@;
        match self.update_neighbor(events, x as i64, y as i64 + 1) {
            Ok(()) => {},
            Err(e) => {
                proof {
                    assert(neighbor_chain_upto(
                        seq![s0, s1, s2, s3, s4],
                        seq![e0, e1, e2, e3, e4],
                        x as int,
                        y as int,
                        4,
                    ));
                }
                return Err(e);
            },
        }
        proof {
            assert(neighbor_chain_upto(
                seq![s0, s1, s2, s3, s4, self.blocks],
                seq![e0, e1, e2, e3, e4, events@],
                x as int,
                y as int,
                5,
            ));
        }
        Ok(())
    }

    /// One guarded step of the neighbor pass.
    fn update_neighbor(&mut self, events: &mut EventManager<BlockEvent>, x: i64, y: i64) -> (r:
        Result<(), WorldError>)
        requires
            old(self).wf(),
        ensures
            final(self).wf(),
            final(self).conns() == old(self).conns(),
            r is Ok ==> neighbor_step(
                old(self).world(),
                final(self).world(),
                old(events)@,
                final(events)@,
                x as int,
                y as int,
            ),
            r is Err ==> i32::MIN as int <= x as int <= i32::MAX as int && i32::MIN as int
                <= y as int <= i32::MAX as int && old(self).world().in_bounds(x as int, y as int)
                && server_update_rel(
                old(self).world(),
                final(self).world(),
                old(events)@,
                final(events)@,
                x as i32,
                y as i32,
                r,
            ),
    {
        if x < i32::MIN as i64 || x > i32::MAX as i64 || y < i32::MIN as i64 || y > i32::MAX as i64 {
            return Ok(());
        }
        let xi = x as i32;
        let yi = y as i32;
        let w = self.blocks.get_width();
        let h = self.blocks.get_height();
        if xi < 0 || yi < 0 || (xi as u32) >= w || (yi as u32) >= h {
            return Ok(());
        }
        let ghost me_pre = events@;
        match self.blocks.update_block(xi, yi, events) {
            Ok(()) => {
                let ghost me = events@;
                events.push_event(BlockEvent::Update(BlockUpdateEvent { x: xi, y: yi }));
                proof {
                    assert(update_block_rel(
                        old(self).world(),
                        self.world(),
                        old(events)@,
                        me,
                        xi,
                        yi,
                        Result::<(), WorldError>::Ok(()),
                    ));
                }
                Ok(())
            },
            Err(e) => Err(e),
        }
    }

    /// Handles a client's right click with a placeable item: when every
    /// cell of the block's footprint above-and-right of the click is air,
    /// the block is placed with its main cell at the computed anchor and
    /// `true` is returned so the caller can consume the item.
    #[verifier::loop_isolation(false)]
    pub fn on_right_click_place(
        &mut self,
        events: &mut EventManager<BlockEvent>,
        x: i32,
        y: i32,
        block: BlockId,
    ) -> (r: Result<bool, WorldError>)
        requires
            old(self).wf(),
        ensures
            final(self).wf(),
            final(self).conns() == old(self).conns(),
            placement_clear(old(self).world(), x, y, block) ==> r == Result::<bool, WorldError>::Ok(
                true,
            ),
            !old(self).world().valid_id(block) ==> r == Result::<bool, WorldError>::Err(
                WorldError::UnknownBlockType,
            ) && final(self).world() == old(self).world() && final(events)@ == old(events)@,
            r == Result::<bool, WorldError>::Ok(false) ==> final(self).world() == old(self).world()
                && final(events)@ == old(events)@,
            r == Result::<bool, WorldError>::Ok(true) ==> {
                let w = old(self).world();
                let ax = x as int;
                let ay = y as int - w.type_of(block).height as int + 1;
                &&& w.in_bounds(ax, ay)
                &&& w.block_at(ax, ay) == w.air_id()
                &&& (w.block_at(ax, ay) == block && w.from_main_at(ax, ay) == (0i32, 0i32)
                    ==> final(self).world() == w && final(events)@ == old(events)@)
                &&& (!(w.block_at(ax, ay) == block && w.from_main_at(ax, ay) == (0i32, 0i32))
                    ==> set_cell_rel(
                    w,
                    final(self).world(),
                    old(events)@,
                    final(events)@,
                    x,
                    (ay) as i32,
                    block,
                    (0i32, 0i32),
                ))
            },
    {
        let (bw, bh) = {
            let bt = match self.blocks.get_block_type(block) {
                Ok(t) => t,
                Err(e) => {
                    return Err(e);
                },
            };
            (bt.width, bt.height)
        };
        let air = self.blocks.air();

        let mut dx: i32 = 0;
        let mut can_place = true;
        while dx < bw && can_place
            invariant
                0 <= dx,
                bw > 0 ==> dx <= bw,
                placement_clear(old(self).world(), x, y, block) ==> can_place,
            decreases bw - dx,
        {
            let mut dy: i32 = 0;
            while dy < bh && can_place
                invariant
                    0 <= dx < bw,
                    0 <= dy,
                    bh > 0 ==> dy <= bh,
                    placement_clear(old(self).world(), x, y, block) ==> can_place,
                decreases bh - dy,
            {
                proof {
                    if placement_clear(old(self).world(), x, y, block) {
                        assert(old(self).world().block_at(
                            x as int + dx as int,
                            y as int - dy as int,
                        ) == old(self).world().air_id());
                    }
                }
                let cx64 = x as i64 + dx as i64;
                let cy64 = y as i64 - dy as i64;
                if cx64 > i32::MAX as i64 || cy64 < i32::MIN as i64 {
                    can_place = false;
                } else {
                    match self.blocks.get_block(cx64 as i32, cy64 as i32) {
                        Ok(c) => {
                            if !(c.id == air.id) {
                                can_place = false;
                            }
                        },
                        Err(_) => {
                            can_place = false;
                        },
                    }
                }
                dy = dy + 1;
            }
            dx = dx + 1;
        }
        if !can_place {
            return Ok(false);
        }
        let ay64 = y as i64 - bh as i64 + 1;
        if ay64 < i32::MIN as i64 || ay64 > i32::MAX as i64 {
            return Ok(false);
        }
        let ay = ay64 as i32;
        proof {
            if placement_clear(old(self).world(), x, y, block) {
                assert(old(self).world().block_at(x as int, ay as int) == old(
                    self,
                ).world().air_id());
            }
        }
        match self.blocks.get_block(x, ay) {
            Ok(c) => {
                if !(c.id == air.id) {
                    return Ok(false);
                }
            },
            Err(_) => {
                return Ok(false);
            },
        }
        match self.blocks.set_block(events, x, ay, block) {
            Ok(()) => Ok(true),
            Err(e) => Err(e),
        }
    }

    /// Advances every active break by one frame and completes the breaks
    /// whose progress passed their block's break time.
    pub fn update(&mut self, events: &mut EventManager<BlockEvent>, frame_length: i32) -> (r:
        Result<(), WorldError>)
        requires
            old(self).wf(),
            frame_length >= 0,
        ensures
            final(self).wf(),
            final(self).conns() == old(self).conns(),
            exists|mid: Blocks|
                #[trigger] tick_rel(old(self).world(), mid, frame_length) && finish_rel(
                    mid,
                    final(self).world(),
                    old(events)@,
                    final(events)@,
                    r,
                ),
    {
        self.blocks.update_breaking_blocks(events, frame_length)
    }

    /// Re-derives the multicell structure at one cell, and on success
    /// emits the block-update event the mod host's on-update callback is
    /// driven by.
    pub fn update_block(&mut self, x: i32, y: i32, events: &mut EventManager<BlockEvent>) -> (r:
        Result<(), WorldError>)
        requires
            old(self).wf(),
        ensures
            final(self).wf(),
            final(self).conns() == old(self).conns(),
            server_update_rel(
                old(self).world(),
                final(self).world(),
                old(events)@,
                final(events)@,
                x,
                y,
                r,
            ),
    {
        match self.blocks.update_block(x, y, events) {
            Ok(()) => {
                let ghost me = events@;
                events.push_event(BlockEvent::Update(BlockUpdateEvent { x, y }));
                proof {
                    assert(update_block_rel(
                        old(self).world(),
                        self.world(),
                        old(events)@,
                        me,
                        x,
                        y,
                        Result::<(), WorldError>::Ok(()),
                    ));
                }
                Ok(())
            },
            Err(e) => Err(e),
        }
    }

    /// Restores the world from a snapshot a client or a save file
    /// carries.
    pub fn load_snapshot(&mut self, data: &[u8]) -> (r: Result<(), WorldError>)
        requires
            old(self).wf(),
        ensures
            final(self).wf(),
            final(self).conns() == old(self).conns(),
            forall|b2: Blocks|
                #![trigger spec_encode(b2)]
                (b2.wf() && snap_decompressed(data@) == Some(spec_encode(b2))) ==> r == Result::<
                    (),
                    WorldError,
                >::Ok(()) && same_world(b2, final(self).world()),
    {
        self.blocks.deserialize(data)
    }
}

} // verus!
