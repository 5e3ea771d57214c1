use vstd::prelude::*;

use crate::blocks::breaking::tick_rel;
use crate::blocks::events::{BlockChangeEvent, BlockEvent};
use crate::blocks::grid::{set_cell_rel, update_big_rel, update_block_rel, Blocks};
use crate::blocks::types::BlockId;
use crate::world_map::{lemma_index_distinct, lemma_index_in_range};

verus! {

/// Setting a block is observed by the read that follows it: after a
/// successful, non-idempotent `set_big_block` of `id` with offset `fm` at
/// an in-bounds `(x, y)`, the cell holds exactly `id` with offset `fm`,
/// which is what `get_block` and `get_block_from_main` then return.
pub proof fn lemma_set_then_get(
    pre: Blocks,
    post: Blocks,
    pre_ev: Seq<BlockEvent>,
    post_ev: Seq<BlockEvent>,
    x: i32,
    y: i32,
    id: BlockId,
    fm: (i32, i32),
)
    requires
        pre.wf(),
        pre.in_bounds(x as int, y as int),
        set_cell_rel(pre, post, pre_ev, post_ev, x, y, id, fm),
    ensures
        post.block_at(x as int, y as int) == id,
        post.from_main_at(x as int, y as int) == fm,
{
    lemma_index_in_range(pre.map_spec(), x as int, y as int);
}

/// A `set_big_block` call is idempotent in its effect: one successful,
/// non-idempotent call leaves the cell holding exactly the written id and
/// offset, so a second call with the same arguments meets the no-op case
/// of `set_big_block`'s contract and emits nothing. Between them the two
/// calls emit exactly one block change event, which the first call put
/// last on the queue.
pub proof fn lemma_set_big_block_idempotent(
    pre: Blocks,
    post: Blocks,
    pre_ev: Seq<BlockEvent>,
    post_ev: Seq<BlockEvent>,
    x: i32,
    y: i32,
    id: BlockId,
    fm: (i32, i32),
)
    requires
        pre.wf(),
        pre.in_bounds(x as int, y as int),
        set_cell_rel(pre, post, pre_ev, post_ev, x, y, id, fm),
    ensures
        post.block_at(x as int, y as int) == id && post.from_main_at(x as int, y as int) == fm,
        post_ev.len() == pre_ev.len() + 1 || post_ev.len() == pre_ev.len() + 2,
        post_ev.last() == BlockEvent::Change(
            BlockChangeEvent { x, y, prev_block: pre.block_at(x as int, y as int) },
        ),
{
    lemma_index_in_range(pre.map_spec(), x as int, y as int);
}

/// The snapshot round trip restores the world: `serialize` promises that
/// its output decompresses back to the grid's encoding, `deserialize`
/// promises to accept every well formed world's encoding and to restore
/// that world's cells, and together the two promises give back a world
/// whose block ids, offsets, extra data and inventories agree with the
/// serialized one on every cell.
pub proof fn lemma_snapshot_round_trip(g: Blocks, restored: Blocks, v: Seq<u8>)
    requires
        g.wf(),
        // what `serialize` ensures of its output bytes
        crate::compress::snap_decompressed(v) == Some(crate::blocks::codec::spec_encode(g)),
        // what `deserialize` ensures of the state it restored from them
        forall|b2: Blocks|
            #![trigger crate::blocks::codec::spec_encode(b2)]
            (b2.wf() && crate::compress::snap_decompressed(v) == Some(
                crate::blocks::codec::spec_encode(b2),
            )) ==> crate::blocks::codec::same_world(b2, restored),
    ensures
        crate::blocks::codec::same_world(g, restored),
{
}

/// Accumulation is monotone: one tick of the breaking tracker never
/// lowers any entry's retained progress, and leaves every entry's
/// coordinate and pause state alone.
pub proof fn lemma_tick_monotonic(pre: Blocks, mid: Blocks, frame_length: i32)
    requires
        frame_length >= 0,
        tick_rel(pre, mid, frame_length),
    ensures
        mid.breaking().len() == pre.breaking().len(),
        forall|i: int|
            0 <= i < pre.breaking().len() ==> (#[trigger] mid.breaking()[i]).break_progress
                >= pre.breaking()[i].break_progress && mid.breaking()[i].coord
                == pre.breaking()[i].coord && mid.breaking()[i].is_breaking
                == pre.breaking()[i].is_breaking,
{
}

/// The big-block cascade: when a two-by-two block's main cell is
/// destroyed, the next re-derivation pass over each remaining cell
/// collapses it to air, one structural predecessor at a time. The three
/// update steps are those the server's neighbor pass performs after the
/// change events.
pub proof fn lemma_big_block_cascade(
    s0: Blocks,
    s1: Blocks,
    s2: Blocks,
    s3: Blocks,
    s4: Blocks,
    e0: Seq<BlockEvent>,
    e1: Seq<BlockEvent>,
    e2: Seq<BlockEvent>,
    e3: Seq<BlockEvent>,
    e4: Seq<BlockEvent>,
    x: i32,
    y: i32,
)
    requires
        s0.wf(),
        x < i32::MAX,
        y < i32::MAX,
        s0.in_bounds(x as int, y as int),
        s0.in_bounds(x as int + 1, y as int + 1),
        s0.valid_id(s0.block_at(x as int, y as int)),
        s0.type_of(s0.block_at(x as int, y as int)).width == 2,
        s0.type_of(s0.block_at(x as int, y as int)).height == 2,
        s0.block_at(x as int + 1, y as int) == s0.block_at(x as int, y as int),
        s0.block_at(x as int, y as int + 1) == s0.block_at(x as int, y as int),
        s0.block_at(x as int + 1, y as int + 1) == s0.block_at(x as int, y as int),
        s0.from_main_at(x as int, y as int) == (0i32, 0i32),
        s0.from_main_at(x as int + 1, y as int) == (1i32, 0i32),
        s0.from_main_at(x as int, y as int + 1) == (0i32, 1i32),
        s0.from_main_at(x as int + 1, y as int + 1) == (1i32, 1i32),
        s0.type_of(s0.air_id()).width == 1,
        s0.type_of(s0.air_id()).height == 1,
        set_cell_rel(s0, s1, e0, e1, x, y, s0.air_id(), (0i32, 0i32)),
        update_block_rel(s1, s2, e1, e2, (x + 1) as i32, y, Result::<(), crate::errors::WorldError>::Ok(())),
        update_block_rel(s2, s3, e2, e3, x, (y + 1) as i32, Result::<(), crate::errors::WorldError>::Ok(())),
        update_block_rel(
            s3,
            s4,
            e3,
            e4,
            (x + 1) as i32,
            (y + 1) as i32,
            Result::<(), crate::errors::WorldError>::Ok(()),
        ),
    ensures
        s4.block_at(x as int, y as int) == s0.air_id(),
        s4.block_at(x as int + 1, y as int) == s0.air_id(),
        s4.block_at(x as int, y as int + 1) == s0.air_id(),
        s4.block_at(x as int + 1, y as int + 1) == s0.air_id(),
{
    let xi = x as int;
    let yi = y as int;
    let air = s0.air_id();
    let id = s0.block_at(xi, yi);
    let m = s0.map_spec();
    assert(s0.in_bounds(xi + 1, yi) && s0.in_bounds(xi, yi + 1));
    lemma_index_in_range(m, xi, yi);
    lemma_index_in_range(m, xi + 1, yi);
    lemma_index_in_range(m, xi, yi + 1);
    lemma_index_in_range(m, xi + 1, yi + 1);
    lemma_index_distinct(m, xi, yi, xi + 1, yi);
    lemma_index_distinct(m, xi, yi, xi, yi + 1);
    lemma_index_distinct(m, xi, yi, xi + 1, yi + 1);
    lemma_index_distinct(m, xi + 1, yi, xi, yi + 1);
    lemma_index_distinct(m, xi + 1, yi, xi + 1, yi + 1);
    lemma_index_distinct(m, xi, yi + 1, xi + 1, yi + 1);

    // the air type is one by one, so the cells still holding `id` differ
    // from air
    assert(id != air) by {
        assert(s0.type_of(id).width == 2 && s0.type_of(air).width == 1);
    }

    // after destroying the main cell
    assert(s1.block_at(xi, yi) == air);
    assert(s1.block_at(xi + 1, yi) == id);
    assert(s1.block_at(xi, yi + 1) == id);
    assert(s1.block_at(xi + 1, yi + 1) == id);
    assert(s1.from_main_at(xi + 1, yi) == (1i32, 0i32));
    assert(s1.from_main_at(xi, yi + 1) == (0i32, 1i32));
    assert(s1.from_main_at(xi + 1, yi + 1) == (1i32, 1i32));
    assert(s1.types() == s0.types() && s1.map_spec() == s0.map_spec());

    // the pass over (x + 1, y): its left predecessor is now air
    assert(s1.valid_id(id) && s1.type_of(id).width == 2);
    assert(s1.big_at(xi + 1, yi));
    assert(update_big_rel(s1, s2, e1, e2, (x + 1) as i32, y, Result::<
        (),
        crate::errors::WorldError,
    >::Ok(())));
    assert(set_cell_rel(s1, s2, e1, e2, (x + 1) as i32, y, s1.air_id(), (0i32, 0i32)));
    assert(s2.block_at(xi + 1, yi) == air);
    assert(s2.block_at(xi, yi) == air);
    assert(s2.block_at(xi, yi + 1) == id);
    assert(s2.block_at(xi + 1, yi + 1) == id);
    assert(s2.from_main_at(xi, yi + 1) == (0i32, 1i32));
    assert(s2.from_main_at(xi + 1, yi + 1) == (1i32, 1i32));
    assert(s2.types() == s0.types() && s2.map_spec() == s0.map_spec());

    // the pass over (x, y + 1): its upper predecessor is now air
    assert(s2.big_at(xi, yi + 1));
    assert(update_big_rel(s2, s3, e2, e3, x, (y + 1) as i32, Result::<
        (),
        crate::errors::WorldError,
    >::Ok(())));
    assert(set_cell_rel(s2, s3, e2, e3, x, (y + 1) as i32, s2.air_id(), (0i32, 0i32)));
    assert(s3.block_at(xi, yi + 1) == air);
    assert(s3.block_at(xi, yi) == air);
    assert(s3.block_at(xi + 1, yi) == air);
    assert(s3.block_at(xi + 1, yi + 1) == id);
    assert(s3.from_main_at(xi + 1, yi + 1) == (1i32, 1i32));
    assert(s3.types() == s0.types() && s3.map_spec() == s0.map_spec());

    // the pass over (x + 1, y + 1): its left predecessor is now air
    assert(s3.big_at(xi + 1, yi + 1));
    assert(update_big_rel(s3, s4, e3, e4, (x + 1) as i32, (y + 1) as i32, Result::<
        (),
        crate::errors::WorldError,
    >::Ok(())));
    assert(set_cell_rel(s3, s4, e3, e4, (x + 1) as i32, (y + 1) as i32, s3.air_id(), (
        0i32,
        0i32,
    )));
    assert(s4.block_at(xi + 1, yi + 1) == air);
    assert(s4.block_at(xi, yi) == air);
    assert(s4.block_at(xi + 1, yi) == air);
    assert(s4.block_at(xi, yi + 1) == air);
}

} // verus!
