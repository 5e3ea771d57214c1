use vstd::prelude::*;

use crate::blocks::grid::{lemma_model, same_registry, Blocks};
use crate::blocks::types::BlockId;
use crate::codec::{
    copy_range, enc_i32, enc_u32, enc_u64, push_bytes, push_i32, push_u32, push_u64, read_i32,
    read_u32, read_u64,
};
use crate::compress::{snap_compress, snap_decompress, snap_compressed, snap_decompressed};
use crate::errors::WorldError;
use crate::items::{ItemId, ItemStack};
use crate::world_map::WorldMap;

use std::collections::HashMap;

verus! {

broadcast use vstd::std_specs::hash::group_hash_axioms;

/// One inventory slot as nine bytes: a presence tag and the item id and
/// count, zero when absent.
pub open spec fn enc_slot(s: Option<ItemStack>) -> Seq<u8> {
    match s {
        None => seq![0u8] + enc_i32(0) + enc_i32(0),
        Some(st) => seq![1u8] + enc_i32(st.item.id) + enc_i32(st.count),
    }
}

/// The slots of an inventory from index `i` on, nine bytes each.
pub open spec fn enc_slots(s: Seq<Option<ItemStack>>, i: int) -> Seq<u8>
    decreases s.len() - i,
{
    if i < 0 || i >= s.len() {
        Seq::<u8>::empty()
    } else {
        enc_slot(s[i]) + enc_slots(s, i + 1)
    }
}

/// Encoded slots take nine bytes per slot.
pub proof fn lemma_enc_slots_len(s: Seq<Option<ItemStack>>, i: int)
    requires
        0 <= i <= s.len(),
    ensures
        enc_slots(s, i).len() == 9 * (s.len() - i),
    decreases s.len() - i,
{
    if i < s.len() {
        lemma_enc_slots_len(s, i + 1);
        assert(enc_slot(s[i]).len() == 9);
    }
}

/// The extra data of a cell, empty when absent.
pub open spec fn cell_data(b: Blocks, i: int) -> Seq<u8> {
    match b.data_at_idx(i) {
        Some(d) => d,
        None => Seq::<u8>::empty(),
    }
}

/// One cell of the snapshot: the block id, the offset from the main cell,
/// the length-prefixed extra data and the length-prefixed inventory.
pub open spec fn enc_cell(b: Blocks, i: int) -> Seq<u8> {
    let fm = b.from_main_at_idx(i);
    let data = cell_data(b, i);
    let inv = b.inv_at_idx(i);
    seq![b.grid()[i].id as u8] + enc_i32(fm.0) + enc_i32(fm.1) + enc_u64(data.len() as u64) + data
        + enc_u64(inv.len() as u64) + enc_slots(inv, 0)
}

/// The cells of the snapshot with indices in `[i, j)`, in index order.
pub open spec fn enc_cells(b: Blocks, i: int, j: int) -> Seq<u8>
    decreases j - i,
{
    if i >= j {
        Seq::<u8>::empty()
    } else {
        enc_cell(b, i) + enc_cells(b, i + 1, j)
    }
}

/// Cell ranges concatenate.
pub proof fn lemma_enc_cells_split(b: Blocks, i: int, j: int, k: int)
    requires
        i <= j <= k,
    ensures
        enc_cells(b, i, k) == enc_cells(b, i, j) + enc_cells(b, j, k),
    decreases j - i,
{
    if i >= j {
        assert(enc_cells(b, i, j) =~= Seq::<u8>::empty());
        assert(enc_cells(b, i, k) =~= enc_cells(b, i, j) + enc_cells(b, j, k));
    } else {
        lemma_enc_cells_split(b, i + 1, j, k);
        assert(enc_cells(b, i, k) =~= enc_cells(b, i, j) + enc_cells(b, j, k));
    }
}

/// The whole grid snapshot before compression: the dimensions, then every
/// cell in index order.
pub open spec fn spec_encode(b: Blocks) -> Seq<u8> {
    enc_u32(b.width() as u32) + enc_u32(b.height() as u32) + enc_cells(b, 0, b.grid().len() as int)
}

/// The two states describe the same world as far as the per-cell
/// accessors can see: same dimensions, same block ids, and the same
/// offsets, extra data and inventories on every cell.
pub open spec fn same_world(a: Blocks, b: Blocks) -> bool {
    &&& a.width() == b.width()
    &&& a.height() == b.height()
    &&& a.grid() == b.grid()
    &&& (forall|i: int| #[trigger] a.data_at_idx(i) == b.data_at_idx(i))
    &&& (forall|i: int| #[trigger] a.from_main_at_idx(i) == b.from_main_at_idx(i))
    &&& (forall|i: int| #[trigger] a.inv_at_idx(i) == b.inv_at_idx(i))
}

impl Blocks {
    /// The uncompressed snapshot of the grid.
    #[verifier::loop_isolation(false)]
    #[verifier::rlimit(80)]
    fn encode_snapshot(&self) -> (r: Vec<u8>)
        requires
            self.wf(),
        ensures
            r@ == spec_encode(*self),
    {
        proof {
            lemma_model(*self);
        }
        let (w, h) = self.map.get_size();
        let mut out: Vec<u8> = Vec::new();
        push_u32(&mut out, w);
        push_u32(&mut out, h);
        let n = self.blocks.len();
        let mut i: usize = 0;
        while i < n
            invariant
                0 <= i <= n,
                out@ == enc_u32(w) + enc_u32(h) + enc_cells(*self, 0, i as int),
            decreases n - i,
        {
            let id = self.blocks[i];
            let fm = match self.block_from_main.get(&i) {
                Some(p) => *p,
                None => (0, 0),
            };
            proof {
                assert(fm == self.from_main_at_idx(i as int));
            }
            let mut cellbuf: Vec<u8> = Vec::new();
            cellbuf.push(id.id as u8);
            push_i32(&mut cellbuf, fm.0);
            push_i32(&mut cellbuf, fm.1);
            match self.block_data.get(&i) {
                Some(d) => {
                    proof {
                        assert(cell_data(*self, i as int) == d@);
                    }
                    push_u64(&mut cellbuf, d.len() as u64);
                    push_bytes(&mut cellbuf, d);
                },
                None => {
                    proof {
                        assert(cell_data(*self, i as int) =~= Seq::<u8>::empty());
                    }
                    push_u64(&mut cellbuf, 0);
                },
            }
            proof {
                assert(cellbuf@ =~= seq![id.id as u8] + enc_i32(fm.0) + enc_i32(fm.1) + enc_u64(
                    cell_data(*self, i as int).len() as u64,
                ) + cell_data(*self, i as int));
            }
            let ghost head = cellbuf@;
            match self.block_inventory_data.get(&i) {
                Some(v) => {
                    proof {
                        assert(self.inv_at_idx(i as int) == v@);
                    }
                    push_u64(&mut cellbuf, v.len() as u64);
                    let m = v.len();
                    let mut k: usize = 0;
                    while k < m
                        invariant
                            m == v@.len(),
                            0 <= k <= m,
                            cellbuf@ == head + enc_u64(v@.len() as u64) + enc_slots(
                                v@,
                                0,
                            ).subrange(0, 9 * k as int),
                        decreases m - k,
                    {
                        proof {
                            lemma_enc_slots_len(v@, 0);
                            lemma_enc_slots_prefix(v@, k as int);
                        }
                        match &v[k] {
                            None => {
                                cellbuf.push(0);
                                push_i32(&mut cellbuf, 0);
                                push_i32(&mut cellbuf, 0);
                            },
                            Some(st) => {
                                let item = st.item;
                                let count = st.count;
                                cellbuf.push(1);
                                push_i32(&mut cellbuf, item.id);
                                push_i32(&mut cellbuf, count);
                            },
                        }
                        proof {
                            assert(cellbuf@ =~= head + enc_u64(v@.len() as u64) + enc_slots(
                                v@,
                                0,
                            ).subrange(0, 9 * (k as int + 1)));
                        }
                        k += 1;
                    }
                    proof {
                        lemma_enc_slots_len(v@, 0);
                        assert(enc_slots(v@, 0).subrange(0, 9 * m as int) =~= enc_slots(v@, 0));
                    }
                },
                None => {
                    proof {
                        assert(self.inv_at_idx(i as int) =~= Seq::<Option<ItemStack>>::empty());
                        assert(enc_slots(self.inv_at_idx(i as int), 0) =~= Seq::<u8>::empty());
                    }
                    push_u64(&mut cellbuf, 0);
                },
            }
            proof {
                assert(cellbuf@ =~= enc_cell(*self, i as int));
            }
            push_bytes(&mut out, &cellbuf);
            proof {
                lemma_enc_cells_split(*self, 0, i as int, i as int + 1);
                reveal_with_fuel(enc_cells, 3);
                assert(enc_cells(*self, i as int + 1, i as int + 1) =~= Seq::<u8>::empty());
                assert(enc_cells(*self, i as int, i as int + 1) =~= enc_cell(*self, i as int));
                assert(out@ =~= enc_u32(w) + enc_u32(h) + (enc_cells(*self, 0, i as int)
                    + enc_cell(*self, i as int)));
                assert(out@ =~= enc_u32(w) + enc_u32(h) + enc_cells(*self, 0, i as int + 1));
            }
            i += 1;
        }
        proof {
            assert(n as int == self.grid().len() as int);
            assert(w == self.width() as u32);
            assert(h == self.height() as u32);
            assert(out@ == enc_u32(w) + enc_u32(h) + enc_cells(*self, 0, n as int));
            assert(enc_cells(*self, 0, n as int) == enc_cells(*self, 0, self.grid().len() as int));
            assert(spec_encode(*self) == enc_u32(self.width() as u32) + enc_u32(
                self.height() as u32,
            ) + enc_cells(*self, 0, self.grid().len() as int));
            assert(out@ == spec_encode(*self));
        }
        out
    }
}

/// One encoded slot within the encoding of a whole inventory: the bytes
/// of slot `k` stand at offset `9 * k`.
pub proof fn lemma_enc_slots_prefix(s: Seq<Option<ItemStack>>, k: int)
    requires
        0 <= k < s.len(),
    ensures
        enc_slots(s, 0).subrange(0, 9 * (k + 1)) == enc_slots(s, 0).subrange(0, 9 * k) + enc_slot(
            s[k],
        ),
    decreases s.len(),
{
    lemma_enc_slots_decomp(s, 0, k);
    lemma_enc_slots_len(s, 0);
    lemma_enc_slots_len(s, k);
    lemma_enc_slots_len(s, k + 1);
    assert(enc_slots(s, 0).subrange(0, 9 * (k + 1)) =~= enc_slots(s, 0).subrange(0, 9 * k)
        + enc_slot(s[k]));
}

/// The encoding of a whole inventory splits at any slot.
pub proof fn lemma_enc_slots_decomp(s: Seq<Option<ItemStack>>, i: int, k: int)
    requires
        0 <= i <= k < s.len(),
    ensures
        enc_slots(s, i) == enc_slots_upto(s, i, k) + enc_slot(s[k]) + enc_slots(s, k + 1),
        enc_slots_upto(s, i, k).len() == 9 * (k - i),
        enc_slots(s, 0).len() >= 0,
    decreases k - i,
{
    if i == k {
        assert(enc_slots_upto(s, i, k) =~= Seq::<u8>::empty());
        assert(enc_slots(s, i) =~= enc_slots_upto(s, i, k) + enc_slot(s[k]) + enc_slots(s, k + 1));
    } else {
        lemma_enc_slots_decomp(s, i + 1, k);
        assert(enc_slot(s[i]).len() == 9);
        assert(enc_slots_upto(s, i, k) =~= enc_slot(s[i]) + enc_slots_upto(s, i + 1, k));
        assert(enc_slots(s, i) =~= enc_slots_upto(s, i, k) + enc_slot(s[k]) + enc_slots(s, k + 1));
    }
}

/// The slots of an inventory with indices in `[i, k)`.
pub open spec fn enc_slots_upto(s: Seq<Option<ItemStack>>, i: int, k: int) -> Seq<u8>
    decreases k - i,
{
    if i >= k {
        Seq::<u8>::empty()
    } else {
        enc_slot(s[i]) + enc_slots_upto(s, i + 1, k)
    }
}

/// The bytes of one whole encoded cell stand at position `pos`.
pub open spec fn cell_at_pos(b: Blocks, i: int, bytes: Seq<u8>, pos: int) -> bool {
    &&& 0 <= i < b.grid().len()
    &&& 0 <= pos
    &&& pos + enc_cell(b, i).len() <= bytes.len()
    &&& bytes.subrange(pos, pos + enc_cell(b, i).len()) == enc_cell(b, i)
}

/// An encoded cell takes a fixed frame of twenty-five bytes plus its data
/// and nine bytes per slot.
pub proof fn lemma_enc_cell_len(b: Blocks, i: int)
    ensures
        enc_cell(b, i).len() == 25 + cell_data(b, i).len() + 9 * b.inv_at_idx(i).len(),
{
    lemma_enc_slots_len(b.inv_at_idx(i), 0);
}

/// Where each fixed field of an encoded cell stands within the byte
/// string.
#[verifier::rlimit(100)]
#[verifier::spinoff_prover]
pub proof fn lemma_cell_fields(b: Blocks, i: int, bytes: Seq<u8>, pos: int)
    requires
        cell_at_pos(b, i, bytes, pos),
    ensures
        enc_cell(b, i).len() == 25 + cell_data(b, i).len() + 9 * b.inv_at_idx(i).len(),
        bytes[pos] == (b.grid()[i].id as u8),
        bytes.subrange(pos + 1, pos + 5) == enc_i32(b.from_main_at_idx(i).0),
        bytes.subrange(pos + 5, pos + 9) == enc_i32(b.from_main_at_idx(i).1),
        bytes.subrange(pos + 9, pos + 17) == enc_u64(cell_data(b, i).len() as u64),
        bytes.subrange(pos + 17, pos + 17 + cell_data(b, i).len()) == cell_data(b, i),
        bytes.subrange(
            pos + 17 + cell_data(b, i).len(),
            pos + 25 + cell_data(b, i).len(),
        ) == enc_u64(b.inv_at_idx(i).len() as u64),
{
    let e = enc_cell(b, i);
    let data = cell_data(b, i);
    let inv = b.inv_at_idx(i);
    let dl = data.len() as int;
    lemma_enc_slots_len(inv, 0);
    assert(forall|u: int| pos <= u < pos + e.len() ==> #[trigger] bytes[u] == e[u - pos]) by {
        assert(forall|t: int|
            0 <= t < e.len() ==> bytes.subrange(pos, pos + e.len())[t] == #[trigger] e[t]);
    }
    assert(bytes[pos] == e[0]);
    assert(bytes.subrange(pos + 1, pos + 5) =~= enc_i32(b.from_main_at_idx(i).0));
    assert(bytes.subrange(pos + 5, pos + 9) =~= enc_i32(b.from_main_at_idx(i).1));
    assert(bytes.subrange(pos + 9, pos + 17) =~= enc_u64(data.len() as u64));
    assert(bytes.subrange(pos + 17, pos + 17 + dl) =~= data);
    assert(bytes.subrange(pos + 17 + dl, pos + 25 + dl) =~= enc_u64(inv.len() as u64));
}

/// Where one encoded slot of a cell stands within the byte string.
#[verifier::rlimit(100)]
#[verifier::spinoff_prover]
pub proof fn lemma_cell_slot(b: Blocks, i: int, bytes: Seq<u8>, pos: int, k: int)
    requires
        cell_at_pos(b, i, bytes, pos),
        0 <= k < b.inv_at_idx(i).len(),
    ensures
        bytes.subrange(
            pos + 25 + cell_data(b, i).len() + 9 * k,
            pos + 34 + cell_data(b, i).len() + 9 * k,
        ) == enc_slot(b.inv_at_idx(i)[k]),
{
    let e = enc_cell(b, i);
    let data = cell_data(b, i);
    let inv = b.inv_at_idx(i);
    let dl = data.len() as int;
    lemma_enc_slots_len(inv, 0);
    lemma_enc_slots_decomp(inv, 0, k);
    assert(forall|u: int| pos <= u < pos + e.len() ==> #[trigger] bytes[u] == e[u - pos]) by {
        assert(forall|t: int|
            0 <= t < e.len() ==> bytes.subrange(pos, pos + e.len())[t] == #[trigger] e[t]);
    }
    assert(enc_slot(inv[k]).len() == 9);
    assert forall|t: int| 0 <= t < 9 implies enc_slots(inv, 0)[9 * k + t] == enc_slot(inv[k])[t]
        by {
        assert(enc_slots(inv, 0) == enc_slots_upto(inv, 0, k) + enc_slot(inv[k]) + enc_slots(
            inv,
            k + 1,
        ));
    }
    assert(bytes.subrange(pos + 25 + dl + 9 * k, pos + 34 + dl + 9 * k) =~= enc_slot(inv[k]));
}

/// Decodes one cell at a position: the id, the offset from the main cell,
/// the extra data and the inventory, and the position after the cell.
#[verifier::loop_isolation(false)]
#[verifier::rlimit(80)]
fn decode_cell(bytes: &Vec<u8>, pos: usize) -> (r: Result<
    (BlockId, (i32, i32), Vec<u8>, Vec<Option<ItemStack>>, usize),
    WorldError,
>)
    requires
        pos <= bytes@.len(),
        bytes@.len() <= usize::MAX as int,
    ensures
        r matches Ok(t) ==> pos < t.4 <= bytes@.len(),
        forall|b: Blocks, i: int|
            #[trigger] cell_at_pos(b, i, bytes@, pos as int) ==> (r matches Ok(t) && t.0
                == b.grid()[i] && t.1 == b.from_main_at_idx(i) && t.2@ == cell_data(b, i) && t.3@
                == b.inv_at_idx(i) && t.4 as int == pos + enc_cell(b, i).len()),
{
    let avail = bytes.len() - pos;
    if avail < 25 {
        proof {
            assert forall|b: Blocks, i: int|
                #[trigger] cell_at_pos(b, i, bytes@, pos as int) implies false by {
                lemma_enc_cell_len(b, i);
            }
        }
        return Err(WorldError::SerializationFailure);
    }
    let idb = bytes[pos];
    let id = BlockId { id: idb as i8 };
    let fm0 = read_i32(bytes, pos + 1);
    let fm1 = read_i32(bytes, pos + 5);
    let dlen64 = read_u64(bytes, pos + 9);
    if dlen64 > (avail - 25) as u64 {
        proof {
            assert forall|b: Blocks, i: int|
                #[trigger] cell_at_pos(b, i, bytes@, pos as int) implies false by {
                lemma_cell_fields(b, i, bytes@, pos as int);
            }
        }
        return Err(WorldError::SerializationFailure);
    }
    let dlen = dlen64 as usize;
    let data = copy_range(bytes, pos + 17, dlen);
    let p2 = pos + 17 + dlen;
    let slen64 = read_u64(bytes, p2);
    if slen64 > ((bytes.len() - (p2 + 8)) / 9) as u64 {
        proof {
            assert forall|b: Blocks, i: int|
                #[trigger] cell_at_pos(b, i, bytes@, pos as int) implies false by {
                lemma_cell_fields(b, i, bytes@, pos as int);
            }
        }
        return Err(WorldError::SerializationFailure);
    }
    let slen = slen64 as usize;
    let mut inv: Vec<Option<ItemStack>> = Vec::new();
    proof {
        assert forall|b: Blocks, i: int|
            #[trigger] cell_at_pos(b, i, bytes@, pos as int) implies (id == b.grid()[i] && (
            fm0,
            fm1,
        ) == b.from_main_at_idx(i) && data@ == cell_data(b, i) && slen as int == b.inv_at_idx(
            i,
        ).len() && inv@ == b.inv_at_idx(i).subrange(0, 0)) by {
            lemma_cell_fields(b, i, bytes@, pos as int);
            crate::codec::lemma_i8_cast_round(b.grid()[i].id);
            assert(inv@ =~= b.inv_at_idx(i).subrange(0, 0));
        }
    }
    let mut k: usize = 0;
    while k < slen
        invariant
            0 <= k <= slen,
            inv@.len() == k,
            forall|b: Blocks, i: int|
                #[trigger] cell_at_pos(b, i, bytes@, pos as int) ==> (id == b.grid()[i] && (
                fm0,
                fm1,
            ) == b.from_main_at_idx(i) && data@ == cell_data(b, i) && slen as int == b.inv_at_idx(
                i,
            ).len() && inv@ == b.inv_at_idx(i).subrange(0, k as int)),
        decreases slen - k,
    {
        let sp = p2 + 8 + 9 * k;
        let tag = bytes[sp];
        if tag == 0 {
            inv.push(None);
        } else if tag == 1 {
            let iid = read_i32(bytes, sp + 1);
            let cnt = read_i32(bytes, sp + 5);
            inv.push(Some(ItemStack { item: ItemId { id: iid }, count: cnt }));
        } else {
            proof {
                assert forall|b: Blocks, i: int|
                    #[trigger] cell_at_pos(b, i, bytes@, pos as int) implies false by {
                    lemma_cell_fields(b, i, bytes@, pos as int);
                    lemma_cell_slot(b, i, bytes@, pos as int, k as int);
                    let slot = b.inv_at_idx(i)[k as int];
                    assert(bytes@[pos + 25 + cell_data(b, i).len() + 9 * (k as int)] == enc_slot(
                        slot,
                    )[0]);
                }
            }
            return Err(WorldError::SerializationFailure);
        }
        proof {
            assert forall|b: Blocks, i: int|
                #[trigger] cell_at_pos(b, i, bytes@, pos as int) implies (id == b.grid()[i] && (
                fm0,
                fm1,
            ) == b.from_main_at_idx(i) && data@ == cell_data(b, i) && slen as int == b.inv_at_idx(
                i,
            ).len() && inv@ == b.inv_at_idx(i).subrange(0, k as int + 1)) by {
                lemma_cell_fields(b, i, bytes@, pos as int);
                lemma_cell_slot(b, i, bytes@, pos as int, k as int);
                let slot = b.inv_at_idx(i)[k as int];
                let sbytes = bytes@.subrange(
                    pos + 25 + cell_data(b, i).len() + 9 * (k as int),
                    pos + 34 + cell_data(b, i).len() + 9 * (k as int),
                );
                assert(sbytes == enc_slot(slot));
                assert(bytes@[pos + 25 + cell_data(b, i).len() + 9 * (k as int)] == enc_slot(
                    slot,
                )[0]);
                match slot {
                    None => {
                        assert(enc_slot(slot)[0] == 0u8);
                    },
                    Some(st) => {
                        assert(enc_slot(slot)[0] == 1u8);
                        assert(sbytes.subrange(1, 5) =~= enc_i32(st.item.id));
                        assert(sbytes.subrange(5, 9) =~= enc_i32(st.count));
                        assert(bytes@.subrange(
                            pos + 26 + cell_data(b, i).len() + 9 * (k as int),
                            pos + 30 + cell_data(b, i).len() + 9 * (k as int),
                        ) =~= enc_i32(st.item.id));
                        assert(bytes@.subrange(
                            pos + 30 + cell_data(b, i).len() + 9 * (k as int),
                            pos + 34 + cell_data(b, i).len() + 9 * (k as int),
                        ) =~= enc_i32(st.count));
                    },
                }
                assert(inv@ =~= b.inv_at_idx(i).subrange(0, k as int + 1));
            }
        }
        k += 1;
    }
    let endpos = p2 + 8 + 9 * slen;
    proof {
        assert forall|b: Blocks, i: int|
            #[trigger] cell_at_pos(b, i, bytes@, pos as int) implies (endpos as int == pos
            + enc_cell(b, i).len() && inv@ == b.inv_at_idx(i)) by {
            lemma_cell_fields(b, i, bytes@, pos as int);
            assert(inv@ =~= b.inv_at_idx(i));
        }
    }
    Ok((id, (fm0, fm1), data, inv, endpos))
}

impl Blocks {
    /// Serializes the world: the whole-grid snapshot, compressed. Used
    /// for saving the world and for sending it to a new client.
    pub fn serialize(&self) -> (r: Result<Vec<u8>, WorldError>)
        requires
            self.wf(),
        ensures
            r matches Ok(v) ==> v@ == snap_compressed(spec_encode(*self)) && snap_decompressed(v@)
                == Some(spec_encode(*self)),
            spec_encode(*self).len() < 3000000000 ==> r is Ok,
    {
        let enc = self.encode_snapshot();
        snap_compress(&enc)
    }

    /// Replaces the grid state with a decompressed and decoded snapshot.
    ///
    /// The registries are kept and any pending breaks are dropped. Every
    /// snapshot a well formed world serializes to is accepted and
    /// restores that world's cells exactly; an input that does not
    /// decompress or decode cleanly is rejected with the state untouched.
    #[verifier::loop_isolation(false)]
    #[verifier::rlimit(100)]
    pub fn deserialize(&mut self, serial: &[u8]) -> (r: Result<(), WorldError>)
        requires
            old(self).wf(),
        ensures
            final(self).wf(),
            r is Err ==> r == Result::<(), WorldError>::Err(WorldError::SerializationFailure)
                && *final(self) == *old(self),
            r is Ok ==> same_registry(*old(self), *final(self)) && final(self).breaking().len()
                == 0,
            forall|b2: Blocks|
                #![trigger spec_encode(b2)]
                (b2.wf() && snap_decompressed(serial@) == Some(spec_encode(b2))) ==> r == Result::<
                    (),
                    WorldError,
                >::Ok(()) && same_world(b2, *final(self)),
    {
        let bytes = match snap_decompress(serial) {
            Ok(v) => v,
            Err(e) => {
                return Err(e);
            },
        };
        let blen = bytes.len();
        if blen < 8 {
            return Err(WorldError::SerializationFailure);
        }
        let w = read_u32(&bytes, 0);
        let h = read_u32(&bytes, 4);
        proof {
            assert forall|b2: Blocks|
                #![trigger spec_encode(b2)]
                b2.wf() && bytes@ == spec_encode(b2) implies w == b2.width() as u32 && h
                == b2.height() as u32 by {
                assert(bytes@.subrange(0, 4) =~= enc_u32(b2.width() as u32));
                assert(bytes@.subrange(4, 8) =~= enc_u32(b2.height() as u32));
            }
        }
        if (w as u64) > (usize::MAX as u64) / (if h == 0 {
            1
        } else {
            h as u64
        }) {
            proof {
                assert forall|b2: Blocks|
                    #![trigger spec_encode(b2)]
                    b2.wf() && bytes@ == spec_encode(b2) implies false by {
                    assert((w as int) * (h as int) == b2.width() * b2.height());
                    assert(b2.width() * b2.height() <= usize::MAX as int);
                    if h == 0 {
                        assert((w as int) * (h as int) == 0) by (nonlinear_arith)
                            requires
                                h as int == 0,
                        ;
                        assert(w as int <= usize::MAX as int);
                    } else {
                        assert((w as int) > (usize::MAX as int) / (h as int) ==> (w as int) * (
                        h as int) > usize::MAX as int) by (nonlinear_arith)
                            requires
                                h as int > 0,
                        ;
                    }
                }
            }
            return Err(WorldError::SerializationFailure);
        }
        proof {
            if h != 0 {
                assert((w as int) <= (usize::MAX as int) / (h as int) ==> (w as int) * (h as int)
                    <= usize::MAX as int) by (nonlinear_arith)
                    requires
                        h as int > 0,
                ;
            } else {
                assert((w as int) * (h as int) == 0) by (nonlinear_arith)
                    requires
                        h as int == 0,
                ;
            }
        }
        let n: usize = (w as usize) * (h as usize);
        let mut cells: Vec<BlockId> = Vec::new();
        let mut fm_map: HashMap<usize, (i32, i32)> = HashMap::new();
        let mut data_map: HashMap<usize, Vec<u8>> = HashMap::new();
        let mut inv_map: HashMap<usize, Vec<Option<ItemStack>>> = HashMap::new();
        let mut pos: usize = 8;
        let mut i: usize = 0;
        while i < n
            invariant
                0 <= i <= n,
                cells@.len() == i,
                8 <= pos <= bytes@.len(),
                forall|k: usize|
                    #[trigger] fm_map@.contains_key(k) ==> k < i && fm_map@[k] != (0i32, 0i32),
                forall|k: usize|
                    #[trigger] data_map@.contains_key(k) ==> k < i && data_map@[k]@.len() > 0,
                forall|k: usize|
                    #[trigger] inv_map@.contains_key(k) ==> k < i && inv_map@[k]@.len() > 0,
                forall|b2: Blocks|
                    #![trigger spec_encode(b2)]
                    (b2.wf() && bytes@ == spec_encode(b2)) ==> (n as int == b2.grid().len()
                        && pos as int == 8 + enc_cells(b2, 0, i as int).len() && cells@
                        == b2.grid().subrange(0, i as int) && (forall|j: int|
                        0 <= j < i ==> crate::blocks::grid::map_pair_at(fm_map@, j)
                            == #[trigger] b2.from_main_at_idx(j)) && (forall|j: int|
                        0 <= j < i ==> crate::blocks::grid::map_bytes_at(data_map@, j)
                            == #[trigger] b2.data_at_idx(j)) && (forall|j: int|
                        0 <= j < i ==> crate::blocks::grid::map_inv_at(inv_map@, j)
                            == #[trigger] b2.inv_at_idx(j))),
            decreases n - i,
        {
            proof {
                assert forall|b2: Blocks|
                    #![trigger spec_encode(b2)]
                    b2.wf() && bytes@ == spec_encode(b2) implies cell_at_pos(
                    b2,
                    i as int,
                    bytes@,
                    pos as int,
                ) by {
                    lemma_enc_cells_split(b2, 0, i as int, n as int);
                    reveal_with_fuel(enc_cells, 2);
                    assert(enc_cells(b2, i as int, n as int) == enc_cell(b2, i as int) + enc_cells(
                        b2,
                        i as int + 1,
                        n as int,
                    ));
                    assert(bytes@.len() == 8 + enc_cells(b2, 0, i as int).len() + enc_cell(
                        b2,
                        i as int,
                    ).len() + enc_cells(b2, i as int + 1, n as int).len());
                    assert(bytes@.subrange(pos as int, pos as int + enc_cell(b2, i as int).len())
                        =~= enc_cell(b2, i as int));
                }
            }
            let t = match decode_cell(&bytes, pos) {
                Ok(t) => t,
                Err(_) => {
                    return Err(WorldError::SerializationFailure);
                },
            };
            let (id, fm, data, inv, newpos) = t;
            cells.push(id);
            if !(fm.0 == 0 && fm.1 == 0) {
                fm_map.insert(i, fm);
            }
            if data.len() > 0 {
                data_map.insert(i, data);
            }
            if inv.len() > 0 {
                inv_map.insert(i, inv);
            }
            proof {
                assert forall|b2: Blocks|
                    #![trigger spec_encode(b2)]
                    (b2.wf() && bytes@ == spec_encode(b2)) implies (newpos as int == 8 + enc_cells(
                    b2,
                    0,
                    i as int + 1,
                ).len() && cells@ == b2.grid().subrange(0, i as int + 1) && (forall|j: int|
                    0 <= j <= i ==> crate::blocks::grid::map_pair_at(fm_map@, j)
                        == #[trigger] b2.from_main_at_idx(j)) && (forall|j: int|
                    0 <= j <= i ==> crate::blocks::grid::map_bytes_at(data_map@, j)
                        == #[trigger] b2.data_at_idx(j)) && (forall|j: int|
                    0 <= j <= i ==> crate::blocks::grid::map_inv_at(inv_map@, j)
                        == #[trigger] b2.inv_at_idx(j))) by {
                    lemma_enc_cells_split(b2, 0, i as int, i as int + 1);
                    reveal_with_fuel(enc_cells, 3);
                    assert(cells@ =~= b2.grid().subrange(0, i as int + 1));
                    lemma_model(b2);
                }
            }
            pos = newpos;
            i += 1;
        }
        if pos != blen {
            proof {
                assert forall|b2: Blocks|
                    #![trigger spec_encode(b2)]
                    b2.wf() && bytes@ == spec_encode(b2) implies false by {
                    assert(bytes@.len() == 8 + enc_cells(b2, 0, n as int).len());
                }
            }
            return Err(WorldError::SerializationFailure);
        }
        let ghost pre = *self;
        self.map = WorldMap::new((w, h));
        self.blocks = cells;
        self.block_from_main = fm_map;
        self.block_data = data_map;
        self.block_inventory_data = inv_map;
        self.breaking_blocks = Vec::new();
        proof {
            lemma_model(pre);
            lemma_model(*self);
            assert(self.wf());
            assert forall|b2: Blocks|
                #![trigger spec_encode(b2)]
                (b2.wf() && bytes@ == spec_encode(b2)) implies same_world(b2, *self) by {
                lemma_model(b2);
                assert(self.grid() =~= b2.grid());
                lemma_model(b2);
                assert forall|j: int| #[trigger] self.data_at_idx(j) == b2.data_at_idx(j) by {
                    if !(0 <= j < n) {
                        lemma_model(b2);
                    }
                }
                assert forall|j: int|
                    #[trigger] self.from_main_at_idx(j) == b2.from_main_at_idx(j) by {
                    if !(0 <= j < n) {
                        lemma_model(b2);
                    }
                }
                assert forall|j: int| #[trigger] self.inv_at_idx(j) == b2.inv_at_idx(j) by {
                    if !(0 <= j < n) {
                        lemma_model(b2);
                    }
                }
            }
        }
        Ok(())
    }
}

} // verus!
