use vstd::prelude::*;
use vstd::pervasive::VecAdditionalExecFns;

use std::collections::HashMap;

use crate::blocks::breaking::{coords_unique, without_coord, BreakingBlock};
use crate::blocks::events::{BlockBreakEvent, BlockChangeEvent, BlockEvent, BlockInventoryChangeEvent};
use crate::blocks::types::{Block, BlockId, Tool, ToolId};
use crate::errors::WorldError;
use crate::events::EventManager;
use crate::items::ItemStack;
use crate::world_map::WorldMap;

verus! {

broadcast use vstd::std_specs::hash::group_hash_axioms;

/// The value a sparse byte store holds at a linear index: `None` when the
/// index has no entry.
pub open spec fn map_bytes_at(m: Map<usize, Vec<u8>>, i: int) -> Option<Seq<u8>> {
    if 0 <= i <= usize::MAX as int && m.contains_key(i as usize) {
        Some(m[i as usize]@)
    } else {
        None
    }
}

/// The offset a sparse offset store holds at a linear index, `(0, 0)` when
/// the index has no entry.
pub open spec fn map_pair_at(m: Map<usize, (i32, i32)>, i: int) -> (i32, i32) {
    if 0 <= i <= usize::MAX as int && m.contains_key(i as usize) {
        m[i as usize]
    } else {
        (0i32, 0i32)
    }
}

/// The slots a sparse inventory store holds at a linear index, empty when
/// the index has no entry.
pub open spec fn map_inv_at(m: Map<usize, Vec<Option<ItemStack>>>, i: int) -> Seq<
    Option<ItemStack>,
> {
    if 0 <= i <= usize::MAX as int && m.contains_key(i as usize) {
        m[i as usize]@
    } else {
        Seq::<Option<ItemStack>>::empty()
    }
}

/// Well-formedness of the three sparse stores over a grid of `n` cells:
/// every key is a live cell index, and no entry holds the value whose
/// absence already means it (`(0, 0)` offsets, empty bytes, empty slots).
pub(crate) open spec fn sparse_maps_wf(
    fm: Map<usize, (i32, i32)>,
    data: Map<usize, Vec<u8>>,
    inv: Map<usize, Vec<Option<ItemStack>>>,
    n: int,
) -> bool {
    &&& forall|k: usize| #[trigger] fm.contains_key(k) ==> k < n && fm[k] != (0i32, 0i32)
    &&& forall|k: usize| #[trigger] data.contains_key(k) ==> k < n && data[k]@.len() > 0
    &&& forall|k: usize| #[trigger] inv.contains_key(k) ==> k < n && inv[k]@.len() > 0
}

/// The world as a 2d grid of blocks.
///
/// A `Blocks` owns the dense per-cell block ids, the sparse per-cell
/// attributes (offset from the main cell of a big block, opaque extra
/// data, inventory slots), the list of blocks being broken, and the
/// registry of block and tool types. The type with id 0 is always the
/// "air" sentinel registered at construction.
pub struct Blocks {
    pub(crate) map: WorldMap,
    pub(crate) blocks: Vec<BlockId>,
    pub(crate) block_from_main: HashMap<usize, (i32, i32)>,
    pub(crate) block_data: HashMap<usize, Vec<u8>>,
    pub(crate) block_inventory_data: HashMap<usize, Vec<Option<ItemStack>>>,
    pub(crate) breaking_blocks: Vec<BreakingBlock>,
    pub(crate) block_types: Vec<Block>,
    pub(crate) tool_types: Vec<Tool>,
    pub(crate) air: BlockId,
}

impl Blocks {
    /// The bounds-keeping map of this grid.
    pub closed spec fn map_spec(self) -> WorldMap {
        self.map
    }

    /// The dense block id of every cell, by linear index.
    pub closed spec fn grid(self) -> Seq<BlockId> {
        self.blocks@
    }

    /// The stored extra data at a linear index.
    pub closed spec fn data_at_idx(self, i: int) -> Option<Seq<u8>> {
        map_bytes_at(self.block_data@, i)
    }

    /// The offset from the main cell at a linear index, `(0, 0)` by default.
    pub closed spec fn from_main_at_idx(self, i: int) -> (i32, i32) {
        map_pair_at(self.block_from_main@, i)
    }

    /// The inventory slots at a linear index, empty by default.
    pub closed spec fn inv_at_idx(self, i: int) -> Seq<Option<ItemStack>> {
        map_inv_at(self.block_inventory_data@, i)
    }

    /// The list of blocks currently being broken.
    pub closed spec fn breaking(self) -> Seq<BreakingBlock> {
        self.breaking_blocks@
    }

    /// The registry of block types, indexed by block id.
    pub closed spec fn types(self) -> Seq<Block> {
        self.block_types@
    }

    /// The registry of tool types, indexed by tool id.
    pub closed spec fn tools(self) -> Seq<Tool> {
        self.tool_types@
    }

    /// The id of the air sentinel type.
    pub closed spec fn air_id(self) -> BlockId {
        self.air
    }

    pub closed spec fn sparse_wf(self) -> bool {
        sparse_maps_wf(
            self.block_from_main@,
            self.block_data@,
            self.block_inventory_data@,
            self.grid().len() as int,
        )
    }

    pub open spec fn width(self) -> int {
        self.map_spec().width()
    }

    pub open spec fn height(self) -> int {
        self.map_spec().height()
    }

    pub open spec fn in_bounds(self, x: int, y: int) -> bool {
        self.map_spec().in_bounds(x, y)
    }

    pub open spec fn index_of(self, x: int, y: int) -> int {
        self.map_spec().index_of(x, y)
    }

    pub open spec fn block_at(self, x: int, y: int) -> BlockId {
        self.grid()[self.index_of(x, y)]
    }

    pub open spec fn from_main_at(self, x: int, y: int) -> (i32, i32) {
        self.from_main_at_idx(self.index_of(x, y))
    }

    pub open spec fn data_at(self, x: int, y: int) -> Option<Seq<u8>> {
        self.data_at_idx(self.index_of(x, y))
    }

    /// The stored extra data at a coordinate, empty when absent.
    pub open spec fn data_or_empty_at(self, x: int, y: int) -> Seq<u8> {
        match self.data_at(x, y) {
            Some(s) => s,
            None => Seq::<u8>::empty(),
        }
    }

    pub open spec fn inv_at(self, x: int, y: int) -> Seq<Option<ItemStack>> {
        self.inv_at_idx(self.index_of(x, y))
    }

    /// Whether an id has an entry in the type registry.
    pub open spec fn valid_id(self, id: BlockId) -> bool {
        0 <= id.id < self.types().len()
    }

    /// The registry entry of a valid id.
    pub open spec fn type_of(self, id: BlockId) -> Block {
        self.types()[id.id as int]
    }

    /// The declared slot count of a valid id.
    pub open spec fn slots_of(self, id: BlockId) -> int {
        self.type_of(id).inventory_slots@.len() as int
    }

    /// The inventory size a cell is owed: zero for a non-main cell of a
    /// big block, the declared slot count of the occupying type otherwise.
    pub open spec fn inv_size_at(self, x: int, y: int) -> int {
        if self.from_main_at(x, y) != (0i32, 0i32) {
            0
        } else {
            self.slots_of(self.block_at(x, y))
        }
    }

    /// Well-formedness of the whole grid state: the dense array matches
    /// the map's dimensions, the registries assign ids sequentially with
    /// air first, the breaking list holds at most one in-bounds entry per
    /// coordinate with non-negative progress, and the sparse stores only
    /// key live cells.
    pub open spec fn wf(self) -> bool {
        &&& self.map_spec().wf()
        &&& self.grid().len() as int == self.width() * self.height()
        &&& 1 <= self.types().len() <= 128
        &&& (forall|i: int|
            0 <= i < self.types().len() ==> (#[trigger] self.types()[i]).id == (BlockId {
                id: i as i8,
            }) && self.types()[i].inventory_slots@.len() <= i32::MAX as int)
        &&& self.air_id() == (BlockId { id: 0i8 })
        &&& self.tools().len() <= 128
        &&& (forall|i: int|
            0 <= i < self.tools().len() ==> (#[trigger] self.tools()[i]).id == (ToolId {
                id: i as i8,
            }))
        &&& coords_unique(self.breaking())
        &&& (forall|i: int|
            0 <= i < self.breaking().len() ==> self.in_bounds(
                (#[trigger] self.breaking()[i]).coord.0 as int,
                self.breaking()[i].coord.1 as int,
            ) && self.breaking()[i].break_progress >= 0)
        &&& self.sparse_wf()
    }
}

/// Bridges the closed model accessors of `Blocks` to the underlying
/// fields, for the sibling modules that implement part of its behavior.
pub(crate) proof fn lemma_model(b: Blocks)
    ensures
        b.map_spec() == b.map,
        b.grid() == b.blocks@,
        b.breaking() == b.breaking_blocks@,
        b.types() == b.block_types@,
        b.tools() == b.tool_types@,
        b.air_id() == b.air,
        forall|i: int| #[trigger] b.data_at_idx(i) == map_bytes_at(b.block_data@, i),
        forall|i: int| #[trigger] b.from_main_at_idx(i) == map_pair_at(b.block_from_main@, i),
        forall|i: int| #[trigger] b.inv_at_idx(i) == map_inv_at(b.block_inventory_data@, i),
        b.sparse_wf() == sparse_maps_wf(
            b.block_from_main@,
            b.block_data@,
            b.block_inventory_data@,
            b.grid().len() as int,
        ),
{
}

/// Compares two byte strings by value.
fn bytes_equal(a: &Vec<u8>, b: &Vec<u8>) -> (r: bool)
    ensures
        r <==> a@ == b@,
{
    if a.len() != b.len() {
        return false;
    }
    let n = a.len();
    let mut i: usize = 0;
    while i < n
        invariant
            n == a@.len() == b@.len(),
            0 <= i <= n,
            forall|j: int| 0 <= j < i ==> a@[j] == b@[j],
        decreases n - i,
    {
        if a[i] != b[i] {
            return false;
        }
        i += 1;
    }
    proof {
        assert(a@ =~= b@);
    }
    true
}

/// Compares two inventories slot by slot.
fn inventories_equal(a: &Vec<Option<ItemStack>>, b: &Vec<Option<ItemStack>>) -> (r: bool)
    ensures
        r <==> a@ == b@,
{
    if a.len() != b.len() {
        return false;
    }
    let n = a.len();
    let mut i: usize = 0;
    while i < n
        invariant
            n == a@.len() == b@.len(),
            0 <= i <= n,
            forall|j: int| 0 <= j < i ==> a@[j] == b@[j],
        decreases n - i,
    {
        let same = match (&a[i], &b[i]) {
            (None, None) => true,
            (Some(p), Some(q)) => p.item.id == q.item.id && p.count == q.count,
            _ => false,
        };
        if !same {
            return false;
        }
        i += 1;
    }
    proof {
        assert(a@ =~= b@);
    }
    true
}

/// Copies a byte string.
fn copy_bytes(src: &Vec<u8>) -> (r: Vec<u8>)
    ensures
        r@ == src@,
{
    let mut r: Vec<u8> = Vec::new();
    let n = src.len();
    let mut i: usize = 0;
    while i < n
        invariant
            n == src@.len(),
            0 <= i <= n,
            r@ =~= src@.subrange(0, i as int),
        decreases n - i,
    {
        r.push(src[i]);
        i += 1;
    }
    proof {
        assert(r@ =~= src@);
    }
    r
}

/// Copies an inventory.
fn copy_inventory(src: &Vec<Option<ItemStack>>) -> (r: Vec<Option<ItemStack>>)
    ensures
        r@ == src@,
{
    let mut r: Vec<Option<ItemStack>> = Vec::new();
    let n = src.len();
    let mut i: usize = 0;
    while i < n
        invariant
            n == src@.len(),
            0 <= i <= n,
            r@ =~= src@.subrange(0, i as int),
        decreases n - i,
    {
        r.push(src[i]);
        i += 1;
    }
    proof {
        assert(r@ =~= src@);
    }
    r
}

/// Whether a registry entry is the air sentinel the grid registers first.
pub open spec fn is_air_type(b: Block) -> bool {
    &&& b.name@ == "air"@
    &&& b.ghost_block
    &&& b.transparent
    &&& b.break_time is None
    &&& b.width == 1
    &&& b.height == 1
    &&& b.inventory_slots@.len() == 0
}

impl Blocks {
    /// A fresh world with no cells and only the air type registered.
    pub fn new() -> (r: Self)
        ensures
            r.wf(),
            r.width() == 0,
            r.height() == 0,
            r.grid().len() == 0,
            r.types().len() == 1,
            is_air_type(r.types()[0]),
            r.air_id() == (BlockId { id: 0i8 }),
            r.tools().len() == 0,
            r.breaking().len() == 0,
            forall|i: int| #[trigger] r.data_at_idx(i) is None,
            forall|i: int| #[trigger] r.from_main_at_idx(i) == (0i32, 0i32),
            forall|i: int| #[trigger] r.inv_at_idx(i) == Seq::<Option<ItemStack>>::empty(),
    {
        let mut air = Block::new();
        air.id = BlockId { id: 0 };
        air.name = "air".to_owned();
        air.ghost_block = true;
        air.transparent = true;
        proof {
            reveal_strlit("air");
        }
        let mut block_types: Vec<Block> = Vec::new();
        block_types.push(air);
        Self {
            map: WorldMap::new_empty(),
            blocks: Vec::new(),
            block_from_main: HashMap::new(),
            block_data: HashMap::new(),
            block_inventory_data: HashMap::new(),
            breaking_blocks: Vec::new(),
            block_types,
            tool_types: Vec::new(),
            air: BlockId { id: 0 },
        }
    }

    pub fn get_width(&self) -> (r: u32)
        ensures
            r as int == self.width(),
    {
        self.map.get_size().0
    }

    pub fn get_height(&self) -> (r: u32)
        ensures
            r as int == self.height(),
    {
        self.map.get_size().1
    }

    /// The id of the air sentinel type.
    pub fn air(&self) -> (r: BlockId)
        ensures
            r == self.air_id(),
    {
        self.air
    }

    /// Adds a new block type to the registry, assigning it the next
    /// sequential id. The id space is a signed byte, which caps the
    /// registry at 128 entries including air.
    pub fn register_new_block_type(&mut self, block_type: Block) -> (r: BlockId)
        requires
            old(self).types().len() < 128,
            block_type.inventory_slots@.len() <= i32::MAX as int,
        ensures
            r == (BlockId { id: old(self).types().len() as i8 }),
            final(self).types().len() == old(self).types().len() + 1,
            final(self).types()[old(self).types().len() as int] == (Block { id: r, ..block_type }),
            forall|i: int|
                0 <= i < old(self).types().len() ==> #[trigger] final(self).types()[i] == old(
                    self,
                ).types()[i],
            final(self).map_spec() == old(self).map_spec(),
            final(self).grid() == old(self).grid(),
            final(self).breaking() == old(self).breaking(),
            final(self).tools() == old(self).tools(),
            final(self).air_id() == old(self).air_id(),
            forall|i: int| #[trigger] final(self).data_at_idx(i) == old(self).data_at_idx(i),
            forall|i: int|
                #[trigger] final(self).from_main_at_idx(i) == old(self).from_main_at_idx(i),
            forall|i: int| #[trigger] final(self).inv_at_idx(i) == old(self).inv_at_idx(i),
            old(self).wf() ==> final(self).wf(),
    {
        let id = self.block_types.len() as i8;
        let result = BlockId { id };
        let mut block_type = block_type;
        block_type.id = result;
        self.block_types.push(block_type);
        result
    }

    /// Adds a new tool type to the registry, assigning it the next
    /// sequential id.
    pub fn register_new_tool_type(&mut self, tool: Tool) -> (r: ToolId)
        requires
            old(self).tools().len() < 128,
        ensures
            r == (ToolId { id: old(self).tools().len() as i8 }),
            final(self).tools().len() == old(self).tools().len() + 1,
            final(self).tools()[old(self).tools().len() as int] == (Tool { id: r, ..tool }),
            forall|i: int|
                0 <= i < old(self).tools().len() ==> #[trigger] final(self).tools()[i] == old(
                    self,
                ).tools()[i],
            final(self).map_spec() == old(self).map_spec(),
            final(self).grid() == old(self).grid(),
            final(self).breaking() == old(self).breaking(),
            final(self).types() == old(self).types(),
            final(self).air_id() == old(self).air_id(),
            forall|i: int| #[trigger] final(self).data_at_idx(i) == old(self).data_at_idx(i),
            forall|i: int|
                #[trigger] final(self).from_main_at_idx(i) == old(self).from_main_at_idx(i),
            forall|i: int| #[trigger] final(self).inv_at_idx(i) == old(self).inv_at_idx(i),
            old(self).wf() ==> final(self).wf(),
    {
        let id = self.tool_types.len() as i8;
        let result = ToolId { id };
        let mut tool = tool;
        tool.id = result;
        self.tool_types.push(tool);
        result
    }

    /// Creates an empty world with the given width and height: every cell
    /// becomes air, and all sparse attributes and pending breaks are
    /// cleared. The registry is kept.
    pub fn create(&mut self, width: u32, height: u32)
        requires
            old(self).wf(),
            (width as int) * (height as int) <= usize::MAX as int,
        ensures
            final(self).wf(),
            final(self).width() == width as int,
            final(self).height() == height as int,
            final(self).grid().len() as int == (width as int) * (height as int),
            forall|i: int|
                0 <= i < final(self).grid().len() ==> #[trigger] final(self).grid()[i] == old(
                    self,
                ).air_id(),
            same_registry(*old(self), *final(self)),
            final(self).breaking().len() == 0,
            forall|i: int| #[trigger] final(self).data_at_idx(i) is None,
            forall|i: int| #[trigger] final(self).from_main_at_idx(i) == (0i32, 0i32),
            forall|i: int|
                #[trigger] final(self).inv_at_idx(i) == Seq::<Option<ItemStack>>::empty(),
    {
        self.map = WorldMap::new((width, height));
        let n: usize = (width as usize) * (height as usize);
        self.blocks = vec![self.air; n];
        self.block_from_main.clear();
        self.block_data.clear();
        self.block_inventory_data.clear();
        self.breaking_blocks.clear();
    }

    /// Creates a world from a 2d array of block ids: the outer index is
    /// the column, the inner the row. Fails with `ShapeMismatch` when the
    /// array is empty, when its rows differ in length, or when it is too
    /// large to index.
    #[verifier::loop_isolation(false)]
    pub fn create_from_block_ids(&mut self, block_ids: &Vec<Vec<BlockId>>) -> (r: Result<
        (),
        WorldError,
    >)
        requires
            old(self).wf(),
        ensures
            final(self).wf(),
            !ids_shape_ok(block_ids@) ==> r == Result::<(), WorldError>::Err(
                WorldError::ShapeMismatch,
            ) && *final(self) == *old(self),
            ids_shape_ok(block_ids@) ==> {
                &&& r == Result::<(), WorldError>::Ok(())
                &&& final(self).width() == block_ids@.len()
                &&& final(self).height() == block_ids@[0]@.len()
                &&& same_registry(*old(self), *final(self))
                &&& final(self).breaking().len() == 0
                &&& (forall|i: int| #[trigger] final(self).data_at_idx(i) is None)
                &&& (forall|i: int| #[trigger] final(self).from_main_at_idx(i) == (0i32, 0i32))
                &&& (forall|i: int|
                    #[trigger] final(self).inv_at_idx(i) == Seq::<Option<ItemStack>>::empty())
                &&& (forall|a: int, b: int|
                    #![trigger final(self).block_at(a, b)]
                    0 <= a < block_ids@.len() && 0 <= b < block_ids@[0]@.len() ==> final(self).block_at(
                        a,
                        b,
                    ) == block_ids@[a]@[b])
            },
    {
        let w0 = block_ids.len();
        if w0 == 0 {
            return Err(WorldError::ShapeMismatch);
        }
        let h0 = block_ids[0].len();
        let mut i: usize = 0;
        while i < w0
            invariant
                w0 == block_ids@.len(),
                h0 == block_ids@[0]@.len(),
                0 <= i <= w0,
                forall|j: int| 0 <= j < i ==> (#[trigger] block_ids@[j])@.len() == h0,
            decreases w0 - i,
        {
            if block_ids[i].len() != h0 {
                return Err(WorldError::ShapeMismatch);
            }
            i += 1;
        }
        if w0 > u32::MAX as usize || h0 > u32::MAX as usize {
            return Err(WorldError::ShapeMismatch);
        }
        if h0 != 0 && w0 > usize::MAX / h0 {
            proof {
                assert((block_ids@.len() as int) * (block_ids@[0]@.len() as int) > usize::MAX as int)
                    by (nonlinear_arith)
                    requires
                        block_ids@.len() as int > usize::MAX as int / (block_ids@[0]@.len() as int),
                        block_ids@[0]@.len() as int == h0 as int,
                        h0 as int > 0,
                        w0 as int == block_ids@.len() as int,
                ;
            }
            return Err(WorldError::ShapeMismatch);
        }
        proof {
            if h0 == 0 {
                assert((w0 as int) * (h0 as int) == 0) by (nonlinear_arith)
                    requires
                        h0 as int == 0,
                ;
            } else {
                assert((w0 as int) * (h0 as int) <= usize::MAX as int) by (nonlinear_arith)
                    requires
                        w0 as int <= usize::MAX as int / (h0 as int),
                        h0 as int > 0,
                ;
            }
        }
        let mut cells: Vec<BlockId> = Vec::new();
        let mut x: usize = 0;
        while x < w0
            invariant
                w0 == block_ids@.len(),
                h0 == block_ids@[0]@.len(),
                forall|j: int| 0 <= j < w0 ==> (#[trigger] block_ids@[j])@.len() == h0,
                0 <= x <= w0,
                cells@.len() == x * h0,
                forall|a: int, b: int|
                    #![trigger cells@[a * (h0 as int) + b]]
                    0 <= a < x && 0 <= b < h0 ==> cells@[a * (h0 as int) + b]
                        == block_ids@[a]@[b],
            decreases w0 - x,
        {
            let row = &block_ids[x];
            let mut y: usize = 0;
            while y < h0
                invariant
                    w0 == block_ids@.len(),
                    h0 == block_ids@[0]@.len(),
                    forall|j: int| 0 <= j < w0 ==> (#[trigger] block_ids@[j])@.len() == h0,
                    0 <= x < w0,
                    row == &block_ids[x as int],
                    0 <= y <= h0,
                    cells@.len() == x * h0 + y,
                    forall|a: int, b: int|
                        #![trigger cells@[a * (h0 as int) + b]]
                        0 <= a < x && 0 <= b < h0 ==> cells@[a * (h0 as int) + b]
                            == block_ids@[a]@[b],
                    forall|b: int|
                        #![trigger cells@[(x as int) * (h0 as int) + b]]
                        0 <= b < y ==> cells@[(x as int) * (h0 as int) + b]
                            == block_ids@[x as int]@[b],
                decreases h0 - y,
            {
                cells.push(row[y]);
                proof {
                    assert forall|a: int, b: int|
                        #![trigger cells@[a * (h0 as int) + b]]
                        0 <= a < x && 0 <= b < h0 implies cells@[a * (h0 as int) + b]
                        == block_ids@[a]@[b] by {
                        assert(a * (h0 as int) + b < (x as int) * (h0 as int)) by (nonlinear_arith)
                            requires
                                0 <= a,
                                a < x as int,
                                0 <= b,
                                b < h0 as int,
                        ;
                    }
                }
                y += 1;
            }
            proof {
                assert((x as int + 1) * (h0 as int) == (x as int) * (h0 as int) + (h0 as int))
                    by (nonlinear_arith);
                assert forall|a: int, b: int|
                    #![trigger cells@[a * (h0 as int) + b]]
                    0 <= a < x as int + 1 && 0 <= b < h0 implies cells@[a * (h0 as int) + b]
                    == block_ids@[a]@[b] by {
                }
            }
            x += 1;
        }
        self.create(w0 as u32, h0 as u32);
        let ghost snap = *self;
        self.blocks = cells;
        proof {
            assert forall|i: int| #[trigger] self.data_at_idx(i) is None by {
                assert(snap.data_at_idx(i) is None);
            }
            assert forall|i: int| #[trigger] self.from_main_at_idx(i) == (0i32, 0i32) by {
                assert(snap.from_main_at_idx(i) == (0i32, 0i32));
            }
            assert forall|i: int|
                #[trigger] self.inv_at_idx(i) == Seq::<Option<ItemStack>>::empty() by {
                assert(snap.inv_at_idx(i) == Seq::<Option<ItemStack>>::empty());
            }
            assert(self.width() == snap.width());
            assert(self.height() == snap.height());
            assert(self.grid().len() as int == self.width() * self.height());
            assert forall|a: int, b: int|
                #![trigger self.block_at(a, b)]
                0 <= a < block_ids@.len() && 0 <= b < block_ids@[0]@.len() implies self.block_at(
                a,
                b,
            ) == block_ids@[a]@[b] by {
                assert(self.index_of(a, b) == a * (h0 as int) + b);
                assert(self.blocks@[a * (h0 as int) + b] == block_ids@[a]@[b]);
            }
        }
        Ok(())
    }

    /// The registry entry of a block id.
    pub fn get_block_type(&self, id: BlockId) -> (r: Result<&Block, WorldError>)
        requires
            self.wf(),
        ensures
            self.valid_id(id) ==> (r matches Ok(b) && *b == self.type_of(id)),
            !self.valid_id(id) ==> r == Result::<&Block, WorldError>::Err(
                WorldError::UnknownBlockType,
            ),
    {
        if id.id < 0 || (id.id as usize) >= self.block_types.len() {
            return Err(WorldError::UnknownBlockType);
        }
        Ok(&self.block_types[id.id as usize])
    }

    /// The registry entry of the block occupying a position.
    pub fn get_block_type_at(&self, x: i32, y: i32) -> (r: Result<&Block, WorldError>)
        requires
            self.wf(),
        ensures
            !self.in_bounds(x as int, y as int) ==> r == Result::<&Block, WorldError>::Err(
                WorldError::OutOfBounds,
            ),
            self.in_bounds(x as int, y as int) && !self.valid_id(self.block_at(x as int, y as int))
                ==> r == Result::<&Block, WorldError>::Err(WorldError::UnknownBlockType),
            self.in_bounds(x as int, y as int) && self.valid_id(self.block_at(x as int, y as int))
                ==> (r matches Ok(b) && *b == self.type_of(self.block_at(x as int, y as int))),
    {
        let id = match self.get_block(x, y) {
            Ok(id) => id,
            Err(e) => {
                return Err(e);
            },
        };
        self.get_block_type(id)
    }

    /// The id of the first registered type with the given name.
    pub fn get_block_id_by_name(&self, name: &String) -> (r: Result<BlockId, WorldError>)
        requires
            self.wf(),
        ensures
            r matches Ok(id) ==> self.valid_id(id) && self.type_of(id).name@ == name@ && (forall|
                j: int,
            |
                0 <= j < id.id ==> (#[trigger] self.types()[j]).name@ != name@),
            r is Err ==> r == Result::<BlockId, WorldError>::Err(WorldError::NotFound) && (forall|
                j: int,
            |
                0 <= j < self.types().len() ==> (#[trigger] self.types()[j]).name@ != name@),
    {
        let n = self.block_types.len();
        let mut i: usize = 0;
        while i < n
            invariant
                self.wf(),
                n == self.types().len(),
                0 <= i <= n,
                forall|j: int| 0 <= j < i ==> (#[trigger] self.types()[j]).name@ != name@,
            decreases n - i,
        {
            if self.block_types[i].name == *name {
                return Ok(self.block_types[i].id);
            }
            i += 1;
        }
        Err(WorldError::NotFound)
    }

    /// The ids of all registered block types, in registration order.
    pub fn get_all_block_ids(&self) -> (r: Vec<BlockId>)
        requires
            self.wf(),
        ensures
            r@.len() == self.types().len(),
            forall|i: int| 0 <= i < r@.len() ==> r@[i] == (#[trigger] self.types()[i]).id,
    {
        let n = self.block_types.len();
        let mut r: Vec<BlockId> = Vec::new();
        let mut i: usize = 0;
        while i < n
            invariant
                self.wf(),
                n == self.types().len(),
                0 <= i <= n,
                r@.len() == i,
                forall|j: int| 0 <= j < i ==> r@[j] == (#[trigger] self.types()[j]).id,
            decreases n - i,
        {
            r.push(self.block_types[i].id);
            i += 1;
        }
        r
    }

    /// The block id at a position.
    pub fn get_block(&self, x: i32, y: i32) -> (r: Result<BlockId, WorldError>)
        requires
            self.wf(),
        ensures
            self.in_bounds(x as int, y as int) ==> r == Result::<BlockId, WorldError>::Ok(
                self.block_at(x as int, y as int),
            ),
            !self.in_bounds(x as int, y as int) ==> r == Result::<BlockId, WorldError>::Err(
                WorldError::OutOfBounds,
            ),
    {
        let idx = match self.map.translate_coords(x, y) {
            Ok(i) => i,
            Err(e) => {
                return Err(e);
            },
        };
        proof {
            crate::world_map::lemma_index_in_range(self.map, x as int, y as int);
        }
        Ok(self.blocks[idx])
    }
}

/// Whether a 2d array of block ids is a non-empty rectangle small enough
/// to index: all rows equal in length, both dimensions within `u32`, and
/// the cell count within `usize`.
pub open spec fn ids_shape_ok(g: Seq<Vec<BlockId>>) -> bool {
    &&& g.len() > 0
    &&& (forall|i: int| 0 <= i < g.len() ==> (#[trigger] g[i])@.len() == g[0]@.len())
    &&& g.len() <= u32::MAX as int
    &&& g[0]@.len() <= u32::MAX as int
    &&& g.len() * g[0]@.len() <= usize::MAX as int
}

/// The dense grid and its dimensions are the same in both states.
pub open spec fn same_geometry(pre: Blocks, post: Blocks) -> bool {
    &&& post.map_spec() == pre.map_spec()
    &&& post.grid() == pre.grid()
}

/// The type and tool registries are the same in both states.
pub open spec fn same_registry(pre: Blocks, post: Blocks) -> bool {
    &&& post.types() == pre.types()
    &&& post.tools() == pre.tools()
    &&& post.air_id() == pre.air_id()
}

/// Every cell holds the same extra data in both states.
pub open spec fn same_data(pre: Blocks, post: Blocks) -> bool {
    forall|j: int| #[trigger] post.data_at_idx(j) == pre.data_at_idx(j)
}

/// Every cell holds the same offset from its main cell in both states.
pub open spec fn same_from_main(pre: Blocks, post: Blocks) -> bool {
    forall|j: int| #[trigger] post.from_main_at_idx(j) == pre.from_main_at_idx(j)
}

/// Every cell holds the same inventory in both states.
pub open spec fn same_inv(pre: Blocks, post: Blocks) -> bool {
    forall|j: int| #[trigger] post.inv_at_idx(j) == pre.inv_at_idx(j)
}

/// The fresh, all-empty inventory a cell gets when a block of type `id` is
/// placed on it with offset `fm`.
pub open spec fn fresh_inventory(pre: Blocks, id: BlockId, fm: (i32, i32)) -> Seq<
    Option<ItemStack>,
> {
    let size = if fm != (0i32, 0i32) {
        0
    } else {
        pre.slots_of(id)
    };
    Seq::<Option<ItemStack>>::new(size as nat, |k: int| None::<ItemStack>)
}

/// How one successful, non-idempotent `set_big_block` call at `(x, y)`
/// relates the state and the event queue before it to the state and queue
/// after it: the cell's id becomes `id` and its offset `fm`, its extra
/// data is cleared, its pending break is dropped, its inventory is resized
/// to a fresh empty one, every other cell is untouched, and a block change
/// event for the cell is emitted, preceded by an inventory change event
/// exactly when the resize changed the stored inventory.
pub open spec fn set_cell_rel(
    pre: Blocks,
    post: Blocks,
    pre_ev: Seq<BlockEvent>,
    post_ev: Seq<BlockEvent>,
    x: i32,
    y: i32,
    id: BlockId,
    fm: (i32, i32),
) -> bool {
    let i = pre.index_of(x as int, y as int);
    let prev = pre.block_at(x as int, y as int);
    let new_inv = fresh_inventory(pre, id, fm);
    let inv_changed = pre.inv_at_idx(i) != new_inv;
    &&& post.map_spec() == pre.map_spec()
    &&& same_registry(pre, post)
    &&& post.grid() == pre.grid().update(i, id)
    &&& post.data_at_idx(i) is None
    &&& (forall|j: int|
        j != i ==> #[trigger] post.data_at_idx(j) == pre.data_at_idx(j))
    &&& post.from_main_at_idx(i) == fm
    &&& (forall|j: int|
        j != i ==> #[trigger] post.from_main_at_idx(j) == pre.from_main_at_idx(j))
    &&& post.inv_at_idx(i) == new_inv
    &&& (forall|j: int| j != i ==> #[trigger] post.inv_at_idx(j) == pre.inv_at_idx(j))
    &&& post.breaking() == without_coord(pre.breaking(), (x, y))
    &&& post_ev == if inv_changed {
        pre_ev.push(
            BlockEvent::InventoryChange(BlockInventoryChangeEvent { x, y }),
        ).push(BlockEvent::Change(BlockChangeEvent { x, y, prev_block: prev }))
    } else {
        pre_ev.push(BlockEvent::Change(BlockChangeEvent { x, y, prev_block: prev }))
    }
}

/// How one `set_big_block` call on an in-bounds cell with a valid id
/// relates the states around it: a no-op when the cell already matches,
/// the full `set_cell_rel` change otherwise.
pub open spec fn stamp_rel(
    pre: Blocks,
    post: Blocks,
    pre_ev: Seq<BlockEvent>,
    post_ev: Seq<BlockEvent>,
    x: i32,
    y: i32,
    id: BlockId,
    fm: (i32, i32),
) -> bool {
    if pre.block_at(x as int, y as int) == id && pre.from_main_at(x as int, y as int) == fm {
        post == pre && post_ev == pre_ev
    } else {
        set_cell_rel(pre, post, pre_ev, post_ev, x, y, id, fm)
    }
}

/// How `update_block` on an in-bounds cell occupied by a valid big-block
/// type relates the states around it, case by case: a missing structural
/// predecessor is an error, a mismatched one collapses the cell to air,
/// and otherwise the continuation cells the footprint still owes to the
/// right and below are stamped in that order.
pub open spec fn update_big_rel(
    pre: Blocks,
    post: Blocks,
    pre_ev: Seq<BlockEvent>,
    post_ev: Seq<BlockEvent>,
    x: i32,
    y: i32,
    r: Result<(), WorldError>,
) -> bool {
    let xi = x as int;
    let yi = y as int;
    let cur = pre.block_at(xi, yi);
    let fm = pre.from_main_at(xi, yi);
    if fm.0 > 0 && !pre.in_bounds(xi - 1, yi) {
        r == Result::<(), WorldError>::Err(WorldError::OutOfBounds) && post == pre && post_ev
            == pre_ev
    } else if fm.0 > 0 && pre.block_at(xi - 1, yi) != cur {
        r == Result::<(), WorldError>::Ok(()) && set_cell_rel(
            pre,
            post,
            pre_ev,
            post_ev,
            x,
            y,
            pre.air_id(),
            (0i32, 0i32),
        )
    } else if fm.1 > 0 && !pre.in_bounds(xi, yi - 1) {
        r == Result::<(), WorldError>::Err(WorldError::OutOfBounds) && post == pre && post_ev
            == pre_ev
    } else if fm.1 > 0 && pre.block_at(xi, yi - 1) != cur {
        r == Result::<(), WorldError>::Ok(()) && set_cell_rel(
            pre,
            post,
            pre_ev,
            post_ev,
            x,
            y,
            pre.air_id(),
            (0i32, 0i32),
        )
    } else {
        let nr = pre.needs_right(xi, yi);
        let nd = pre.needs_down(xi, yi);
        if !nr && !nd {
            r == Result::<(), WorldError>::Ok(()) && post == pre && post_ev == pre_ev
        } else if nr && (xi + 1 > i32::MAX as int || !pre.in_bounds(xi + 1, yi)) {
            r == Result::<(), WorldError>::Err(WorldError::OutOfBounds) && post == pre && post_ev
                == pre_ev
        } else if nr && !nd {
            r == Result::<(), WorldError>::Ok(()) && stamp_rel(
                pre,
                post,
                pre_ev,
                post_ev,
                (xi + 1) as i32,
                y,
                cur,
                ((fm.0 + 1) as i32, fm.1),
            )
        } else if nr && nd && (yi + 1 > i32::MAX as int || !pre.in_bounds(xi, yi + 1)) {
            r == Result::<(), WorldError>::Err(WorldError::OutOfBounds) && stamp_rel(
                pre,
                post,
                pre_ev,
                post_ev,
                (xi + 1) as i32,
                y,
                cur,
                ((fm.0 + 1) as i32, fm.1),
            )
        } else if nr && nd {
            r == Result::<(), WorldError>::Ok(()) && (exists|mid: Blocks, me: Seq<BlockEvent>|
                #[trigger] stamp_rel(
                    pre,
                    mid,
                    pre_ev,
                    me,
                    (xi + 1) as i32,
                    y,
                    cur,
                    ((fm.0 + 1) as i32, fm.1),
                ) && stamp_rel(
                    mid,
                    post,
                    me,
                    post_ev,
                    x,
                    (yi + 1) as i32,
                    cur,
                    (fm.0, (fm.1 + 1) as i32),
                ))
        } else if nd && (yi + 1 > i32::MAX as int || !pre.in_bounds(xi, yi + 1)) {
            r == Result::<(), WorldError>::Err(WorldError::OutOfBounds) && post == pre && post_ev
                == pre_ev
        } else {
            r == Result::<(), WorldError>::Ok(()) && stamp_rel(
                pre,
                post,
                pre_ev,
                post_ev,
                x,
                (yi + 1) as i32,
                cur,
                (fm.0, (fm.1 + 1) as i32),
            )
        }
    }
}

/// How `break_block` on an in-bounds cell relates the states around it:
/// the break resolves to the main cell by offset subtraction; if that cell
/// is addressable, in bounds and holds a registered type, a break event
/// for it is emitted and it is set to air.
pub open spec fn break_rel(
    pre: Blocks,
    post: Blocks,
    pre_ev: Seq<BlockEvent>,
    post_ev: Seq<BlockEvent>,
    x: i32,
    y: i32,
    r: Result<(), WorldError>,
) -> bool {
    let fm = pre.from_main_at(x as int, y as int);
    let tx = x as int - fm.0 as int;
    let ty = y as int - fm.1 as int;
    if !(i32::MIN as int <= tx <= i32::MAX as int) || !(i32::MIN as int <= ty <= i32::MAX as int)
        || !pre.in_bounds(tx, ty) {
        r == Result::<(), WorldError>::Err(WorldError::OutOfBounds) && post == pre && post_ev
            == pre_ev
    } else if !pre.valid_id(pre.block_at(tx, ty)) {
        r == Result::<(), WorldError>::Err(WorldError::UnknownBlockType) && post == pre && post_ev
            == pre_ev
    } else {
        let prev = pre.block_at(tx, ty);
        let ev1 = pre_ev.push(
            BlockEvent::Break(BlockBreakEvent { prev_block_id: prev, x: tx as i32, y: ty as i32 }),
        );
        r == Result::<(), WorldError>::Ok(()) && if prev == pre.air_id() && pre.from_main_at(
            tx,
            ty,
        ) == (0i32, 0i32) {
            post == pre && post_ev == ev1
        } else {
            set_cell_rel(pre, post, ev1, post_ev, tx as i32, ty as i32, pre.air_id(), (0i32, 0i32))
        }
    }
}

/// How `update_block` relates the states around it, over all its cases.
pub open spec fn update_block_rel(
    pre: Blocks,
    post: Blocks,
    pre_ev: Seq<BlockEvent>,
    post_ev: Seq<BlockEvent>,
    x: i32,
    y: i32,
    r: Result<(), WorldError>,
) -> bool {
    &&& (!pre.in_bounds(x as int, y as int) ==> r == Result::<(), WorldError>::Err(
        WorldError::OutOfBounds,
    ) && post == pre && post_ev == pre_ev)
    &&& (pre.in_bounds(x as int, y as int) && !pre.valid_id(pre.block_at(x as int, y as int))
        ==> r == Result::<(), WorldError>::Err(WorldError::UnknownBlockType) && post == pre
        && post_ev == pre_ev)
    &&& (pre.in_bounds(x as int, y as int) && pre.valid_id(pre.block_at(x as int, y as int))
        && !pre.big_at(x as int, y as int) ==> r == Result::<(), WorldError>::Ok(()) && post == pre
        && post_ev == pre_ev)
    &&& (pre.in_bounds(x as int, y as int) && pre.valid_id(pre.block_at(x as int, y as int))
        && pre.big_at(x as int, y as int) ==> update_big_rel(pre, post, pre_ev, post_ev, x, y, r))
}

impl Blocks {
    /// Whether the block occupying a cell has a footprint larger than one
    /// cell.
    pub open spec fn big_at(self, x: int, y: int) -> bool {
        let t = self.type_of(self.block_at(x, y));
        t.width > 1 || t.height > 1
    }

    /// Whether the structural predecessor to the left still matches: a
    /// cell whose offset points right must have a cell of the same type
    /// directly to its left.
    pub open spec fn pred_left_ok(self, x: int, y: int) -> bool {
        self.from_main_at(x, y).0 <= 0 || (self.in_bounds(x - 1, y) && self.block_at(x - 1, y)
            == self.block_at(x, y))
    }

    /// Whether the structural predecessor above still matches.
    pub open spec fn pred_up_ok(self, x: int, y: int) -> bool {
        self.from_main_at(x, y).1 <= 0 || (self.in_bounds(x, y - 1) && self.block_at(x, y - 1)
            == self.block_at(x, y))
    }

    /// Whether the big block occupying this cell continues to the right.
    pub open spec fn needs_right(self, x: int, y: int) -> bool {
        self.from_main_at(x, y).0 + 1 < self.type_of(self.block_at(x, y)).width as int
    }

    /// Whether the big block occupying this cell continues downward.
    pub open spec fn needs_down(self, x: int, y: int) -> bool {
        self.from_main_at(x, y).1 + 1 < self.type_of(self.block_at(x, y)).height as int
    }

    /// The offset of a cell from the main cell of the big block it belongs
    /// to; `(0, 0)` for a main cell or an ordinary block.
    pub fn get_block_from_main(&self, x: i32, y: i32) -> (r: Result<(i32, i32), WorldError>)
        requires
            self.wf(),
        ensures
            self.in_bounds(x as int, y as int) ==> r == Result::<(i32, i32), WorldError>::Ok(
                self.from_main_at(x as int, y as int),
            ),
            !self.in_bounds(x as int, y as int) ==> r == Result::<(i32, i32), WorldError>::Err(
                WorldError::OutOfBounds,
            ),
    {
        let idx = match self.map.translate_coords(x, y) {
            Ok(i) => i,
            Err(e) => {
                return Err(e);
            },
        };
        match self.block_from_main.get(&idx) {
            Some(p) => Ok(*p),
            None => Ok((0, 0)),
        }
    }

    /// The extra data of a cell, empty when it has none.
    pub fn get_block_data(&self, x: i32, y: i32) -> (r: Result<Vec<u8>, WorldError>)
        requires
            self.wf(),
        ensures
            self.in_bounds(x as int, y as int) ==> (r matches Ok(v) && v@ == self.data_or_empty_at(
                x as int,
                y as int,
            )),
            !self.in_bounds(x as int, y as int) ==> (r matches Err(e) && e
                == WorldError::OutOfBounds),
    {
        let idx = match self.map.translate_coords(x, y) {
            Ok(i) => i,
            Err(e) => {
                return Err(e);
            },
        };
        match self.block_data.get(&idx) {
            Some(v) => Ok(copy_bytes(v)),
            None => Ok(Vec::new()),
        }
    }

    /// Stores the extra data of a cell; empty data clears the entry.
    pub fn set_block_data(&mut self, x: i32, y: i32, data: Vec<u8>) -> (r: Result<
        (),
        WorldError,
    >)
        requires
            old(self).wf(),
        ensures
            final(self).wf(),
            !old(self).in_bounds(x as int, y as int) ==> r == Result::<(), WorldError>::Err(
                WorldError::OutOfBounds,
            ) && *final(self) == *old(self),
            old(self).in_bounds(x as int, y as int) ==> {
                let i = old(self).index_of(x as int, y as int);
                &&& r == Result::<(), WorldError>::Ok(())
                &&& same_geometry(*old(self), *final(self))
                &&& same_registry(*old(self), *final(self))
                &&& same_from_main(*old(self), *final(self))
                &&& same_inv(*old(self), *final(self))
                &&& final(self).breaking() == old(self).breaking()
                &&& final(self).data_at_idx(i) == (if data@.len() == 0 {
                    None
                } else {
                    Some(data@)
                })
                &&& (forall|j: int|
                    j != i ==> #[trigger] final(self).data_at_idx(j) == old(self).data_at_idx(j))
            },
    {
        let idx = match self.map.translate_coords(x, y) {
            Ok(i) => i,
            Err(e) => {
                return Err(e);
            },
        };
        proof {
            crate::world_map::lemma_index_in_range(self.map, x as int, y as int);
        }
        if data.is_empty() {
            self.block_data.remove(&idx);
        } else {
            self.block_data.insert(idx, data);
        }
        Ok(())
    }

    /// The number of inventory slots a cell is owed: zero for a non-main
    /// cell of a big block, the occupying type's declared slot count
    /// otherwise.
    pub fn get_block_inventory_size(&self, x: i32, y: i32) -> (r: Result<i32, WorldError>)
        requires
            self.wf(),
        ensures
            !self.in_bounds(x as int, y as int) ==> r == Result::<i32, WorldError>::Err(
                WorldError::OutOfBounds,
            ),
            self.in_bounds(x as int, y as int) && self.from_main_at(x as int, y as int) != (
            0i32,
            0i32,
            ) ==> r == Result::<i32, WorldError>::Ok(0),
            self.in_bounds(x as int, y as int) && self.from_main_at(x as int, y as int) == (
            0i32,
            0i32,
            ) && !self.valid_id(self.block_at(x as int, y as int)) ==> r == Result::<
                i32,
                WorldError,
            >::Err(WorldError::UnknownBlockType),
            self.in_bounds(x as int, y as int) && self.from_main_at(x as int, y as int) == (
            0i32,
            0i32,
            ) && self.valid_id(self.block_at(x as int, y as int)) ==> (r matches Ok(n) && n as int
                == self.inv_size_at(x as int, y as int)),
    {
        let fm = match self.get_block_from_main(x, y) {
            Ok(p) => p,
            Err(e) => {
                return Err(e);
            },
        };
        if !(fm.0 == 0 && fm.1 == 0) {
            return Ok(0);
        }
        let bt = match self.get_block_type_at(x, y) {
            Ok(b) => b,
            Err(e) => {
                return Err(e);
            },
        };
        Ok(bt.inventory_slots.len() as i32)
    }

    /// The inventory slots of a cell, empty when it has none.
    pub fn get_block_inventory_data(&self, x: i32, y: i32) -> (r: Result<
        Vec<Option<ItemStack>>,
        WorldError,
    >)
        requires
            self.wf(),
        ensures
            self.in_bounds(x as int, y as int) ==> (r matches Ok(v) && v@ == self.inv_at(
                x as int,
                y as int,
            )),
            !self.in_bounds(x as int, y as int) ==> (r matches Err(e) && e
                == WorldError::OutOfBounds),
    {
        let idx = match self.map.translate_coords(x, y) {
            Ok(i) => i,
            Err(e) => {
                return Err(e);
            },
        };
        match self.block_inventory_data.get(&idx) {
            Some(v) => Ok(copy_inventory(v)),
            None => Ok(Vec::new()),
        }
    }

    /// Stores the inventory of a cell. The data must have exactly the slot
    /// count the cell is owed; an inventory change event is emitted only
    /// when the stored value actually changes.
    pub fn set_block_inventory_data(
        &mut self,
        x: i32,
        y: i32,
        data: Vec<Option<ItemStack>>,
        events: &mut EventManager<BlockEvent>,
    ) -> (r: Result<(), WorldError>)
        requires
            old(self).wf(),
        ensures
            final(self).wf(),
            !old(self).in_bounds(x as int, y as int) ==> r == Result::<(), WorldError>::Err(
                WorldError::OutOfBounds,
            ) && *final(self) == *old(self) && final(events)@ == old(events)@,
            old(self).in_bounds(x as int, y as int) && old(self).from_main_at(x as int, y as int)
                == (0i32, 0i32) && !old(self).valid_id(old(self).block_at(x as int, y as int))
                ==> r == Result::<(), WorldError>::Err(WorldError::UnknownBlockType) && *final(self)
                == *old(self) && final(events)@ == old(events)@,
            old(self).in_bounds(x as int, y as int) && (old(self).from_main_at(x as int, y as int)
                != (0i32, 0i32) || old(self).valid_id(old(self).block_at(x as int, y as int)))
                ==> {
                let i = old(self).index_of(x as int, y as int);
                let size = old(self).inv_size_at(x as int, y as int);
                &&& (data@.len() != size ==> r == Result::<(), WorldError>::Err(
                    WorldError::SizeMismatch,
                ) && *final(self) == *old(self) && final(events)@ == old(events)@)
                &&& (data@.len() == size && data@ == old(self).inv_at_idx(i) ==> r == Result::<
                    (),
                    WorldError,
                >::Ok(()) && *final(self) == *old(self) && final(events)@ == old(events)@)
                &&& (data@.len() == size && data@ != old(self).inv_at_idx(i) ==> {
                    &&& r == Result::<(), WorldError>::Ok(())
                    &&& same_geometry(*old(self), *final(self))
                    &&& same_registry(*old(self), *final(self))
                    &&& same_from_main(*old(self), *final(self))
                    &&& same_data(*old(self), *final(self))
                    &&& final(self).breaking() == old(self).breaking()
                    &&& final(self).inv_at_idx(i) == data@
                    &&& (forall|j: int|
                        j != i ==> #[trigger] final(self).inv_at_idx(j) == old(self).inv_at_idx(
                            j,
                        ))
                    &&& final(events)@ == old(events)@.push(
                        BlockEvent::InventoryChange(BlockInventoryChangeEvent { x, y }),
                    )
                })
            },
    {
        let idx = match self.map.translate_coords(x, y) {
            Ok(i) => i,
            Err(e) => {
                return Err(e);
            },
        };
        proof {
            crate::world_map::lemma_index_in_range(self.map, x as int, y as int);
        }
        let size = match self.get_block_inventory_size(x, y) {
            Ok(n) => n,
            Err(e) => {
                return Err(e);
            },
        };
        if data.len() != size as usize {
            return Err(WorldError::SizeMismatch);
        }
        let unchanged = match self.block_inventory_data.get(&idx) {
            Some(v) => inventories_equal(v, &data),
            None => data.len() == 0,
        };
        proof {
            if data@.len() == 0 {
                assert(data@ =~= Seq::<Option<ItemStack>>::empty());
            }
        }
        if unchanged {
            return Ok(());
        }
        if data.len() == 0 {
            self.block_inventory_data.remove(&idx);
        } else {
            self.block_inventory_data.insert(idx, data);
        }
        events.push_event(BlockEvent::InventoryChange(BlockInventoryChangeEvent { x, y }));
        Ok(())
    }

    /// The central mutation primitive: sets the block id of a cell and its
    /// offset from the main cell of the big block it belongs to.
    ///
    /// A call whose id and offset both match the current state is a no-op
    /// that emits nothing. Any other successful call clears the cell's
    /// extra data, drops its pending break, resets its inventory to a
    /// fresh empty one sized for the new occupant, and emits a block
    /// change event, as `set_cell_rel` describes.
    pub fn set_big_block(
        &mut self,
        events: &mut EventManager<BlockEvent>,
        x: i32,
        y: i32,
        block_id: BlockId,
        from_main: (i32, i32),
    ) -> (r: Result<(), WorldError>)
        requires
            old(self).wf(),
        ensures
            final(self).wf(),
            !old(self).in_bounds(x as int, y as int) ==> r == Result::<(), WorldError>::Err(
                WorldError::OutOfBounds,
            ) && *final(self) == *old(self) && final(events)@ == old(events)@,
            old(self).in_bounds(x as int, y as int) && old(self).block_at(x as int, y as int)
                == block_id && old(self).from_main_at(x as int, y as int) == from_main ==> r
                == Result::<(), WorldError>::Ok(()) && *final(self) == *old(self) && final(events)@ == old(events)@,
            old(self).in_bounds(x as int, y as int) && !(old(self).block_at(x as int, y as int)
                == block_id && old(self).from_main_at(x as int, y as int) == from_main) && !old(self).valid_id(block_id) ==> r == Result::<(), WorldError>::Err(
                WorldError::UnknownBlockType,
            ) && *final(self) == *old(self) && final(events)@ == old(events)@,
            old(self).in_bounds(x as int, y as int) && !(old(self).block_at(x as int, y as int)
                == block_id && old(self).from_main_at(x as int, y as int) == from_main) && old(self).valid_id(block_id) ==> r == Result::<(), WorldError>::Ok(()) && set_cell_rel(
                *old(self),
                *final(self),
                old(events)@,
                final(events)@,
                x,
                y,
                block_id,
                from_main,
            ),
    {
        let idx = match self.map.translate_coords(x, y) {
            Ok(i) => i,
            Err(e) => {
                return Err(e);
            },
        };
        proof {
            crate::world_map::lemma_index_in_range(self.map, x as int, y as int);
        }
        let cur = self.blocks[idx];
        let cur_fm = match self.block_from_main.get(&idx) {
            Some(p) => *p,
            None => (0, 0),
        };
        if cur == block_id && cur_fm.0 == from_main.0 && cur_fm.1 == from_main.1 {
            return Ok(());
        }
        if block_id.id < 0 || (block_id.id as usize) >= self.block_types.len() {
            return Err(WorldError::UnknownBlockType);
        }

        self.block_data.remove(&idx);
        self.blocks.set(idx, block_id);
        self.remove_breaking_at(x, y);
        if from_main.0 == 0 && from_main.1 == 0 {
            self.block_from_main.remove(&idx);
        } else {
            self.block_from_main.insert(idx, from_main);
        }

        let size: usize = if !(from_main.0 == 0 && from_main.1 == 0) {
            0
        } else {
            self.block_types[block_id.id as usize].inventory_slots.len()
        };
        let new_inv: Vec<Option<ItemStack>> = vec![None; size];
        proof {
            assert(new_inv@ =~= fresh_inventory(*old(self), block_id, from_main));
        }
        let inv_unchanged = match self.block_inventory_data.get(&idx) {
            Some(v) => inventories_equal(v, &new_inv),
            None => size == 0,
        };
        proof {
            if size == 0 {
                assert(new_inv@ =~= Seq::<Option<ItemStack>>::empty());
            }
            crate::blocks::breaking::lemma_without_coord_props(
                old(self).breaking(),
                (x, y),
            );
        }
        if !inv_unchanged {
            if size == 0 {
                self.block_inventory_data.remove(&idx);
            } else {
                self.block_inventory_data.insert(idx, new_inv);
            }
            events.push_event(BlockEvent::InventoryChange(BlockInventoryChangeEvent { x, y }));
        }
        events.push_event(BlockEvent::Change(BlockChangeEvent { x, y, prev_block: cur }));
        Ok(())
    }

    /// Re-derives the multicell structure at one cell after a neighbor
    /// changed, one step at a time.
    ///
    /// A cell holding a block with a footprint larger than one cell first
    /// checks its structural predecessor (left when its offset points
    /// right, above when it points down): if the predecessor no longer
    /// holds the same type, this cell collapses to air. Otherwise the cell
    /// stamps the continuation cells to the right and below that the
    /// footprint still owes, leaving further propagation to the update
    /// pass its own change events trigger.
    pub fn update_block(&mut self, x: i32, y: i32, events: &mut EventManager<BlockEvent>) -> (r:
        Result<(), WorldError>)
        requires
            old(self).wf(),
        ensures
            final(self).wf(),
            update_block_rel(*old(self), *final(self), old(events)@, final(events)@, x, y, r),
    {
        let cur = match self.get_block(x, y) {
            Ok(c) => c,
            Err(e) => {
                return Err(e);
            },
        };
        if cur.id < 0 || (cur.id as usize) >= self.block_types.len() {
            return Err(WorldError::UnknownBlockType);
        }
        let tw = self.block_types[cur.id as usize].width;
        let th = self.block_types[cur.id as usize].height;
        if !(tw > 1 || th > 1) {
            return Ok(());
        }
        let fm = match self.get_block_from_main(x, y) {
            Ok(p) => p,
            Err(e) => {
                return Err(e);
            },
        };

        let mut collapse = false;
        if fm.0 > 0 {
            let left = match self.get_block(x - 1, y) {
                Ok(c) => c,
                Err(e) => {
                    return Err(e);
                },
            };
            if left != cur {
                collapse = true;
            }
        }
        if !collapse && fm.1 > 0 {
            let up = match self.get_block(x, y - 1) {
                Ok(c) => c,
                Err(e) => {
                    return Err(e);
                },
            };
            if up != cur {
                collapse = true;
            }
        }
        if collapse {
            let air = self.air;
            return self.set_block(events, x, y, air);
        }

        let ghost pre = *old(self);
        let ghost mut mid = *self;
        let ghost mut mid_ev = events@;
        let mut stamped_right = false;
        if (fm.0 as i64) < (tw as i64) - 1 {
            if x == i32::MAX {
                return Err(WorldError::OutOfBounds);
            }
            match self.set_big_block(events, x + 1, y, cur, (fm.0 + 1, fm.1)) {
                Ok(()) => {},
                Err(e) => {
                    return Err(e);
                },
            }
            stamped_right = true;
            proof {
                mid = *self;
                mid_ev = events@;
            }
        }
        if (fm.1 as i64) < (th as i64) - 1 {
            if y == i32::MAX {
                return Err(WorldError::OutOfBounds);
            }
            match self.set_big_block(events, x, y + 1, cur, (fm.0, fm.1 + 1)) {
                Ok(()) => {},
                Err(e) => {
                    return Err(e);
                },
            }
        }
        proof {
            if stamped_right && pre.needs_down(x as int, y as int) {
                assert(stamp_rel(
                    pre,
                    mid,
                    old(events)@,
                    mid_ev,
                    (x + 1) as i32,
                    y,
                    pre.block_at(x as int, y as int),
                    ((fm.0 + 1) as i32, fm.1),
                ));
                assert(stamp_rel(
                    mid,
                    *self,
                    mid_ev,
                    events@,
                    x,
                    (y + 1) as i32,
                    pre.block_at(x as int, y as int),
                    (fm.0, (fm.1 + 1) as i32),
                ));
            }
        }
        Ok(())
    }

    /// Breaks the block occupying a cell: the break resolves to the main
    /// cell of whatever multicell block occupies the coordinate, emits a
    /// block break event for it, and then sets it to air.
    pub fn break_block(&mut self, events: &mut EventManager<BlockEvent>, x: i32, y: i32) -> (r:
        Result<(), WorldError>)
        requires
            old(self).wf(),
        ensures
            final(self).wf(),
            !old(self).in_bounds(x as int, y as int) ==> r == Result::<(), WorldError>::Err(
                WorldError::OutOfBounds,
            ) && *final(self) == *old(self) && final(events)@ == old(events)@,
            old(self).in_bounds(x as int, y as int) ==> break_rel(
                *old(self),
                *final(self),
                old(events)@,
                final(events)@,
                x,
                y,
                r,
            ),
    {
        let fm = match self.get_block_from_main(x, y) {
            Ok(p) => p,
            Err(e) => {
                return Err(e);
            },
        };
        let tx64: i64 = x as i64 - fm.0 as i64;
        let ty64: i64 = y as i64 - fm.1 as i64;
        if tx64 < i32::MIN as i64 || tx64 > i32::MAX as i64 || ty64 < i32::MIN as i64 || ty64
            > i32::MAX as i64 {
            return Err(WorldError::OutOfBounds);
        }
        let tx = tx64 as i32;
        let ty = ty64 as i32;
        let prev = match self.get_block(tx, ty) {
            Ok(c) => c,
            Err(e) => {
                return Err(e);
            },
        };
        if prev.id < 0 || (prev.id as usize) >= self.block_types.len() {
            return Err(WorldError::UnknownBlockType);
        }
        let air = self.air;
        events.push_event(BlockEvent::Break(BlockBreakEvent { prev_block_id: prev, x: tx, y: ty }));
        self.set_block(events, tx, ty, air)
    }

    /// Sets the block id of a cell as a main cell: shorthand for
    /// `set_big_block` with a `(0, 0)` offset.
    pub fn set_block(
        &mut self,
        events: &mut EventManager<BlockEvent>,
        x: i32,
        y: i32,
        block_id: BlockId,
    ) -> (r: Result<(), WorldError>)
        requires
            old(self).wf(),
        ensures
            final(self).wf(),
            !old(self).in_bounds(x as int, y as int) ==> r == Result::<(), WorldError>::Err(
                WorldError::OutOfBounds,
            ) && *final(self) == *old(self) && final(events)@ == old(events)@,
            old(self).in_bounds(x as int, y as int) && old(self).block_at(x as int, y as int)
                == block_id && old(self).from_main_at(x as int, y as int) == (0i32, 0i32) ==> r
                == Result::<(), WorldError>::Ok(()) && *final(self) == *old(self) && final(events)@ == old(events)@,
            old(self).in_bounds(x as int, y as int) && !(old(self).block_at(x as int, y as int)
                == block_id && old(self).from_main_at(x as int, y as int) == (0i32, 0i32)) && !old(self).valid_id(block_id) ==> r == Result::<(), WorldError>::Err(
                WorldError::UnknownBlockType,
            ) && *final(self) == *old(self) && final(events)@ == old(events)@,
            old(self).in_bounds(x as int, y as int) && !(old(self).block_at(x as int, y as int)
                == block_id && old(self).from_main_at(x as int, y as int) == (0i32, 0i32)) && old(self).valid_id(block_id) ==> r == Result::<(), WorldError>::Ok(()) && set_cell_rel(
                *old(self),
                *final(self),
                old(events)@,
                final(events)@,
                x,
                y,
                block_id,
                (0i32, 0i32),
            ),
    {
        self.set_big_block(events, x, y, block_id, (0, 0))
    }
}

} // verus!
