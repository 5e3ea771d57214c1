use vstd::prelude::*;

use crate::errors::WorldError;

verus! {

/// Side length of the square chunks that coarse bookkeeping (rendering,
/// chunk tracking) divides the grid into.
pub const CHUNK_SIZE: i32 = 16;

/// `WorldMap` contains the width and height of the map and is used by
/// everything that needs to know the size of the map. It translates a
/// two dimensional coordinate into the linear index that the dense and
/// sparse per-cell stores are keyed by.
#[derive(Clone, Copy, Debug)]
pub struct WorldMap {
    size: (u32, u32),
}

impl WorldMap {
    pub closed spec fn width(self) -> int {
        (self.size.0 as int)
    }

    pub closed spec fn height(self) -> int {
        (self.size.1 as int)
    }

    /// A map is well formed when a full grid of its cells is addressable:
    /// one linear index per cell must fit in `usize`.
    pub open spec fn wf(self) -> bool {
        &&& 0 <= self.width() <= u32::MAX as int
        &&& 0 <= self.height() <= u32::MAX as int
        &&& self.width() * self.height() <= usize::MAX as int
    }

    pub open spec fn in_bounds(self, x: int, y: int) -> bool {
        0 <= x < self.width() && 0 <= y < self.height()
    }

    /// The linear index of an in-bounds coordinate: cells are laid out
    /// column by column.
    pub open spec fn index_of(self, x: int, y: int) -> int {
        x * self.height() + y
    }

    pub open spec fn chunk_width(self) -> int {
        self.width() / (CHUNK_SIZE as int)
    }

    pub open spec fn chunk_height(self) -> int {
        self.height() / (CHUNK_SIZE as int)
    }

    pub open spec fn chunk_in_bounds(self, x: int, y: int) -> bool {
        0 <= x < self.chunk_width() && 0 <= y < self.chunk_height()
    }

    pub open spec fn chunk_index_of(self, x: int, y: int) -> int {
        x + y * self.chunk_width()
    }

    pub fn new(size: (u32, u32)) -> (r: Self)
        requires
            size.0 as int * size.1 as int <= usize::MAX as int,
        ensures
            r.width() == size.0 as int,
            r.height() == size.1 as int,
            r.wf(),
    {
        Self { size }
    }

    pub fn new_empty() -> (r: Self)
        ensures
            r.width() == 0,
            r.height() == 0,
            r.wf(),
    {
        Self { size: (0, 0) }
    }

    pub fn get_size(&self) -> (r: (u32, u32))
        ensures
            r.0 as int == self.width(),
            r.1 as int == self.height(),
    {
        self.size
    }

    /// Translates an x, y coordinate to a single number, failing on any
    /// coordinate outside the grid.
    pub fn translate_coords(&self, x: i32, y: i32) -> (r: Result<usize, WorldError>)
        requires
            self.wf(),
        ensures
            self.in_bounds(x as int, y as int) ==> (r matches Ok(i) && i == self.index_of(
                x as int,
                y as int,
            )),
            !self.in_bounds(x as int, y as int) ==> r == Result::<usize, WorldError>::Err(
                WorldError::OutOfBounds,
            ),
    {
        if x < 0 || y < 0 || (x as u32) >= self.size.0 || (y as u32) >= self.size.1 {
            return Err(WorldError::OutOfBounds);
        }
        assert((x as int) * ((self.size.1 as int)) + (y as int) < ((self.size.0 as int)) * (
        (self.size.1 as int))) by (nonlinear_arith)
            requires
                0 <= (x as int),
                (x as int) < (self.size.0 as int),
                0 <= (y as int),
                (y as int) < (self.size.1 as int),
        ;
        Ok((x as usize) * (self.size.1 as usize) + (y as usize))
    }

    /// Same as `translate_coords` but at chunk granularity.
    pub fn translate_chunk_coords(&self, x: i32, y: i32) -> (r: Result<usize, WorldError>)
        requires
            self.wf(),
        ensures
            self.chunk_in_bounds(x as int, y as int) ==> (r matches Ok(i) && i
                == self.chunk_index_of(x as int, y as int)),
            !self.chunk_in_bounds(x as int, y as int) ==> r == Result::<usize, WorldError>::Err(
                WorldError::OutOfBounds,
            ),
    {
        let chunk_w: u32 = self.size.0 / 16;
        let chunk_h: u32 = self.size.1 / 16;
        if x < 0 || y < 0 || (x as u32) >= chunk_w || (y as u32) >= chunk_h {
            return Err(WorldError::OutOfBounds);
        }
        assert((x as int) + (y as int) * (chunk_w as int) < (chunk_w as int) * (chunk_h as int)
            <= ((self.size.0 as int)) * ((self.size.1 as int))) by (nonlinear_arith)
            requires
                0 <= (x as int),
                (x as int) < (chunk_w as int),
                0 <= (y as int),
                (y as int) < (chunk_h as int),
                (chunk_w as int) == (self.size.0 as int) / 16,
                (chunk_h as int) == (self.size.1 as int) / 16,
        ;
        Ok((x as usize) + (y as usize) * (chunk_w as usize))
    }
}

/// An in-bounds coordinate's linear index lies inside the grid.
pub proof fn lemma_index_in_range(m: WorldMap, x: int, y: int)
    requires
        m.in_bounds(x, y),
    ensures
        0 <= m.index_of(x, y) < m.width() * m.height(),
{
    assert(0 <= x * m.height() + y < m.width() * m.height()) by (nonlinear_arith)
        requires
            0 <= x < m.width(),
            0 <= y < m.height(),
    ;
}

/// Coordinate translation is injective: two in-bounds coordinates with the
/// same linear index are the same coordinate.
pub proof fn lemma_index_injective(m: WorldMap, x1: int, y1: int, x2: int, y2: int)
    requires
        m.in_bounds(x1, y1),
        m.in_bounds(x2, y2),
        m.index_of(x1, y1) == m.index_of(x2, y2),
    ensures
        x1 == x2 && y1 == y2,
{
    assert(x1 == x2 && y1 == y2) by (nonlinear_arith)
        requires
            0 <= x1 < m.width(),
            0 <= x2 < m.width(),
            0 <= y1 < m.height(),
            0 <= y2 < m.height(),
            x1 * m.height() + y1 == x2 * m.height() + y2,
    ;
}

/// Distinct in-bounds coordinates have distinct linear indices.
pub proof fn lemma_index_distinct(m: WorldMap, x1: int, y1: int, x2: int, y2: int)
    requires
        m.in_bounds(x1, y1),
        m.in_bounds(x2, y2),
        !(x1 == x2 && y1 == y2),
    ensures
        m.index_of(x1, y1) != m.index_of(x2, y2),
{
    if m.index_of(x1, y1) == m.index_of(x2, y2) {
        lemma_index_injective(m, x1, y1, x2, y2);
    }
}

} // verus!
