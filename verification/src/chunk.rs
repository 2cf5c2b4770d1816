//! Chunks: fixed-size rectangular partitions of the world grid, the unit of
//! storage and of local movement resolution.
//!
//! A chunk owns a dense occupancy array (an optional material tag per local
//! cell) and a parallel "needs update" (active) array of the same size,
//! indexed by a row-major local index.  The global position of a cell is
//! `chunk coordinate * chunk dimensions + local coordinate`.

use vstd::arithmetic::div_mod::{lemma_fundamental_div_mod, lemma_fundamental_div_mod_converse};
use vstd::prelude::*;

use crate::tile::TileContent;
use crate::vec2::IVec2;

verus! {

/// A cross-chunk cell reference: the coordinate of the owning chunk plus the
/// local cell index inside it.  It never owns state itself, it only names a
/// cell.
#[derive(Clone, Copy, Debug, PartialEq, Eq, Structural, Hash)]
pub struct Tile {
    pub chunk_pos: IVec2,
    pub index: usize,
}

/// A local cell position packed as a row-major index, kept as a signed
/// integer so it can round-trip through coordinate arithmetic.
#[derive(Clone, Copy, Debug, PartialEq, Eq, Structural, Hash)]
pub struct Position {
    pub index: i32,
}

/// Chunk dimensions are positive and small enough that a row-major index
/// fits in `i32`.
pub open spec fn size_ok(cs: IVec2) -> bool {
    &&& 0 < cs.x
    &&& 0 < cs.y
    &&& (cs.x as int) * (cs.y as int) <= i32::MAX
}

/// The number of cells of a chunk of dimensions `cs`.
pub open spec fn area(cs: IVec2) -> int {
    (cs.x as int) * (cs.y as int)
}

/// The local column of row-major index `idx`.
pub open spec fn local_x(cs: IVec2, idx: int) -> int {
    idx % (cs.x as int)
}

/// The local row of row-major index `idx`.
pub open spec fn local_y(cs: IVec2, idx: int) -> int {
    idx / (cs.x as int)
}

/// The global x coordinate of local index `idx` of the chunk at `p`.
pub open spec fn global_x(p: IVec2, cs: IVec2, idx: int) -> int {
    (p.x as int) * (cs.x as int) + local_x(cs, idx)
}

/// The global y coordinate of local index `idx` of the chunk at `p`.
pub open spec fn global_y(p: IVec2, cs: IVec2, idx: int) -> int {
    (p.y as int) * (cs.y as int) + local_y(cs, idx)
}

/// The chunk coordinate `p` is near enough to the origin that the global
/// coordinates of every cell of the chunk, shifted by at most one cell in
/// each axis, still fit in `i32`.
pub open spec fn pos_ok(p: IVec2, cs: IVec2) -> bool {
    &&& i32::MIN + 1 <= (p.x as int) * (cs.x as int)
    &&& ((p.x as int) + 1) * (cs.x as int) <= i32::MAX
    &&& i32::MIN + 1 <= (p.y as int) * (cs.y as int)
    &&& ((p.y as int) + 1) * (cs.y as int) <= i32::MAX
}

/// Local coordinates determine the row-major index and are recovered from
/// it, for any in-range column and row.
pub proof fn lemma_index_of_xy(cs: IVec2, x: int, y: int)
    requires
        size_ok(cs),
        0 <= x < cs.x,
        0 <= y < cs.y,
    ensures
        0 <= x + y * (cs.x as int) < area(cs),
        local_x(cs, x + y * (cs.x as int)) == x,
        local_y(cs, x + y * (cs.x as int)) == y,
{
    let cx = cs.x as int;
    let cy = cs.y as int;
    assert(x + y * cx < cx * cy && 0 <= y * cx) by (nonlinear_arith)
        requires
            0 <= x < cx,
            0 <= y < cy,
    ;
    lemma_fundamental_div_mod_converse(x + y * cx, cx, y, x);
}

/// A row-major index in range decomposes into an in-range column and row.
pub proof fn lemma_xy_of_index(cs: IVec2, idx: int)
    requires
        size_ok(cs),
        0 <= idx < area(cs),
    ensures
        0 <= local_x(cs, idx) < cs.x,
        0 <= local_y(cs, idx) < cs.y,
        idx == local_x(cs, idx) + local_y(cs, idx) * (cs.x as int),
{
    let cx = cs.x as int;
    let cy = cs.y as int;
    lemma_fundamental_div_mod(idx, cx);
    assert(0 <= idx % cx < cx) by (nonlinear_arith)
        requires
            0 < cx,
            0 <= idx,
    ;
    assert(0 <= idx / cx < cy) by (nonlinear_arith)
        requires
            0 < cx,
            0 <= idx < cx * cy,
            idx == cx * (idx / cx) + idx % cx,
            0 <= idx % cx < cx,
    ;
}

/// Two distinct in-range indices of one chunk name cells with distinct
/// global coordinates.
pub proof fn lemma_index_injective(cs: IVec2, i1: int, i2: int)
    requires
        size_ok(cs),
        0 <= i1 < area(cs),
        0 <= i2 < area(cs),
        local_x(cs, i1) == local_x(cs, i2),
        local_y(cs, i1) == local_y(cs, i2),
    ensures
        i1 == i2,
{
    lemma_xy_of_index(cs, i1);
    lemma_xy_of_index(cs, i2);
}

/// A well-formed world: every chunk well formed, all sharing the dimensions
/// `cs`, no two chunks at the same chunk coordinate.
pub open spec fn chunks_wf(chunks: Seq<Chunk>, cs: IVec2) -> bool {
    &&& size_ok(cs)
    &&& forall|c: int|
        0 <= c < chunks.len() ==> (#[trigger] chunks[c]).wf() && chunks[c].chunk_size == cs
    &&& forall|c1: int, c2: int|
        0 <= c1 < c2 < chunks.len() ==> (#[trigger] chunks[c1]).chunk_pos != (
        #[trigger] chunks[c2]).chunk_pos
}

/// The products behind a chunk's global cell coordinates fit `i32`.
pub proof fn lemma_base_fits(p: IVec2, cs: IVec2)
    requires
        size_ok(cs),
        pos_ok(p, cs),
    ensures
        i32::MIN + 1 <= (p.x as int) * (cs.x as int),
        (p.x as int) * (cs.x as int) + (cs.x as int) <= i32::MAX,
        i32::MIN + 1 <= (p.y as int) * (cs.y as int),
        (p.y as int) * (cs.y as int) + (cs.y as int) <= i32::MAX,
{
    assert(((p.x as int) + 1) * (cs.x as int) == (p.x as int) * (cs.x as int) + (cs.x as int))
        by (nonlinear_arith);
    assert(((p.y as int) + 1) * (cs.y as int) == (p.y as int) * (cs.y as int) + (cs.y as int))
        by (nonlinear_arith);
}

/// A cell named by the index of its owning chunk in the world's chunk list
/// plus its local cell index.
#[derive(Clone, Copy, Debug, PartialEq, Eq, Structural, Hash)]
pub struct Loc {
    pub chunk: usize,
    pub index: usize,
}

/// `l` names a cell of the world.
pub open spec fn loc_ok(chunks: Seq<Chunk>, l: Loc) -> bool {
    l.chunk < chunks.len() && l.index < chunks[l.chunk as int].cells@.len()
}

/// The occupancy of cell `l`.
pub open spec fn occ_at(chunks: Seq<Chunk>, l: Loc) -> Option<TileContent> {
    chunks[l.chunk as int].cells@[l.index as int]
}

/// Chunk `ch` owns the global cell position `pos`.
pub open spec fn contains_pos(ch: Chunk, pos: IVec2) -> bool {
    &&& (ch.chunk_pos.x as int) * (ch.chunk_size.x as int) <= pos.x < ((ch.chunk_pos.x as int) + 1)
        * (ch.chunk_size.x as int)
    &&& (ch.chunk_pos.y as int) * (ch.chunk_size.y as int) <= pos.y < ((ch.chunk_pos.y as int) + 1)
        * (ch.chunk_size.y as int)
}

/// The global position of cell `l` as a coordinate pair.
pub open spec fn gpos_of(chunks: Seq<Chunk>, l: Loc) -> IVec2 {
    let ch = chunks[l.chunk as int];
    IVec2 {
        x: global_x(ch.chunk_pos, ch.chunk_size, l.index as int) as i32,
        y: global_y(ch.chunk_pos, ch.chunk_size, l.index as int) as i32,
    }
}

/// At most one loaded chunk owns any global position: the chunk coordinate
/// is the floor quotient of the position by the chunk dimensions.
pub proof fn lemma_owner_unique(chunks: Seq<Chunk>, cs: IVec2, c1: int, c2: int, pos: IVec2)
    requires
        chunks_wf(chunks, cs),
        0 <= c1 < chunks.len(),
        0 <= c2 < chunks.len(),
        contains_pos(chunks[c1], pos),
        contains_pos(chunks[c2], pos),
    ensures
        c1 == c2,
{
    let p1 = chunks[c1].chunk_pos;
    let p2 = chunks[c2].chunk_pos;
    assert(chunks[c1].wf());
    assert(chunks[c2].wf());
    assert(((p1.x as int) + 1) * (cs.x as int) == (p1.x as int) * (cs.x as int) + (cs.x as int))
        by (nonlinear_arith);
    assert(((p2.x as int) + 1) * (cs.x as int) == (p2.x as int) * (cs.x as int) + (cs.x as int))
        by (nonlinear_arith);
    assert(((p1.y as int) + 1) * (cs.y as int) == (p1.y as int) * (cs.y as int) + (cs.y as int))
        by (nonlinear_arith);
    assert(((p2.y as int) + 1) * (cs.y as int) == (p2.y as int) * (cs.y as int) + (cs.y as int))
        by (nonlinear_arith);
    lemma_fundamental_div_mod_converse(
        pos.x as int,
        cs.x as int,
        p1.x as int,
        pos.x - (p1.x as int) * (cs.x as int),
    );
    lemma_fundamental_div_mod_converse(
        pos.x as int,
        cs.x as int,
        p2.x as int,
        pos.x - (p2.x as int) * (cs.x as int),
    );
    lemma_fundamental_div_mod_converse(
        pos.y as int,
        cs.y as int,
        p1.y as int,
        pos.y - (p1.y as int) * (cs.y as int),
    );
    lemma_fundamental_div_mod_converse(
        pos.y as int,
        cs.y as int,
        p2.y as int,
        pos.y - (p2.y as int) * (cs.y as int),
    );
    assert(p1 == p2);
    if c1 != c2 {
        assert(false);
    }
}

/// Every cell's global position lies inside its owning chunk.
pub proof fn lemma_gpos_contains(chunks: Seq<Chunk>, cs: IVec2, l: Loc)
    requires
        chunks_wf(chunks, cs),
        loc_ok(chunks, l),
    ensures
        contains_pos(chunks[l.chunk as int], gpos_of(chunks, l)),
        gpos_of(chunks, l).x == global_x(
            chunks[l.chunk as int].chunk_pos,
            cs,
            l.index as int,
        ),
        gpos_of(chunks, l).y == global_y(
            chunks[l.chunk as int].chunk_pos,
            cs,
            l.index as int,
        ),
{
    let ch = chunks[l.chunk as int];
    assert(ch.wf());
    lemma_base_fits(ch.chunk_pos, cs);
    lemma_xy_of_index(cs, l.index as int);
    let px = ch.chunk_pos.x as int;
    let py = ch.chunk_pos.y as int;
    assert((px + 1) * (cs.x as int) == px * (cs.x as int) + (cs.x as int)) by (nonlinear_arith);
    assert((py + 1) * (cs.y as int) == py * (cs.y as int) + (cs.y as int)) by (nonlinear_arith);
}

/// Distinct cells have distinct global positions.
pub proof fn lemma_gpos_unique(chunks: Seq<Chunk>, cs: IVec2, l1: Loc, l2: Loc)
    requires
        chunks_wf(chunks, cs),
        loc_ok(chunks, l1),
        loc_ok(chunks, l2),
        global_x(chunks[l1.chunk as int].chunk_pos, cs, l1.index as int) == global_x(
            chunks[l2.chunk as int].chunk_pos,
            cs,
            l2.index as int,
        ),
        global_y(chunks[l1.chunk as int].chunk_pos, cs, l1.index as int) == global_y(
            chunks[l2.chunk as int].chunk_pos,
            cs,
            l2.index as int,
        ),
    ensures
        l1 == l2,
{
    lemma_gpos_contains(chunks, cs, l1);
    lemma_gpos_contains(chunks, cs, l2);
    assert(gpos_of(chunks, l1) == gpos_of(chunks, l2));
    lemma_owner_unique(chunks, cs, l1.chunk as int, l2.chunk as int, gpos_of(chunks, l1));
    lemma_xy_of_index(cs, l1.index as int);
    lemma_xy_of_index(cs, l2.index as int);
    lemma_index_injective(cs, l1.index as int, l2.index as int);
}

/// Distinct cells have distinct global position pairs.
pub proof fn lemma_gpos_of_unique(chunks: Seq<Chunk>, cs: IVec2, l1: Loc, l2: Loc)
    requires
        chunks_wf(chunks, cs),
        loc_ok(chunks, l1),
        loc_ok(chunks, l2),
        gpos_of(chunks, l1) == gpos_of(chunks, l2),
    ensures
        l1 == l2,
{
    lemma_gpos_contains(chunks, cs, l1);
    lemma_gpos_contains(chunks, cs, l2);
    lemma_gpos_unique(chunks, cs, l1, l2);
}

/// A chunk that contains a global position sits at the chunk coordinate
/// that position decomposes into: the coordinate of any cell reference
/// naming that position.
pub proof fn lemma_contains_coord(ch: Chunk, cs: IVec2, p2: IVec2, idx2: int, pos: IVec2)
    requires
        ch.wf(),
        ch.chunk_size == cs,
        0 <= idx2 < area(cs),
        contains_pos(ch, pos),
        global_x(p2, cs, idx2) == pos.x,
        global_y(p2, cs, idx2) == pos.y,
    ensures
        ch.chunk_pos == p2,
{
    let p1 = ch.chunk_pos;
    assert(((p1.x as int) + 1) * (cs.x as int) == (p1.x as int) * (cs.x as int) + (cs.x as int))
        by (nonlinear_arith);
    assert(((p1.y as int) + 1) * (cs.y as int) == (p1.y as int) * (cs.y as int) + (cs.y as int))
        by (nonlinear_arith);
    lemma_xy_of_index(cs, idx2);
    lemma_fundamental_div_mod_converse(
        pos.x as int,
        cs.x as int,
        p1.x as int,
        pos.x - (p1.x as int) * (cs.x as int),
    );
    lemma_fundamental_div_mod_converse(
        pos.x as int,
        cs.x as int,
        p2.x as int,
        local_x(cs, idx2),
    );
    lemma_fundamental_div_mod_converse(
        pos.y as int,
        cs.y as int,
        p1.y as int,
        pos.y - (p1.y as int) * (cs.y as int),
    );
    lemma_fundamental_div_mod_converse(
        pos.y as int,
        cs.y as int,
        p2.y as int,
        local_y(cs, idx2),
    );
}

/// Cell `l` lies within the 3x3 neighborhood of global position `pos`.
pub open spec fn near_pos(chunks: Seq<Chunk>, l: Loc, pos: IVec2) -> bool {
    let ch = chunks[l.chunk as int];
    &&& -1 <= global_x(ch.chunk_pos, ch.chunk_size, l.index as int) - pos.x <= 1
    &&& -1 <= global_y(ch.chunk_pos, ch.chunk_size, l.index as int) - pos.y <= 1
}

/// Cell `l` lies within the 3x3 neighborhood of cell `a`.
pub open spec fn near_cells(chunks: Seq<Chunk>, a: Loc, l: Loc) -> bool {
    let ca = chunks[a.chunk as int];
    let cl = chunks[l.chunk as int];
    &&& -1 <= global_x(cl.chunk_pos, cl.chunk_size, l.index as int) - global_x(
        ca.chunk_pos,
        ca.chunk_size,
        a.index as int,
    ) <= 1
    &&& -1 <= global_y(cl.chunk_pos, cl.chunk_size, l.index as int) - global_y(
        ca.chunk_pos,
        ca.chunk_size,
        a.index as int,
    ) <= 1
}

/// A chunk coordinate admitted by [`pos_ok`] has in-range neighbors.
pub proof fn lemma_pos_ok_neighbor(p: IVec2, cs: IVec2)
    requires
        size_ok(cs),
        pos_ok(p, cs),
    ensures
        i32::MIN <= (p.x as int) - 1,
        (p.x as int) + 1 <= i32::MAX,
        i32::MIN <= (p.y as int) - 1,
        (p.y as int) + 1 <= i32::MAX,
{
    assert((p.x as int) + 1 <= i32::MAX && (p.x as int) - 1 >= i32::MIN) by (nonlinear_arith)
        requires
            0 < cs.x,
            i32::MIN + 1 <= (p.x as int) * (cs.x as int),
            ((p.x as int) + 1) * (cs.x as int) <= i32::MAX,
    ;
    assert((p.y as int) + 1 <= i32::MAX && (p.y as int) - 1 >= i32::MIN) by (nonlinear_arith)
        requires
            0 < cs.y,
            i32::MIN + 1 <= (p.y as int) * (cs.y as int),
            ((p.y as int) + 1) * (cs.y as int) <= i32::MAX,
    ;
}

/// Builds a dense per-cell array holding `default_value` everywhere.
pub fn data_array<T: Copy>(default_value: T, len: usize) -> (r: Vec<T>)
    ensures
        r@.len() == len,
        forall|i: int| 0 <= i < len ==> r@[i] == default_value,
{
    let mut r: Vec<T> = Vec::new();
    let mut k: usize = 0;
    while k < len
        invariant
            k <= len,
            r@.len() == k,
            forall|i: int| 0 <= i < k ==> r@[i] == default_value,
        decreases len - k,
    {
        r.push(default_value);
        k = k + 1;
    }
    r
}

/// Unpacks a row-major cell index into a local (column, row) position.
pub fn tile_index_to_position(tile_index: usize, chunk_size: IVec2) -> (r: IVec2)
    requires
        size_ok(chunk_size),
        tile_index < area(chunk_size),
    ensures
        r.x == local_x(chunk_size, tile_index as int),
        r.y == local_y(chunk_size, tile_index as int),
        0 <= r.x < chunk_size.x,
        0 <= r.y < chunk_size.y,
{
    proof {
        lemma_xy_of_index(chunk_size, tile_index as int);
    }
    let cx = chunk_size.x as usize;
    let x = tile_index % cx;
    let y = tile_index / cx;
    IVec2 { x: x as i32, y: y as i32 }
}

/// Packs an in-bounds local (column, row) position into its row-major index.
pub fn tile_position_to_index(tile_position: IVec2, chunk_size: IVec2) -> (idx: usize)
    requires
        size_ok(chunk_size),
        0 <= tile_position.x < chunk_size.x,
        0 <= tile_position.y < chunk_size.y,
    ensures
        idx == tile_position.x + tile_position.y * (chunk_size.x as int),
        0 <= idx < area(chunk_size),
        local_x(chunk_size, idx as int) == tile_position.x,
        local_y(chunk_size, idx as int) == tile_position.y,
{
    proof {
        lemma_index_of_xy(chunk_size, tile_position.x as int, tile_position.y as int);
    }
    (tile_position.x as usize) + (tile_position.y as usize) * (chunk_size.x as usize)
}

impl Position {
    /// Unpacks this row-major index into a local (column, row) position.
    pub fn to_ivec2(&self, chunk_size: IVec2) -> (r: IVec2)
        requires
            size_ok(chunk_size),
            0 <= self.index < area(chunk_size),
        ensures
            r.x == local_x(chunk_size, self.index as int),
            r.y == local_y(chunk_size, self.index as int),
            0 <= r.x < chunk_size.x,
            0 <= r.y < chunk_size.y,
    {
        tile_index_to_position(self.index as usize, chunk_size)
    }

    /// Packs an in-bounds local (column, row) position into a [`Position`].
    pub fn from_ivec2(pos: IVec2, chunk_size: IVec2) -> (r: Position)
        requires
            size_ok(chunk_size),
            0 <= pos.x < chunk_size.x,
            0 <= pos.y < chunk_size.y,
        ensures
            r.index == pos.x + pos.y * (chunk_size.x as int),
            0 <= r.index < area(chunk_size),
    {
        let idx = tile_position_to_index(pos, chunk_size);
        Position { index: idx as i32 }
    }
}

/// A fixed-size rectangular partition of the grid: a dense occupancy array
/// plus a parallel active array, addressed by chunk coordinate plus local
/// row-major index.
pub struct Chunk {
    /// The chunk's coordinate in the grid of chunks.
    pub chunk_pos: IVec2,
    /// The shared chunk dimensions.
    pub chunk_size: IVec2,
    /// The material of each cell, `None` where the cell is empty.
    pub cells: Vec<Option<TileContent>>,
    /// Whether each cell should be reconsidered by the next resolution pass.
    pub need_update: Vec<bool>,
}

impl Chunk {
    /// Well-formedness: valid dimensions, both arrays exactly one entry per
    /// cell, and a chunk coordinate whose cells' global positions fit `i32`.
    pub open spec fn wf(&self) -> bool {
        &&& size_ok(self.chunk_size)
        &&& pos_ok(self.chunk_pos, self.chunk_size)
        &&& self.cells.len() == area(self.chunk_size)
        &&& self.need_update.len() == self.cells.len()
    }

    /// Creates an empty, fully lazy chunk at the given chunk coordinate.
    pub fn empty(chunk_pos: IVec2, chunk_size: IVec2) -> (c: Chunk)
        requires
            size_ok(chunk_size),
            pos_ok(chunk_pos, chunk_size),
        ensures
            c.wf(),
            c.chunk_pos == chunk_pos,
            c.chunk_size == chunk_size,
            forall|i: int| 0 <= i < c.cells.len() ==> c.cells@[i] is None,
            forall|i: int| 0 <= i < c.need_update.len() ==> c.need_update@[i] == false,
    {
        proof {
            assert((chunk_size.x as int) * (chunk_size.y as int) >= 1) by (nonlinear_arith)
                requires
                    0 < chunk_size.x,
                    0 < chunk_size.y,
            ;
        }
        let n = (chunk_size.x as usize) * (chunk_size.y as usize);
        Chunk {
            chunk_pos,
            chunk_size,
            cells: data_array(None, n),
            need_update: data_array(false, n),
        }
    }

    /// The dense occupancy array, one optional material tag per local cell.
    pub fn tiles(&self) -> (r: &Vec<Option<TileContent>>)
        ensures
            r == &self.cells,
    {
        &self.cells
    }

    /// The material of the cell at a local index, `None` if empty.
    pub fn get_tile(&self, index: usize) -> (r: Option<TileContent>)
        requires
            index < self.cells.len(),
        ensures
            r == self.cells@[index as int],
    {
        self.cells[index]
    }

    /// Occupies a cell with a material and marks it active.
    pub fn set_tile(&mut self, index: usize, content: TileContent)
        requires
            index < old(self).cells.len(),
            old(self).need_update.len() == old(self).cells.len(),
        ensures
            final(self).cells@ == old(self).cells@.update(index as int, Some(content)),
            final(self).need_update@ == old(self).need_update@.update(index as int, true),
            final(self).chunk_pos == old(self).chunk_pos,
            final(self).chunk_size == old(self).chunk_size,
    {
        self.cells.set(index, Some(content));
        self.need_update.set(index, true);
    }

    /// Empties a cell, returning the material that occupied it.
    pub fn remove_tile(&mut self, index: usize) -> (r: Option<TileContent>)
        requires
            index < old(self).cells.len(),
        ensures
            r == old(self).cells@[index as int],
            final(self).cells@ == old(self).cells@.update(index as int, None),
            final(self).need_update == old(self).need_update,
            final(self).chunk_pos == old(self).chunk_pos,
            final(self).chunk_size == old(self).chunk_size,
    {
        let r = self.cells[index];
        self.cells.set(index, None);
        r
    }

    /// The global position of the cell at a local index.
    pub fn global_of_index(&self, index: usize) -> (g: IVec2)
        requires
            self.wf(),
            index < self.cells.len(),
        ensures
            g.x == global_x(self.chunk_pos, self.chunk_size, index as int),
            g.y == global_y(self.chunk_pos, self.chunk_size, index as int),
    {
        proof {
            lemma_base_fits(self.chunk_pos, self.chunk_size);
            lemma_xy_of_index(self.chunk_size, index as int);
        }
        let pos = tile_index_to_position(index, self.chunk_size);
        let base_x = self.chunk_pos.x * self.chunk_size.x;
        let base_y = self.chunk_pos.y * self.chunk_size.y;
        IVec2 { x: base_x + pos.x, y: base_y + pos.y }
    }

    /// Writes a cell's occupancy directly, leaving the active flags alone.
    /// The move executor uses this; editing goes through [`Chunk::set_tile`]
    /// and [`Chunk::remove_tile`].
    pub fn write_cell(&mut self, index: usize, value: Option<TileContent>)
        requires
            index < old(self).cells.len(),
        ensures
            final(self).cells@ == old(self).cells@.update(index as int, value),
            final(self).need_update == old(self).need_update,
            final(self).chunk_pos == old(self).chunk_pos,
            final(self).chunk_size == old(self).chunk_size,
    {
        self.cells.set(index, value);
    }

    /// Sets a cell's active flag directly.
    pub fn set_active(&mut self, index: usize, value: bool)
        requires
            index < old(self).need_update.len(),
        ensures
            final(self).need_update@ == old(self).need_update@.update(index as int, value),
            final(self).cells == old(self).cells,
            final(self).chunk_pos == old(self).chunk_pos,
            final(self).chunk_size == old(self).chunk_size,
    {
        self.need_update.set(index, value);
    }

    /// Shifts a cell by at most one cell in each axis.  Returns the local
    /// index if the target stays inside this chunk, and otherwise a
    /// reference to the cell of the adjacent chunk that owns the target.
    /// Either way the target's global position is the source's plus the
    /// shift.
    pub fn shift_position(&self, tile_index: usize, shift: IVec2) -> (r: Result<usize, Tile>)
        requires
            self.wf(),
            tile_index < self.cells.len(),
            -1 <= shift.x <= 1,
            -1 <= shift.y <= 1,
        ensures
            match r {
                Ok(i2) => {
                    &&& 0 <= i2 < area(self.chunk_size)
                    &&& global_x(self.chunk_pos, self.chunk_size, i2 as int) == global_x(
                        self.chunk_pos,
                        self.chunk_size,
                        tile_index as int,
                    ) + shift.x
                    &&& global_y(self.chunk_pos, self.chunk_size, i2 as int) == global_y(
                        self.chunk_pos,
                        self.chunk_size,
                        tile_index as int,
                    ) + shift.y
                },
                Err(t) => {
                    &&& t.chunk_pos != self.chunk_pos
                    &&& -1 <= t.chunk_pos.x - self.chunk_pos.x <= 1
                    &&& -1 <= t.chunk_pos.y - self.chunk_pos.y <= 1
                    &&& 0 <= t.index < area(self.chunk_size)
                    &&& global_x(t.chunk_pos, self.chunk_size, t.index as int) == global_x(
                        self.chunk_pos,
                        self.chunk_size,
                        tile_index as int,
                    ) + shift.x
                    &&& global_y(t.chunk_pos, self.chunk_size, t.index as int) == global_y(
                        self.chunk_pos,
                        self.chunk_size,
                        tile_index as int,
                    ) + shift.y
                },
            },
    {
        proof {
            lemma_xy_of_index(self.chunk_size, tile_index as int);
        }
        let cx = self.chunk_size.x;
        let cy = self.chunk_size.y;
        let pos = tile_index_to_position(tile_index, self.chunk_size);
        let tx = pos.x + shift.x;
        let ty = pos.y + shift.y;

        let (chunk_shift_x, nx): (i32, i32) = if tx < 0 {
            (-1, tx + cx)
        } else if tx >= cx {
            (1, tx - cx)
        } else {
            (0, tx)
        };
        let (chunk_shift_y, ny): (i32, i32) = if ty < 0 {
            (-1, ty + cy)
        } else if ty >= cy {
            (1, ty - cy)
        } else {
            (0, ty)
        };

        proof {
            lemma_index_of_xy(self.chunk_size, nx as int, ny as int);
        }
        let index = tile_position_to_index(IVec2 { x: nx, y: ny }, self.chunk_size);

        if chunk_shift_x == 0 && chunk_shift_y == 0 {
            Ok(index)
        } else {
            let p = self.chunk_pos;
            proof {
                lemma_pos_ok_neighbor(p, self.chunk_size);
            }
            proof {
                let csx = self.chunk_size.x as int;
                let csy = self.chunk_size.y as int;
                assert(((p.x as int) + chunk_shift_x) * csx == (p.x as int) * csx + (
                chunk_shift_x as int) * csx) by (nonlinear_arith);
                assert(((p.y as int) + chunk_shift_y) * csy == (p.y as int) * csy + (
                chunk_shift_y as int) * csy) by (nonlinear_arith);
            }
            let npx = p.x + chunk_shift_x;
            let npy = p.y + chunk_shift_y;
            Err(Tile { chunk_pos: IVec2 { x: npx, y: npy }, index })
        }
    }
}

} // verus!
