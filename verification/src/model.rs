//! The model: the chunk store, the editing interface, and the per-tick
//! pipeline tying resolution, execution, lazy bookkeeping and the view
//! diff together.

use vstd::prelude::*;

use crate::chunk::{
    area, chunks_wf, contains_pos, global_x, global_y, gpos_of, lemma_gpos_contains,
    lemma_gpos_of_unique, lemma_gpos_unique, lemma_index_of_xy, lemma_owner_unique,
    lemma_xy_of_index, near_cells, near_pos, pos_ok, size_ok, Chunk,
};
use crate::executor::{
    exec_pre, execute_moves, final_occ, lemma_inv_gives_exec_pre, occ_mat, world_count,
};
use crate::resolution::{
    calculate_movement, cant_move_at, inv, loc_ok, occ_at, Loc, MoveStep, Resolution,
};
use crate::tile::TileContent;
use crate::vec2::IVec2;
use crate::view::UpdateView;

verus! {

/// A configuration or position error, rejected at the API boundary before
/// anything reaches the resolver.
#[derive(Clone, Copy, Debug, PartialEq, Eq, Structural)]
pub enum ModelError {
    /// A global position no loaded chunk owns, or chunk geometry whose
    /// coordinate arithmetic would overflow.
    OutOfBounds,
}

/// The product of two values in `i32` range fits comfortably in `i64`.
proof fn lemma_i32_mul_fits_i64(a: int, b: int)
    requires
        -0x8000_0000 <= a <= 0x8000_0000,
        -0x8000_0000 <= b <= 0x8000_0000,
    ensures
        -0x4000_0000_0000_0000 <= a * b <= 0x4000_0000_0000_0000,
{
    assert(-0x4000_0000_0000_0000 <= a * b <= 0x4000_0000_0000_0000) by (nonlinear_arith)
        requires
            -0x8000_0000 <= a <= 0x8000_0000,
            -0x8000_0000 <= b <= 0x8000_0000,
    ;
}

/// Some loaded chunk sits at chunk coordinate `p`.
pub open spec fn has_chunk_at(chunks: Seq<Chunk>, p: IVec2) -> bool {
    exists|k: int| 0 <= k < chunks.len() && (#[trigger] chunks[k]).chunk_pos == p
}

/// The active flag of cell `l`.
pub open spec fn nu_at(chunks: Seq<Chunk>, l: Loc) -> bool {
    chunks[l.chunk as int].need_update@[l.index as int]
}

/// The neighborhood offset `(ex, ey)` has already been visited by a scan
/// that is at offset `(dx, dy)` of its row-major sweep over the 3x3 square.
pub open spec fn delta_done(ex: int, ey: int, dx: int, dy: int) -> bool {
    &&& -1 <= ex <= 1
    &&& -1 <= ey <= 1
    &&& (ex < dx || (ex == dx && ey < dy))
}

/// Cell `l` lies within the 3x3 neighborhood of an endpoint of some move
/// of `L` — that is, of a cell whose occupancy the tick changed.
pub open spec fn near_endpoint(chunks: Seq<Chunk>, L: Seq<MoveStep>, l: Loc) -> bool {
    exists|j: int|
        0 <= j < L.len() && (near_cells(chunks, (#[trigger] L[j]).src, l) || near_cells(
            chunks,
            L[j].dst,
            l,
        ))
}

/// The lazy bookkeeping pass, run after resolution and before execution:
/// a cell stays active only if it was active, is occupied, and was not
/// proven immovable; in particular every cant-move cell goes lazy, and
/// every active flag on an empty cell is dropped.
#[verifier::loop_isolation(false)]
fn apply_lazy(chunks: &mut Vec<Chunk>, r: &Resolution, Ghost(cs): Ghost<IVec2>)
    requires
        chunks_wf(old(chunks)@, cs),
        inv(old(chunks)@, *r),
    ensures
        chunks_wf(final(chunks)@, cs),
        final(chunks)@.len() == old(chunks)@.len(),
        forall|c: int|
            0 <= c < old(chunks)@.len() ==> {
                let a = #[trigger] final(chunks)@[c];
                let b = old(chunks)@[c];
                &&& a.chunk_pos == b.chunk_pos
                &&& a.chunk_size == b.chunk_size
                &&& a.cells == b.cells
                &&& a.need_update@.len() == b.need_update@.len()
            },
        forall|l: Loc|
            #![trigger nu_at(final(chunks)@, l)]
            loc_ok(old(chunks)@, l) ==> nu_at(final(chunks)@, l) == (nu_at(old(chunks)@, l)
                && occ_at(old(chunks)@, l) is Some && !cant_move_at(*r, l)),
{
    let n = chunks.len();
    let mut c: usize = 0;
    while c < n
        invariant
            c <= n,
            chunks@.len() == old(chunks)@.len(),
            chunks_wf(chunks@, cs),
            forall|c2: int|
                0 <= c2 < old(chunks)@.len() ==> {
                    let a = #[trigger] chunks@[c2];
                    let b = old(chunks)@[c2];
                    &&& a.chunk_pos == b.chunk_pos
                    &&& a.chunk_size == b.chunk_size
                    &&& a.cells == b.cells
                    &&& a.need_update@.len() == b.need_update@.len()
                },
            forall|l: Loc|
                #![trigger nu_at(chunks@, l)]
                loc_ok(old(chunks)@, l) && l.chunk < c ==> nu_at(chunks@, l) == (nu_at(
                    old(chunks)@,
                    l,
                ) && occ_at(old(chunks)@, l) is Some && !cant_move_at(*r, l)),
            forall|l: Loc|
                #![trigger nu_at(chunks@, l)]
                loc_ok(old(chunks)@, l) && l.chunk >= c ==> nu_at(chunks@, l) == nu_at(
                    old(chunks)@,
                    l,
                ),
        decreases n - c,
    {
        proof {
            assert(old(chunks)@[c as int].wf());
        }
        let m = chunks[c].need_update.len();
        let mut i: usize = 0;
        while i < m
            invariant
                i <= m,
                c < n,
                m == old(chunks)@[c as int].need_update@.len(),
                chunks@.len() == old(chunks)@.len(),
                chunks_wf(chunks@, cs),
                forall|c2: int|
                    0 <= c2 < old(chunks)@.len() ==> {
                        let a = #[trigger] chunks@[c2];
                        let b = old(chunks)@[c2];
                        &&& a.chunk_pos == b.chunk_pos
                        &&& a.chunk_size == b.chunk_size
                        &&& a.cells == b.cells
                        &&& a.need_update@.len() == b.need_update@.len()
                    },
                forall|l: Loc|
                    #![trigger nu_at(chunks@, l)]
                    loc_ok(old(chunks)@, l) && (l.chunk < c || (l.chunk == c && l.index < i))
                        ==> nu_at(chunks@, l) == (nu_at(old(chunks)@, l) && occ_at(
                        old(chunks)@,
                        l,
                    ) is Some && !cant_move_at(*r, l)),
                forall|l: Loc|
                    #![trigger nu_at(chunks@, l)]
                    loc_ok(old(chunks)@, l) && (l.chunk > c || (l.chunk == c && l.index >= i))
                        ==> nu_at(chunks@, l) == nu_at(old(chunks)@, l),
            decreases m - i,
        {
            let keep = chunks[c].need_update[i] && chunks[c].cells[i].is_some()
                && !r.calcs[c].cant_move[i];
            let ghost pre = chunks@;
            let ch = &mut chunks[c];
            ch.set_active(i, keep);
            proof {
                assert forall|l: Loc|
                    #![trigger nu_at(chunks@, l)]
                    loc_ok(old(chunks)@, l) && (l.chunk < c || (l.chunk == c && l.index < i
                        + 1)) implies nu_at(chunks@, l) == (nu_at(old(chunks)@, l) && occ_at(
                    old(chunks)@,
                    l,
                ) is Some && !cant_move_at(*r, l)) by {
                    if l.chunk != c {
                        assert(chunks@[l.chunk as int] == pre[l.chunk as int]);
                        assert(nu_at(chunks@, l) == nu_at(pre, l));
                        assert(nu_at(pre, l) == (nu_at(old(chunks)@, l) && occ_at(
                            old(chunks)@,
                            l,
                        ) is Some && !cant_move_at(*r, l)));
                    } else if l.index != i {
                        assert(nu_at(chunks@, l) == nu_at(pre, l));
                        if l.index < i {
                            assert(nu_at(pre, l) == (nu_at(old(chunks)@, l) && occ_at(
                                old(chunks)@,
                                l,
                            ) is Some && !cant_move_at(*r, l)));
                        }
                    } else {
                        assert(nu_at(chunks@, l) == keep);
                        assert(nu_at(pre, l) == nu_at(old(chunks)@, l));
                        assert(pre[l.chunk as int].cells == old(chunks)@[l.chunk as int].cells);
                        assert(occ_at(pre, l) == occ_at(old(chunks)@, l));
                    }
                }
                assert forall|l: Loc|
                    #![trigger nu_at(chunks@, l)]
                    loc_ok(old(chunks)@, l) && (l.chunk > c || (l.chunk == c && l.index >= i
                        + 1)) implies nu_at(chunks@, l) == nu_at(old(chunks)@, l) by {
                    if l.chunk != c {
                        assert(chunks@[l.chunk as int] == pre[l.chunk as int]);
                        assert(nu_at(chunks@, l) == nu_at(pre, l));
                    } else {
                        assert(nu_at(chunks@, l) == nu_at(pre, l));
                    }
                    assert(nu_at(pre, l) == nu_at(old(chunks)@, l));
                }
                assert forall|c2: int| 0 <= c2 < chunks@.len() implies (
                #[trigger] chunks@[c2]).wf() && chunks@[c2].chunk_size == cs by {
                    assert(pre[c2].wf());
                    if c2 != c {
                        assert(chunks@[c2] == pre[c2]);
                    }
                }
            }
            i = i + 1;
        }
        proof {
            assert forall|l: Loc|
                loc_ok(old(chunks)@, l) && l.chunk < c + 1 implies nu_at(chunks@, l) == (nu_at(
                old(chunks)@,
                l,
            ) && occ_at(old(chunks)@, l) is Some && !cant_move_at(*r, l)) by {
                if l.chunk == c {
                    assert(old(chunks)@[c as int].wf());
                    assert(l.index < m);
                }
            }
        }
        c = c + 1;
    }
    proof {
        assert forall|l: Loc| loc_ok(old(chunks)@, l) implies nu_at(chunks@, l) == (nu_at(
            old(chunks)@,
            l,
        ) && occ_at(old(chunks)@, l) is Some && !cant_move_at(*r, l)) by {
            assert(l.chunk < n);
        }
    }
}

/// Finds the cell a global position names, if a loaded chunk owns it.
#[verifier::loop_isolation(false)]
pub fn locate_cell(chunks: &Vec<Chunk>, Ghost(cs): Ghost<IVec2>, tile_pos: IVec2) -> (r: Option<
    Loc,
>)
    requires
        chunks_wf(chunks@, cs),
    ensures
        match r {
            Some(l) => {
                &&& loc_ok(chunks@, l)
                &&& contains_pos(chunks@[l.chunk as int], tile_pos)
                &&& global_x(chunks@[l.chunk as int].chunk_pos, cs, l.index as int) == tile_pos.x
                &&& global_y(chunks@[l.chunk as int].chunk_pos, cs, l.index as int) == tile_pos.y
            },
            None => forall|c: int|
                0 <= c < chunks@.len() ==> !contains_pos(#[trigger] chunks@[c], tile_pos),
        },
{
    let n = chunks.len();
    let mut c: usize = 0;
    while c < n
        invariant
            c <= n,
            forall|c2: int| 0 <= c2 < c ==> !contains_pos(#[trigger] chunks@[c2], tile_pos),
        decreases n - c,
    {
        let ch = &chunks[c];
        proof {
            assert(chunks@[c as int].wf());
            crate::chunk::lemma_base_fits(ch.chunk_pos, ch.chunk_size);
            assert(((ch.chunk_pos.x as int) + 1) * (ch.chunk_size.x as int) == (
            ch.chunk_pos.x as int) * (ch.chunk_size.x as int) + (ch.chunk_size.x as int))
                by (nonlinear_arith);
            assert(((ch.chunk_pos.y as int) + 1) * (ch.chunk_size.y as int) == (
            ch.chunk_pos.y as int) * (ch.chunk_size.y as int) + (ch.chunk_size.y as int))
                by (nonlinear_arith);
        }
        let base_x = ch.chunk_pos.x * ch.chunk_size.x;
        let base_y = ch.chunk_pos.y * ch.chunk_size.y;
        let limit_x = base_x + ch.chunk_size.x;
        let limit_y = base_y + ch.chunk_size.y;
        if tile_pos.x >= base_x && tile_pos.x < limit_x && tile_pos.y >= base_y && tile_pos.y
            < limit_y {
            let lx = tile_pos.x - base_x;
            let ly = tile_pos.y - base_y;
            proof {
                lemma_index_of_xy(ch.chunk_size, lx as int, ly as int);
            }
            let idx = crate::chunk::tile_position_to_index(IVec2 { x: lx, y: ly }, ch.chunk_size);
            return Some(Loc { chunk: c, index: idx });
        }
        c = c + 1;
    }
    None
}

/// The geometry of `anchor` (chunk count, coordinates, dimensions, cell
/// counts) matches that of `chunks`.
pub open spec fn same_geometry(anchor: Seq<Chunk>, chunks: Seq<Chunk>) -> bool {
    &&& anchor.len() == chunks.len()
    &&& forall|c: int|
        0 <= c < anchor.len() ==> (#[trigger] anchor[c]).chunk_pos == chunks[c].chunk_pos
            && anchor[c].chunk_size == chunks[c].chunk_size && anchor[c].cells@.len()
            == chunks[c].cells@.len()
}

/// Marks the cell at a global position and its whole 3x3 neighborhood
/// active, spanning chunk boundaries.  Active flags only grow; every flag
/// raised lies in that neighborhood; every loaded cell of the neighborhood
/// ends active.
#[verifier::loop_isolation(false)]
fn mark_around(chunks: &mut Vec<Chunk>, around: IVec2, Ghost(cs): Ghost<IVec2>, Ghost(anchor): Ghost<Seq<Chunk>>)
    requires
        chunks_wf(old(chunks)@, cs),
        i32::MIN < around.x < i32::MAX,
        i32::MIN < around.y < i32::MAX,
        same_geometry(anchor, old(chunks)@),
    ensures
        chunks_wf(final(chunks)@, cs),
        final(chunks)@.len() == old(chunks)@.len(),
        forall|c: int|
            0 <= c < old(chunks)@.len() ==> {
                let a = #[trigger] final(chunks)@[c];
                let b = old(chunks)@[c];
                &&& a.chunk_pos == b.chunk_pos
                &&& a.chunk_size == b.chunk_size
                &&& a.cells == b.cells
                &&& a.need_update@.len() == b.need_update@.len()
            },
        forall|l: Loc|
            #![trigger nu_at(final(chunks)@, l)]
            loc_ok(old(chunks)@, l) ==> {
                &&& (nu_at(old(chunks)@, l) ==> nu_at(final(chunks)@, l))
                &&& (nu_at(final(chunks)@, l) ==> nu_at(old(chunks)@, l) || near_pos(
                    anchor,
                    l,
                    around,
                ))
                &&& (near_pos(anchor, l, around) ==> nu_at(final(chunks)@, l))
            },
{
    let mut dx: i32 = -1;
    while dx <= 1
        invariant
            -1 <= dx <= 2,
            chunks@.len() == old(chunks)@.len(),
            chunks_wf(chunks@, cs),
            forall|c2: int|
                0 <= c2 < old(chunks)@.len() ==> {
                    let a = #[trigger] chunks@[c2];
                    let b = old(chunks)@[c2];
                    &&& a.chunk_pos == b.chunk_pos
                    &&& a.chunk_size == b.chunk_size
                    &&& a.cells == b.cells
                    &&& a.need_update@.len() == b.need_update@.len()
                },
            forall|l: Loc|
                #![trigger nu_at(chunks@, l)]
                loc_ok(old(chunks)@, l) ==> {
                    &&& (nu_at(old(chunks)@, l) ==> nu_at(chunks@, l))
                    &&& (nu_at(chunks@, l) ==> nu_at(old(chunks)@, l) || near_pos(
                        anchor,
                        l,
                        around,
                    ))
                    &&& (near_pos(anchor, l, around) && delta_done(
                        global_x(
                            anchor[l.chunk as int].chunk_pos,
                            anchor[l.chunk as int].chunk_size,
                            l.index as int,
                        ) - around.x,
                        global_y(
                            anchor[l.chunk as int].chunk_pos,
                            anchor[l.chunk as int].chunk_size,
                            l.index as int,
                        ) - around.y,
                        dx as int,
                        -1,
                    ) ==> nu_at(chunks@, l))
                },
        decreases 2 - dx,
    {
        let mut dy: i32 = -1;
        while dy <= 1
            invariant
                -1 <= dx <= 1,
                -1 <= dy <= 2,
                chunks@.len() == old(chunks)@.len(),
                chunks_wf(chunks@, cs),
                forall|c2: int|
                    0 <= c2 < old(chunks)@.len() ==> {
                        let a = #[trigger] chunks@[c2];
                        let b = old(chunks)@[c2];
                        &&& a.chunk_pos == b.chunk_pos
                        &&& a.chunk_size == b.chunk_size
                        &&& a.cells == b.cells
                        &&& a.need_update@.len() == b.need_update@.len()
                    },
                forall|l: Loc|
                    #![trigger nu_at(chunks@, l)]
                    loc_ok(old(chunks)@, l) ==> {
                        &&& (nu_at(old(chunks)@, l) ==> nu_at(chunks@, l))
                        &&& (nu_at(chunks@, l) ==> nu_at(old(chunks)@, l) || near_pos(
                            anchor,
                            l,
                            around,
                        ))
                        &&& (near_pos(anchor, l, around) && delta_done(
                            global_x(
                                anchor[l.chunk as int].chunk_pos,
                                anchor[l.chunk as int].chunk_size,
                                l.index as int,
                            ) - around.x,
                            global_y(
                                anchor[l.chunk as int].chunk_pos,
                                anchor[l.chunk as int].chunk_size,
                                l.index as int,
                            ) - around.y,
                            dx as int,
                            dy as int,
                        ) ==> nu_at(chunks@, l))
                    },
            decreases 2 - dy,
        {
            let npos = IVec2 { x: around.x + dx, y: around.y + dy };
            let found = locate_cell(chunks, Ghost(cs), npos);
            let ghost pre = chunks@;
            match found {
                Some(l2) => {
                    proof {
                        assert(chunks@[l2.chunk as int].wf());
                    }
                    let ch = &mut chunks[l2.chunk];
                    ch.set_active(l2.index, true);
                    proof {
                        assert forall|c2: int| 0 <= c2 < chunks@.len() implies (
                        #[trigger] chunks@[c2]).wf() && chunks@[c2].chunk_size == cs by {
                            assert(pre[c2].wf());
                            if c2 != l2.chunk {
                                assert(chunks@[c2] == pre[c2]);
                            }
                        }
                    }
                },
                None => {},
            }
            proof {
                assert forall|l: Loc|
                    #![trigger nu_at(chunks@, l)]
                    loc_ok(old(chunks)@, l) implies {
                    &&& (nu_at(old(chunks)@, l) ==> nu_at(chunks@, l))
                    &&& (nu_at(chunks@, l) ==> nu_at(old(chunks)@, l) || near_pos(
                        anchor,
                        l,
                        around,
                    ))
                    &&& (near_pos(anchor, l, around) && delta_done(
                        global_x(
                            anchor[l.chunk as int].chunk_pos,
                            anchor[l.chunk as int].chunk_size,
                            l.index as int,
                        ) - around.x,
                        global_y(
                            anchor[l.chunk as int].chunk_pos,
                            anchor[l.chunk as int].chunk_size,
                            l.index as int,
                        ) - around.y,
                        dx as int,
                        dy + 1,
                    ) ==> nu_at(chunks@, l))
                } by {
                    let gx = global_x(
                        anchor[l.chunk as int].chunk_pos,
                        anchor[l.chunk as int].chunk_size,
                        l.index as int,
                    );
                    let gy = global_y(
                        anchor[l.chunk as int].chunk_pos,
                        anchor[l.chunk as int].chunk_size,
                        l.index as int,
                    );
                    assert(anchor[l.chunk as int].chunk_pos == old(chunks)@[l.chunk
                        as int].chunk_pos);
                    assert(anchor[l.chunk as int].chunk_size == old(chunks)@[l.chunk
                        as int].chunk_size);
                    match found {
                        Some(l2) => {
                            assert(anchor[l2.chunk as int].chunk_pos == pre[l2.chunk
                                as int].chunk_pos);
                            assert(anchor[l2.chunk as int].chunk_size == pre[l2.chunk
                                as int].chunk_size);
                            if l == l2 {
                                assert(nu_at(chunks@, l));
                                assert(near_pos(anchor, l, around));
                            } else {
                                if l.chunk != l2.chunk {
                                    assert(chunks@[l.chunk as int] == pre[l.chunk as int]);
                                }
                                assert(nu_at(chunks@, l) == nu_at(pre, l));
                                if gx - around.x == dx && gy - around.y == dy {
                                    // the found cell is the unique cell at
                                    // this neighbor position
                                    lemma_gpos_unique(pre, cs, l, l2);
                                    assert(false);
                                }
                            }
                        },
                        None => {
                            assert(chunks@ == pre);
                            if gx - around.x == dx && gy - around.y == dy {
                                // no chunk owns this neighbor position, so
                                // no such cell exists
                                lemma_gpos_contains(pre, cs, l);
                                assert(contains_pos(pre[l.chunk as int], npos));
                                assert(false);
                            }
                        },
                    }
                }
            }
            dy = dy + 1;
        }
        dx = dx + 1;
    }
}

/// After moves execute, every cell in the 3x3 neighborhood of a vacated or
/// filled cell is forced active again, spanning chunk boundaries.  Active
/// flags only grow; every flag raised lies near some move endpoint; both
/// endpoints of every move end active.
#[verifier::loop_isolation(false)]
fn reactivate_moves(
    chunks: &mut Vec<Chunk>,
    moves: &Vec<MoveStep>,
    Ghost(cs): Ghost<IVec2>,
    Ghost(anchor): Ghost<Seq<Chunk>>,
)
    requires
        chunks_wf(old(chunks)@, cs),
        same_geometry(anchor, old(chunks)@),
        forall|j: int|
            0 <= j < moves@.len() ==> loc_ok(old(chunks)@, (#[trigger] moves@[j]).src) && loc_ok(
                old(chunks)@,
                moves@[j].dst,
            ),
    ensures
        chunks_wf(final(chunks)@, cs),
        final(chunks)@.len() == old(chunks)@.len(),
        forall|c: int|
            0 <= c < old(chunks)@.len() ==> {
                let a = #[trigger] final(chunks)@[c];
                let b = old(chunks)@[c];
                &&& a.chunk_pos == b.chunk_pos
                &&& a.chunk_size == b.chunk_size
                &&& a.cells == b.cells
                &&& a.need_update@.len() == b.need_update@.len()
            },
        forall|l: Loc|
            #![trigger nu_at(final(chunks)@, l)]
            loc_ok(old(chunks)@, l) ==> {
                &&& (nu_at(old(chunks)@, l) ==> nu_at(final(chunks)@, l))
                &&& (nu_at(final(chunks)@, l) ==> nu_at(old(chunks)@, l) || near_endpoint(
                    anchor,
                    moves@,
                    l,
                ))
                &&& (near_endpoint(anchor, moves@, l) ==> nu_at(final(chunks)@, l))
            },
        forall|j: int|
            0 <= j < moves@.len() ==> nu_at(final(chunks)@, (#[trigger] moves@[j]).src) && nu_at(
                final(chunks)@,
                moves@[j].dst,
            ),
{
    let n_moves = moves.len();
    let mut j: usize = 0;
    while j < n_moves
        invariant
            j <= n_moves,
            chunks@.len() == old(chunks)@.len(),
            chunks_wf(chunks@, cs),
            forall|c2: int|
                0 <= c2 < old(chunks)@.len() ==> {
                    let a = #[trigger] chunks@[c2];
                    let b = old(chunks)@[c2];
                    &&& a.chunk_pos == b.chunk_pos
                    &&& a.chunk_size == b.chunk_size
                    &&& a.cells == b.cells
                    &&& a.need_update@.len() == b.need_update@.len()
                },
            forall|l: Loc|
                #![trigger nu_at(chunks@, l)]
                loc_ok(old(chunks)@, l) ==> {
                    &&& (nu_at(old(chunks)@, l) ==> nu_at(chunks@, l))
                    &&& (nu_at(chunks@, l) ==> nu_at(old(chunks)@, l) || near_endpoint(
                        anchor,
                        moves@,
                        l,
                    ))
                },
            forall|j2: int|
                0 <= j2 < j ==> nu_at(chunks@, (#[trigger] moves@[j2]).src) && nu_at(
                    chunks@,
                    moves@[j2].dst,
                ),
            forall|l: Loc, j2: int|
                #![trigger nu_at(chunks@, l), moves@[j2]]
                loc_ok(old(chunks)@, l) && 0 <= j2 < j && (near_cells(anchor, moves@[j2].src, l)
                    || near_cells(anchor, moves@[j2].dst, l)) ==> nu_at(chunks@, l),
        decreases n_moves - j,
    {
        let mv = moves[j];
        proof {
            assert(chunks@[mv.src.chunk as int].wf());
            assert(chunks@[mv.dst.chunk as int].wf());
            crate::chunk::lemma_base_fits(chunks@[mv.src.chunk as int].chunk_pos, cs);
            crate::chunk::lemma_base_fits(chunks@[mv.dst.chunk as int].chunk_pos, cs);
            lemma_xy_of_index(cs, mv.src.index as int);
            lemma_xy_of_index(cs, mv.dst.index as int);
        }
        let g_src = chunks[mv.src.chunk].global_of_index(mv.src.index);
        let g_dst = chunks[mv.dst.chunk].global_of_index(mv.dst.index);
        let ghost pre = chunks@;
        mark_around(chunks, g_src, Ghost(cs), Ghost(anchor));
        proof {
            assert(anchor[mv.src.chunk as int].chunk_pos == pre[mv.src.chunk as int].chunk_pos);
            assert(anchor[mv.src.chunk as int].chunk_size == pre[mv.src.chunk as int].chunk_size);
            assert(nu_at(chunks@, mv.src));
        }
        let ghost pre2 = chunks@;
        mark_around(chunks, g_dst, Ghost(cs), Ghost(anchor));
        proof {
            assert(anchor[mv.dst.chunk as int].chunk_pos == pre2[mv.dst.chunk as int].chunk_pos);
            assert(anchor[mv.dst.chunk as int].chunk_size == pre2[mv.dst.chunk as int].chunk_size);
            assert(nu_at(chunks@, mv.dst));
            assert forall|l: Loc|
                #![trigger nu_at(chunks@, l)]
                loc_ok(old(chunks)@, l) implies {
                &&& (nu_at(old(chunks)@, l) ==> nu_at(chunks@, l))
                &&& (nu_at(chunks@, l) ==> nu_at(old(chunks)@, l) || near_endpoint(
                    anchor,
                    moves@,
                    l,
                ))
            } by {
                if nu_at(chunks@, l) && !nu_at(old(chunks)@, l) {
                    if nu_at(pre2, l) {
                        if nu_at(pre, l) {
                            assert(near_endpoint(anchor, moves@, l));
                        } else {
                            // raised while marking around the source
                            assert(near_pos(anchor, l, g_src));
                            assert(near_cells(anchor, mv.src, l));
                            assert(0 <= j < moves@.len() && (near_cells(
                                anchor,
                                moves@[j as int].src,
                                l,
                            ) || near_cells(anchor, moves@[j as int].dst, l)));
                        }
                    } else {
                        // raised while marking around the destination
                        assert(near_pos(anchor, l, g_dst));
                        assert(near_cells(anchor, mv.dst, l));
                        assert(0 <= j < moves@.len() && (near_cells(
                            anchor,
                            moves@[j as int].src,
                            l,
                        ) || near_cells(anchor, moves@[j as int].dst, l)));
                    }
                }
            }
            assert forall|j2: int|
                0 <= j2 < j + 1 implies nu_at(chunks@, (#[trigger] moves@[j2]).src) && nu_at(
                chunks@,
                moves@[j2].dst,
            ) by {
                if j2 < j {
                    assert(nu_at(pre, moves@[j2].src));
                    assert(nu_at(pre, moves@[j2].dst));
                    assert(nu_at(pre2, moves@[j2].src));
                    assert(nu_at(pre2, moves@[j2].dst));
                } else {
                    assert(nu_at(pre2, mv.src));
                }
            }
            assert forall|l: Loc, j2: int|
                #![trigger nu_at(chunks@, l), moves@[j2]]
                loc_ok(old(chunks)@, l) && 0 <= j2 < j + 1 && (near_cells(
                    anchor,
                    moves@[j2].src,
                    l,
                ) || near_cells(anchor, moves@[j2].dst, l)) implies nu_at(chunks@, l) by {
                if j2 < j {
                    assert(nu_at(pre, l));
                    assert(nu_at(pre2, l));
                } else {
                    if near_cells(anchor, mv.src, l) {
                        assert(near_pos(anchor, l, g_src));
                        assert(nu_at(pre2, l));
                    } else {
                        assert(near_pos(anchor, l, g_dst));
                    }
                }
            }
        }
        j = j + 1;
    }
}

/// How one tick relates the world before (`m0`) to the world after (`m1`),
/// through the tick's resolution `rr`:
/// the resolution is coherent and injective over the old occupancy; the
/// new occupancy is exactly the old with the committed moves applied in
/// commit order; a cell is active afterwards exactly as the lazy rule
/// allows — it stayed active only if it was active, occupied and not
/// proven immovable, or lies in the 3x3 neighborhood of a cell a move
/// vacated or filled; both ends of every move are active again; and the
/// view diff records both ends of every move.
pub open spec fn tick_rel(m0: Model, m1: Model, rr: Resolution) -> bool {
    &&& inv(m0.chunks@, rr)
    &&& m1.chunks@.len() == m0.chunks@.len()
    &&& forall|l: Loc| loc_ok(m0.chunks@, l) ==> !#[trigger] crate::resolution::unknown_at(rr, l)
    &&& forall|l: Loc|
        #![trigger nu_at(m0.chunks@, l)]
        loc_ok(m0.chunks@, l) && occ_at(m0.chunks@, l) is Some && nu_at(m0.chunks@, l)
            ==> crate::resolution::move_at(rr, l) is Some || cant_move_at(rr, l)
    &&& forall|l: Loc|
        #![trigger occ_at(m1.chunks@, l)]
        loc_ok(m0.chunks@, l) ==> occ_at(m1.chunks@, l) == final_occ(
            m0.chunks@,
            rr.committed@,
            l,
        )
    &&& forall|l: Loc|
        #![trigger nu_at(m1.chunks@, l)]
        loc_ok(m0.chunks@, l) ==> (nu_at(m1.chunks@, l) <==> ((nu_at(m0.chunks@, l) && occ_at(
            m0.chunks@,
            l,
        ) is Some && !cant_move_at(rr, l)) || near_endpoint(m0.chunks@, rr.committed@, l)))
    &&& forall|j: int|
        0 <= j < rr.committed@.len() ==> nu_at(m1.chunks@, (#[trigger] rr.committed@[j]).src)
            && nu_at(m1.chunks@, rr.committed@[j].dst)
    &&& forall|j: int|
        0 <= j < rr.committed@.len() ==> {
            let s = (#[trigger] rr.committed@[j]).src;
            let d = rr.committed@[j].dst;
            &&& crate::view::view_has(m1.update_view.entries@, gpos_of(m0.chunks@, s))
            &&& crate::view::view_has(m1.update_view.entries@, gpos_of(m0.chunks@, d))
            &&& crate::view::view_lookup(m1.update_view.entries@, gpos_of(m0.chunks@, s))
                == occ_at(m1.chunks@, s)
            &&& crate::view::view_lookup(m1.update_view.entries@, gpos_of(m0.chunks@, d))
                == occ_at(m1.chunks@, d)
        }
}

/// The world model: the chunk store plus the accumulated view diff.
pub struct Model {
    /// The shared chunk dimensions.
    pub chunk_size: IVec2,
    /// The loaded chunks; chunk coordinates are pairwise distinct.
    pub chunks: Vec<Chunk>,
    /// Occupancy changes not yet handed to the renderer.
    pub update_view: UpdateView,
}

impl Model {
    /// Well-formedness: a consistent chunk store and a well-formed diff.
    pub open spec fn wf(&self) -> bool {
        &&& chunks_wf(self.chunks@, self.chunk_size)
        &&& self.update_view.wf()
    }

    /// Creates a world of empty chunks covering the chunk-coordinate
    /// rectangle from `min_chunk` to `max_chunk` inclusive.  Rejects
    /// dimensions or coordinates whose cell positions would not fit `i32`.
    #[verifier::loop_isolation(false)]
    pub fn with_chunks(chunk_size: IVec2, min_chunk: IVec2, max_chunk: IVec2) -> (m: Result<
        Model,
        ModelError,
    >)
        requires
            min_chunk.x <= max_chunk.x,
            min_chunk.y <= max_chunk.y,
        ensures
            match m {
                Ok(model) => {
                    &&& model.wf()
                    &&& size_ok(chunk_size)
                    &&& model.chunk_size == chunk_size
                    &&& model.update_view.entries@.len() == 0
                    &&& forall|k: int|
                        0 <= k < model.chunks@.len() ==> {
                            let ch = #[trigger] model.chunks@[k];
                            &&& min_chunk.x <= ch.chunk_pos.x <= max_chunk.x
                            &&& min_chunk.y <= ch.chunk_pos.y <= max_chunk.y
                            &&& forall|i: int| 0 <= i < ch.cells@.len() ==> ch.cells@[i] is None
                            &&& forall|i: int|
                                0 <= i < ch.need_update@.len() ==> !ch.need_update@[i]
                        }
                    &&& forall|p: IVec2|
                        min_chunk.x <= p.x <= max_chunk.x && min_chunk.y <= p.y <= max_chunk.y
                            ==> #[trigger] has_chunk_at(model.chunks@, p)
                },
                Err(e) => {
                    &&& e == ModelError::OutOfBounds
                    &&& !(size_ok(chunk_size) && (forall|p: IVec2|
                        min_chunk.x <= p.x <= max_chunk.x && min_chunk.y <= p.y <= max_chunk.y
                            ==> #[trigger] pos_ok(p, chunk_size)))
                },
            },
    {
        proof {
            lemma_i32_mul_fits_i64(chunk_size.x as int, chunk_size.y as int);
        }
        if !(chunk_size.x > 0 && chunk_size.y > 0 && (chunk_size.x as i64) * (chunk_size.y as i64)
            <= i32::MAX as i64) {
            return Err(ModelError::OutOfBounds);
        }
        // the geometry bound is monotone in the chunk coordinate, so the
        // four extreme coordinates decide it for the whole rectangle
        let lo = i32::MIN as i64 + 1;
        let hi = i32::MAX as i64;
        let csx = chunk_size.x as i64;
        let csy = chunk_size.y as i64;
        proof {
            lemma_i32_mul_fits_i64(min_chunk.x as int, chunk_size.x as int);
            lemma_i32_mul_fits_i64((max_chunk.x as int) + 1, chunk_size.x as int);
            lemma_i32_mul_fits_i64(min_chunk.y as int, chunk_size.y as int);
            lemma_i32_mul_fits_i64((max_chunk.y as int) + 1, chunk_size.y as int);
        }
        if !((min_chunk.x as i64) * csx >= lo && ((max_chunk.x as i64) + 1) * csx <= hi && (
        min_chunk.y as i64) * csy >= lo && ((max_chunk.y as i64) + 1) * csy <= hi) {
            proof {
                if forall|p: IVec2|
                    min_chunk.x <= p.x <= max_chunk.x && min_chunk.y <= p.y <= max_chunk.y
                        ==> #[trigger] pos_ok(p, chunk_size) {
                    assert(pos_ok(IVec2 { x: min_chunk.x, y: min_chunk.y }, chunk_size));
                    assert(pos_ok(IVec2 { x: max_chunk.x, y: max_chunk.y }, chunk_size));
                    assert(false);
                }
            }
            return Err(ModelError::OutOfBounds);
        }
        proof {
            // every coordinate of the rectangle satisfies the bound
            assert forall|p: IVec2|
                min_chunk.x <= p.x <= max_chunk.x && min_chunk.y <= p.y <= max_chunk.y
                    implies #[trigger] pos_ok(p, chunk_size) by {
                assert((min_chunk.x as int) * (chunk_size.x as int) <= (p.x as int) * (
                chunk_size.x as int) && ((p.x as int) + 1) * (chunk_size.x as int) <= ((
                max_chunk.x as int) + 1) * (chunk_size.x as int)) by (nonlinear_arith)
                    requires
                        0 < chunk_size.x,
                        min_chunk.x <= p.x <= max_chunk.x,
                ;
                assert((min_chunk.y as int) * (chunk_size.y as int) <= (p.y as int) * (
                chunk_size.y as int) && ((p.y as int) + 1) * (chunk_size.y as int) <= ((
                max_chunk.y as int) + 1) * (chunk_size.y as int)) by (nonlinear_arith)
                    requires
                        0 < chunk_size.y,
                        min_chunk.y <= p.y <= max_chunk.y,
                ;
            }
        }
        proof {
            assert((max_chunk.x as int) + 1 <= i32::MAX && (max_chunk.y as int) + 1 <= i32::MAX)
                by (nonlinear_arith)
                requires
                    0 < chunk_size.x,
                    0 < chunk_size.y,
                    ((max_chunk.x as int) + 1) * (chunk_size.x as int) <= i32::MAX,
                    ((max_chunk.y as int) + 1) * (chunk_size.y as int) <= i32::MAX,
            ;
        }
        let mut chunks: Vec<Chunk> = Vec::new();
        let mut x: i32 = min_chunk.x;
        while x <= max_chunk.x
            invariant
                min_chunk.x <= x <= max_chunk.x + 1,
                forall|k: int|
                    0 <= k < chunks@.len() ==> {
                        let ch = #[trigger] chunks@[k];
                        &&& ch.wf()
                        &&& ch.chunk_size == chunk_size
                        &&& min_chunk.x <= ch.chunk_pos.x < x
                        &&& min_chunk.y <= ch.chunk_pos.y <= max_chunk.y
                        &&& forall|i: int| 0 <= i < ch.cells@.len() ==> ch.cells@[i] is None
                        &&& forall|i: int| 0 <= i < ch.need_update@.len() ==> !ch.need_update@[i]
                    },
                forall|k1: int, k2: int|
                    0 <= k1 < k2 < chunks@.len() ==> (#[trigger] chunks@[k1]).chunk_pos != (
                    #[trigger] chunks@[k2]).chunk_pos,
                forall|p: IVec2|
                    min_chunk.x <= p.x < x && min_chunk.y <= p.y <= max_chunk.y
                        ==> #[trigger] has_chunk_at(chunks@, p),
            decreases max_chunk.x + 1 - x,
        {
            let mut y: i32 = min_chunk.y;
            while y <= max_chunk.y
                invariant
                    min_chunk.x <= x <= max_chunk.x,
                    min_chunk.y <= y <= max_chunk.y + 1,
                    forall|k: int|
                        0 <= k < chunks@.len() ==> {
                            let ch = #[trigger] chunks@[k];
                            &&& ch.wf()
                            &&& ch.chunk_size == chunk_size
                            &&& min_chunk.x <= ch.chunk_pos.x <= x
                            &&& min_chunk.y <= ch.chunk_pos.y <= max_chunk.y
                            &&& (ch.chunk_pos.x == x ==> ch.chunk_pos.y < y)
                            &&& forall|i: int| 0 <= i < ch.cells@.len() ==> ch.cells@[i] is None
                            &&& forall|i: int|
                                0 <= i < ch.need_update@.len() ==> !ch.need_update@[i]
                        },
                    forall|k1: int, k2: int|
                        0 <= k1 < k2 < chunks@.len() ==> (#[trigger] chunks@[k1]).chunk_pos != (
                        #[trigger] chunks@[k2]).chunk_pos,
                    forall|p: IVec2|
                        (min_chunk.x <= p.x < x && min_chunk.y <= p.y <= max_chunk.y) || (p.x == x
                            && min_chunk.y <= p.y < y) ==> #[trigger] has_chunk_at(chunks@, p),
                decreases max_chunk.y + 1 - y,
            {
                let pos = IVec2 { x, y };
                let ghost pre = chunks@;
                chunks.push(Chunk::empty(pos, chunk_size));
                proof {
                    assert(chunks@[chunks@.len() - 1].chunk_pos == pos);
                    assert forall|p: IVec2|
                        (min_chunk.x <= p.x < x && min_chunk.y <= p.y <= max_chunk.y) || (p.x == x
                            && min_chunk.y <= p.y < y + 1) implies #[trigger] has_chunk_at(
                        chunks@,
                        p,
                    ) by {
                        if p == pos {
                            assert(chunks@[chunks@.len() - 1].chunk_pos == p);
                        } else {
                            assert(has_chunk_at(pre, p));
                            let k = choose|k: int|
                                0 <= k < pre.len() && (#[trigger] pre[k]).chunk_pos == p;
                            assert(chunks@[k].chunk_pos == p);
                        }
                    }
                }
                y = y + 1;
            }
            x = x + 1;
        }
        Ok(Model { chunk_size, chunks, update_view: UpdateView::new() })
    }

    /// Creates the default world: a square of chunks around the origin.
    pub fn new() -> (m: Model)
        ensures
            m.wf(),
            m.chunk_size == (IVec2 { x: 25i32, y: 25i32 }),
            forall|k: int|
                0 <= k < m.chunks@.len() ==> {
                    let ch = #[trigger] m.chunks@[k];
                    &&& forall|i: int| 0 <= i < ch.cells@.len() ==> ch.cells@[i] is None
                    &&& forall|i: int| 0 <= i < ch.need_update@.len() ==> !ch.need_update@[i]
                },
    {
        let r = Model::with_chunks(
            IVec2 { x: 25, y: 25 },
            IVec2 { x: -5, y: -5 },
            IVec2 { x: 5, y: 5 },
        );
        r.unwrap()
    }

    /// Finds the cell a global position names, if a loaded chunk owns it.
    pub fn locate(&self, tile_pos: IVec2) -> (r: Option<Loc>)
        requires
            self.wf(),
        ensures
            match r {
                Some(l) => {
                    &&& loc_ok(self.chunks@, l)
                    &&& contains_pos(self.chunks@[l.chunk as int], tile_pos)
                    &&& global_x(
                        self.chunks@[l.chunk as int].chunk_pos,
                        self.chunk_size,
                        l.index as int,
                    ) == tile_pos.x
                    &&& global_y(
                        self.chunks@[l.chunk as int].chunk_pos,
                        self.chunk_size,
                        l.index as int,
                    ) == tile_pos.y
                },
                None => forall|c: int|
                    0 <= c < self.chunks@.len() ==> !contains_pos(
                        #[trigger] self.chunks@[c],
                        tile_pos,
                    ),
            },
    {
        locate_cell(&self.chunks, Ghost(self.chunk_size), tile_pos)
    }

    /// Hands the accumulated view diff to the renderer, leaving an empty
    /// one behind.
    pub fn get_update_view(&mut self) -> (v: UpdateView)
        requires
            old(self).wf(),
        ensures
            final(self).wf(),
            v == old(self).update_view,
            final(self).update_view.entries@.len() == 0,
            final(self).chunks == old(self).chunks,
            final(self).chunk_size == old(self).chunk_size,
    {
        let mut v = UpdateView::new();
        core::mem::swap(&mut v, &mut self.update_view);
        v
    }

    /// Marks the global position and its whole 3x3 neighborhood active,
    /// so the next tick re-evaluates them.  Cells of unloaded chunks are
    /// skipped.
    fn update_tiles(&mut self, position: IVec2, Ghost(anchor): Ghost<Seq<Chunk>>)
        requires
            old(self).wf(),
            i32::MIN < position.x < i32::MAX,
            i32::MIN < position.y < i32::MAX,
            same_geometry(anchor, old(self).chunks@),
        ensures
            final(self).wf(),
            final(self).chunk_size == old(self).chunk_size,
            final(self).update_view == old(self).update_view,
            final(self).chunks@.len() == old(self).chunks@.len(),
            forall|c: int|
                0 <= c < old(self).chunks@.len() ==> {
                    let a = #[trigger] final(self).chunks@[c];
                    let b = old(self).chunks@[c];
                    &&& a.chunk_pos == b.chunk_pos
                    &&& a.chunk_size == b.chunk_size
                    &&& a.cells == b.cells
                    &&& a.need_update@.len() == b.need_update@.len()
                },
            forall|l: Loc|
                #![trigger nu_at(final(self).chunks@, l)]
                loc_ok(old(self).chunks@, l) ==> {
                    &&& (nu_at(old(self).chunks@, l) ==> nu_at(final(self).chunks@, l))
                    &&& (nu_at(final(self).chunks@, l) ==> nu_at(old(self).chunks@, l)
                        || near_pos(anchor, l, position))
                    &&& (near_pos(anchor, l, position) ==> nu_at(final(self).chunks@, l))
                },
    {
        let cs = self.chunk_size;
        mark_around(&mut self.chunks, position, Ghost(cs), Ghost(anchor));
    }


    /// Resolves this tick's movement over the whole world: the local pass
    /// per chunk, then the cross-chunk pass.  Occupancy is untouched; the
    /// result's commit list is injective and coherent with the cell state.
    pub fn calc_movement(&self) -> (r: Resolution)
        requires
            self.wf(),
        ensures
            inv(self.chunks@, r),
            forall|l: Loc|
                loc_ok(self.chunks@, l) ==> !#[trigger] crate::resolution::unknown_at(r, l),
            forall|l: Loc|
                loc_ok(self.chunks@, l) && #[trigger] crate::resolution::checked_at(r, l)
                    ==> crate::resolution::move_at(r, l) is Some || cant_move_at(r, l),
            forall|l: Loc|
                loc_ok(self.chunks@, l) && #[trigger] occ_at(self.chunks@, l) is Some
                    && nu_at(self.chunks@, l) ==> crate::resolution::checked_at(r, l),
    {
        calculate_movement(&self.chunks, Ghost(self.chunk_size))
    }

    /// Executes a finalized commit-order move list against this world's
    /// occupancy, as produced by [`Model::calc_movement`] (see
    /// [`crate::executor::exec_pre`] on why the list is taken in commit
    /// order).  Every destination is found empty at its turn, every
    /// source's tile is relocated, and the tile count is conserved.
    pub fn movement(&mut self, moves: &Vec<MoveStep>)
        requires
            old(self).wf(),
            exec_pre(old(self).chunks@, moves@),
        ensures
            final(self).wf(),
            final(self).chunk_size == old(self).chunk_size,
            final(self).update_view == old(self).update_view,
            final(self).chunks@.len() == old(self).chunks@.len(),
            forall|l: Loc|
                loc_ok(old(self).chunks@, l) ==> occ_at(final(self).chunks@, l) == final_occ(
                    old(self).chunks@,
                    moves@,
                    l,
                ),
            world_count(final(self).chunks@) == world_count(old(self).chunks@),
    {
        let cs = self.chunk_size;
        execute_moves(&mut self.chunks, moves, Ghost(cs));
    }

    /// Advances the simulation by one tick: resolve every chunk locally,
    /// resolve deferred cells across chunk boundaries, apply the lazy
    /// bookkeeping, execute the committed moves, reactivate the
    /// neighborhoods of every changed cell, and record both ends of every
    /// move in the view diff.  The total number of occupied cells is
    /// conserved, and the whole tick is related to its resolution by
    /// [`tick_rel`].
    #[verifier::loop_isolation(false)]
    pub fn tick(&mut self)
        requires
            old(self).wf(),
        ensures
            final(self).wf(),
            final(self).chunk_size == old(self).chunk_size,
            final(self).chunks@.len() == old(self).chunks@.len(),
            world_count(final(self).chunks@) == world_count(old(self).chunks@),
            exists|rr: Resolution| #[trigger] tick_rel(*old(self), *final(self), rr),
    {
        let ghost m0 = *self;
        let cs = self.chunk_size;
        let resolution = calculate_movement(&self.chunks, Ghost(cs));
        proof {
            lemma_inv_gives_exec_pre(self.chunks@, resolution);
        }
        apply_lazy(&mut self.chunks, &resolution, Ghost(cs));
        let ghost post_lazy = self.chunks@;
        proof {
            crate::executor::lemma_exec_pre_frame(
                m0.chunks@,
                self.chunks@,
                resolution.committed@,
            );
        }
        execute_moves(&mut self.chunks, &resolution.committed, Ghost(cs));
        let ghost post_exec = self.chunks@;
        proof {
            assert(same_geometry(m0.chunks@, self.chunks@));
            assert forall|j: int| 0 <= j < resolution.committed@.len() implies loc_ok(
                self.chunks@,
                (#[trigger] resolution.committed@[j]).src,
            ) && loc_ok(self.chunks@, resolution.committed@[j].dst) by {
                assert(crate::resolution::entry_ok(m0.chunks@, resolution, j));
            }
        }
        reactivate_moves(&mut self.chunks, &resolution.committed, Ghost(cs), Ghost(m0.chunks@));
        let ghost post_react = self.chunks@;
        // record the final occupancy of both ends of every move
        let n_moves = resolution.committed.len();
        let mut j: usize = 0;
        while j < n_moves
            invariant
                j <= n_moves,
                n_moves == resolution.committed@.len(),
                self.chunks@ == post_react,
                self.wf(),
                self.chunk_size == cs,
                same_geometry(m0.chunks@, self.chunks@),
                forall|j2: int|
                    0 <= j2 < n_moves ==> loc_ok(
                        self.chunks@,
                        (#[trigger] resolution.committed@[j2]).src,
                    ) && loc_ok(self.chunks@, resolution.committed@[j2].dst),
                forall|j2: int|
                    0 <= j2 < j ==> {
                        let s = (#[trigger] resolution.committed@[j2]).src;
                        let d = resolution.committed@[j2].dst;
                        &&& crate::view::view_has(
                            self.update_view.entries@,
                            gpos_of(m0.chunks@, s),
                        )
                        &&& crate::view::view_has(
                            self.update_view.entries@,
                            gpos_of(m0.chunks@, d),
                        )
                        &&& crate::view::view_lookup(
                            self.update_view.entries@,
                            gpos_of(m0.chunks@, s),
                        ) == occ_at(post_react, s)
                        &&& crate::view::view_lookup(
                            self.update_view.entries@,
                            gpos_of(m0.chunks@, d),
                        ) == occ_at(post_react, d)
                    },
            decreases n_moves - j,
        {
            let mv = resolution.committed[j];
            proof {
                assert(self.chunks@[mv.src.chunk as int].wf());
                assert(self.chunks@[mv.dst.chunk as int].wf());
            }
            let g_src = self.chunks[mv.src.chunk].global_of_index(mv.src.index);
            let v_src = self.chunks[mv.src.chunk].get_tile(mv.src.index);
            proof {
                assert(g_src == gpos_of(m0.chunks@, mv.src));
            }
            proof {
                assert(v_src == occ_at(post_react, mv.src));
            }
            let ghost view_pre = self.update_view.entries@;
            self.update_view.update_tile(g_src, v_src);
            proof {
                assert forall|j2: int| 0 <= j2 < j implies {
                    let s = (#[trigger] resolution.committed@[j2]).src;
                    let d = resolution.committed@[j2].dst;
                    &&& crate::view::view_has(self.update_view.entries@, gpos_of(m0.chunks@, s))
                    &&& crate::view::view_has(self.update_view.entries@, gpos_of(m0.chunks@, d))
                    &&& crate::view::view_lookup(self.update_view.entries@, gpos_of(m0.chunks@, s))
                        == occ_at(post_react, s)
                    &&& crate::view::view_lookup(self.update_view.entries@, gpos_of(m0.chunks@, d))
                        == occ_at(post_react, d)
                } by {
                    let s = resolution.committed@[j2].src;
                    let d = resolution.committed@[j2].dst;
                    assert(crate::view::view_has(view_pre, gpos_of(m0.chunks@, s)));
                    assert(crate::view::view_has(view_pre, gpos_of(m0.chunks@, d)));
                    assert(loc_ok(m0.chunks@, s));
                    assert(loc_ok(m0.chunks@, d));
                    assert(loc_ok(m0.chunks@, mv.src));
                    if gpos_of(m0.chunks@, s) == g_src {
                        lemma_gpos_of_unique(m0.chunks@, cs, s, mv.src);
                        assert(occ_at(post_react, s) == v_src);
                    }
                    if gpos_of(m0.chunks@, d) == g_src {
                        lemma_gpos_of_unique(m0.chunks@, cs, d, mv.src);
                        assert(occ_at(post_react, d) == v_src);
                    }
                }
            }
            let g_dst = self.chunks[mv.dst.chunk].global_of_index(mv.dst.index);
            let v_dst = self.chunks[mv.dst.chunk].get_tile(mv.dst.index);
            proof {
                assert(g_dst == gpos_of(m0.chunks@, mv.dst));
            }
            proof {
                assert(v_dst == occ_at(post_react, mv.dst));
            }
            let ghost view_pre2 = self.update_view.entries@;
            self.update_view.update_tile(g_dst, v_dst);
            proof {
                assert forall|j2: int| 0 <= j2 < j + 1 implies {
                    let s = (#[trigger] resolution.committed@[j2]).src;
                    let d = resolution.committed@[j2].dst;
                    &&& crate::view::view_has(self.update_view.entries@, gpos_of(m0.chunks@, s))
                    &&& crate::view::view_has(self.update_view.entries@, gpos_of(m0.chunks@, d))
                    &&& crate::view::view_lookup(self.update_view.entries@, gpos_of(m0.chunks@, s))
                        == occ_at(post_react, s)
                    &&& crate::view::view_lookup(self.update_view.entries@, gpos_of(m0.chunks@, d))
                        == occ_at(post_react, d)
                } by {
                    let s = resolution.committed@[j2].src;
                    let d = resolution.committed@[j2].dst;
                    assert(loc_ok(m0.chunks@, s));
                    assert(loc_ok(m0.chunks@, d));
                    assert(loc_ok(m0.chunks@, mv.dst));
                    if j2 < j {
                        assert(crate::view::view_has(view_pre2, gpos_of(m0.chunks@, s)));
                        assert(crate::view::view_has(view_pre2, gpos_of(m0.chunks@, d)));
                        assert(crate::view::view_lookup(view_pre2, gpos_of(m0.chunks@, s))
                            == occ_at(post_react, s));
                        assert(crate::view::view_lookup(view_pre2, gpos_of(m0.chunks@, d))
                            == occ_at(post_react, d));
                    } else {
                        assert(crate::view::view_has(view_pre2, gpos_of(m0.chunks@, s)));
                        assert(crate::view::view_lookup(view_pre2, gpos_of(m0.chunks@, s))
                            == occ_at(post_react, s));
                    }
                    if gpos_of(m0.chunks@, s) == g_dst {
                        lemma_gpos_of_unique(m0.chunks@, cs, s, mv.dst);
                        assert(occ_at(post_react, s) == v_dst);
                    }
                    if gpos_of(m0.chunks@, d) == g_dst {
                        lemma_gpos_of_unique(m0.chunks@, cs, d, mv.dst);
                        assert(occ_at(post_react, d) == v_dst);
                    }
                }
            }
            j = j + 1;
        }
        proof {
            // occupancy follows the schedule of the committed moves
            assert(occ_mat(post_lazy) =~= occ_mat(m0.chunks@));
            assert(occ_mat(self.chunks@) =~= occ_mat(post_exec));
            assert(world_count(self.chunks@) == world_count(m0.chunks@));
            assert forall|l: Loc|
                #![trigger occ_at(self.chunks@, l)]
                loc_ok(m0.chunks@, l) implies occ_at(self.chunks@, l)
                == final_occ(m0.chunks@, resolution.committed@, l) by {
                assert(occ_at(self.chunks@, l) == occ_at(post_exec, l)) by {
                    assert(self.chunks@[l.chunk as int].cells == post_exec[l.chunk
                        as int].cells);
                }
                assert(occ_at(post_exec, l) == final_occ(post_lazy, resolution.committed@, l));
                assert forall|j2: int| 0 <= j2 < resolution.committed@.len() implies loc_ok(
                    post_lazy,
                    (#[trigger] resolution.committed@[j2]).src,
                ) && loc_ok(post_lazy, resolution.committed@[j2].dst) by {
                    assert(crate::resolution::entry_ok(m0.chunks@, resolution, j2));
                }
                crate::executor::lemma_step_occ_frame(
                    post_lazy,
                    m0.chunks@,
                    resolution.committed@,
                    resolution.committed@.len() as int,
                    l,
                );
            }
            // the active flags follow the lazy rule plus reactivation
            assert forall|l: Loc|
                #![trigger nu_at(self.chunks@, l)]
                loc_ok(m0.chunks@, l) implies (nu_at(self.chunks@, l) <==> ((nu_at(m0.chunks@, l)
                && occ_at(m0.chunks@, l) is Some && !cant_move_at(resolution, l)) || near_endpoint(
                m0.chunks@,
                resolution.committed@,
                l,
            ))) by {
                assert(nu_at(post_lazy, l) == (nu_at(m0.chunks@, l) && occ_at(
                    m0.chunks@,
                    l,
                ) is Some && !cant_move_at(resolution, l)));
                assert(nu_at(post_exec, l) == nu_at(post_lazy, l)) by {
                    assert(post_exec[l.chunk as int].need_update == post_lazy[l.chunk
                        as int].need_update);
                }
            }
            assert(tick_rel(m0, *self, resolution));
        }
    }

    /// Edits one global cell: sets or clears its material, records the
    /// change in the view diff, and marks the 3x3 neighborhood active so
    /// the next tick re-evaluates it.  A position no loaded chunk owns is
    /// rejected.
    pub fn change_tile(&mut self, tile_pos: IVec2, tile: Option<TileContent>) -> (res: Result<
        (),
        ModelError,
    >)
        requires
            old(self).wf(),
        ensures
            final(self).wf(),
            final(self).chunk_size == old(self).chunk_size,
            final(self).chunks@.len() == old(self).chunks@.len(),
            match res {
                Ok(u) => {
                    &&& exists|l: Loc|
                        {
                            &&& #[trigger] loc_ok(old(self).chunks@, l)
                            &&& contains_pos(old(self).chunks@[l.chunk as int], tile_pos)
                            &&& global_x(
                                old(self).chunks@[l.chunk as int].chunk_pos,
                                old(self).chunk_size,
                                l.index as int,
                            ) == tile_pos.x
                            &&& global_y(
                                old(self).chunks@[l.chunk as int].chunk_pos,
                                old(self).chunk_size,
                                l.index as int,
                            ) == tile_pos.y
                            &&& occ_at(final(self).chunks@, l) == tile
                            &&& forall|l2: Loc|
                                loc_ok(old(self).chunks@, l2) && l2 != l ==> occ_at(
                                    final(self).chunks@,
                                    l2,
                                ) == occ_at(old(self).chunks@, l2)
                        }
                    &&& crate::view::view_has(final(self).update_view.entries@, tile_pos)
                    &&& crate::view::view_lookup(final(self).update_view.entries@, tile_pos)
                        == tile
                    &&& forall|l: Loc|
                        loc_ok(old(self).chunks@, l) && near_pos(old(self).chunks@, l, tile_pos)
                            ==> nu_at(final(self).chunks@, l)
                    &&& forall|l: Loc|
                        loc_ok(old(self).chunks@, l) && #[trigger] nu_at(final(self).chunks@, l)
                            ==> nu_at(old(self).chunks@, l) || near_pos(
                            old(self).chunks@,
                            l,
                            tile_pos,
                        )
                },
                Err(e) => {
                    &&& e == ModelError::OutOfBounds
                    &&& forall|c: int|
                        0 <= c < old(self).chunks@.len() ==> !contains_pos(
                            #[trigger] old(self).chunks@[c],
                            tile_pos,
                        )
                    &&& *final(self) == *old(self)
                },
            },
    {
        let l_opt = self.locate(tile_pos);
        match l_opt {
            None => Err(ModelError::OutOfBounds),
            Some(l) => {
                self.update_view.update_tile(tile_pos, tile);
                proof {
                    assert(self.chunks@[l.chunk as int].wf());
                    crate::chunk::lemma_base_fits(
                        self.chunks@[l.chunk as int].chunk_pos,
                        self.chunk_size,
                    );
                    let p = self.chunks@[l.chunk as int].chunk_pos;
                    let cs = self.chunk_size;
                    assert(((p.x as int) + 1) * (cs.x as int) == (p.x as int) * (cs.x as int) + (
                    cs.x as int)) by (nonlinear_arith);
                    assert(((p.y as int) + 1) * (cs.y as int) == (p.y as int) * (cs.y as int) + (
                    cs.y as int)) by (nonlinear_arith);
                }
                let ghost mid0 = self.chunks@;
                let ch = &mut self.chunks[l.chunk];
                match tile {
                    Some(t) => {
                        ch.set_tile(l.index, t);
                    },
                    None => {
                        ch.remove_tile(l.index);
                    },
                }
                proof {
                    assert forall|c: int| 0 <= c < self.chunks@.len() implies (
                    #[trigger] self.chunks@[c]).wf() && self.chunks@[c].chunk_size
                        == self.chunk_size by {
                        assert(mid0[c].wf());
                        if c != l.chunk {
                            assert(self.chunks@[c] == mid0[c]);
                        }
                    }
                    assert(self.wf());
                    assert(occ_at(self.chunks@, l) == tile);
                }
                let ghost anchor = self.chunks@;
                self.update_tiles(tile_pos, Ghost(anchor));
                proof {
                    assert forall|l2: Loc|
                        loc_ok(old(self).chunks@, l2) && near_pos(
                            old(self).chunks@,
                            l2,
                            tile_pos,
                        ) implies nu_at(self.chunks@, l2) by {
                        if l2.chunk != l.chunk {
                            assert(anchor[l2.chunk as int] == mid0[l2.chunk as int]);
                        }
                        assert(anchor[l2.chunk as int].chunk_pos == old(self).chunks@[l2.chunk
                            as int].chunk_pos);
                        assert(anchor[l2.chunk as int].chunk_size == old(self).chunks@[l2.chunk
                            as int].chunk_size);
                        assert(near_pos(anchor, l2, tile_pos));
                    }
                    assert(occ_at(self.chunks@, l) == tile);
                    assert(loc_ok(old(self).chunks@, l));
                    assert(contains_pos(old(self).chunks@[l.chunk as int], tile_pos));
                    // every flag this edit raised lies in the 3x3 square:
                    // the edited cell itself (its position is tile_pos) and
                    // the neighborhood pass
                    assert forall|l2: Loc|
                        loc_ok(old(self).chunks@, l2) && #[trigger] nu_at(self.chunks@, l2)
                            implies nu_at(old(self).chunks@, l2) || near_pos(
                            old(self).chunks@,
                            l2,
                            tile_pos,
                        ) by {
                        assert(anchor[l2.chunk as int].chunk_pos == old(self).chunks@[l2.chunk
                            as int].chunk_pos);
                        assert(anchor[l2.chunk as int].chunk_size == old(self).chunks@[l2.chunk
                            as int].chunk_size);
                        if !nu_at(anchor, l2) {
                            assert(near_pos(anchor, l2, tile_pos));
                        } else {
                            if l2 == l {
                                assert(near_pos(old(self).chunks@, l2, tile_pos));
                            } else {
                                if l2.chunk != l.chunk {
                                    assert(anchor[l2.chunk as int] == mid0[l2.chunk as int]);
                                }
                                assert(nu_at(anchor, l2) == nu_at(mid0, l2));
                                assert(nu_at(mid0, l2) == nu_at(old(self).chunks@, l2));
                            }
                        }
                    }
                    assert forall|l2: Loc| loc_ok(old(self).chunks@, l2) && l2 != l implies occ_at(
                        self.chunks@,
                        l2,
                    ) == occ_at(old(self).chunks@, l2) by {
                        assert(self.chunks@[l2.chunk as int].cells == anchor[l2.chunk as int].cells);
                        if l2.chunk != l.chunk {
                            assert(anchor[l2.chunk as int] == mid0[l2.chunk as int]);
                        }
                    }
                }
                Ok(())
            },
        }
    }

    /// The material at a global position, `None` if the cell is empty or
    /// unloaded.
    pub fn get_tile(&self, tile_pos: IVec2) -> (r: Option<TileContent>)
        requires
            self.wf(),
        ensures
            match r {
                Some(t) => exists|l: Loc|
                    {
                        &&& #[trigger] loc_ok(self.chunks@, l)
                        &&& contains_pos(self.chunks@[l.chunk as int], tile_pos)
                        &&& occ_at(self.chunks@, l) == Some(t)
                        &&& global_x(
                            self.chunks@[l.chunk as int].chunk_pos,
                            self.chunk_size,
                            l.index as int,
                        ) == tile_pos.x
                        &&& global_y(
                            self.chunks@[l.chunk as int].chunk_pos,
                            self.chunk_size,
                            l.index as int,
                        ) == tile_pos.y
                    },
                None => forall|l: Loc|
                    loc_ok(self.chunks@, l) && global_x(
                        self.chunks@[l.chunk as int].chunk_pos,
                        self.chunk_size,
                        l.index as int,
                    ) == tile_pos.x && global_y(
                        self.chunks@[l.chunk as int].chunk_pos,
                        self.chunk_size,
                        l.index as int,
                    ) == tile_pos.y ==> #[trigger] occ_at(self.chunks@, l) is None,
            },
    {
        let found = self.locate(tile_pos);
        match found {
            Some(l) => {
                proof {
                    assert(self.chunks@[l.chunk as int].wf());
                }
                let r = self.chunks[l.chunk].get_tile(l.index);
                proof {
                    if r is Some {
                        assert(loc_ok(self.chunks@, l) && occ_at(self.chunks@, l) == r);
                    } else {
                        // the located cell is the only cell at this
                        // position, and it is empty
                        assert forall|l2: Loc|
                            loc_ok(self.chunks@, l2) && global_x(
                                self.chunks@[l2.chunk as int].chunk_pos,
                                self.chunk_size,
                                l2.index as int,
                            ) == tile_pos.x && global_y(
                                self.chunks@[l2.chunk as int].chunk_pos,
                                self.chunk_size,
                                l2.index as int,
                            ) == tile_pos.y implies #[trigger] occ_at(
                            self.chunks@,
                            l2,
                        ) is None by {
                            lemma_gpos_unique(self.chunks@, self.chunk_size, l2, l);
                        }
                    }
                }
                r
            },
            None => {
                proof {
                    // no loaded chunk owns the position, so no loaded cell
                    // sits there
                    assert forall|l2: Loc|
                        loc_ok(self.chunks@, l2) && global_x(
                            self.chunks@[l2.chunk as int].chunk_pos,
                            self.chunk_size,
                            l2.index as int,
                        ) == tile_pos.x && global_y(
                            self.chunks@[l2.chunk as int].chunk_pos,
                            self.chunk_size,
                            l2.index as int,
                        ) == tile_pos.y implies #[trigger] occ_at(self.chunks@, l2) is None by {
                        lemma_gpos_contains(self.chunks@, self.chunk_size, l2);
                        assert(gpos_of(self.chunks@, l2) == tile_pos);
                        assert(contains_pos(self.chunks@[l2.chunk as int], tile_pos));
                        assert(false);
                    }
                }
                None
            },
        }
    }
}

} // verus!
