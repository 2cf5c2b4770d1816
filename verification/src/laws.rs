//! The library's laws, stated once and proved from the public contracts:
//! injectivity of the committed move map, material legality and
//! first-candidate priority of every move, that cant-move verdicts are
//! earned (every candidate blocked) and unblocked active cells must move,
//! lazy exclusion and forced reactivation after a tick, and determinism of
//! move execution.  Conservation of the tile count is stated directly on
//! [`Model::tick`] and [`crate::executor::execute_moves`].

use vstd::prelude::*;

use crate::chunk::Chunk;
use crate::executor::{final_occ, lemma_step_occ_frame};
use crate::model::{near_endpoint, nu_at, tick_rel, Model};
use crate::resolution::{
    cant_move_at, entry_ok, first_free_step, fully_blocked, inv, legal_step, loc_ok, occ_at, Loc,
    MoveStep, Resolution,
};
use crate::tile::{spec_move_directions, TileContent, TileSolid};

verus! {

/// Law: the committed move map is injective.  No two committed moves share
/// a destination cell, and none share a source.
pub proof fn lemma_move_map_injective(chunks: Seq<Chunk>, r: Resolution, j1: int, j2: int)
    requires
        inv(chunks, r),
        0 <= j1 < r.committed@.len(),
        0 <= j2 < r.committed@.len(),
        j1 != j2,
    ensures
        r.committed@[j1].dst != r.committed@[j2].dst,
        r.committed@[j1].src != r.committed@[j2].src,
{
}

/// Law: every committed move steps along one of its source material's
/// candidate offsets; in particular a barrier, which has none, never
/// moves.
pub proof fn lemma_moves_follow_materials(chunks: Seq<Chunk>, r: Resolution, j: int)
    requires
        inv(chunks, r),
        0 <= j < r.committed@.len(),
    ensures
        legal_step(chunks, r.committed@[j].src, r.committed@[j].dst),
        occ_at(chunks, r.committed@[j].src) != Some(
            TileContent::Solid { tile_solid: TileSolid::Barrier },
        ),
{
    assert(entry_ok(chunks, r, j));
    let s = r.committed@[j].src;
    if occ_at(chunks, s) == Some(TileContent::Solid { tile_solid: TileSolid::Barrier }) {
        assert(spec_move_directions(
            TileContent::Solid { tile_solid: TileSolid::Barrier },
        ).len() == 0);
        assert(false);
    }
}

/// Law: a cant-move verdict is earned.  A cell the resolution marks
/// cant-move has nowhere to go: every candidate offset of its occupant
/// leads to a position that is occupied at tick start, claimed by a
/// committed move, or owned by no loaded chunk.  In particular a lone
/// tile with a free candidate is never marked cant-move — with totality,
/// it moves.
pub proof fn lemma_cant_move_is_blocked(chunks: Seq<Chunk>, r: Resolution, l: Loc)
    requires
        inv(chunks, r),
        loc_ok(chunks, l),
        cant_move_at(r, l),
    ensures
        fully_blocked(chunks, r, l),
{
    assert(crate::resolution::inv_cell(chunks, r, l));
}

/// Law: candidate priority is the sole tie-break.  Every committed move
/// takes the first candidate offset of its source's material that is not
/// blocked: each earlier candidate leads to a position occupied at tick
/// start, claimed by a committed move, or owned by no loaded chunk.
pub proof fn lemma_moves_take_first_candidate(chunks: Seq<Chunk>, r: Resolution, j: int)
    requires
        inv(chunks, r),
        0 <= j < r.committed@.len(),
    ensures
        first_free_step(chunks, r, r.committed@[j].src, r.committed@[j].dst),
{
    assert(entry_ok(chunks, r, j));
}

/// Law: a tick does work.  An occupied cell that enters the tick active,
/// and whose highest-priority candidate position is loaded, empty at tick
/// start and not claimed by any committed move, carries a committed move
/// itself — the falling-sand, boundary-crossing and sideways-flow
/// behaviors follow from the contracts, not just from the code.
pub proof fn lemma_active_unblocked_cell_moves(
    m0: Model,
    m1: Model,
    rr: Resolution,
    l: Loc,
    t: Loc,
)
    requires
        tick_rel(m0, m1, rr),
        loc_ok(m0.chunks@, l),
        loc_ok(m0.chunks@, t),
        occ_at(m0.chunks@, l) is Some,
        nu_at(m0.chunks@, l),
        spec_move_directions(occ_at(m0.chunks@, l)->Some_0).len() > 0,
        crate::chunk::global_x(
            m0.chunks@[t.chunk as int].chunk_pos,
            m0.chunks@[t.chunk as int].chunk_size,
            t.index as int,
        ) == crate::chunk::global_x(
            m0.chunks@[l.chunk as int].chunk_pos,
            m0.chunks@[l.chunk as int].chunk_size,
            l.index as int,
        ) + spec_move_directions(occ_at(m0.chunks@, l)->Some_0)[0].x,
        crate::chunk::global_y(
            m0.chunks@[t.chunk as int].chunk_pos,
            m0.chunks@[t.chunk as int].chunk_size,
            t.index as int,
        ) == crate::chunk::global_y(
            m0.chunks@[l.chunk as int].chunk_pos,
            m0.chunks@[l.chunk as int].chunk_size,
            l.index as int,
        ) + spec_move_directions(occ_at(m0.chunks@, l)->Some_0)[0].y,
        occ_at(m0.chunks@, t) is None,
        !crate::resolution::moves_to_at(rr, t),
    ensures
        crate::resolution::move_at(rr, l) is Some,
{
    if crate::resolution::move_at(rr, l) is None {
        assert(cant_move_at(rr, l));
        assert(crate::resolution::inv_cell(m0.chunks@, rr, l));
        assert(fully_blocked(m0.chunks@, rr, l));
        let content = occ_at(m0.chunks@, l)->Some_0;
        assert(crate::resolution::candidate_blocked(
            m0.chunks@,
            rr,
            l,
            spec_move_directions(content)[0],
        ));
        assert(occ_at(m0.chunks@, t) is Some || crate::resolution::moves_to_at(rr, t));
        assert(false);
    }
}

/// Law: lazy exclusion.  A cell the resolution marked cant-move this tick
/// is excluded from the next tick's active set, unless a cell in its 3x3
/// neighborhood changed occupancy (was vacated or filled by a committed
/// move).
pub proof fn lemma_lazy_exclusion(m0: Model, m1: Model, rr: Resolution, l: Loc)
    requires
        tick_rel(m0, m1, rr),
        loc_ok(m0.chunks@, l),
        cant_move_at(rr, l),
        !near_endpoint(m0.chunks@, rr.committed@, l),
    ensures
        !nu_at(m1.chunks@, l),
{
}

/// Law: forced reactivation.  A cell within the 3x3 neighborhood of a
/// cell whose occupancy the tick changed (an endpoint of a committed
/// move) is active after the tick, whatever its earlier verdict.
pub proof fn lemma_neighborhood_reactivated(m0: Model, m1: Model, rr: Resolution, l: Loc)
    requires
        tick_rel(m0, m1, rr),
        loc_ok(m0.chunks@, l),
        near_endpoint(m0.chunks@, rr.committed@, l),
    ensures
        nu_at(m1.chunks@, l),
{
}

/// Law: executing a committed move list is deterministic.  The final
/// occupancy of every cell is a function of the initial occupancy and the
/// move list alone: two worlds of the same shape with equal occupancy end
/// equal after the same list.
pub proof fn lemma_execution_deterministic(
    init1: Seq<Chunk>,
    init2: Seq<Chunk>,
    L: Seq<MoveStep>,
    l: Loc,
)
    requires
        init1.len() == init2.len(),
        forall|c: int| 0 <= c < init1.len() ==> (#[trigger] init2[c]).cells@ == init1[c].cells@,
        loc_ok(init1, l),
        forall|j: int|
            0 <= j < L.len() ==> loc_ok(init1, (#[trigger] L[j]).src) && loc_ok(init1, L[j].dst),
    ensures
        final_occ(init1, L, l) == final_occ(init2, L, l),
{
    lemma_step_occ_frame(init1, init2, L, L.len() as int, l);
}

} // verus!
