//! Per-tick movement resolution: the local movement calculator and the
//! cross-chunk resolver.
//!
//! Resolution never changes occupancy.  It produces, per chunk, a
//! [`MovementCalculation`] (visited set, move map, claimed destinations,
//! cant-move set, unknown set, local worklist), plus a global commit-order
//! list of moves and a global worklist of deferred cells.  The commit-order
//! list drives the move executor: a move is appended only when its
//! destination is empty or already vacating, so destinations are claimed at
//! most once (the move map is injective) and executing the list in order
//! never lands two tiles on one cell.

use vstd::prelude::*;

use crate::chunk::{area, chunks_wf, global_x, global_y, near_cells, Chunk, Tile};
pub use crate::chunk::{loc_ok, occ_at, Loc};
use crate::counting::{
    count_false, count_true, lemma_count_false_update, lemma_count_true_update,
    lemma_total_false_bounds, lemma_total_false_update, lemma_total_true_bounds,
    lemma_total_true_update, total_false, total_true,
};
use crate::tile::{spec_move_directions, TileContent};
use crate::vec2::IVec2;

verus! {

/// The answer of resolving one cell.
#[derive(Clone, Copy, Debug, PartialEq, Eq, Structural)]
pub enum MoveInfo {
    /// The cell is no obstacle: it is empty, or its occupant has a move.
    Possible,
    /// The occupant cannot move this tick.
    Impossible,
    /// The answer needs a neighboring chunk; deferred to the cross-chunk
    /// pass.
    Unknown,
}

/// One committed move, from a source cell to a destination cell.
#[derive(Clone, Copy, Debug, PartialEq, Eq, Structural)]
pub struct MoveStep {
    pub src: Loc,
    pub dst: Loc,
}

/// The transient per-chunk state of one tick's resolution.
pub struct MovementCalculation {
    /// Cells visited this tick (the cycle guard).
    pub checked: Vec<bool>,
    /// The move assigned to each source cell, if any.
    pub moves: Vec<Option<Loc>>,
    /// Cells already claimed as a destination.
    pub moves_to: Vec<bool>,
    /// Cells proven immovable this tick.
    pub cant_move: Vec<bool>,
    /// Cells whose answer is deferred to the cross-chunk pass.
    pub unknown: Vec<bool>,
    /// The chunk-local worklist of cells to (re)examine.
    pub update_tiles: Vec<usize>,
}

/// The global state of one tick's resolution.
pub struct Resolution {
    /// One calculation per chunk, parallel to the world's chunk list.
    pub calcs: Vec<MovementCalculation>,
    /// All committed moves, in commit order.
    pub committed: Vec<MoveStep>,
    /// The cross-chunk worklist: deferred cells and boundary reactivations.
    pub pending: Vec<Loc>,
}

pub open spec fn checked_at(r: Resolution, l: Loc) -> bool {
    r.calcs@[l.chunk as int].checked@[l.index as int]
}

pub open spec fn move_at(r: Resolution, l: Loc) -> Option<Loc> {
    r.calcs@[l.chunk as int].moves@[l.index as int]
}

pub open spec fn moves_to_at(r: Resolution, l: Loc) -> bool {
    r.calcs@[l.chunk as int].moves_to@[l.index as int]
}

pub open spec fn cant_move_at(r: Resolution, l: Loc) -> bool {
    r.calcs@[l.chunk as int].cant_move@[l.index as int]
}

pub open spec fn unknown_at(r: Resolution, l: Loc) -> bool {
    r.calcs@[l.chunk as int].unknown@[l.index as int]
}

/// The resolution has an answer for cell `l`: a committed move, a
/// cant-move verdict, or a deferral to the cross-chunk pass.
pub open spec fn decided(r: Resolution, l: Loc) -> bool {
    ||| move_at(r, l) is Some
    ||| cant_move_at(r, l)
    ||| unknown_at(r, l)
}

/// The visited flags of every chunk, for the termination measures.
pub open spec fn checked_mat(r: Resolution) -> Seq<Seq<bool>> {
    Seq::new(r.calcs@.len(), |c: int| r.calcs@[c].checked@)
}

/// The unknown flags of every chunk, for the cross-chunk termination
/// measure.
pub open spec fn unknown_mat(r: Resolution) -> Seq<Seq<bool>> {
    Seq::new(r.calcs@.len(), |c: int| r.calcs@[c].unknown@)
}

/// The local calculator's termination measure: cells not yet visited.
pub open spec fn phase1_measure(r: Resolution) -> int {
    total_false(checked_mat(r))
}

/// The cross-chunk resolver's termination measure: cells not yet visited
/// plus cells still deferred.
pub open spec fn phase2_measure(r: Resolution) -> int {
    total_false(checked_mat(r)) + total_true(unknown_mat(r))
}

/// Structural well-formedness of a resolution against the world: one
/// calculation per chunk, every per-cell array exactly chunk-sized, and
/// every worklist entry in range.
pub open spec fn calc_wf(chunks: Seq<Chunk>, r: Resolution) -> bool {
    &&& r.calcs@.len() == chunks.len()
    &&& forall|c: int|
        0 <= c < chunks.len() ==> {
            let cal = #[trigger] r.calcs@[c];
            &&& cal.checked@.len() == chunks[c].cells@.len()
            &&& cal.moves@.len() == chunks[c].cells@.len()
            &&& cal.moves_to@.len() == chunks[c].cells@.len()
            &&& cal.cant_move@.len() == chunks[c].cells@.len()
            &&& cal.unknown@.len() == chunks[c].cells@.len()
            &&& forall|k: int|
                0 <= k < cal.update_tiles@.len() ==> (#[trigger] cal.update_tiles@[k])
                    < chunks[c].cells@.len()
        }
    &&& forall|k: int| 0 <= k < r.pending@.len() ==> loc_ok(chunks, #[trigger] r.pending@[k])
}

/// The candidate one `d`-step from `s` cannot be moved into: every loaded
/// cell at that global position is occupied (occupancy is fixed for the
/// whole resolution) or already claimed as a destination.  A position no
/// loaded chunk owns is blocked vacuously.  Claims only grow, so a blocked
/// candidate stays blocked for the rest of the tick.
pub open spec fn candidate_blocked(chunks: Seq<Chunk>, r: Resolution, s: Loc, d: IVec2) -> bool {
    forall|t: Loc|
        loc_ok(chunks, t) && global_x(
            chunks[t.chunk as int].chunk_pos,
            chunks[t.chunk as int].chunk_size,
            t.index as int,
        ) == global_x(
            chunks[s.chunk as int].chunk_pos,
            chunks[s.chunk as int].chunk_size,
            s.index as int,
        ) + d.x && global_y(
            chunks[t.chunk as int].chunk_pos,
            chunks[t.chunk as int].chunk_size,
            t.index as int,
        ) == global_y(
            chunks[s.chunk as int].chunk_pos,
            chunks[s.chunk as int].chunk_size,
            s.index as int,
        ) + d.y ==> occ_at(chunks, t) is Some || #[trigger] moves_to_at(r, t)
}

/// Every candidate offset of the occupant of `l` is blocked: the occupant
/// truly has nowhere to go.
pub open spec fn fully_blocked(chunks: Seq<Chunk>, r: Resolution, l: Loc) -> bool {
    occ_at(chunks, l) matches Some(content) ==> forall|i: int|
        0 <= i < spec_move_directions(content).len() ==> candidate_blocked(
            chunks,
            r,
            l,
            #[trigger] spec_move_directions(content)[i],
        )
}

/// The step from `s` to `d` takes the first candidate that is not blocked:
/// it matches some candidate offset of `s`'s occupant, and every candidate
/// of higher priority is blocked.
pub open spec fn first_free_step(chunks: Seq<Chunk>, r: Resolution, s: Loc, d: Loc) -> bool {
    let cs_ = chunks[s.chunk as int];
    let cd = chunks[d.chunk as int];
    occ_at(chunks, s) matches Some(content) && exists|i: int|
        0 <= i < spec_move_directions(content).len() && global_x(
            cd.chunk_pos,
            cd.chunk_size,
            d.index as int,
        ) - global_x(cs_.chunk_pos, cs_.chunk_size, s.index as int) == (
        #[trigger] spec_move_directions(content)[i]).x && global_y(
            cd.chunk_pos,
            cd.chunk_size,
            d.index as int,
        ) - global_y(cs_.chunk_pos, cs_.chunk_size, s.index as int) == spec_move_directions(
            content,
        )[i].y && (forall|i2: int|
            0 <= i2 < i ==> candidate_blocked(
                chunks,
                r,
                s,
                #[trigger] spec_move_directions(content)[i2],
            ))
}

/// Blocked candidates stay blocked when claims only grow.
proof fn lemma_blocked_mono(chunks: Seq<Chunk>, r0: Resolution, r1: Resolution, s: Loc, d: IVec2)
    requires
        candidate_blocked(chunks, r0, s, d),
        forall|t: Loc| loc_ok(chunks, t) && #[trigger] moves_to_at(r0, t) ==> moves_to_at(r1, t),
    ensures
        candidate_blocked(chunks, r1, s, d),
{
    assert forall|t: Loc|
        loc_ok(chunks, t) && global_x(
            chunks[t.chunk as int].chunk_pos,
            chunks[t.chunk as int].chunk_size,
            t.index as int,
        ) == global_x(
            chunks[s.chunk as int].chunk_pos,
            chunks[s.chunk as int].chunk_size,
            s.index as int,
        ) + d.x && global_y(
            chunks[t.chunk as int].chunk_pos,
            chunks[t.chunk as int].chunk_size,
            t.index as int,
        ) == global_y(
            chunks[s.chunk as int].chunk_pos,
            chunks[s.chunk as int].chunk_size,
            s.index as int,
        ) + d.y implies occ_at(chunks, t) is Some || #[trigger] moves_to_at(r1, t) by {
        assert(occ_at(chunks, t) is Some || moves_to_at(r0, t));
    }
}

/// A fully blocked cell stays fully blocked when claims only grow.
proof fn lemma_fully_blocked_mono(chunks: Seq<Chunk>, r0: Resolution, r1: Resolution, l: Loc)
    requires
        fully_blocked(chunks, r0, l),
        forall|t: Loc| loc_ok(chunks, t) && #[trigger] moves_to_at(r0, t) ==> moves_to_at(r1, t),
    ensures
        fully_blocked(chunks, r1, l),
{
    match occ_at(chunks, l) {
        Some(content) => {
            assert forall|i: int|
                0 <= i < spec_move_directions(content).len() implies candidate_blocked(
                chunks,
                r1,
                l,
                #[trigger] spec_move_directions(content)[i],
            ) by {
                lemma_blocked_mono(chunks, r0, r1, l, spec_move_directions(content)[i]);
            }
        },
        None => {},
    }
}

/// A first-free step stays first-free when claims only grow.
proof fn lemma_first_free_mono(chunks: Seq<Chunk>, r0: Resolution, r1: Resolution, s: Loc, d: Loc)
    requires
        first_free_step(chunks, r0, s, d),
        forall|t: Loc| loc_ok(chunks, t) && #[trigger] moves_to_at(r0, t) ==> moves_to_at(r1, t),
    ensures
        first_free_step(chunks, r1, s, d),
{
    let cs_ = chunks[s.chunk as int];
    let cd = chunks[d.chunk as int];
    match occ_at(chunks, s) {
        Some(content) => {
            let i = choose|i: int|
                0 <= i < spec_move_directions(content).len() && global_x(
                    cd.chunk_pos,
                    cd.chunk_size,
                    d.index as int,
                ) - global_x(cs_.chunk_pos, cs_.chunk_size, s.index as int) == (
                #[trigger] spec_move_directions(content)[i]).x && global_y(
                    cd.chunk_pos,
                    cd.chunk_size,
                    d.index as int,
                ) - global_y(cs_.chunk_pos, cs_.chunk_size, s.index as int)
                    == spec_move_directions(content)[i].y && (forall|i2: int|
                    0 <= i2 < i ==> candidate_blocked(
                        chunks,
                        r0,
                        s,
                        #[trigger] spec_move_directions(content)[i2],
                    ));
            assert forall|i2: int| 0 <= i2 < i implies candidate_blocked(
                chunks,
                r1,
                s,
                #[trigger] spec_move_directions(content)[i2],
            ) by {
                lemma_blocked_mono(chunks, r0, r1, s, spec_move_directions(content)[i2]);
            }
            assert(0 <= i < spec_move_directions(content).len() && global_x(
                cd.chunk_pos,
                cd.chunk_size,
                d.index as int,
            ) - global_x(cs_.chunk_pos, cs_.chunk_size, s.index as int) == (
            #[trigger] spec_move_directions(content)[i]).x && global_y(
                cd.chunk_pos,
                cd.chunk_size,
                d.index as int,
            ) - global_y(cs_.chunk_pos, cs_.chunk_size, s.index as int) == spec_move_directions(
                content,
            )[i].y && (forall|i2: int|
                0 <= i2 < i ==> candidate_blocked(
                    chunks,
                    r1,
                    s,
                    #[trigger] spec_move_directions(content)[i2],
                )));
        },
        None => {},
    }
}

/// A single loaded cell at the target position that is occupied or
/// claimed blocks the whole candidate: it is the only cell there.
proof fn lemma_blocked_by_cell(
    chunks: Seq<Chunk>,
    cs: IVec2,
    r: Resolution,
    s: Loc,
    d: IVec2,
    t: Loc,
)
    requires
        chunks_wf(chunks, cs),
        loc_ok(chunks, s),
        loc_ok(chunks, t),
        global_x(
            chunks[t.chunk as int].chunk_pos,
            chunks[t.chunk as int].chunk_size,
            t.index as int,
        ) == global_x(
            chunks[s.chunk as int].chunk_pos,
            chunks[s.chunk as int].chunk_size,
            s.index as int,
        ) + d.x,
        global_y(
            chunks[t.chunk as int].chunk_pos,
            chunks[t.chunk as int].chunk_size,
            t.index as int,
        ) == global_y(
            chunks[s.chunk as int].chunk_pos,
            chunks[s.chunk as int].chunk_size,
            s.index as int,
        ) + d.y,
        occ_at(chunks, t) is Some || moves_to_at(r, t),
    ensures
        candidate_blocked(chunks, r, s, d),
{
    assert forall|t2: Loc|
        loc_ok(chunks, t2) && global_x(
            chunks[t2.chunk as int].chunk_pos,
            chunks[t2.chunk as int].chunk_size,
            t2.index as int,
        ) == global_x(
            chunks[s.chunk as int].chunk_pos,
            chunks[s.chunk as int].chunk_size,
            s.index as int,
        ) + d.x && global_y(
            chunks[t2.chunk as int].chunk_pos,
            chunks[t2.chunk as int].chunk_size,
            t2.index as int,
        ) == global_y(
            chunks[s.chunk as int].chunk_pos,
            chunks[s.chunk as int].chunk_size,
            s.index as int,
        ) + d.y implies occ_at(chunks, t2) is Some || #[trigger] moves_to_at(r, t2) by {
        crate::chunk::lemma_gpos_unique(chunks, cs, t2, t);
    }
}

/// A candidate position owned by no loaded chunk is blocked: nothing can
/// move out of the world.
proof fn lemma_blocked_by_unloaded(
    chunks: Seq<Chunk>,
    cs: IVec2,
    r: Resolution,
    s: Loc,
    d: IVec2,
    errp: IVec2,
    erridx: int,
)
    requires
        chunks_wf(chunks, cs),
        loc_ok(chunks, s),
        0 <= erridx < area(cs),
        global_x(errp, cs, erridx) == global_x(
            chunks[s.chunk as int].chunk_pos,
            chunks[s.chunk as int].chunk_size,
            s.index as int,
        ) + d.x,
        global_y(errp, cs, erridx) == global_y(
            chunks[s.chunk as int].chunk_pos,
            chunks[s.chunk as int].chunk_size,
            s.index as int,
        ) + d.y,
        forall|c: int| 0 <= c < chunks.len() ==> (#[trigger] chunks[c]).chunk_pos != errp,
    ensures
        candidate_blocked(chunks, r, s, d),
{
    assert forall|t2: Loc|
        loc_ok(chunks, t2) && global_x(
            chunks[t2.chunk as int].chunk_pos,
            chunks[t2.chunk as int].chunk_size,
            t2.index as int,
        ) == global_x(
            chunks[s.chunk as int].chunk_pos,
            chunks[s.chunk as int].chunk_size,
            s.index as int,
        ) + d.x && global_y(
            chunks[t2.chunk as int].chunk_pos,
            chunks[t2.chunk as int].chunk_size,
            t2.index as int,
        ) == global_y(
            chunks[s.chunk as int].chunk_pos,
            chunks[s.chunk as int].chunk_size,
            s.index as int,
        ) + d.y implies occ_at(chunks, t2) is Some || #[trigger] moves_to_at(r, t2) by {
        crate::chunk::lemma_gpos_contains(chunks, cs, t2);
        crate::chunk::lemma_contains_coord(
            chunks[t2.chunk as int],
            cs,
            errp,
            erridx,
            crate::chunk::gpos_of(chunks, t2),
        );
        assert(chunks[t2.chunk as int].chunk_pos == errp);
        assert(false);
    }
}

/// A blocked candidate prefix stays blocked when claims only grow.
proof fn lemma_prefix_blocked_mono(
    chunks: Seq<Chunk>,
    r0: Resolution,
    r1: Resolution,
    s: Loc,
    content: TileContent,
    upto: int,
)
    requires
        forall|i2: int|
            0 <= i2 < upto ==> candidate_blocked(
                chunks,
                r0,
                s,
                #[trigger] spec_move_directions(content)[i2],
            ),
        forall|t: Loc| loc_ok(chunks, t) && #[trigger] moves_to_at(r0, t) ==> moves_to_at(r1, t),
    ensures
        forall|i2: int|
            0 <= i2 < upto ==> candidate_blocked(
                chunks,
                r1,
                s,
                #[trigger] spec_move_directions(content)[i2],
            ),
{
    assert forall|i2: int| 0 <= i2 < upto implies candidate_blocked(
        chunks,
        r1,
        s,
        #[trigger] spec_move_directions(content)[i2],
    ) by {
        lemma_blocked_mono(chunks, r0, r1, s, spec_move_directions(content)[i2]);
    }
}

/// The step from `s` to `d` is one of the candidate offsets of the
/// material occupying `s`, measured in global coordinates.
pub open spec fn legal_step(chunks: Seq<Chunk>, s: Loc, d: Loc) -> bool {
    let cs_ = chunks[s.chunk as int];
    let cd = chunks[d.chunk as int];
    occ_at(chunks, s) matches Some(content) && exists|i: int|
        0 <= i < spec_move_directions(content).len() && global_x(
            cd.chunk_pos,
            cd.chunk_size,
            d.index as int,
        ) - global_x(cs_.chunk_pos, cs_.chunk_size, s.index as int) == (
        #[trigger] spec_move_directions(content)[i]).x && global_y(
            cd.chunk_pos,
            cd.chunk_size,
            d.index as int,
        ) - global_y(cs_.chunk_pos, cs_.chunk_size, s.index as int) == spec_move_directions(
            content,
        )[i].y
}

/// The committed move at position `j` is coherent with the cell state: both
/// ends in range and distinct, the source occupied and carrying exactly
/// this move, the step one of the source material's candidate offsets, the
/// destination claimed, and an occupied destination vacated by an earlier
/// committed move.
pub open spec fn entry_ok(chunks: Seq<Chunk>, r: Resolution, j: int) -> bool {
    let s = r.committed@[j].src;
    let d = r.committed@[j].dst;
    &&& loc_ok(chunks, s)
    &&& loc_ok(chunks, d)
    &&& s != d
    &&& occ_at(chunks, s) is Some
    &&& first_free_step(chunks, r, s, d)
    &&& move_at(r, s) == Some(d)
    &&& moves_to_at(r, d)
    &&& checked_at(r, s)
    &&& (occ_at(chunks, d) is Some ==> exists|j2: int|
        0 <= j2 < j && (#[trigger] r.committed@[j2]).src == d)
}

/// Per-cell coherence of the resolution state with the commit list.
pub open spec fn inv_cell(chunks: Seq<Chunk>, r: Resolution, l: Loc) -> bool {
    &&& (move_at(r, l) matches Some(d) ==> {
        &&& checked_at(r, l)
        &&& occ_at(chunks, l) is Some
        &&& exists|j: int|
            0 <= j < r.committed@.len() && #[trigger] r.committed@[j] == (MoveStep { src: l, dst: d })
    })
    &&& (moves_to_at(r, l) ==> exists|j: int|
        0 <= j < r.committed@.len() && (#[trigger] r.committed@[j]).dst == l)
    &&& (cant_move_at(r, l) ==> {
        &&& checked_at(r, l)
        &&& occ_at(chunks, l) is Some
        &&& move_at(r, l) is None
        &&& !unknown_at(r, l)
        &&& fully_blocked(chunks, r, l)
    })
    &&& (unknown_at(r, l) ==> {
        &&& checked_at(r, l)
        &&& occ_at(chunks, l) is Some
        &&& move_at(r, l) is None
        &&& !cant_move_at(r, l)
    })
}

/// The resolution invariant: structural well-formedness, a coherent commit
/// list with pairwise-distinct sources and destinations, and per-cell
/// coherence.
pub open spec fn inv(chunks: Seq<Chunk>, r: Resolution) -> bool {
    &&& calc_wf(chunks, r)
    &&& forall|j: int| 0 <= j < r.committed@.len() ==> #[trigger] entry_ok(chunks, r, j)
    &&& forall|j1: int, j2: int|
        0 <= j1 < j2 < r.committed@.len() ==> (#[trigger] r.committed@[j1]).src != (
        #[trigger] r.committed@[j2]).src && r.committed@[j1].dst != r.committed@[j2].dst
    &&& forall|l: Loc| loc_ok(chunks, l) ==> #[trigger] inv_cell(chunks, r, l)
}

/// How one cell's resolution state may evolve: visited stays visited,
/// assigned moves and claims are never revoked, cant-move is never revoked,
/// and a visited cell that is not deferred is settled — it never becomes
/// deferred and never gains a move.
pub open spec fn extends_cell(r0: Resolution, r: Resolution, l: Loc) -> bool {
    &&& (checked_at(r0, l) ==> checked_at(r, l))
    &&& (move_at(r0, l) is Some ==> move_at(r, l) == move_at(r0, l))
    &&& (moves_to_at(r0, l) ==> moves_to_at(r, l))
    &&& (cant_move_at(r0, l) ==> cant_move_at(r, l))
    &&& (checked_at(r0, l) && !unknown_at(r0, l) ==> {
        &&& !unknown_at(r, l)
        &&& (move_at(r0, l) is None ==> move_at(r, l) is None)
        &&& (!cant_move_at(r0, l) ==> !cant_move_at(r, l))
    })
}

/// Resolution state evolution: the commit list and the cross-chunk worklist
/// only grow at the end, and every cell evolves as [`extends_cell`] allows.
pub open spec fn extends(chunks: Seq<Chunk>, r0: Resolution, r: Resolution) -> bool {
    &&& r.committed@.len() >= r0.committed@.len()
    &&& r.committed@.subrange(0, r0.committed@.len() as int) == r0.committed@
    &&& r.pending@.len() >= r0.pending@.len()
    &&& r.pending@.subrange(0, r0.pending@.len() as int) == r0.pending@
    &&& forall|l: Loc| loc_ok(chunks, l) ==> #[trigger] extends_cell(r0, r, l)
}

/// [`extends`] is reflexive.
pub proof fn lemma_extends_refl(chunks: Seq<Chunk>, r: Resolution)
    ensures
        extends(chunks, r, r),
{
    assert(r.committed@.subrange(0, r.committed@.len() as int) =~= r.committed@);
    assert(r.pending@.subrange(0, r.pending@.len() as int) =~= r.pending@);
}

/// [`extends`] is transitive.
pub proof fn lemma_extends_trans(chunks: Seq<Chunk>, r0: Resolution, r1: Resolution, r2: Resolution)
    requires
        extends(chunks, r0, r1),
        extends(chunks, r1, r2),
    ensures
        extends(chunks, r0, r2),
{
    assert forall|i: int| 0 <= i < r0.committed@.len() implies r2.committed@[i] == r0.committed@[i]
        by {
        assert(r1.committed@[i] == r1.committed@.subrange(0, r0.committed@.len() as int)[i]);
        assert(r2.committed@[i] == r2.committed@.subrange(0, r1.committed@.len() as int)[i]);
    }
    assert(r2.committed@.subrange(0, r0.committed@.len() as int) =~= r0.committed@);
    assert forall|i: int| 0 <= i < r0.pending@.len() implies r2.pending@[i] == r0.pending@[i] by {
        assert(r1.pending@[i] == r1.pending@.subrange(0, r0.pending@.len() as int)[i]);
        assert(r2.pending@[i] == r2.pending@.subrange(0, r1.pending@.len() as int)[i]);
    }
    assert(r2.pending@.subrange(0, r0.pending@.len() as int) =~= r0.pending@);
    assert forall|l: Loc| loc_ok(chunks, l) implies #[trigger] extends_cell(r0, r2, l) by {
        assert(extends_cell(r0, r1, l));
        assert(extends_cell(r1, r2, l));
    }
}

/// When the commit list is unchanged, visited flags and claims only grow,
/// and assigned moves stay put, every committed entry stays coherent.
proof fn lemma_entries_preserved(chunks: Seq<Chunk>, r0: Resolution, r1: Resolution)
    requires
        forall|j: int| 0 <= j < r0.committed@.len() ==> #[trigger] entry_ok(chunks, r0, j),
        r1.committed == r0.committed,
        forall|l: Loc| loc_ok(chunks, l) && #[trigger] checked_at(r0, l) ==> checked_at(r1, l),
        forall|l: Loc| loc_ok(chunks, l) ==> #[trigger] move_at(r1, l) == move_at(r0, l),
        forall|l: Loc| loc_ok(chunks, l) && #[trigger] moves_to_at(r0, l) ==> moves_to_at(r1, l),
    ensures
        forall|j: int| 0 <= j < r1.committed@.len() ==> #[trigger] entry_ok(chunks, r1, j),
{
    assert forall|j: int| 0 <= j < r1.committed@.len() implies #[trigger] entry_ok(
        chunks,
        r1,
        j,
    ) by {
        assert(entry_ok(chunks, r0, j));
        lemma_first_free_mono(chunks, r0, r1, r0.committed@[j].src, r0.committed@[j].dst);
        let d = r0.committed@[j].dst;
        if occ_at(chunks, d) is Some {
            let j2 = choose|j2: int| 0 <= j2 < j && (#[trigger] r0.committed@[j2]).src == d;
            assert(r1.committed@[j2].src == d);
        }
    }
}

/// Everything outside chunk `c`'s calculation, plus the commit list and the
/// cross-chunk worklist, is unchanged between `r0` and `r1`.
pub open spec fn frame_flag(r0: Resolution, r1: Resolution, c: int) -> bool {
    &&& r1.calcs@.len() == r0.calcs@.len()
    &&& r1.committed == r0.committed
    &&& r1.pending == r0.pending
    &&& forall|c2: int| 0 <= c2 < r0.calcs@.len() && c2 != c ==> r1.calcs@[c2] == r0.calcs@[c2]
}

/// After marking a fresh cell visited, the invariant still holds and the
/// state still extends the reference state in which the cell was unvisited.
proof fn lemma_step_checked(chunks: Seq<Chunk>, rref: Resolution, r0: Resolution, r1: Resolution, loc: Loc)
    requires
        inv(chunks, r0),
        extends(chunks, rref, r0),
        loc_ok(chunks, loc),
        !checked_at(rref, loc),
        frame_flag(r0, r1, loc.chunk as int),
        r1.calcs@[loc.chunk as int].checked@ == r0.calcs@[loc.chunk as int].checked@.update(
            loc.index as int,
            true,
        ),
        r1.calcs@[loc.chunk as int].moves == r0.calcs@[loc.chunk as int].moves,
        r1.calcs@[loc.chunk as int].moves_to == r0.calcs@[loc.chunk as int].moves_to,
        r1.calcs@[loc.chunk as int].cant_move == r0.calcs@[loc.chunk as int].cant_move,
        r1.calcs@[loc.chunk as int].unknown == r0.calcs@[loc.chunk as int].unknown,
        r1.calcs@[loc.chunk as int].update_tiles == r0.calcs@[loc.chunk as int].update_tiles,
    ensures
        inv(chunks, r1),
        extends(chunks, rref, r1),
        checked_at(r1, loc),
{
    assert forall|l: Loc| loc_ok(chunks, l) implies checked_at(r1, l) == (l == loc || checked_at(
        r0,
        l,
    )) && move_at(r1, l) == move_at(r0, l) && moves_to_at(r1, l) == moves_to_at(r0, l)
        && cant_move_at(r1, l) == cant_move_at(r0, l) && unknown_at(r1, l) == unknown_at(
        r0,
        l,
    ) by {
        if l.chunk != loc.chunk {
            assert(r1.calcs@[l.chunk as int] == r0.calcs@[l.chunk as int]);
        }
    }
    lemma_entries_preserved(chunks, r0, r1);
    assert forall|l: Loc| loc_ok(chunks, l) implies #[trigger] inv_cell(chunks, r1, l) by {
        assert(inv_cell(chunks, r0, l));
        if cant_move_at(r0, l) {
            lemma_fully_blocked_mono(chunks, r0, r1, l);
        }
        match move_at(r0, l) {
            Some(d) => {
                let j = choose|j: int|
                    0 <= j < r0.committed@.len() && #[trigger] r0.committed@[j] == (MoveStep {
                        src: l,
                        dst: d,
                    });
                assert(r1.committed@[j] == (MoveStep { src: l, dst: d }));
            },
            None => {},
        }
        if moves_to_at(r0, l) {
            let j = choose|j: int|
                0 <= j < r0.committed@.len() && (#[trigger] r0.committed@[j]).dst == l;
            assert(r1.committed@[j].dst == l);
        }
    }
    assert(calc_wf(chunks, r1));
    assert forall|l: Loc| loc_ok(chunks, l) implies #[trigger] extends_cell(rref, r1, l) by {
        assert(extends_cell(rref, r0, l));
    }
}

/// After deferring the in-progress cell to the cross-chunk pass.
proof fn lemma_step_unknown(chunks: Seq<Chunk>, rref: Resolution, r0: Resolution, r1: Resolution, loc: Loc)
    requires
        inv(chunks, r0),
        extends(chunks, rref, r0),
        loc_ok(chunks, loc),
        !checked_at(rref, loc),
        checked_at(r0, loc),
        move_at(r0, loc) is None,
        !cant_move_at(r0, loc),
        occ_at(chunks, loc) is Some,
        frame_flag(r0, r1, loc.chunk as int),
        r1.calcs@[loc.chunk as int].unknown@ == r0.calcs@[loc.chunk as int].unknown@.update(
            loc.index as int,
            true,
        ),
        r1.calcs@[loc.chunk as int].moves == r0.calcs@[loc.chunk as int].moves,
        r1.calcs@[loc.chunk as int].moves_to == r0.calcs@[loc.chunk as int].moves_to,
        r1.calcs@[loc.chunk as int].cant_move == r0.calcs@[loc.chunk as int].cant_move,
        r1.calcs@[loc.chunk as int].checked == r0.calcs@[loc.chunk as int].checked,
        r1.calcs@[loc.chunk as int].update_tiles == r0.calcs@[loc.chunk as int].update_tiles,
    ensures
        inv(chunks, r1),
        extends(chunks, rref, r1),
        unknown_at(r1, loc),
{
    assert forall|l: Loc| loc_ok(chunks, l) implies checked_at(r1, l) == checked_at(r0, l)
        && move_at(r1, l) == move_at(r0, l) && moves_to_at(r1, l) == moves_to_at(r0, l)
        && cant_move_at(r1, l) == cant_move_at(r0, l) && unknown_at(r1, l) == (l == loc
        || unknown_at(r0, l)) by {
        if l.chunk != loc.chunk {
            assert(r1.calcs@[l.chunk as int] == r0.calcs@[l.chunk as int]);
        }
    }
    lemma_entries_preserved(chunks, r0, r1);
    assert forall|l: Loc| loc_ok(chunks, l) implies #[trigger] inv_cell(chunks, r1, l) by {
        assert(inv_cell(chunks, r0, l));
        if cant_move_at(r0, l) {
            lemma_fully_blocked_mono(chunks, r0, r1, l);
        }
        match move_at(r0, l) {
            Some(d) => {
                let j = choose|j: int|
                    0 <= j < r0.committed@.len() && #[trigger] r0.committed@[j] == (MoveStep {
                        src: l,
                        dst: d,
                    });
                assert(r1.committed@[j] == (MoveStep { src: l, dst: d }));
            },
            None => {},
        }
        if moves_to_at(r0, l) {
            let j = choose|j: int|
                0 <= j < r0.committed@.len() && (#[trigger] r0.committed@[j]).dst == l;
            assert(r1.committed@[j].dst == l);
        }
    }
    assert(calc_wf(chunks, r1));
    assert forall|l: Loc| loc_ok(chunks, l) implies #[trigger] extends_cell(rref, r1, l) by {
        assert(extends_cell(rref, r0, l));
    }
}

/// After marking the in-progress cell immovable.
proof fn lemma_step_cant_move(chunks: Seq<Chunk>, rref: Resolution, r0: Resolution, r1: Resolution, loc: Loc)
    requires
        inv(chunks, r0),
        extends(chunks, rref, r0),
        loc_ok(chunks, loc),
        !checked_at(rref, loc) || unknown_at(rref, loc),
        checked_at(r0, loc),
        move_at(r0, loc) is None,
        !unknown_at(r0, loc),
        occ_at(chunks, loc) is Some,
        fully_blocked(chunks, r0, loc),
        frame_flag(r0, r1, loc.chunk as int),
        r1.calcs@[loc.chunk as int].cant_move@ == r0.calcs@[loc.chunk as int].cant_move@.update(
            loc.index as int,
            true,
        ),
        r1.calcs@[loc.chunk as int].moves == r0.calcs@[loc.chunk as int].moves,
        r1.calcs@[loc.chunk as int].moves_to == r0.calcs@[loc.chunk as int].moves_to,
        r1.calcs@[loc.chunk as int].unknown == r0.calcs@[loc.chunk as int].unknown,
        r1.calcs@[loc.chunk as int].checked == r0.calcs@[loc.chunk as int].checked,
        r1.calcs@[loc.chunk as int].update_tiles == r0.calcs@[loc.chunk as int].update_tiles,
    ensures
        inv(chunks, r1),
        extends(chunks, rref, r1),
        cant_move_at(r1, loc),
{
    assert forall|l: Loc| loc_ok(chunks, l) implies checked_at(r1, l) == checked_at(r0, l)
        && move_at(r1, l) == move_at(r0, l) && moves_to_at(r1, l) == moves_to_at(r0, l)
        && unknown_at(r1, l) == unknown_at(r0, l) && cant_move_at(r1, l) == (l == loc
        || cant_move_at(r0, l)) by {
        if l.chunk != loc.chunk {
            assert(r1.calcs@[l.chunk as int] == r0.calcs@[l.chunk as int]);
        }
    }
    lemma_entries_preserved(chunks, r0, r1);
    assert forall|l: Loc| loc_ok(chunks, l) implies #[trigger] inv_cell(chunks, r1, l) by {
        assert(inv_cell(chunks, r0, l));
        if cant_move_at(r0, l) {
            lemma_fully_blocked_mono(chunks, r0, r1, l);
        }
        if l == loc {
            lemma_fully_blocked_mono(chunks, r0, r1, loc);
        }
        match move_at(r0, l) {
            Some(d) => {
                let j = choose|j: int|
                    0 <= j < r0.committed@.len() && #[trigger] r0.committed@[j] == (MoveStep {
                        src: l,
                        dst: d,
                    });
                assert(r1.committed@[j] == (MoveStep { src: l, dst: d }));
            },
            None => {},
        }
        if moves_to_at(r0, l) {
            let j = choose|j: int|
                0 <= j < r0.committed@.len() && (#[trigger] r0.committed@[j]).dst == l;
            assert(r1.committed@[j].dst == l);
        }
    }
    assert(calc_wf(chunks, r1));
    assert forall|l: Loc| loc_ok(chunks, l) implies #[trigger] extends_cell(rref, r1, l) by {
        assert(extends_cell(rref, r0, l));
    }
}

/// After the cross-chunk pass takes a deferred cell back for re-resolution.
proof fn lemma_step_clear_unknown(chunks: Seq<Chunk>, rref: Resolution, r0: Resolution, r1: Resolution, loc: Loc)
    requires
        inv(chunks, r0),
        extends(chunks, rref, r0),
        loc_ok(chunks, loc),
        unknown_at(r0, loc),
        frame_flag(r0, r1, loc.chunk as int),
        r1.calcs@[loc.chunk as int].unknown@ == r0.calcs@[loc.chunk as int].unknown@.update(
            loc.index as int,
            false,
        ),
        r1.calcs@[loc.chunk as int].moves == r0.calcs@[loc.chunk as int].moves,
        r1.calcs@[loc.chunk as int].moves_to == r0.calcs@[loc.chunk as int].moves_to,
        r1.calcs@[loc.chunk as int].cant_move == r0.calcs@[loc.chunk as int].cant_move,
        r1.calcs@[loc.chunk as int].checked == r0.calcs@[loc.chunk as int].checked,
        r1.calcs@[loc.chunk as int].update_tiles == r0.calcs@[loc.chunk as int].update_tiles,
    ensures
        inv(chunks, r1),
        extends(chunks, rref, r1),
        !unknown_at(r1, loc),
        checked_at(r1, loc),
        move_at(r1, loc) is None,
        !cant_move_at(r1, loc),
        occ_at(chunks, loc) is Some,
{
    assert(inv_cell(chunks, r0, loc));
    assert forall|l: Loc| loc_ok(chunks, l) implies checked_at(r1, l) == checked_at(r0, l)
        && move_at(r1, l) == move_at(r0, l) && moves_to_at(r1, l) == moves_to_at(r0, l)
        && cant_move_at(r1, l) == cant_move_at(r0, l) && (l != loc ==> unknown_at(r1, l)
        == unknown_at(r0, l)) && (l == loc ==> !unknown_at(r1, l)) by {
        if l.chunk != loc.chunk {
            assert(r1.calcs@[l.chunk as int] == r0.calcs@[l.chunk as int]);
        }
    }
    lemma_entries_preserved(chunks, r0, r1);
    assert forall|l: Loc| loc_ok(chunks, l) implies #[trigger] inv_cell(chunks, r1, l) by {
        assert(inv_cell(chunks, r0, l));
        if cant_move_at(r0, l) {
            lemma_fully_blocked_mono(chunks, r0, r1, l);
        }
        match move_at(r0, l) {
            Some(d) => {
                let j = choose|j: int|
                    0 <= j < r0.committed@.len() && #[trigger] r0.committed@[j] == (MoveStep {
                        src: l,
                        dst: d,
                    });
                assert(r1.committed@[j] == (MoveStep { src: l, dst: d }));
            },
            None => {},
        }
        if moves_to_at(r0, l) {
            let j = choose|j: int|
                0 <= j < r0.committed@.len() && (#[trigger] r0.committed@[j]).dst == l;
            assert(r1.committed@[j].dst == l);
        }
    }
    assert(calc_wf(chunks, r1));
    assert forall|l: Loc| loc_ok(chunks, l) implies #[trigger] extends_cell(rref, r1, l) by {
        assert(extends_cell(rref, r0, l));
    }
}

/// After committing a move from `src` to `dst`: the commit list stays
/// coherent and injective — the destination was not claimed before, and an
/// occupied destination already carried an earlier committed move.
proof fn lemma_step_commit(
    chunks: Seq<Chunk>,
    rref: Resolution,
    r0: Resolution,
    r1: Resolution,
    src: Loc,
    dst: Loc,
)
    requires
        inv(chunks, r0),
        extends(chunks, rref, r0),
        loc_ok(chunks, src),
        loc_ok(chunks, dst),
        src != dst,
        occ_at(chunks, src) is Some,
        first_free_step(chunks, r0, src, dst),
        checked_at(r0, src),
        move_at(r0, src) is None,
        !cant_move_at(r0, src),
        !unknown_at(r0, src),
        !checked_at(rref, src) || unknown_at(rref, src),
        !moves_to_at(r0, dst),
        occ_at(chunks, dst) is Some ==> move_at(r0, dst) is Some,
        // frame: exactly the commit mutation
        r1.calcs@.len() == r0.calcs@.len(),
        r1.pending == r0.pending,
        r1.committed@ == r0.committed@.push(MoveStep { src, dst }),
        forall|c2: int|
            0 <= c2 < r0.calcs@.len() ==> {
                let a = #[trigger] r1.calcs@[c2];
                let b = r0.calcs@[c2];
                &&& a.checked == b.checked
                &&& a.unknown == b.unknown
                &&& a.cant_move == b.cant_move
                &&& a.update_tiles == b.update_tiles
                &&& a.moves@.len() == b.moves@.len()
                &&& a.moves_to@.len() == b.moves_to@.len()
            },
        forall|l: Loc|
            in_cal(r0, l) && l.index < r0.calcs@[l.chunk as int].moves@.len() ==> move_at(r1, l)
                == if l == src {
                Some(dst)
            } else {
                move_at(r0, l)
            },
        forall|l: Loc|
            in_cal(r0, l) && l.index < r0.calcs@[l.chunk as int].moves_to@.len() ==> moves_to_at(
                r1,
                l,
            ) == (l == dst || moves_to_at(r0, l)),
    ensures
        inv(chunks, r1),
        extends(chunks, rref, r1),
        move_at(r1, src) == Some(dst),
{
    let n0 = r0.committed@.len() as int;
    assert forall|l: Loc| loc_ok(chunks, l) implies checked_at(r1, l) == checked_at(r0, l)
        && cant_move_at(r1, l) == cant_move_at(r0, l) && unknown_at(r1, l) == unknown_at(r0, l)
        && in_cal(r0, l) && l.index < r0.calcs@[l.chunk as int].moves@.len() && l.index
        < r0.calcs@[l.chunk as int].moves_to@.len() by {
        assert(calc_wf(chunks, r0));
    }
    assert(move_at(r1, src) == Some(dst));
    assert(moves_to_at(r1, dst));
    assert(r1.committed@[n0] == (MoveStep { src, dst }));
    // no earlier entry shares this source or destination
    assert forall|j: int| 0 <= j < n0 implies (#[trigger] r1.committed@[j]).src != src
        && r1.committed@[j].dst != dst by {
        assert(entry_ok(chunks, r0, j));
        assert(r1.committed@[j] == r0.committed@[j]);
    }
    assert forall|j: int| 0 <= j < r1.committed@.len() implies #[trigger] entry_ok(
        chunks,
        r1,
        j,
    ) by {
        if j < n0 {
            assert(entry_ok(chunks, r0, j));
            lemma_first_free_mono(chunks, r0, r1, r0.committed@[j].src, r0.committed@[j].dst);
            assert(r1.committed@[j] == r0.committed@[j]);
            let s = r0.committed@[j].src;
            let d = r0.committed@[j].dst;
            assert(move_at(r1, s) == move_at(r0, s));
            assert(moves_to_at(r1, d) == (d == dst || moves_to_at(r0, d)));
            if occ_at(chunks, d) is Some {
                let j2 = choose|j2: int| 0 <= j2 < j && (#[trigger] r0.committed@[j2]).src == d;
                assert(r1.committed@[j2].src == d);
            }
        } else {
            // the new entry: an occupied destination already carries an
            // earlier move, whose commit entry names it as source
            lemma_first_free_mono(chunks, r0, r1, src, dst);
            if occ_at(chunks, dst) is Some {
                assert(inv_cell(chunks, r0, dst));
                match move_at(r0, dst) {
                    Some(d2) => {
                        let j2 = choose|j2: int|
                            0 <= j2 < n0 && #[trigger] r0.committed@[j2] == (MoveStep {
                                src: dst,
                                dst: d2,
                            });
                        assert(r1.committed@[j2].src == dst);
                        assert(0 <= j2 < j && r1.committed@[j2].src == dst);
                    },
                    None => {
                        assert(false);
                    },
                }
            }
        }
    }
    assert forall|j1: int, j2: int| 0 <= j1 < j2 < r1.committed@.len() implies (
    #[trigger] r1.committed@[j1]).src != (#[trigger] r1.committed@[j2]).src
        && r1.committed@[j1].dst != r1.committed@[j2].dst by {
        if j2 < n0 {
            assert(r1.committed@[j1] == r0.committed@[j1]);
            assert(r1.committed@[j2] == r0.committed@[j2]);
        } else {
            assert(r1.committed@[j1] == r0.committed@[j1]);
        }
    }
    assert forall|l: Loc| loc_ok(chunks, l) implies #[trigger] inv_cell(chunks, r1, l) by {
        assert(inv_cell(chunks, r0, l));
        if cant_move_at(r0, l) {
            lemma_fully_blocked_mono(chunks, r0, r1, l);
        }
        if l == src {
            assert(r1.committed@[n0] == (MoveStep { src: l, dst }));
        }
        match move_at(r0, l) {
            Some(d) => {
                let j = choose|j: int|
                    0 <= j < n0 && #[trigger] r0.committed@[j] == (MoveStep { src: l, dst: d });
                assert(r1.committed@[j] == (MoveStep { src: l, dst: d }));
            },
            None => {},
        }
        if moves_to_at(r0, l) {
            let j = choose|j: int| 0 <= j < n0 && (#[trigger] r0.committed@[j]).dst == l;
            assert(r1.committed@[j].dst == l);
        }
        if l == dst {
            assert(r1.committed@[n0].dst == l);
            if cant_move_at(r0, dst) {
                assert(occ_at(chunks, dst) is Some);
                assert(move_at(r0, dst) is None);
                assert(false);
            }
            if unknown_at(r0, dst) {
                assert(false);
            }
        }
    }
    assert(calc_wf(chunks, r1));
    // the state still extends the reference state
    assert(r1.committed@.subrange(0, rref.committed@.len() as int)
        =~= r0.committed@.subrange(0, rref.committed@.len() as int));
    assert forall|l: Loc| loc_ok(chunks, l) implies #[trigger] extends_cell(rref, r1, l) by {
        assert(extends_cell(rref, r0, l));
        if l == src {
            assert(!(checked_at(rref, l) && !unknown_at(rref, l)));
        }
    }
}

/// `l` indexes into the resolution's own per-cell arrays.
pub open spec fn in_cal(r: Resolution, l: Loc) -> bool {
    l.chunk < r.calcs@.len() && l.index < r.calcs@[l.chunk as int].checked@.len()
}

/// Marks a cell visited.
fn set_checked(r: &mut Resolution, c: usize, i: usize)
    requires
        c < old(r).calcs@.len(),
        i < old(r).calcs@[c as int].checked@.len(),
        !old(r).calcs@[c as int].checked@[i as int],
    ensures
        final(r).calcs@.len() == old(r).calcs@.len(),
        final(r).committed == old(r).committed,
        final(r).pending == old(r).pending,
        forall|c2: int|
            0 <= c2 < old(r).calcs@.len() && c2 != c ==> final(r).calcs@[c2] == old(r).calcs@[c2],
        final(r).calcs@[c as int].checked@ == old(r).calcs@[c as int].checked@.update(
            i as int,
            true,
        ),
        final(r).calcs@[c as int].moves == old(r).calcs@[c as int].moves,
        final(r).calcs@[c as int].moves_to == old(r).calcs@[c as int].moves_to,
        final(r).calcs@[c as int].cant_move == old(r).calcs@[c as int].cant_move,
        final(r).calcs@[c as int].unknown == old(r).calcs@[c as int].unknown,
        final(r).calcs@[c as int].update_tiles == old(r).calcs@[c as int].update_tiles,
        total_false(checked_mat(*final(r))) == total_false(checked_mat(*old(r))) - 1,
        total_true(unknown_mat(*final(r))) == total_true(unknown_mat(*old(r))),
{
    let ghost r0 = *r;
    let cal = &mut r.calcs[c];
    cal.checked.set(i, true);
    proof {
        assert(checked_mat(*r) =~= checked_mat(r0).update(c as int, r.calcs@[c as int].checked@));
        lemma_total_false_update(checked_mat(r0), c as int, r.calcs@[c as int].checked@);
        lemma_count_false_update(r0.calcs@[c as int].checked@, i as int, true);
        assert(unknown_mat(*r) =~= unknown_mat(r0));
    }
}

/// Marks a cell deferred to the cross-chunk pass.
fn set_unknown(r: &mut Resolution, c: usize, i: usize)
    requires
        c < old(r).calcs@.len(),
        i < old(r).calcs@[c as int].unknown@.len(),
    ensures
        final(r).calcs@.len() == old(r).calcs@.len(),
        final(r).committed == old(r).committed,
        final(r).pending == old(r).pending,
        forall|c2: int|
            0 <= c2 < old(r).calcs@.len() && c2 != c ==> final(r).calcs@[c2] == old(r).calcs@[c2],
        final(r).calcs@[c as int].unknown@ == old(r).calcs@[c as int].unknown@.update(
            i as int,
            true,
        ),
        final(r).calcs@[c as int].moves == old(r).calcs@[c as int].moves,
        final(r).calcs@[c as int].moves_to == old(r).calcs@[c as int].moves_to,
        final(r).calcs@[c as int].cant_move == old(r).calcs@[c as int].cant_move,
        final(r).calcs@[c as int].checked == old(r).calcs@[c as int].checked,
        final(r).calcs@[c as int].update_tiles == old(r).calcs@[c as int].update_tiles,
        total_false(checked_mat(*final(r))) == total_false(checked_mat(*old(r))),
{
    let ghost r0 = *r;
    let cal = &mut r.calcs[c];
    cal.unknown.set(i, true);
    proof {
        assert(checked_mat(*r) =~= checked_mat(r0));
    }
}

/// Clears a cell's deferred mark when the cross-chunk pass re-resolves it.
fn clear_unknown(r: &mut Resolution, c: usize, i: usize)
    requires
        c < old(r).calcs@.len(),
        i < old(r).calcs@[c as int].unknown@.len(),
        old(r).calcs@[c as int].unknown@[i as int],
    ensures
        final(r).calcs@.len() == old(r).calcs@.len(),
        final(r).committed == old(r).committed,
        final(r).pending == old(r).pending,
        forall|c2: int|
            0 <= c2 < old(r).calcs@.len() && c2 != c ==> final(r).calcs@[c2] == old(r).calcs@[c2],
        final(r).calcs@[c as int].unknown@ == old(r).calcs@[c as int].unknown@.update(
            i as int,
            false,
        ),
        final(r).calcs@[c as int].moves == old(r).calcs@[c as int].moves,
        final(r).calcs@[c as int].moves_to == old(r).calcs@[c as int].moves_to,
        final(r).calcs@[c as int].cant_move == old(r).calcs@[c as int].cant_move,
        final(r).calcs@[c as int].checked == old(r).calcs@[c as int].checked,
        final(r).calcs@[c as int].update_tiles == old(r).calcs@[c as int].update_tiles,
        total_false(checked_mat(*final(r))) == total_false(checked_mat(*old(r))),
        total_true(unknown_mat(*final(r))) == total_true(unknown_mat(*old(r))) - 1,
{
    let ghost r0 = *r;
    let cal = &mut r.calcs[c];
    cal.unknown.set(i, false);
    proof {
        assert(checked_mat(*r) =~= checked_mat(r0));
        assert(unknown_mat(*r) =~= unknown_mat(r0).update(c as int, r.calcs@[c as int].unknown@));
        lemma_total_true_update(unknown_mat(r0), c as int, r.calcs@[c as int].unknown@);
        lemma_count_true_update(r0.calcs@[c as int].unknown@, i as int, false);
    }
}

/// Marks a cell immovable.
fn set_cant_move(r: &mut Resolution, c: usize, i: usize)
    requires
        c < old(r).calcs@.len(),
        i < old(r).calcs@[c as int].cant_move@.len(),
    ensures
        final(r).calcs@.len() == old(r).calcs@.len(),
        final(r).committed == old(r).committed,
        final(r).pending == old(r).pending,
        forall|c2: int|
            0 <= c2 < old(r).calcs@.len() && c2 != c ==> final(r).calcs@[c2] == old(r).calcs@[c2],
        final(r).calcs@[c as int].cant_move@ == old(r).calcs@[c as int].cant_move@.update(
            i as int,
            true,
        ),
        final(r).calcs@[c as int].moves == old(r).calcs@[c as int].moves,
        final(r).calcs@[c as int].moves_to == old(r).calcs@[c as int].moves_to,
        final(r).calcs@[c as int].unknown == old(r).calcs@[c as int].unknown,
        final(r).calcs@[c as int].checked == old(r).calcs@[c as int].checked,
        final(r).calcs@[c as int].update_tiles == old(r).calcs@[c as int].update_tiles,
        total_false(checked_mat(*final(r))) == total_false(checked_mat(*old(r))),
        total_true(unknown_mat(*final(r))) == total_true(unknown_mat(*old(r))),
{
    let ghost r0 = *r;
    let cal = &mut r.calcs[c];
    cal.cant_move.set(i, true);
    proof {
        assert(checked_mat(*r) =~= checked_mat(r0));
        assert(unknown_mat(*r) =~= unknown_mat(r0));
    }
}

/// Appends a cell to the cross-chunk worklist.
fn push_pending(r: &mut Resolution, l: Loc)
    ensures
        final(r).calcs == old(r).calcs,
        final(r).committed == old(r).committed,
        final(r).pending@ == old(r).pending@.push(l),
{
    r.pending.push(l);
}

/// Appends a cell to a chunk's local worklist.
fn push_worklist(r: &mut Resolution, c: usize, i: usize)
    requires
        c < old(r).calcs@.len(),
    ensures
        final(r).calcs@.len() == old(r).calcs@.len(),
        final(r).committed == old(r).committed,
        final(r).pending == old(r).pending,
        forall|c2: int|
            0 <= c2 < old(r).calcs@.len() && c2 != c ==> final(r).calcs@[c2] == old(r).calcs@[c2],
        final(r).calcs@[c as int].update_tiles@ == old(r).calcs@[c as int].update_tiles@.push(
            i as usize,
        ),
        final(r).calcs@[c as int].moves == old(r).calcs@[c as int].moves,
        final(r).calcs@[c as int].moves_to == old(r).calcs@[c as int].moves_to,
        final(r).calcs@[c as int].unknown == old(r).calcs@[c as int].unknown,
        final(r).calcs@[c as int].checked == old(r).calcs@[c as int].checked,
        final(r).calcs@[c as int].cant_move == old(r).calcs@[c as int].cant_move,
        total_false(checked_mat(*final(r))) == total_false(checked_mat(*old(r))),
        total_true(unknown_mat(*final(r))) == total_true(unknown_mat(*old(r))),
{
    let ghost r0 = *r;
    let cal = &mut r.calcs[c];
    cal.update_tiles.push(i);
    proof {
        assert(checked_mat(*r) =~= checked_mat(r0));
        assert(unknown_mat(*r) =~= unknown_mat(r0));
    }
}

/// Records a committed move: assigns the source's move, claims the
/// destination, and appends to the commit-order list.
fn commit_move(r: &mut Resolution, src: Loc, dst: Loc)
    requires
        src.chunk < old(r).calcs@.len(),
        src.index < old(r).calcs@[src.chunk as int].moves@.len(),
        dst.chunk < old(r).calcs@.len(),
        dst.index < old(r).calcs@[dst.chunk as int].moves_to@.len(),
    ensures
        final(r).calcs@.len() == old(r).calcs@.len(),
        final(r).pending == old(r).pending,
        final(r).committed@ == old(r).committed@.push(MoveStep { src, dst }),
        forall|c2: int|
            0 <= c2 < old(r).calcs@.len() ==> {
                let a = #[trigger] final(r).calcs@[c2];
                let b = old(r).calcs@[c2];
                &&& a.checked == b.checked
                &&& a.unknown == b.unknown
                &&& a.cant_move == b.cant_move
                &&& a.update_tiles == b.update_tiles
                &&& a.moves@.len() == b.moves@.len()
                &&& a.moves_to@.len() == b.moves_to@.len()
            },
        forall|l: Loc|
            in_cal(*old(r), l) && l.index < old(r).calcs@[l.chunk as int].moves@.len() ==> move_at(
                *final(r),
                l,
            ) == if l == src {
                Some(dst)
            } else {
                move_at(*old(r), l)
            },
        forall|l: Loc|
            in_cal(*old(r), l) && l.index < old(r).calcs@[l.chunk as int].moves_to@.len()
                ==> moves_to_at(*final(r), l) == (l == dst || moves_to_at(*old(r), l)),
        total_false(checked_mat(*final(r))) == total_false(checked_mat(*old(r))),
        total_true(unknown_mat(*final(r))) == total_true(unknown_mat(*old(r))),
{
    let ghost r0 = *r;
    let cal = &mut r.calcs[src.chunk];
    cal.moves.set(src.index, Some(dst));
    let cal2 = &mut r.calcs[dst.chunk];
    cal2.moves_to.set(dst.index, true);
    r.committed.push(MoveStep { src, dst });
    proof {
        assert(checked_mat(*r) =~= checked_mat(r0));
        assert(unknown_mat(*r) =~= unknown_mat(r0));
    }
}

/// Queues the 3x3 neighborhood of a cell for re-resolution: a committed
/// move is about to vacate or fill a cell, which may unblock its neighbors.
/// During the local pass, in-chunk neighbors go to the chunk's own worklist
/// and out-of-chunk neighbors to the cross-chunk worklist; during the
/// cross-chunk pass every neighbor goes to the cross-chunk worklist.
#[verifier::loop_isolation(false)]
fn update_tiles_around(
    chunks: &Vec<Chunk>,
    Ghost(cs): Ghost<IVec2>,
    r: &mut Resolution,
    c: usize,
    idx: usize,
    global_pass: bool,
)
    requires
        chunks_wf(chunks@, cs),
        inv(chunks@, *old(r)),
        c < chunks@.len(),
        idx < chunks@[c as int].cells@.len(),
    ensures
        inv(chunks@, *final(r)),
        extends(chunks@, *old(r), *final(r)),
        final(r).committed == old(r).committed,
        final(r).calcs@.len() == old(r).calcs@.len(),
        forall|c2: int|
            0 <= c2 < old(r).calcs@.len() ==> {
                let a = #[trigger] final(r).calcs@[c2];
                let b = old(r).calcs@[c2];
                &&& a.checked == b.checked
                &&& a.moves == b.moves
                &&& a.moves_to == b.moves_to
                &&& a.cant_move == b.cant_move
                &&& a.unknown == b.unknown
            },
        final(r).pending@.len() >= old(r).pending@.len(),
        final(r).pending@.subrange(0, old(r).pending@.len() as int) == old(r).pending@,
        forall|c2: int|
            0 <= c2 < old(r).calcs@.len() && c2 != c ==> (#[trigger] final(r).calcs@[c2]).update_tiles
                == old(r).calcs@[c2].update_tiles,
        final(r).calcs@[c as int].update_tiles@.len() >= old(r).calcs@[c as int].update_tiles@.len(),
        final(r).calcs@[c as int].update_tiles@.subrange(
            0,
            old(r).calcs@[c as int].update_tiles@.len() as int,
        ) == old(r).calcs@[c as int].update_tiles@,
        forall|k: int|
            old(r).calcs@[c as int].update_tiles@.len() <= k < final(r).calcs@[c
                as int].update_tiles@.len() ==> occ_at(
                chunks@,
                (Loc { chunk: c, index: (#[trigger] final(r).calcs@[c as int].update_tiles@[k]) }),
            ) is Some && near_cells(
                chunks@,
                (Loc { chunk: c, index: idx }),
                (Loc { chunk: c, index: final(r).calcs@[c as int].update_tiles@[k] }),
            ),
        forall|k: int|
            old(r).pending@.len() <= k < final(r).pending@.len() ==> occ_at(
                chunks@,
                #[trigger] final(r).pending@[k],
            ) is Some && near_cells(chunks@, (Loc { chunk: c, index: idx }), final(r).pending@[k]),
        total_false(checked_mat(*final(r))) == total_false(checked_mat(*old(r))),
        total_true(unknown_mat(*final(r))) == total_true(unknown_mat(*old(r))),
{
    proof {
        lemma_extends_refl(chunks@, *r);
    }
    let mut dx: i32 = -1;
    while dx <= 1
        invariant
            -1 <= dx <= 2,
            inv(chunks@, *r),
            extends(chunks@, *old(r), *r),
            r.committed == old(r).committed,
            r.calcs@.len() == old(r).calcs@.len(),
            forall|c2: int|
                0 <= c2 < old(r).calcs@.len() ==> {
                    let a = #[trigger] r.calcs@[c2];
                    let b = old(r).calcs@[c2];
                    &&& a.checked == b.checked
                    &&& a.moves == b.moves
                    &&& a.moves_to == b.moves_to
                    &&& a.cant_move == b.cant_move
                    &&& a.unknown == b.unknown
                },
            r.pending@.len() >= old(r).pending@.len(),
            r.pending@.subrange(0, old(r).pending@.len() as int) == old(r).pending@,
            forall|c2: int|
                0 <= c2 < old(r).calcs@.len() && c2 != c ==> (#[trigger] r.calcs@[c2]).update_tiles
                    == old(r).calcs@[c2].update_tiles,
            r.calcs@[c as int].update_tiles@.len() >= old(r).calcs@[c as int].update_tiles@.len(),
            r.calcs@[c as int].update_tiles@.subrange(
                0,
                old(r).calcs@[c as int].update_tiles@.len() as int,
            ) == old(r).calcs@[c as int].update_tiles@,
            forall|k: int|
                old(r).calcs@[c as int].update_tiles@.len() <= k < r.calcs@[c
                    as int].update_tiles@.len() ==> occ_at(
                    chunks@,
                    (Loc { chunk: c, index: (#[trigger] r.calcs@[c as int].update_tiles@[k]) }),
                ) is Some && near_cells(
                    chunks@,
                    (Loc { chunk: c, index: idx }),
                    (Loc { chunk: c, index: r.calcs@[c as int].update_tiles@[k] }),
                ),
            forall|k: int|
                old(r).pending@.len() <= k < r.pending@.len() ==> occ_at(
                    chunks@,
                    #[trigger] r.pending@[k],
                ) is Some && near_cells(chunks@, (Loc { chunk: c, index: idx }), r.pending@[k]),
            total_false(checked_mat(*r)) == total_false(checked_mat(*old(r))),
            total_true(unknown_mat(*r)) == total_true(unknown_mat(*old(r))),
        decreases 2 - dx,
    {
        let mut dy: i32 = -1;
        while dy <= 1
            invariant
                -1 <= dx <= 1,
                -1 <= dy <= 2,
                inv(chunks@, *r),
                r.committed == old(r).committed,
                r.calcs@.len() == old(r).calcs@.len(),
                forall|c2: int|
                    0 <= c2 < old(r).calcs@.len() ==> {
                        let a = #[trigger] r.calcs@[c2];
                        let b = old(r).calcs@[c2];
                        &&& a.checked == b.checked
                        &&& a.moves == b.moves
                        &&& a.moves_to == b.moves_to
                        &&& a.cant_move == b.cant_move
                        &&& a.unknown == b.unknown
                    },
                r.pending@.len() >= old(r).pending@.len(),
                r.pending@.subrange(0, old(r).pending@.len() as int) == old(r).pending@,
                forall|c2: int|
                    0 <= c2 < old(r).calcs@.len() && c2 != c ==> (#[trigger] r.calcs@[c2]).update_tiles
                        == old(r).calcs@[c2].update_tiles,
                r.calcs@[c as int].update_tiles@.len() >= old(r).calcs@[c as int].update_tiles@.len(),
                r.calcs@[c as int].update_tiles@.subrange(
                    0,
                    old(r).calcs@[c as int].update_tiles@.len() as int,
                ) == old(r).calcs@[c as int].update_tiles@,
                forall|k: int|
                    old(r).calcs@[c as int].update_tiles@.len() <= k < r.calcs@[c
                        as int].update_tiles@.len() ==> occ_at(
                        chunks@,
                        (Loc { chunk: c, index: (#[trigger] r.calcs@[c as int].update_tiles@[k]) }),
                    ) is Some && near_cells(
                        chunks@,
                        (Loc { chunk: c, index: idx }),
                        (Loc { chunk: c, index: r.calcs@[c as int].update_tiles@[k] }),
                    ),
                forall|k: int|
                    old(r).pending@.len() <= k < r.pending@.len() ==> occ_at(
                        chunks@,
                        #[trigger] r.pending@[k],
                    ) is Some && near_cells(chunks@, (Loc { chunk: c, index: idx }), r.pending@[k]),
                total_false(checked_mat(*r)) == total_false(checked_mat(*old(r))),
                total_true(unknown_mat(*r)) == total_true(unknown_mat(*old(r))),
            decreases 2 - dy,
        {
            if dx != 0 || dy != 0 {
                let ghost rpre = *r;
                let target = chunks[c].shift_position(idx, IVec2 { x: dx, y: dy });
                match target {
                    Ok(i2) => {
                        if chunks[c].get_tile(i2).is_some() && !r.calcs[c].checked[i2] {
                            proof {
                                assert(occ_at(chunks@, (Loc { chunk: c, index: i2 })) is Some);
                                assert(near_cells(
                                    chunks@,
                                    (Loc { chunk: c, index: idx }),
                                    (Loc { chunk: c, index: i2 }),
                                ));
                            }
                            if global_pass {
                                push_pending(r, Loc { chunk: c, index: i2 });
                            } else {
                                push_worklist(r, c, i2);
                            }
                        }
                    },
                    Err(t) => {
                        match find_chunk(chunks, t.chunk_pos) {
                            Some(c2) => {
                                if chunks[c2].get_tile(t.index).is_some()
                                    && !r.calcs[c2].checked[t.index] {
                                    proof {
                                        assert(chunks@[c2 as int].wf());
                                        assert(occ_at(
                                            chunks@,
                                            (Loc { chunk: c2, index: t.index }),
                                        ) is Some);
                                        assert(near_cells(
                                            chunks@,
                                            (Loc { chunk: c, index: idx }),
                                            (Loc { chunk: c2, index: t.index }),
                                        ));
                                    }
                                    push_pending(r, Loc { chunk: c2, index: t.index });
                                }
                            },
                            None => {},
                        }
                    },
                }
                proof {
                    if r.pending@.len() > rpre.pending@.len() {
                        assert(r.pending@.subrange(0, old(r).pending@.len() as int)
                            =~= rpre.pending@.subrange(0, old(r).pending@.len() as int));
                        assert(checked_mat(*r) =~= checked_mat(rpre));
                        assert(unknown_mat(*r) =~= unknown_mat(rpre));
                    } else if !(r.calcs@ =~= rpre.calcs@) {
                        assert(checked_mat(*r) =~= checked_mat(rpre));
                        assert(unknown_mat(*r) =~= unknown_mat(rpre));
                    }
                    assert(r.calcs@[c as int].update_tiles@.subrange(
                        0,
                        old(r).calcs@[c as int].update_tiles@.len() as int,
                    ) =~= rpre.calcs@[c as int].update_tiles@.subrange(
                        0,
                        old(r).calcs@[c as int].update_tiles@.len() as int,
                    ));
                    assert forall|k: int|
                        old(r).calcs@[c as int].update_tiles@.len() <= k < r.calcs@[c
                            as int].update_tiles@.len() implies occ_at(
                        chunks@,
                        (Loc { chunk: c, index: (#[trigger] r.calcs@[c as int].update_tiles@[k]) }),
                    ) is Some && near_cells(
                        chunks@,
                        (Loc { chunk: c, index: idx }),
                        (Loc { chunk: c, index: r.calcs@[c as int].update_tiles@[k] }),
                    ) by {
                        if k < rpre.calcs@[c as int].update_tiles@.len() {
                            assert(r.calcs@[c as int].update_tiles@[k] == rpre.calcs@[c
                                as int].update_tiles@[k]);
                        }
                    }
                    assert forall|k: int|
                        old(r).pending@.len() <= k < r.pending@.len() implies occ_at(
                        chunks@,
                        #[trigger] r.pending@[k],
                    ) is Some && near_cells(chunks@, (Loc { chunk: c, index: idx }), r.pending@[k])
                        by {
                        if k < rpre.pending@.len() {
                            assert(r.pending@[k] == rpre.pending@[k]);
                        }
                    }
                    assert forall|j: int| 0 <= j < r.committed@.len() implies #[trigger] entry_ok(
                        chunks@,
                        *r,
                        j,
                    ) by {
                        assert(entry_ok(chunks@, rpre, j));
                        lemma_first_free_mono(
                            chunks@,
                            rpre,
                            *r,
                            rpre.committed@[j].src,
                            rpre.committed@[j].dst,
                        );
                    }
                    assert forall|l: Loc| loc_ok(chunks@, l) implies #[trigger] inv_cell(
                        chunks@,
                        *r,
                        l,
                    ) by {
                        assert(inv_cell(chunks@, rpre, l));
                        if cant_move_at(rpre, l) {
                            lemma_fully_blocked_mono(chunks@, rpre, *r, l);
                        }
                    }
                    assert(calc_wf(chunks@, *r));
                    assert forall|l: Loc| loc_ok(chunks@, l) implies #[trigger] extends_cell(
                        *old(r),
                        *r,
                        l,
                    ) by {
                        assert(extends_cell(*old(r), rpre, l));
                    }
                }
            }
            dy = dy + 1;
        }
        dx = dx + 1;
    }
}

/// Appending an in-range cell to the cross-chunk worklist preserves the
/// invariant and the evolution relation.
proof fn lemma_step_push_pending(
    chunks: Seq<Chunk>,
    rref: Resolution,
    r0: Resolution,
    r1: Resolution,
    l: Loc,
)
    requires
        inv(chunks, r0),
        extends(chunks, rref, r0),
        loc_ok(chunks, l),
        r1.calcs == r0.calcs,
        r1.committed == r0.committed,
        r1.pending@ == r0.pending@.push(l),
    ensures
        inv(chunks, r1),
        extends(chunks, rref, r1),
{
    assert forall|j: int| 0 <= j < r1.committed@.len() implies #[trigger] entry_ok(
        chunks,
        r1,
        j,
    ) by {
        assert(entry_ok(chunks, r0, j));
        lemma_first_free_mono(chunks, r0, r1, r0.committed@[j].src, r0.committed@[j].dst);
    }
    assert forall|l2: Loc| loc_ok(chunks, l2) implies #[trigger] inv_cell(chunks, r1, l2) by {
        assert(inv_cell(chunks, r0, l2));
        if cant_move_at(r0, l2) {
            lemma_fully_blocked_mono(chunks, r0, r1, l2);
        }
    }
    assert forall|k: int| 0 <= k < r1.pending@.len() implies loc_ok(
        chunks,
        #[trigger] r1.pending@[k],
    ) by {
        if k < r0.pending@.len() {
            assert(r1.pending@[k] == r0.pending@[k]);
        }
    }
    assert(calc_wf(chunks, r1));
    assert(r1.pending@.subrange(0, rref.pending@.len() as int) =~= r0.pending@.subrange(
        0,
        rref.pending@.len() as int,
    ));
    assert forall|l2: Loc| loc_ok(chunks, l2) implies #[trigger] extends_cell(rref, r1, l2) by {
        assert(extends_cell(rref, r0, l2));
    }
}

/// Defers the in-progress cell to the cross-chunk pass: marks it unknown
/// and queues it on the cross-chunk worklist.
fn defer_cell(
    chunks: &Vec<Chunk>,
    Ghost(cs): Ghost<IVec2>,
    r: &mut Resolution,
    c: usize,
    idx: usize,
    Ghost(rref): Ghost<Resolution>,
)
    requires
        chunks_wf(chunks@, cs),
        inv(chunks@, *old(r)),
        extends(chunks@, rref, *old(r)),
        c < chunks@.len(),
        idx < chunks@[c as int].cells@.len(),
        !checked_at(rref, Loc { chunk: c, index: idx }),
        checked_at(*old(r), Loc { chunk: c, index: idx }),
        move_at(*old(r), Loc { chunk: c, index: idx }) is None,
        !cant_move_at(*old(r), Loc { chunk: c, index: idx }),
        occ_at(chunks@, Loc { chunk: c, index: idx }) is Some,
    ensures
        inv(chunks@, *final(r)),
        extends(chunks@, rref, *final(r)),
        unknown_at(*final(r), Loc { chunk: c, index: idx }),
        checked_at(*final(r), Loc { chunk: c, index: idx }),
        total_false(checked_mat(*final(r))) == total_false(checked_mat(*old(r))),
        forall|l: Loc|
            #![trigger checked_at(*final(r), l)]
            loc_ok(chunks@, l) && l != (Loc { chunk: c, index: idx }) ==> checked_at(*final(r), l)
                == checked_at(*old(r), l) && decided(*final(r), l) == decided(*old(r), l),
{
    let ghost loc = Loc { chunk: c, index: idx };
    let ghost rpre = *r;
    set_unknown(r, c, idx);
    proof {
        lemma_step_unknown(chunks@, rref, rpre, *r, loc);
    }
    let ghost rpre2 = *r;
    push_pending(r, Loc { chunk: c, index: idx });
    proof {
        lemma_step_push_pending(chunks@, rref, rpre2, *r, loc);
        assert(checked_mat(*r) =~= checked_mat(rpre2));
        assert(checked_mat(rpre2) =~= checked_mat(rpre));
    }
}

/// Resolves one fresh, occupied cell of one chunk, recursively, staying
/// inside that chunk: the heart of the local movement calculator.  The
/// first candidate direction whose target resolves as free is committed; a
/// candidate that leaves the chunk defers the cell to the cross-chunk pass;
/// if no candidate works the cell is marked immovable.
#[verifier::loop_isolation(false)]
#[verifier::rlimit(60)]
fn resolve_local(
    chunks: &Vec<Chunk>,
    Ghost(cs): Ghost<IVec2>,
    r: &mut Resolution,
    c: usize,
    idx: usize,
) -> (status: MoveInfo)
    requires
        chunks_wf(chunks@, cs),
        inv(chunks@, *old(r)),
        c < chunks@.len(),
        idx < chunks@[c as int].cells@.len(),
        !checked_at(*old(r), Loc { chunk: c, index: idx }),
        occ_at(chunks@, Loc { chunk: c, index: idx }) is Some,
    ensures
        inv(chunks@, *final(r)),
        extends(chunks@, *old(r), *final(r)),
        checked_at(*final(r), Loc { chunk: c, index: idx }),
        total_false(checked_mat(*final(r))) < total_false(checked_mat(*old(r))),
        status is Possible ==> move_at(*final(r), Loc { chunk: c, index: idx }) is Some,
        status is Unknown ==> unknown_at(*final(r), Loc { chunk: c, index: idx }),
        status is Impossible ==> cant_move_at(*final(r), Loc { chunk: c, index: idx }),
        forall|l: Loc|
            loc_ok(chunks@, l) && #[trigger] checked_at(*final(r), l) && !decided(*final(r), l)
                ==> checked_at(*old(r), l) && !decided(*old(r), l),
    decreases phase1_measure(*old(r)),
{
    let ghost loc = Loc { chunk: c, index: idx };
    let ghost r0 = *r;
    proof {
        lemma_extends_refl(chunks@, *r);
    }
    let ghost rpre = *r;
    set_checked(r, c, idx);
    proof {
        lemma_step_checked(chunks@, r0, rpre, *r, loc);
        // the cell carries no move, no verdict, and no claim yet: any of
        // those would imply it had already been visited
        assert(inv_cell(chunks@, r0, loc));
        assert(move_at(*r, loc) is None);
        assert(!cant_move_at(*r, loc));
        assert(!unknown_at(*r, loc));
        if moves_to_at(*r, loc) {
            // a claimed cell is empty or vacating; an occupied claimed cell
            // carries a move, so it was visited — contradiction
            assert(inv_cell(chunks@, *r, loc));
            let j = choose|j: int|
                0 <= j < r.committed@.len() && (#[trigger] r.committed@[j]).dst == loc;
            assert(entry_ok(chunks@, *r, j));
            let j2 = choose|j2: int| 0 <= j2 < j && (#[trigger] r.committed@[j2]).src == loc;
            assert(entry_ok(chunks@, *r, j2));
            assert(move_at(*r, loc) is Some);
            assert(false);
        }
    }
    let content_opt = chunks[c].get_tile(idx);
    let content = content_opt.unwrap();
    proof {
        assert(occ_at(chunks@, loc) == Some(content));
    }
    let dirs = content.move_directions();
    let mut di: usize = 0;
    while di < dirs.len()
        invariant
            di <= dirs@.len(),
            inv(chunks@, *r),
            extends(chunks@, r0, *r),
            checked_at(*r, loc),
            move_at(*r, loc) is None,
            !unknown_at(*r, loc),
            !cant_move_at(*r, loc),
            total_false(checked_mat(*r)) < total_false(checked_mat(r0)),
            forall|l: Loc|
                #![trigger checked_at(*r, l)]
                loc_ok(chunks@, l) && checked_at(*r, l) && !decided(*r, l) && l != loc
                    ==> checked_at(r0, l) && !decided(r0, l),
            occ_at(chunks@, loc) == Some(content),
            dirs@ == spec_move_directions(content),
            forall|i2: int|
                0 <= i2 < di ==> candidate_blocked(
                    chunks@,
                    *r,
                    loc,
                    #[trigger] spec_move_directions(content)[i2],
                ),
        decreases dirs@.len() - di,
    {
        let dir = dirs[di];
        match chunks[c].shift_position(idx, dir) {
            Ok(tidx) => {
                let tloc = Loc { chunk: c, index: tidx };
                if !r.calcs[c].moves_to[tidx] {
                    let t_occ = chunks[c].get_tile(tidx);
                    let t_has_move = r.calcs[c].moves[tidx].is_some();
                    let ghost rpre2 = *r;
                    let tstat: MoveInfo;
                    if t_occ.is_none() || t_has_move {
                        tstat = MoveInfo::Possible;
                        proof {
                            lemma_extends_refl(chunks@, *r);
                        }
                    } else if r.calcs[c].unknown[tidx] {
                        tstat = MoveInfo::Unknown;
                        proof {
                            lemma_extends_refl(chunks@, *r);
                        }
                    } else if r.calcs[c].checked[tidx] {
                        tstat = MoveInfo::Impossible;
                        proof {
                            lemma_extends_refl(chunks@, *r);
                        }
                    } else {
                        proof {
                            lemma_total_false_bounds(checked_mat(*r));
                        }
                        tstat = resolve_local(chunks, Ghost(cs), r, c, tidx);
                    }
                    proof {
                        lemma_extends_trans(chunks@, r0, rpre2, *r);
                        assert(extends_cell(rpre2, *r, loc));
                        assert(extends_cell(rpre2, *r, tloc));
                        assert forall|l: Loc|
                            #![trigger checked_at(*r, l)]
                            loc_ok(chunks@, l) && checked_at(*r, l) && !decided(*r, l) && l != loc
                                implies checked_at(*old(r), l) && !decided(*old(r), l) by {
                            assert(checked_at(rpre2, l) && !decided(rpre2, l));
                            assert(checked_at(r0, l) && !decided(r0, l));
                        }
                    }
                    match tstat {
                        MoveInfo::Possible => {
                            // the target is free: empty, or its occupant is
                            // vacating; commit unless it was claimed during
                            // the recursive resolution
                            if !r.calcs[c].moves_to[tidx] {
                                proof {
                                    // the target still qualifies: empty or
                                    // carrying a move
                                    if occ_at(chunks@, tloc) is Some {
                                        assert(move_at(*r, tloc) is Some);
                                    }
                                    // a nonzero offset lands on a different
                                    // cell
                                    if tloc == loc {
                                        crate::tile::lemma_move_directions_small(content);
                                        assert(crate::tile::small_dir(dirs@[di as int]));
                                        assert(false);
                                    }
                                }
                                proof {
                                    assert(dirs@[di as int] == dir);
                                    assert forall|t: Loc|
                                        loc_ok(chunks@, t) && #[trigger] moves_to_at(rpre2, t)
                                            implies moves_to_at(*r, t) by {
                                        assert(extends_cell(rpre2, *r, t));
                                    }
                                    lemma_prefix_blocked_mono(
                                        chunks@,
                                        rpre2,
                                        *r,
                                        loc,
                                        content,
                                        di as int,
                                    );
                                    assert((#[trigger] spec_move_directions(content)[di as int])
                                        == dir);
                                    assert(first_free_step(chunks@, *r, loc, tloc));
                                }
                                let ghost rpre3 = *r;
                                commit_move(
                                    r,
                                    Loc { chunk: c, index: idx },
                                    Loc { chunk: c, index: tidx },
                                );
                                proof {
                                    lemma_step_commit(chunks@, r0, rpre3, *r, loc, tloc);
                                }
                                let ghost rmid = *r;
                                update_tiles_around(chunks, Ghost(cs), r, c, idx, false);
                                proof {
                                    lemma_extends_trans(chunks@, r0, rmid, *r);
                                    assert(extends_cell(rmid, *r, loc));
                                    assert forall|l: Loc|
                                        #![trigger checked_at(*r, l)]
                                        loc_ok(chunks@, l) && checked_at(*r, l) && !decided(*r, l)
                                            implies checked_at(*old(r), l) && !decided(
                                        *old(r),
                                        l,
                                    ) by {
                                        assert(checked_at(*r, l) == checked_at(rmid, l));
                                        assert(move_at(*r, l) == move_at(rmid, l));
                                        assert(cant_move_at(*r, l) == cant_move_at(rmid, l));
                                        assert(unknown_at(*r, l) == unknown_at(rmid, l));
                                        assert(move_at(rmid, loc) is Some);
                                        assert(l != loc);
                                        assert(checked_at(rmid, l) == checked_at(rpre3, l));
                                        assert(move_at(rmid, l) == move_at(rpre3, l));
                                        assert(cant_move_at(rmid, l) == cant_move_at(rpre3, l));
                                        assert(unknown_at(rmid, l) == unknown_at(rpre3, l));
                                    }
                                }
                                return MoveInfo::Possible;
                            }
                            // the destination was claimed meanwhile:
                            // blocked, try the next candidate
                            proof {
                                lemma_blocked_by_cell(chunks@, cs, *r, loc, dir, tloc);
                                assert forall|t: Loc|
                                    loc_ok(chunks@, t) && #[trigger] moves_to_at(rpre2, t)
                                        implies moves_to_at(*r, t) by {
                                    assert(extends_cell(rpre2, *r, t));
                                }
                                lemma_prefix_blocked_mono(
                                    chunks@,
                                    rpre2,
                                    *r,
                                    loc,
                                    content,
                                    di as int,
                                );
                            }
                        },
                        MoveInfo::Unknown => {
                            // the target's answer is deferred, so this
                            // cell's answer is too
                            defer_cell(chunks, Ghost(cs), r, c, idx, Ghost(r0));
                            return MoveInfo::Unknown;
                        },
                        MoveInfo::Impossible => {
                            // the target cannot move: it is occupied and
                            // stays, so this candidate is blocked
                            proof {
                                assert(occ_at(chunks@, tloc) is Some);
                                lemma_blocked_by_cell(chunks@, cs, *r, loc, dir, tloc);
                                assert forall|t: Loc|
                                    loc_ok(chunks@, t) && #[trigger] moves_to_at(rpre2, t)
                                        implies moves_to_at(*r, t) by {
                                    assert(extends_cell(rpre2, *r, t));
                                }
                                lemma_prefix_blocked_mono(
                                    chunks@,
                                    rpre2,
                                    *r,
                                    loc,
                                    content,
                                    di as int,
                                );
                            }
                        },
                    }
                } else {
                    // the target is already claimed as a destination:
                    // blocked
                    proof {
                        lemma_blocked_by_cell(chunks@, cs, *r, loc, dir, tloc);
                    }
                }
            },
            Err(_) => {
                // the target lies beyond this chunk: the local pass cannot
                // answer, defer to the cross-chunk pass
                defer_cell(chunks, Ghost(cs), r, c, idx, Ghost(r0));
                return MoveInfo::Unknown;
            },
        }
        di = di + 1;
    }
    // no candidate resolved: every candidate is blocked, the cell cannot
    // move and goes lazy
    proof {
        assert(fully_blocked(chunks@, *r, loc));
    }
    let ghost rpre4 = *r;
    set_cant_move(r, c, idx);
    proof {
        lemma_step_cant_move(chunks@, r0, rpre4, *r, loc);
        assert forall|l: Loc|
            loc_ok(chunks@, l) && #[trigger] checked_at(*r, l) && !decided(*r, l)
                implies checked_at(*old(r), l) && !decided(*old(r), l) by {
            assert(cant_move_at(*r, loc));
            assert(l != loc);
            if l.chunk != loc.chunk {
                assert(r.calcs@[l.chunk as int] == rpre4.calcs@[l.chunk as int]);
            }
            assert(checked_at(*r, l) == checked_at(rpre4, l));
            assert(move_at(*r, l) == move_at(rpre4, l));
            assert(cant_move_at(*r, l) == cant_move_at(rpre4, l));
            assert(unknown_at(*r, l) == unknown_at(rpre4, l));
        }
    }
    MoveInfo::Impossible
}

/// Changing only one chunk's worklist, keeping every entry in range,
/// preserves the invariant.
proof fn lemma_inv_worklist(chunks: Seq<Chunk>, r0: Resolution, r1: Resolution, c: int)
    requires
        inv(chunks, r0),
        0 <= c < r0.calcs@.len(),
        r1.committed == r0.committed,
        r1.pending == r0.pending,
        r1.calcs@.len() == r0.calcs@.len(),
        forall|c2: int| 0 <= c2 < r0.calcs@.len() && c2 != c ==> r1.calcs@[c2] == r0.calcs@[c2],
        r1.calcs@[c].checked == r0.calcs@[c].checked,
        r1.calcs@[c].moves == r0.calcs@[c].moves,
        r1.calcs@[c].moves_to == r0.calcs@[c].moves_to,
        r1.calcs@[c].cant_move == r0.calcs@[c].cant_move,
        r1.calcs@[c].unknown == r0.calcs@[c].unknown,
        forall|k: int|
            0 <= k < r1.calcs@[c].update_tiles@.len() ==> (
            #[trigger] r1.calcs@[c].update_tiles@[k]) < chunks[c].cells@.len(),
    ensures
        inv(chunks, r1),
        checked_mat(r1) == checked_mat(r0),
        unknown_mat(r1) == unknown_mat(r0),
{
    assert(checked_mat(r1) =~= checked_mat(r0));
    assert(unknown_mat(r1) =~= unknown_mat(r0));
    assert forall|j: int| 0 <= j < r1.committed@.len() implies #[trigger] entry_ok(
        chunks,
        r1,
        j,
    ) by {
        assert(entry_ok(chunks, r0, j));
        lemma_first_free_mono(chunks, r0, r1, r0.committed@[j].src, r0.committed@[j].dst);
    }
    assert forall|l: Loc| loc_ok(chunks, l) implies #[trigger] inv_cell(chunks, r1, l) by {
        assert(inv_cell(chunks, r0, l));
        if cant_move_at(r0, l) {
            lemma_fully_blocked_mono(chunks, r0, r1, l);
        }
    }
    assert(calc_wf(chunks, r1));
}

/// A resolution step keeps every visited cell answered and every covered
/// cell visited.
proof fn lemma_resolution_progress(chunks: Seq<Chunk>, r0: Resolution, r1: Resolution, upto: int)
    requires
        all_decided(chunks, r0),
        covered(chunks, r0, upto),
        extends(chunks, r0, r1),
        forall|l: Loc|
            loc_ok(chunks, l) && #[trigger] checked_at(r1, l) && !decided(r1, l) ==> checked_at(
                r0,
                l,
            ) && !decided(r0, l),
    ensures
        all_decided(chunks, r1),
        covered(chunks, r1, upto),
{
    assert forall|l: Loc| loc_ok(chunks, l) && #[trigger] checked_at(r1, l) implies decided(
        r1,
        l,
    ) by {
        if !decided(r1, l) {
            assert(checked_at(r0, l) && !decided(r0, l));
            assert(decided(r0, l));
        }
    }
    assert forall|l: Loc|
        loc_ok(chunks, l) && l.chunk < upto && #[trigger] occ_at(chunks, l) is Some
            && chunks[l.chunk as int].need_update@[l.index as int] implies checked_at(r1, l) by {
        assert(checked_at(r0, l));
        assert(extends_cell(r0, r1, l));
    }
}

/// Every visited cell carries an answer: a committed move, a cant-move
/// verdict, or a deferral.
pub open spec fn all_decided(chunks: Seq<Chunk>, r: Resolution) -> bool {
    forall|l: Loc| loc_ok(chunks, l) && #[trigger] checked_at(r, l) ==> decided(r, l)
}

/// Every active occupied cell of the first `upto` chunks has been visited.
pub open spec fn covered(chunks: Seq<Chunk>, r: Resolution, upto: int) -> bool {
    forall|l: Loc|
        loc_ok(chunks, l) && l.chunk < upto && #[trigger] occ_at(chunks, l) is Some
            && chunks[l.chunk as int].need_update@[l.index as int] ==> checked_at(r, l)
}

/// Runs the whole per-tick resolution over the world: the local pass over
/// every chunk in order, then the cross-chunk pass draining the deferred
/// worklist.  Occupancy is only read, never written.  The resulting commit
/// list is injective, and the resolution is total: nothing stays deferred,
/// and every active occupied cell ends with either a committed move or a
/// cant-move verdict.
#[verifier::loop_isolation(false)]
pub fn calculate_movement(chunks: &Vec<Chunk>, Ghost(cs): Ghost<IVec2>) -> (r: Resolution)
    requires
        chunks_wf(chunks@, cs),
    ensures
        inv(chunks@, r),
        forall|l: Loc| loc_ok(chunks@, l) ==> !#[trigger] unknown_at(r, l),
        forall|l: Loc|
            loc_ok(chunks@, l) && #[trigger] checked_at(r, l) ==> move_at(r, l) is Some
                || cant_move_at(r, l),
        forall|l: Loc|
            loc_ok(chunks@, l) && #[trigger] occ_at(chunks@, l) is Some
                && chunks@[l.chunk as int].need_update@[l.index as int] ==> checked_at(r, l),
{
    let n = chunks.len();
    let mut calcs: Vec<MovementCalculation> = Vec::new();
    let mut c: usize = 0;
    while c < n
        invariant
            c <= n,
            calcs@.len() == c,
            forall|c2: int|
                0 <= c2 < c ==> {
                    let cal = #[trigger] calcs@[c2];
                    &&& cal.checked@.len() == chunks@[c2].cells@.len()
                    &&& cal.moves@.len() == chunks@[c2].cells@.len()
                    &&& cal.moves_to@.len() == chunks@[c2].cells@.len()
                    &&& cal.cant_move@.len() == chunks@[c2].cells@.len()
                    &&& cal.unknown@.len() == chunks@[c2].cells@.len()
                    &&& forall|k: int|
                        0 <= k < cal.update_tiles@.len() ==> (#[trigger] cal.update_tiles@[k])
                            < chunks@[c2].cells@.len()
                    &&& forall|i: int|
                        0 <= i < chunks@[c2].cells@.len() ==> !cal.checked@[i] && cal.moves@[i]
                            is None && !cal.moves_to@[i] && !cal.cant_move@[i] && !cal.unknown@[i]
                },
        decreases n - c,
    {
        proof {
            assert(chunks@[c as int].wf());
        }
        calcs.push(chunks[c].start_calculation());
        c = c + 1;
    }
    let mut r = Resolution { calcs, committed: Vec::new(), pending: Vec::new() };
    proof {
        assert(calc_wf(chunks@, r));
        assert forall|l: Loc| loc_ok(chunks@, l) implies #[trigger] inv_cell(chunks@, r, l) by {
            assert(!checked_at(r, l));
            assert(move_at(r, l) is None);
            assert(!moves_to_at(r, l));
            assert(!cant_move_at(r, l));
            assert(!unknown_at(r, l));
        }
        assert(inv(chunks@, r));
        assert(all_decided(chunks@, r));
    }
    // the local pass: drain each chunk's worklist in chunk order, then
    // sweep the chunk so every active occupied cell is resolved
    c = 0;
    while c < n
        invariant
            c <= n,
            inv(chunks@, r),
            all_decided(chunks@, r),
            covered(chunks@, r, c as int),
        decreases n - c,
    {
        while r.calcs[c].update_tiles.len() > 0
            invariant
                inv(chunks@, r),
                all_decided(chunks@, r),
                covered(chunks@, r, c as int),
                c < n,
            decreases total_false(checked_mat(r)), r.calcs@[c as int].update_tiles@.len(),
        {
            proof {
                lemma_total_false_bounds(checked_mat(r));
            }
            let ghost rpre = r;
            let cal = &mut r.calcs[c];
            let i_opt = cal.update_tiles.pop();
            proof {
                lemma_inv_worklist(chunks@, rpre, r, c as int);
                assert forall|l: Loc|
                    loc_ok(chunks@, l) && #[trigger] checked_at(r, l) implies decided(r, l) by {
                    if l.chunk != c {
                        assert(r.calcs@[l.chunk as int] == rpre.calcs@[l.chunk as int]);
                    }
                    assert(checked_at(rpre, l) && decided(rpre, l) == decided(r, l));
                }
                assert forall|l: Loc|
                    loc_ok(chunks@, l) && l.chunk < c && #[trigger] occ_at(chunks@, l) is Some
                        && chunks@[l.chunk as int].need_update@[l.index as int]
                        implies checked_at(r, l) by {
                    assert(checked_at(rpre, l));
                }
            }
            let i = i_opt.unwrap();
            if !r.calcs[c].checked[i] && chunks[c].get_tile(i).is_some() {
                let ghost rcall = r;
                resolve_local(chunks, Ghost(cs), &mut r, c, i);
                proof {
                    lemma_resolution_progress(chunks@, rcall, r, c as int);
                }
            }
            proof {
                lemma_total_false_bounds(checked_mat(r));
            }
        }
        // the sweep: anything the worklist policy left fresh is resolved
        // here, so resolution is total on the active set
        let m_cells = chunks[c].cells.len();
        let mut i2: usize = 0;
        while i2 < m_cells
            invariant
                i2 <= m_cells,
                c < n,
                m_cells == chunks@[c as int].cells@.len(),
                inv(chunks@, r),
                all_decided(chunks@, r),
                covered(chunks@, r, c as int),
                forall|l: Loc|
                    loc_ok(chunks@, l) && l.chunk == c && l.index < i2 && #[trigger] occ_at(
                        chunks@,
                        l,
                    ) is Some && chunks@[l.chunk as int].need_update@[l.index as int]
                        ==> checked_at(r, l),
            decreases total_false(checked_mat(r)), m_cells - i2,
        {
            proof {
                lemma_total_false_bounds(checked_mat(r));
            }
            if chunks[c].need_update[i2] && chunks[c].get_tile(i2).is_some()
                && !r.calcs[c].checked[i2] {
                let ghost rcall = r;
                resolve_local(chunks, Ghost(cs), &mut r, c, i2);
                proof {
                    lemma_resolution_progress(chunks@, rcall, r, c as int);
                    assert forall|l: Loc|
                        loc_ok(chunks@, l) && l.chunk == c && l.index < i2 + 1 && #[trigger] occ_at(
                            chunks@,
                            l,
                        ) is Some && chunks@[l.chunk as int].need_update@[l.index as int]
                            implies checked_at(r, l) by {
                        if l.index < i2 {
                            assert(checked_at(rcall, l));
                            assert(extends_cell(rcall, r, l));
                        } else {
                            assert(checked_at(r, Loc { chunk: c, index: i2 }));
                        }
                    }
                }
            }
            i2 = i2 + 1;
            proof {
                lemma_total_false_bounds(checked_mat(r));
            }
        }
        proof {
            assert forall|l: Loc|
                loc_ok(chunks@, l) && l.chunk < c + 1 && #[trigger] occ_at(chunks@, l) is Some
                    && chunks@[l.chunk as int].need_update@[l.index as int] implies checked_at(
                r,
                l,
            ) by {
                if l.chunk == c {
                    assert(chunks@[c as int].wf());
                    assert(l.index < m_cells);
                }
            }
        }
        c = c + 1;
    }
    // the cross-chunk pass: drain the deferred worklist, which may grow as
    // commits reactivate boundary neighbors
    let mut k: usize = 0;
    while k < r.pending.len()
        invariant
            inv(chunks@, r),
            all_decided(chunks@, r),
            covered(chunks@, r, n as int),
        decreases phase2_measure(r), r.pending@.len() - k,
    {
        proof {
            lemma_total_false_bounds(checked_mat(r));
            lemma_total_true_bounds(unknown_mat(r));
        }
        let l = r.pending[k];
        proof {
            assert(loc_ok(chunks@, r.pending@[k as int]));
        }
        if r.calcs[l.chunk].unknown[l.index] {
            let ghost rcall = r;
            resolve_global(chunks, Ghost(cs), &mut r, l.chunk, l.index);
            proof {
                lemma_resolution_progress(chunks@, rcall, r, n as int);
            }
        } else if !r.calcs[l.chunk].checked[l.index] && chunks[l.chunk].get_tile(
            l.index,
        ).is_some() {
            let ghost rcall = r;
            resolve_global(chunks, Ghost(cs), &mut r, l.chunk, l.index);
            proof {
                lemma_resolution_progress(chunks@, rcall, r, n as int);
            }
        }
        k = k + 1;
        proof {
            lemma_total_false_bounds(checked_mat(r));
            lemma_total_true_bounds(unknown_mat(r));
        }
    }
    // the final sweep: re-resolve anything still deferred, so nothing
    // stays unknown
    let mut c2: usize = 0;
    while c2 < n
        invariant
            c2 <= n,
            inv(chunks@, r),
            all_decided(chunks@, r),
            covered(chunks@, r, n as int),
            forall|l: Loc|
                loc_ok(chunks@, l) && l.chunk < c2 ==> !#[trigger] unknown_at(r, l),
        decreases n - c2,
    {
        proof {
            lemma_total_false_bounds(checked_mat(r));
            lemma_total_true_bounds(unknown_mat(r));
        }
        let m2 = chunks[c2].cells.len();
        let mut i3: usize = 0;
        while i3 < m2
            invariant
                i3 <= m2,
                c2 < n,
                m2 == chunks@[c2 as int].cells@.len(),
                inv(chunks@, r),
                all_decided(chunks@, r),
                covered(chunks@, r, n as int),
                forall|l: Loc|
                    loc_ok(chunks@, l) && l.chunk < c2 ==> !#[trigger] unknown_at(r, l),
                forall|l: Loc|
                    loc_ok(chunks@, l) && l.chunk == c2 && l.index < i3 ==> !#[trigger] unknown_at(
                        r,
                        l,
                    ),
            decreases phase2_measure(r), m2 - i3,
        {
            proof {
                lemma_total_false_bounds(checked_mat(r));
                lemma_total_true_bounds(unknown_mat(r));
            }
            if r.calcs[c2].unknown[i3] {
                let ghost rcall = r;
                resolve_global(chunks, Ghost(cs), &mut r, c2, i3);
                proof {
                    lemma_resolution_progress(chunks@, rcall, r, n as int);
                    assert forall|l: Loc|
                        loc_ok(chunks@, l) && (l.chunk < c2 || (l.chunk == c2 && l.index < i3
                            + 1)) implies !#[trigger] unknown_at(r, l) by {
                        if l == (Loc { chunk: c2, index: i3 }) {
                            assert(!unknown_at(r, l));
                        } else {
                            assert(!unknown_at(rcall, l));
                        }
                    }
                }
            }
            i3 = i3 + 1;
            proof {
                lemma_total_false_bounds(checked_mat(r));
                lemma_total_true_bounds(unknown_mat(r));
            }
        }
        proof {
            assert forall|l: Loc|
                loc_ok(chunks@, l) && l.chunk < c2 + 1 implies !#[trigger] unknown_at(r, l) by {
                if l.chunk == c2 {
                    assert(chunks@[c2 as int].wf());
                    assert(l.index < m2);
                }
            }
        }
        c2 = c2 + 1;
    }
    proof {
        assert forall|l: Loc| loc_ok(chunks@, l) implies !#[trigger] unknown_at(r, l) by {
            assert(l.chunk < n);
        }
        assert forall|l: Loc|
            loc_ok(chunks@, l) && #[trigger] checked_at(r, l) implies move_at(r, l) is Some
            || cant_move_at(r, l) by {
            assert(decided(r, l));
            assert(!unknown_at(r, l));
        }
    }
    r
}

/// Resolves one cell with cross-chunk awareness: the heart of the
/// cross-chunk resolver.  The cell is either fresh and occupied, or was
/// deferred by the local pass and is taken back for re-resolution.
/// Recursion follows candidates across chunk boundaries; a target in a
/// chunk the world does not hold cannot be moved into.  Nothing is
/// deferred again, so every cell resolves here.
#[verifier::loop_isolation(false)]
#[verifier::rlimit(60)]
fn resolve_global(
    chunks: &Vec<Chunk>,
    Ghost(cs): Ghost<IVec2>,
    r: &mut Resolution,
    c: usize,
    idx: usize,
) -> (status: MoveInfo)
    requires
        chunks_wf(chunks@, cs),
        inv(chunks@, *old(r)),
        c < chunks@.len(),
        idx < chunks@[c as int].cells@.len(),
        (!checked_at(*old(r), Loc { chunk: c, index: idx }) && occ_at(
            chunks@,
            Loc { chunk: c, index: idx },
        ) is Some) || unknown_at(*old(r), Loc { chunk: c, index: idx }),
    ensures
        inv(chunks@, *final(r)),
        extends(chunks@, *old(r), *final(r)),
        checked_at(*final(r), Loc { chunk: c, index: idx }),
        !unknown_at(*final(r), Loc { chunk: c, index: idx }),
        phase2_measure(*final(r)) < phase2_measure(*old(r)),
        status is Possible ==> move_at(*final(r), Loc { chunk: c, index: idx }) is Some,
        status is Impossible ==> cant_move_at(*final(r), Loc { chunk: c, index: idx }),
        !(status is Unknown),
        forall|l: Loc|
            loc_ok(chunks@, l) && #[trigger] checked_at(*final(r), l) && !decided(*final(r), l)
                ==> checked_at(*old(r), l) && !decided(*old(r), l),
        forall|l: Loc|
            loc_ok(chunks@, l) && !unknown_at(*old(r), l) ==> !#[trigger] unknown_at(
                *final(r),
                l,
            ),
    decreases phase2_measure(*old(r)),
{
    let ghost loc = Loc { chunk: c, index: idx };
    let ghost r0 = *r;
    proof {
        lemma_extends_refl(chunks@, *r);
    }
    let ghost rpre = *r;
    if r.calcs[c].unknown[idx] {
        // taking a deferred cell back for re-resolution
        clear_unknown(r, c, idx);
        proof {
            lemma_step_clear_unknown(chunks@, r0, rpre, *r, loc);
        }
    } else {
        set_checked(r, c, idx);
        proof {
            lemma_step_checked(chunks@, r0, rpre, *r, loc);
            assert(inv_cell(chunks@, r0, loc));
            assert(move_at(*r, loc) is None);
            assert(!cant_move_at(*r, loc));
            assert(!unknown_at(*r, loc));
        }
    }
    proof {
        if moves_to_at(*r, loc) {
            // an occupied claimed cell carries a move — contradiction with
            // having none
            assert(inv_cell(chunks@, *r, loc));
            let j = choose|j: int|
                0 <= j < r.committed@.len() && (#[trigger] r.committed@[j]).dst == loc;
            assert(entry_ok(chunks@, *r, j));
            let j2 = choose|j2: int| 0 <= j2 < j && (#[trigger] r.committed@[j2]).src == loc;
            assert(entry_ok(chunks@, *r, j2));
            assert(move_at(*r, loc) is Some);
            assert(false);
        }
    }
    let content_opt = chunks[c].get_tile(idx);
    let content = content_opt.unwrap();
    proof {
        assert(occ_at(chunks@, loc) == Some(content));
    }
    let dirs = content.move_directions();
    let mut di: usize = 0;
    while di < dirs.len()
        invariant
            di <= dirs@.len(),
            inv(chunks@, *r),
            extends(chunks@, r0, *r),
            checked_at(*r, loc),
            move_at(*r, loc) is None,
            !unknown_at(*r, loc),
            !cant_move_at(*r, loc),
            phase2_measure(*r) < phase2_measure(r0),
            forall|l: Loc|
                #![trigger checked_at(*r, l)]
                loc_ok(chunks@, l) && checked_at(*r, l) && !decided(*r, l) && l != loc
                    ==> checked_at(r0, l) && !decided(r0, l),
            forall|l: Loc|
                loc_ok(chunks@, l) && !unknown_at(r0, l) ==> !#[trigger] unknown_at(*r, l),
            occ_at(chunks@, loc) == Some(content),
            dirs@ == spec_move_directions(content),
            forall|i2: int|
                0 <= i2 < di ==> candidate_blocked(
                    chunks@,
                    *r,
                    loc,
                    #[trigger] spec_move_directions(content)[i2],
                ),
        decreases dirs@.len() - di,
    {
        let dir = dirs[di];
        let target: Option<Loc>;
        match chunks[c].shift_position(idx, dir) {
            Ok(tidx) => {
                target = Some(Loc { chunk: c, index: tidx });
            },
            Err(t) => {
                match find_chunk(chunks, t.chunk_pos) {
                    Some(c2) => {
                        target = Some(Loc { chunk: c2, index: t.index });
                        proof {
                            assert(chunks@[c2 as int].wf());
                        }
                    },
                    None => {
                        target = None;
                        // the candidate position is owned by no loaded
                        // chunk: nothing can move there
                        proof {
                            lemma_blocked_by_unloaded(
                                chunks@,
                                cs,
                                *r,
                                loc,
                                dir,
                                t.chunk_pos,
                                t.index as int,
                            );
                        }
                    },
                }
            },
        }
        proof {
            match target {
                Some(tl2) => {
                    assert(chunks@[tl2.chunk as int].wf());
                    assert(global_x(
                        chunks@[tl2.chunk as int].chunk_pos,
                        chunks@[tl2.chunk as int].chunk_size,
                        tl2.index as int,
                    ) == global_x(
                        chunks@[loc.chunk as int].chunk_pos,
                        chunks@[loc.chunk as int].chunk_size,
                        loc.index as int,
                    ) + dir.x);
                    assert(global_y(
                        chunks@[tl2.chunk as int].chunk_pos,
                        chunks@[tl2.chunk as int].chunk_size,
                        tl2.index as int,
                    ) == global_y(
                        chunks@[loc.chunk as int].chunk_pos,
                        chunks@[loc.chunk as int].chunk_size,
                        loc.index as int,
                    ) + dir.y);
                },
                None => {},
            }
        }
        match target {
            Some(tl) => {
                proof {
                    assert(chunks@[tl.chunk as int].wf());
                    assert(loc_ok(chunks@, tl));
                    // a candidate target is a different cell: either it
                    // lies in another chunk, or a nonzero offset moved the
                    // global position within this chunk
                    if tl == loc {
                        crate::tile::lemma_move_directions_small(content);
                        assert(crate::tile::small_dir(dirs@[di as int]));
                        assert(false);
                    }
                }
                if !r.calcs[tl.chunk].moves_to[tl.index] {
                    let t_occ = chunks[tl.chunk].get_tile(tl.index);
                    let t_has_move = r.calcs[tl.chunk].moves[tl.index].is_some();
                    let ghost rpre2 = *r;
                    let tstat: MoveInfo;
                    if t_occ.is_none() || t_has_move {
                        tstat = MoveInfo::Possible;
                        proof {
                            lemma_extends_refl(chunks@, *r);
                        }
                    } else if r.calcs[tl.chunk].unknown[tl.index] {
                        proof {
                            lemma_total_false_bounds(checked_mat(*r));
                            lemma_total_true_bounds(unknown_mat(*r));
                        }
                        tstat = resolve_global(chunks, Ghost(cs), r, tl.chunk, tl.index);
                    } else if r.calcs[tl.chunk].checked[tl.index] {
                        tstat = MoveInfo::Impossible;
                        proof {
                            lemma_extends_refl(chunks@, *r);
                        }
                    } else {
                        proof {
                            lemma_total_false_bounds(checked_mat(*r));
                            lemma_total_true_bounds(unknown_mat(*r));
                        }
                        tstat = resolve_global(chunks, Ghost(cs), r, tl.chunk, tl.index);
                    }
                    proof {
                        lemma_extends_trans(chunks@, r0, rpre2, *r);
                        assert(extends_cell(rpre2, *r, loc));
                        assert(extends_cell(rpre2, *r, tl));
                        assert forall|l: Loc|
                            loc_ok(chunks@, l) && #[trigger] checked_at(*r, l) && !decided(*r, l)
                                && l != loc implies checked_at(r0, l) && !decided(r0, l) by {
                            assert(checked_at(rpre2, l) && !decided(rpre2, l));
                        }
                    }
                    match tstat {
                        MoveInfo::Possible => {
                            if !r.calcs[tl.chunk].moves_to[tl.index] {
                                proof {
                                    if occ_at(chunks@, tl) is Some {
                                        assert(move_at(*r, tl) is Some);
                                    }
                                }
                                proof {
                                    assert(dirs@[di as int] == dir);
                                    assert(chunks@[tl.chunk as int].chunk_size == cs);
                                    assert forall|t: Loc|
                                        loc_ok(chunks@, t) && #[trigger] moves_to_at(rpre2, t)
                                            implies moves_to_at(*r, t) by {
                                        assert(extends_cell(rpre2, *r, t));
                                    }
                                    lemma_prefix_blocked_mono(
                                        chunks@,
                                        rpre2,
                                        *r,
                                        loc,
                                        content,
                                        di as int,
                                    );
                                    assert((#[trigger] spec_move_directions(
                                        content,
                                    )[di as int]) == dir);
                                    assert(first_free_step(chunks@, *r, loc, tl));
                                }
                                let ghost rpre3 = *r;
                                commit_move(r, Loc { chunk: c, index: idx }, tl);
                                proof {
                                    lemma_step_commit(chunks@, r0, rpre3, *r, loc, tl);
                                }
                                let ghost rmid = *r;
                                update_tiles_around(chunks, Ghost(cs), r, c, idx, true);
                                proof {
                                    lemma_extends_trans(chunks@, r0, rmid, *r);
                                    assert(extends_cell(rmid, *r, loc));
                                    assert forall|l: Loc|
                                        loc_ok(chunks@, l) && #[trigger] checked_at(*r, l)
                                            && !decided(*r, l) implies checked_at(*old(r), l)
                                        && !decided(*old(r), l) by {
                                        assert(checked_at(*r, l) == checked_at(rmid, l));
                                        assert(move_at(*r, l) == move_at(rmid, l));
                                        assert(cant_move_at(*r, l) == cant_move_at(rmid, l));
                                        assert(unknown_at(*r, l) == unknown_at(rmid, l));
                                        assert(move_at(rmid, loc) is Some);
                                        assert(l != loc);
                                        assert(checked_at(rmid, l) == checked_at(rpre3, l));
                                        assert(move_at(rmid, l) == move_at(rpre3, l));
                                        assert(cant_move_at(rmid, l) == cant_move_at(rpre3, l));
                                        assert(unknown_at(rmid, l) == unknown_at(rpre3, l));
                                    }
                                    assert forall|l: Loc|
                                        loc_ok(chunks@, l) && !unknown_at(*old(r), l)
                                            implies !#[trigger] unknown_at(*r, l) by {
                                        assert(unknown_at(*r, l) == unknown_at(rmid, l));
                                        assert(unknown_at(rmid, l) == unknown_at(rpre3, l));
                                        assert(!unknown_at(r0, l));
                                    }
                                }
                                return MoveInfo::Possible;
                            } else {
                                // the destination was claimed meanwhile:
                                // blocked, try the next candidate
                                proof {
                                    lemma_blocked_by_cell(chunks@, cs, *r, loc, dir, tl);
                                    assert forall|t: Loc|
                                        loc_ok(chunks@, t) && #[trigger] moves_to_at(rpre2, t)
                                            implies moves_to_at(*r, t) by {
                                        assert(extends_cell(rpre2, *r, t));
                                    }
                                    lemma_prefix_blocked_mono(
                                        chunks@,
                                        rpre2,
                                        *r,
                                        loc,
                                        content,
                                        di as int,
                                    );
                                }
                            }
                        },
                        MoveInfo::Impossible => {
                            // the target cannot move: it is occupied and
                            // stays, so this candidate is blocked
                            proof {
                                assert(occ_at(chunks@, tl) is Some);
                                lemma_blocked_by_cell(chunks@, cs, *r, loc, dir, tl);
                                assert forall|t: Loc|
                                    loc_ok(chunks@, t) && #[trigger] moves_to_at(rpre2, t)
                                        implies moves_to_at(*r, t) by {
                                    assert(extends_cell(rpre2, *r, t));
                                }
                                lemma_prefix_blocked_mono(
                                    chunks@,
                                    rpre2,
                                    *r,
                                    loc,
                                    content,
                                    di as int,
                                );
                            }
                        },
                        MoveInfo::Unknown => {},
                    }
                } else {
                    // the target is already claimed as a destination:
                    // blocked
                    proof {
                        lemma_blocked_by_cell(chunks@, cs, *r, loc, dir, tl);
                    }
                }
            },
            None => {},
        }
        di = di + 1;
    }
    // no candidate resolved: every candidate is blocked, the cell cannot
    // move and goes lazy
    proof {
        assert(fully_blocked(chunks@, *r, loc));
    }
    let ghost rpre4 = *r;
    set_cant_move(r, c, idx);
    proof {
        lemma_step_cant_move(chunks@, r0, rpre4, *r, loc);
        assert forall|l: Loc|
            loc_ok(chunks@, l) && !unknown_at(*old(r), l) implies !#[trigger] unknown_at(
            *r,
            l,
        ) by {
            assert(unknown_at(*r, l) == unknown_at(rpre4, l));
            assert(!unknown_at(r0, l));
        }
        assert forall|l: Loc|
            #![trigger checked_at(*r, l)]
            loc_ok(chunks@, l) && checked_at(*r, l) && !decided(*r, l) implies checked_at(
            *old(r),
            l,
        ) && !decided(*old(r), l) by {
            assert(cant_move_at(*r, loc));
            assert(l != loc);
            if l.chunk != loc.chunk {
                assert(r.calcs@[l.chunk as int] == rpre4.calcs@[l.chunk as int]);
            }
            assert(checked_at(*r, l) == checked_at(rpre4, l));
            assert(move_at(*r, l) == move_at(rpre4, l));
            assert(cant_move_at(*r, l) == cant_move_at(rpre4, l));
            assert(unknown_at(*r, l) == unknown_at(rpre4, l));
        }
    }
    MoveInfo::Impossible
}

/// Finds the chunk at a given chunk coordinate, if the world holds one.
pub fn find_chunk(chunks: &Vec<Chunk>, pos: IVec2) -> (r: Option<usize>)
    ensures
        match r {
            Some(c) => c < chunks@.len() && chunks@[c as int].chunk_pos == pos,
            None => forall|c: int| 0 <= c < chunks@.len() ==> (#[trigger] chunks@[c]).chunk_pos != pos,
        },
{
    let n = chunks.len();
    let mut k: usize = 0;
    while k < n
        invariant
            k <= n,
            n == chunks@.len(),
            forall|c: int| 0 <= c < k ==> (#[trigger] chunks@[c]).chunk_pos != pos,
        decreases n - k,
    {
        if chunks[k].chunk_pos == pos {
            return Some(k);
        }
        k = k + 1;
    }
    None
}

impl Chunk {
    /// Starts this chunk's per-tick calculation: fresh per-cell state and a
    /// worklist holding every active occupied cell.
    pub fn start_calculation(&self) -> (cal: MovementCalculation)
        requires
            self.need_update.len() == self.cells.len(),
        ensures
            cal.checked@.len() == self.cells@.len(),
            cal.moves@.len() == self.cells@.len(),
            cal.moves_to@.len() == self.cells@.len(),
            cal.cant_move@.len() == self.cells@.len(),
            cal.unknown@.len() == self.cells@.len(),
            forall|i: int| 0 <= i < self.cells@.len() ==> !(#[trigger] cal.checked@[i]),
            forall|i: int| 0 <= i < self.cells@.len() ==> (#[trigger] cal.moves@[i]) is None,
            forall|i: int| 0 <= i < self.cells@.len() ==> !(#[trigger] cal.moves_to@[i]),
            forall|i: int| 0 <= i < self.cells@.len() ==> !(#[trigger] cal.cant_move@[i]),
            forall|i: int| 0 <= i < self.cells@.len() ==> !(#[trigger] cal.unknown@[i]),
            forall|k: int|
                0 <= k < cal.update_tiles@.len() ==> (#[trigger] cal.update_tiles@[k])
                    < self.cells@.len(),
            forall|i: int|
                0 <= i < self.cells@.len() && self.need_update@[i] && self.cells@[i] is Some
                    ==> cal.update_tiles@.contains(i as usize),
            forall|k: int|
                0 <= k < cal.update_tiles@.len() ==> self.need_update@[(
                #[trigger] cal.update_tiles@[k]) as int] && self.cells@[cal.update_tiles@[k] as int]
                    is Some,
    {
        let n = self.cells.len();
        let mut update_tiles: Vec<usize> = Vec::new();
        let mut i: usize = 0;
        while i < n
            invariant
                i <= n,
                n == self.cells@.len(),
                self.need_update.len() == self.cells.len(),
                forall|k: int|
                    0 <= k < update_tiles@.len() ==> (#[trigger] update_tiles@[k]) < n,
                forall|j: int|
                    0 <= j < i && self.need_update@[j] && self.cells@[j] is Some
                        ==> update_tiles@.contains(j as usize),
                forall|k: int|
                    0 <= k < update_tiles@.len() ==> self.need_update@[(
                    #[trigger] update_tiles@[k]) as int] && self.cells@[update_tiles@[k] as int]
                        is Some,
            decreases n - i,
        {
            let ghost before = update_tiles@;
            if self.need_update[i] && self.cells[i].is_some() {
                update_tiles.push(i);
            }
            proof {
                assert forall|j: int|
                    0 <= j < i + 1 && self.need_update@[j] && self.cells@[j] is Some
                        implies update_tiles@.contains(j as usize) by {
                    if j < i {
                        let k = choose|k: int| 0 <= k < before.len() && before[k] == j as usize;
                        assert(update_tiles@[k] == j as usize);
                    } else {
                        assert(update_tiles@[update_tiles@.len() - 1] == i as usize);
                    }
                }
            }
            i = i + 1;
        }
        MovementCalculation {
            checked: crate::chunk::data_array(false, n),
            moves: crate::chunk::data_array(None, n),
            moves_to: crate::chunk::data_array(false, n),
            cant_move: crate::chunk::data_array(false, n),
            unknown: crate::chunk::data_array(false, n),
            update_tiles,
        }
    }
}

} // verus!
