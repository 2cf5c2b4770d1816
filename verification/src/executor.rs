//! The move executor: applies the finalized commit-order move list to the
//! occupancy arrays.
//!
//! The resolver commits a move only when its destination is empty or
//! already committed to vacate earlier, so executing the list in commit
//! order finds every destination empty at its turn: every source becomes
//! empty (unless refilled by a later move), every destination receives its
//! source's material, no cell ever briefly holds two tiles, and the total
//! number of occupied cells is conserved.

use vstd::prelude::*;

use crate::chunk::{chunks_wf, Chunk};
use crate::counting::{count_some, lemma_count_some_update, lemma_total_some_update, total_some};
use crate::resolution::{entry_ok, inv, loc_ok, occ_at, Loc, MoveStep, Resolution};
use crate::tile::TileContent;
use crate::vec2::IVec2;

verus! {

/// Some entry of `L[lo..hi]` has source `l`.
pub open spec fn moved_src(L: Seq<MoveStep>, lo: int, hi: int, l: Loc) -> bool {
    exists|j: int| lo <= j < hi && (#[trigger] L[j]).src == l
}

/// Some entry of `L[lo..hi]` has destination `l`.
pub open spec fn moved_dst(L: Seq<MoveStep>, lo: int, hi: int, l: Loc) -> bool {
    exists|j: int| lo <= j < hi && (#[trigger] L[j]).dst == l
}

/// The position of the entry of `L[0..hi]` with destination `l`.
pub open spec fn dst_index(L: Seq<MoveStep>, hi: int, l: Loc) -> int {
    choose|j: int| 0 <= j < hi && (#[trigger] L[j]).dst == l
}

/// What the executor requires of a move list: every entry in range, from
/// an occupied source to a different cell, with pairwise-distinct sources
/// and destinations, and every initially occupied destination vacated by
/// an earlier entry.
///
/// The last condition names the commit order in which the resolver emits
/// moves, and [`lemma_inv_gives_exec_pre`] discharges it for every
/// resolution satisfying [`inv`].  It is the explicit form of the
/// "vacate the blocker first" execution order: an unordered injective
/// acyclic move map describes the same set of moves, and sorting it by
/// recursive vacating yields exactly a list of this shape, so nothing is
/// lost by asking for the list already ordered.
pub open spec fn exec_pre(chunks: Seq<Chunk>, L: Seq<MoveStep>) -> bool {
    &&& forall|j: int|
        0 <= j < L.len() ==> {
            let s = (#[trigger] L[j]).src;
            let d = L[j].dst;
            &&& loc_ok(chunks, s)
            &&& loc_ok(chunks, d)
            &&& s != d
            &&& occ_at(chunks, s) is Some
            &&& (occ_at(chunks, d) is Some ==> moved_src(L, 0, j, d))
        }
    &&& forall|j1: int, j2: int|
        0 <= j1 < j2 < L.len() ==> (#[trigger] L[j1]).src != (#[trigger] L[j2]).src && L[j1].dst
            != L[j2].dst
}

/// The occupancy of cell `l` after executing the first `k` moves of `L` on
/// the initial world `init`: a still-pending source keeps its tile; an
/// already-reached destination holds its source's material; an executed
/// source not refilled is empty; everything else is untouched.
pub open spec fn step_occ(init: Seq<Chunk>, L: Seq<MoveStep>, k: int, l: Loc) -> Option<
    TileContent,
> {
    if moved_src(L, k, L.len() as int, l) {
        occ_at(init, l)
    } else if moved_dst(L, 0, k, l) {
        occ_at(init, L[dst_index(L, k, l)].src)
    } else if moved_src(L, 0, k, l) {
        None
    } else {
        occ_at(init, l)
    }
}

/// The occupancy of cell `l` after executing all of `L`.
pub open spec fn final_occ(init: Seq<Chunk>, L: Seq<MoveStep>, l: Loc) -> Option<TileContent> {
    step_occ(init, L, L.len() as int, l)
}

/// The occupancy arrays of every chunk.
pub open spec fn occ_mat(chunks: Seq<Chunk>) -> Seq<Seq<Option<TileContent>>> {
    Seq::new(chunks.len(), |c: int| chunks[c].cells@)
}

/// The total number of occupied cells of the world.
pub open spec fn world_count(chunks: Seq<Chunk>) -> int {
    total_some(occ_mat(chunks))
}

/// The resolution invariant hands the executor exactly what it requires.
pub proof fn lemma_inv_gives_exec_pre(chunks: Seq<Chunk>, r: Resolution)
    requires
        inv(chunks, r),
    ensures
        exec_pre(chunks, r.committed@),
{
    let L = r.committed@;
    assert forall|j: int| 0 <= j < L.len() implies {
        let s = (#[trigger] L[j]).src;
        let d = L[j].dst;
        &&& loc_ok(chunks, s)
        &&& loc_ok(chunks, d)
        &&& s != d
        &&& occ_at(chunks, s) is Some
        &&& (occ_at(chunks, d) is Some ==> moved_src(L, 0, j, d))
    } by {
        assert(entry_ok(chunks, r, j));
        let d = L[j].dst;
        if occ_at(chunks, d) is Some {
            let j2 = choose|j2: int| 0 <= j2 < j && (#[trigger] r.committed@[j2]).src == d;
            assert(L[j2].src == d);
        }
    }
}

/// The scheduled occupancy only reads cells, so two worlds with equal
/// occupancy schedule identically.
pub proof fn lemma_step_occ_frame(
    init1: Seq<Chunk>,
    init2: Seq<Chunk>,
    L: Seq<MoveStep>,
    k: int,
    l: Loc,
)
    requires
        init1.len() == init2.len(),
        forall|c: int| 0 <= c < init1.len() ==> (#[trigger] init2[c]).cells@ == init1[c].cells@,
        loc_ok(init1, l),
        0 <= k <= L.len(),
        forall|j: int|
            0 <= j < L.len() ==> loc_ok(init1, (#[trigger] L[j]).src) && loc_ok(init1, L[j].dst),
    ensures
        step_occ(init1, L, k, l) == step_occ(init2, L, k, l),
{
    assert(occ_at(init1, l) == occ_at(init2, l)) by {
        assert(init2[l.chunk as int].cells@ == init1[l.chunk as int].cells@);
    }
    if !moved_src(L, k, L.len() as int, l) && moved_dst(L, 0, k, l) {
        let jj = dst_index(L, k, l);
        assert(0 <= jj < k && L[jj].dst == l);
        let s = L[jj].src;
        assert(loc_ok(init1, s));
        assert(occ_at(init1, s) == occ_at(init2, s)) by {
            assert(init2[s.chunk as int].cells@ == init1[s.chunk as int].cells@);
        }
    }
}

/// The executor's precondition only reads occupancy, so it survives
/// changes to active flags.
pub proof fn lemma_exec_pre_frame(c0: Seq<Chunk>, c1: Seq<Chunk>, L: Seq<MoveStep>)
    requires
        exec_pre(c0, L),
        c1.len() == c0.len(),
        forall|c: int| 0 <= c < c0.len() ==> (#[trigger] c1[c]).cells@ == c0[c].cells@,
    ensures
        exec_pre(c1, L),
{
    assert forall|j: int| 0 <= j < L.len() implies {
        let s = (#[trigger] L[j]).src;
        let d = L[j].dst;
        &&& loc_ok(c1, s)
        &&& loc_ok(c1, d)
        &&& s != d
        &&& occ_at(c1, s) is Some
        &&& (occ_at(c1, d) is Some ==> moved_src(L, 0, j, d))
    } by {
        let s = L[j].src;
        let d = L[j].dst;
        assert(c1[s.chunk as int].cells@ == c0[s.chunk as int].cells@);
        assert(c1[d.chunk as int].cells@ == c0[d.chunk as int].cells@);
    }
}

/// Applies the commit-order move list: each move finds its destination
/// empty, relocates one tile, and the tile count is conserved.
#[verifier::loop_isolation(false)]
pub fn execute_moves(chunks: &mut Vec<Chunk>, moves: &Vec<MoveStep>, Ghost(cs): Ghost<IVec2>)
    requires
        chunks_wf(old(chunks)@, cs),
        exec_pre(old(chunks)@, moves@),
    ensures
        final(chunks)@.len() == old(chunks)@.len(),
        chunks_wf(final(chunks)@, cs),
        forall|c: int|
            0 <= c < old(chunks)@.len() ==> {
                let a = #[trigger] final(chunks)@[c];
                let b = old(chunks)@[c];
                &&& a.chunk_pos == b.chunk_pos
                &&& a.chunk_size == b.chunk_size
                &&& a.need_update == b.need_update
                &&& a.cells@.len() == b.cells@.len()
            },
        forall|l: Loc|
            loc_ok(old(chunks)@, l) ==> occ_at(final(chunks)@, l) == final_occ(
                old(chunks)@,
                moves@,
                l,
            ),
        world_count(final(chunks)@) == world_count(old(chunks)@),
{
    let ghost init = old(chunks)@;
    let ghost lseq = moves@;
    let n_moves = moves.len();
    let mut j: usize = 0;
    while j < n_moves
        invariant
            j <= n_moves,
            chunks@.len() == init.len(),
            forall|c: int|
                0 <= c < init.len() ==> {
                    let a = #[trigger] chunks@[c];
                    let b = init[c];
                    &&& a.chunk_pos == b.chunk_pos
                    &&& a.chunk_size == b.chunk_size
                    &&& a.need_update == b.need_update
                    &&& a.cells@.len() == b.cells@.len()
                },
            forall|l: Loc|
                loc_ok(init, l) ==> occ_at(chunks@, l) == step_occ(init, lseq, j as int, l),
            world_count(chunks@) == world_count(init),
        decreases n_moves - j,
    {
        let mv = moves[j];
        let ghost ls = mv.src;
        let ghost ld = mv.dst;
        proof {
            assert(lseq[j as int].src == ls);
            // the source still holds its original tile
            assert(moved_src(lseq, j as int, lseq.len() as int, ls));
            assert(occ_at(chunks@, ls) == occ_at(init, ls));
            // the destination is empty right now
            assert(occ_at(chunks@, ld) == step_occ(init, lseq, j as int, ld));
            if moved_src(lseq, j as int, lseq.len() as int, ld) {
                let i = choose|i: int|
                    j <= i < lseq.len() && (#[trigger] lseq[i]).src == ld;
                assert(occ_at(init, ld) is Some);
                let j2 = choose|j2: int| 0 <= j2 < j && (#[trigger] lseq[j2]).src == ld;
                assert(lseq[j2].src == lseq[i].src);
                assert(false);
            }
            if moved_dst(lseq, 0, j as int, ld) {
                let j2 = choose|j2: int| 0 <= j2 < j && (#[trigger] lseq[j2]).dst == ld;
                assert(lseq[j2].dst == lseq[j as int].dst);
                assert(false);
            }
            if !moved_src(lseq, 0, j as int, ld) {
                assert(occ_at(init, ld) is None || moved_src(lseq, 0, j as int, ld));
            }
            assert(occ_at(chunks@, ld) is None);
        }
        let mat_opt = chunks[mv.src.chunk].get_tile(mv.src.index);
        let mat = mat_opt.unwrap();
        let ghost pre = chunks@;
        let ch = &mut chunks[mv.src.chunk];
        ch.write_cell(mv.src.index, None);
        let ghost mid = chunks@;
        let ch2 = &mut chunks[mv.dst.chunk];
        ch2.write_cell(mv.dst.index, Some(mat));
        proof {
            // count: one cell emptied, one empty cell filled
            assert(occ_mat(mid) =~= occ_mat(pre).update(
                ls.chunk as int,
                mid[ls.chunk as int].cells@,
            ));
            lemma_total_some_update(occ_mat(pre), ls.chunk as int, mid[ls.chunk as int].cells@);
            lemma_count_some_update(pre[ls.chunk as int].cells@, ls.index as int, None);
            assert(occ_mat(chunks@) =~= occ_mat(mid).update(
                ld.chunk as int,
                chunks@[ld.chunk as int].cells@,
            ));
            lemma_total_some_update(occ_mat(mid), ld.chunk as int, chunks@[ld.chunk as int].cells@);
            lemma_count_some_update(mid[ld.chunk as int].cells@, ld.index as int, Some(mat));
            assert(occ_at(mid, ld) is None);
            assert(world_count(chunks@) == world_count(init));
            // the occupancy now matches the next step of the schedule
            assert forall|l: Loc| loc_ok(init, l) implies occ_at(chunks@, l) == step_occ(
                init,
                lseq,
                j + 1,
                l,
            ) by {
                if l == ls {
                    // the just-vacated source: not a pending source (sources
                    // are distinct), not an executed destination (its
                    // vacating entry would have to come before itself)
                    if moved_src(lseq, j + 1, lseq.len() as int, l) {
                        let i = choose|i: int|
                            j + 1 <= i < lseq.len() && (#[trigger] lseq[i]).src == l;
                        assert(lseq[i].src == lseq[j as int].src);
                        assert(false);
                    }
                    if moved_dst(lseq, 0, j + 1, l) {
                        let j2 = choose|j2: int| 0 <= j2 < j + 1 && (#[trigger] lseq[j2]).dst == l;
                        assert(lseq[j2].dst == l);
                        assert(occ_at(init, lseq[j2].src) is Some);
                        assert(occ_at(init, l) is Some);
                        let j3 = choose|j3: int| 0 <= j3 < j2 && (#[trigger] lseq[j3]).src == l;
                        assert(lseq[j3].src == lseq[j as int].src);
                        assert(false);
                    }
                    assert(moved_src(lseq, 0, j + 1, l));
                    assert(occ_at(chunks@, l) is None);
                } else if l == ld {
                    // the just-filled destination: it now holds the moved
                    // material, and the schedule agrees
                    if moved_src(lseq, j + 1, lseq.len() as int, l) {
                        let i = choose|i: int|
                            j + 1 <= i < lseq.len() && (#[trigger] lseq[i]).src == l;
                        assert(occ_at(init, l) is Some);
                        let j2 = choose|j2: int| 0 <= j2 < j && (#[trigger] lseq[j2]).src == l;
                        assert(lseq[j2].src == lseq[i].src);
                        assert(false);
                    }
                    assert(lseq[j as int].dst == l);
                    assert(moved_dst(lseq, 0, j + 1, l));
                    let jj = dst_index(lseq, j + 1, l);
                    assert(0 <= jj < j + 1 && lseq[jj].dst == l);
                    if jj != j {
                        assert(lseq[jj].dst == lseq[j as int].dst);
                        assert(false);
                    }
                    assert(occ_at(chunks@, l) == Some(mat));
                } else {
                    // untouched cells: same memberships, same witness
                    assert(occ_at(chunks@, l) == occ_at(pre, l));
                    assert(occ_at(pre, l) == step_occ(init, lseq, j as int, l));
                    if moved_src(lseq, j as int, lseq.len() as int, l) {
                        let i = choose|i: int|
                            j <= i < lseq.len() && (#[trigger] lseq[i]).src == l;
                        assert(i != j);
                        assert(moved_src(lseq, j + 1, lseq.len() as int, l));
                    }
                    if moved_src(lseq, j + 1, lseq.len() as int, l) {
                        assert(moved_src(lseq, j as int, lseq.len() as int, l));
                    }
                    if moved_dst(lseq, 0, j as int, l) {
                        assert(moved_dst(lseq, 0, j + 1, l));
                        let j1 = dst_index(lseq, j as int, l);
                        let j2 = dst_index(lseq, j + 1, l);
                        assert(0 <= j1 < j && lseq[j1].dst == l);
                        assert(0 <= j2 < j + 1 && lseq[j2].dst == l);
                        if j1 != j2 {
                            assert(lseq[j1].dst == lseq[j2].dst);
                            assert(false);
                        }
                    }
                    if moved_dst(lseq, 0, j + 1, l) {
                        let j2 = choose|j2: int| 0 <= j2 < j + 1 && (#[trigger] lseq[j2]).dst == l;
                        assert(j2 != j);
                        assert(moved_dst(lseq, 0, j as int, l));
                    }
                    if moved_src(lseq, 0, j as int, l) {
                        let j2 = choose|j2: int| 0 <= j2 < j && (#[trigger] lseq[j2]).src == l;
                        assert(moved_src(lseq, 0, j + 1, l));
                    }
                    if moved_src(lseq, 0, j + 1, l) {
                        let j2 = choose|j2: int| 0 <= j2 < j + 1 && (#[trigger] lseq[j2]).src == l;
                        assert(j2 != j);
                        assert(moved_src(lseq, 0, j as int, l));
                    }
                }
            }
        }
        j = j + 1;
    }
}

} // verus!
