//! The view diff: which global cells changed occupancy this tick, and what
//! they now hold.  Purely observational — a renderer consumes it once per
//! tick; the physics core never reads it back.

use vstd::prelude::*;

use crate::tile::TileContent;
use crate::vec2::IVec2;

verus! {

/// Whether `entries` holds a record for global position `pos`.
pub open spec fn view_has(entries: Seq<(IVec2, Option<TileContent>)>, pos: IVec2) -> bool {
    exists|i: int| 0 <= i < entries.len() && (#[trigger] entries[i]).0 == pos
}

/// The value recorded for `pos`, meaningful when `view_has` holds.
pub open spec fn view_lookup(
    entries: Seq<(IVec2, Option<TileContent>)>,
    pos: IVec2,
) -> Option<TileContent> {
    entries[choose|i: int| 0 <= i < entries.len() && (#[trigger] entries[i]).0 == pos].1
}

/// A map from global cell position to the cell's new occupancy, accumulated
/// by resolution and consumed by the renderer.
pub struct UpdateView {
    /// The recorded entries; at most one per global position.
    pub entries: Vec<(IVec2, Option<TileContent>)>,
}

impl UpdateView {
    /// Well-formedness: no two entries share a position.
    pub open spec fn wf(&self) -> bool {
        forall|i: int, j: int|
            0 <= i < j < self.entries.len() ==> (#[trigger] self.entries@[i]).0 != (
            #[trigger] self.entries@[j]).0
    }

    /// An empty diff.
    pub fn new() -> (v: UpdateView)
        ensures
            v.wf(),
            v.entries@.len() == 0,
    {
        UpdateView { entries: Vec::new() }
    }

    /// The recorded entries, one per changed global cell.
    pub fn tiles(&self) -> (r: &Vec<(IVec2, Option<TileContent>)>)
        ensures
            r == &self.entries,
    {
        &self.entries
    }

    /// Records the new occupancy of one global cell, replacing any earlier
    /// record for the same cell.
    #[verifier::loop_isolation(false)]
    pub fn update_tile(&mut self, tile_pos: IVec2, tile: Option<TileContent>)
        requires
            old(self).wf(),
        ensures
            final(self).wf(),
            view_has(final(self).entries@, tile_pos),
            view_lookup(final(self).entries@, tile_pos) == tile,
            forall|p: IVec2|
                p != tile_pos ==> (view_has(final(self).entries@, p) <==> view_has(
                    old(self).entries@,
                    p,
                )),
            forall|p: IVec2|
                p != tile_pos && view_has(old(self).entries@, p) ==> view_lookup(
                    final(self).entries@,
                    p,
                ) == view_lookup(old(self).entries@, p),
    {
        let ghost entries0 = self.entries@;
        let n = self.entries.len();
        let mut k: usize = 0;
        while k < n
            invariant
                self.entries@ == entries0,
                n == entries0.len(),
                k <= n,
                forall|i: int| 0 <= i < k ==> (#[trigger] entries0[i]).0 != tile_pos,
            decreases n - k,
        {
            if self.entries[k].0 == tile_pos {
                self.entries.set(k, (tile_pos, tile));
                proof {
                    let e = self.entries@;
                    assert forall|i: int, j: int| 0 <= i < j < e.len() implies (#[trigger] e[i]).0
                        != (#[trigger] e[j]).0 by {
                        if i != k {
                            assert(e[i] == entries0[i]);
                        }
                        if j != k {
                            assert(e[j] == entries0[j]);
                        }
                        assert(e[k as int].0 == entries0[k as int].0);
                    }
                    assert(e[k as int].0 == tile_pos);
                    assert forall|p: IVec2| p != tile_pos implies (view_has(e, p) <==> view_has(
                        entries0,
                        p,
                    )) by {
                        if view_has(e, p) {
                            let i = choose|i: int| 0 <= i < e.len() && (#[trigger] e[i]).0 == p;
                            assert(entries0[i].0 == p);
                        }
                        if view_has(entries0, p) {
                            let i = choose|i: int|
                                0 <= i < entries0.len() && (#[trigger] entries0[i]).0 == p;
                            assert(e[i].0 == p);
                        }
                    }
                    assert forall|p: IVec2|
                        p != tile_pos && view_has(entries0, p) implies view_lookup(e, p)
                        == view_lookup(entries0, p) by {
                        let i = choose|i: int| 0 <= i < e.len() && (#[trigger] e[i]).0 == p;
                        let j = choose|j: int|
                            0 <= j < entries0.len() && (#[trigger] entries0[j]).0 == p;
                        if i != k {
                            assert(entries0[i].0 == p);
                        }
                        if i != j {
                            assert(e[j] == entries0[j]);
                        }
                    }
                }
                return ;
            }
            k = k + 1;
        }
        self.entries.push((tile_pos, tile));
        proof {
            let e = self.entries@;
            assert(e[e.len() - 1].0 == tile_pos);
            assert forall|p: IVec2| p != tile_pos implies (view_has(e, p) <==> view_has(
                entries0,
                p,
            )) by {
                if view_has(e, p) {
                    let i = choose|i: int| 0 <= i < e.len() && (#[trigger] e[i]).0 == p;
                    assert(entries0[i].0 == p);
                }
                if view_has(entries0, p) {
                    let i = choose|i: int|
                        0 <= i < entries0.len() && (#[trigger] entries0[i]).0 == p;
                    assert(e[i].0 == p);
                }
            }
            assert forall|p: IVec2| p != tile_pos && view_has(entries0, p) implies view_lookup(e, p)
                == view_lookup(entries0, p) by {
                let i = choose|i: int| 0 <= i < e.len() && (#[trigger] e[i]).0 == p;
                assert(e[i] == entries0[i]);
            }
        }
    }

    /// Records the new occupancy of a batch of global cells.  Every given
    /// position ends with a record holding the last value given for it;
    /// records for other positions are untouched.
    #[verifier::loop_isolation(false)]
    pub fn update_view(&mut self, tiles: &Vec<(IVec2, Option<TileContent>)>)
        requires
            old(self).wf(),
        ensures
            final(self).wf(),
            forall|i: int|
                0 <= i < tiles@.len() ==> view_has(
                    final(self).entries@,
                    (#[trigger] tiles@[i]).0,
                ),
            forall|i: int|
                0 <= i < tiles@.len() && (forall|i2: int|
                    i < i2 < tiles@.len() ==> (#[trigger] tiles@[i2]).0 != tiles@[i].0)
                    ==> view_lookup(final(self).entries@, (#[trigger] tiles@[i]).0)
                    == tiles@[i].1,
            forall|p: IVec2|
                #![trigger view_has(final(self).entries@, p)]
                (forall|i: int| 0 <= i < tiles@.len() ==> (#[trigger] tiles@[i]).0 != p) ==> {
                    &&& view_has(final(self).entries@, p) == view_has(old(self).entries@, p)
                    &&& (view_has(old(self).entries@, p) ==> view_lookup(final(self).entries@, p)
                        == view_lookup(old(self).entries@, p))
                },
    {
        let n = tiles.len();
        let mut k: usize = 0;
        while k < n
            invariant
                self.wf(),
                k <= n,
                forall|i: int| 0 <= i < k ==> view_has(self.entries@, (#[trigger] tiles@[i]).0),
                forall|i: int|
                    0 <= i < k && (forall|i2: int|
                        i < i2 < k ==> (#[trigger] tiles@[i2]).0 != tiles@[i].0) ==> view_lookup(
                        self.entries@,
                        (#[trigger] tiles@[i]).0,
                    ) == tiles@[i].1,
                forall|p: IVec2|
                    #![trigger view_has(self.entries@, p)]
                    (forall|i: int| 0 <= i < k ==> (#[trigger] tiles@[i]).0 != p) ==> {
                        &&& view_has(self.entries@, p) == view_has(old(self).entries@, p)
                        &&& (view_has(old(self).entries@, p) ==> view_lookup(self.entries@, p)
                            == view_lookup(old(self).entries@, p))
                    },
            decreases n - k,
        {
            let (pos, tile) = tiles[k];
            let ghost before = self.entries@;
            self.update_tile(pos, tile);
            proof {
                assert forall|i: int| 0 <= i < k + 1 implies view_has(
                    self.entries@,
                    (#[trigger] tiles@[i]).0,
                ) by {
                    if i < k && tiles@[i].0 != pos {
                        assert(view_has(before, tiles@[i].0));
                    }
                }
                assert forall|i: int|
                    0 <= i < k + 1 && (forall|i2: int|
                        i < i2 < k + 1 ==> (#[trigger] tiles@[i2]).0 != tiles@[i].0)
                        implies view_lookup(self.entries@, (#[trigger] tiles@[i]).0)
                    == tiles@[i].1 by {
                    if i < k {
                        assert(tiles@[k as int].0 != tiles@[i].0);
                        assert(view_lookup(before, tiles@[i].0) == tiles@[i].1);
                        assert(view_has(before, tiles@[i].0));
                    }
                }
                assert forall|p: IVec2|
                    #![trigger view_has(self.entries@, p)]
                    (forall|i: int| 0 <= i < k + 1 ==> (#[trigger] tiles@[i]).0 != p) implies {
                    &&& view_has(self.entries@, p) == view_has(old(self).entries@, p)
                    &&& (view_has(old(self).entries@, p) ==> view_lookup(self.entries@, p)
                        == view_lookup(old(self).entries@, p))
                } by {
                    assert(tiles@[k as int].0 != p);
                    assert(view_has(before, p) == view_has(old(self).entries@, p));
                }
            }
            k = k + 1;
        }
    }
}

} // verus!
