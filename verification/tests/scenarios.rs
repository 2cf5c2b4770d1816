//! End-to-end scenarios for the per-tick movement pipeline.
//!
//! `y` grows downward: solids and liquids fall toward positive `y`.

use tile_physics::model::{Model, ModelError};
use tile_physics::tile::{TileContent, TileGas, TileLiquid, TileSolid};
use tile_physics::vec2::{ivec2, IVec2};

fn sand() -> TileContent {
    TileContent::Solid { tile_solid: TileSolid::Sand }
}

fn barrier() -> TileContent {
    TileContent::Solid { tile_solid: TileSolid::Barrier }
}

fn water() -> TileContent {
    TileContent::Liquid { tile_liquid: TileLiquid::Water }
}

fn smoke() -> TileContent {
    TileContent::Gas { tile_gas: TileGas::Smoke }
}

/// A single 7x7 chunk at chunk coordinate (0, 0).
fn one_chunk_world() -> Model {
    Model::with_chunks(ivec2(7, 7), ivec2(0, 0), ivec2(0, 0)).unwrap()
}

fn is_active(m: &Model, pos: IVec2) -> bool {
    let l = m.locate(pos).unwrap();
    m.chunks[l.chunk].need_update[l.index]
}

fn occupied_count(m: &Model) -> usize {
    let mut n = 0;
    for ch in &m.chunks {
        for cell in ch.tiles() {
            if cell.is_some() {
                n += 1;
            }
        }
    }
    n
}

/// Scenario A: a single sand tile with empty space directly below falls
/// one row per tick.
#[test]
fn sand_falls_one_row() {
    let mut m = one_chunk_world();
    m.change_tile(ivec2(3, 2), Some(sand())).unwrap();
    m.tick();
    assert_eq!(m.get_tile(ivec2(3, 2)), None);
    assert_eq!(m.get_tile(ivec2(3, 3)), Some(sand()));
    m.tick();
    assert_eq!(m.get_tile(ivec2(3, 3)), None);
    assert_eq!(m.get_tile(ivec2(3, 4)), Some(sand()));
}

/// Scenario B: sand resting directly on a barrier with no diagonal escape
/// stays put and its active flag becomes false; the next tick leaves it
/// untouched.
#[test]
fn sand_on_barrier_goes_lazy() {
    let mut m = one_chunk_world();
    m.change_tile(ivec2(2, 4), Some(barrier())).unwrap();
    m.change_tile(ivec2(3, 4), Some(barrier())).unwrap();
    m.change_tile(ivec2(4, 4), Some(barrier())).unwrap();
    m.change_tile(ivec2(3, 3), Some(sand())).unwrap();
    assert!(is_active(&m, ivec2(3, 3)));
    m.tick();
    assert_eq!(m.get_tile(ivec2(3, 3)), Some(sand()));
    assert!(!is_active(&m, ivec2(3, 3)));
    m.tick();
    assert_eq!(m.get_tile(ivec2(3, 3)), Some(sand()));
    assert!(!is_active(&m, ivec2(3, 3)));
}

/// Scenario C: sand at the bottom row of chunk (0, 0) with an empty
/// destination in chunk (0, 1) directly below crosses the chunk boundary,
/// and the view diff contains both global cells.
#[test]
fn sand_crosses_chunk_boundary() {
    let mut m = Model::with_chunks(ivec2(3, 3), ivec2(0, 0), ivec2(0, 1)).unwrap();
    // bottom row of chunk (0, 0) is global y = 2; the cell below is
    // global y = 3, owned by chunk (0, 1)
    m.change_tile(ivec2(1, 2), Some(sand())).unwrap();
    let _ = m.get_update_view();
    m.tick();
    assert_eq!(m.get_tile(ivec2(1, 2)), None);
    assert_eq!(m.get_tile(ivec2(1, 3)), Some(sand()));
    let view = m.get_update_view();
    let entries = view.tiles();
    let from = entries.iter().find(|e| e.0 == ivec2(1, 2));
    let to = entries.iter().find(|e| e.0 == ivec2(1, 3));
    assert_eq!(from, Some(&(ivec2(1, 2), None)));
    assert_eq!(to, Some(&(ivec2(1, 3), Some(sand()))));
}

/// Scenario D: two tiles each wanting the other's cell, with no other
/// escape, swap nothing: the visited-set cycle guard rejects the swap and
/// both are marked cant-move.  (Water can express a mutual swap through
/// its sideways candidates.)
#[test]
fn mutual_swap_is_rejected() {
    let mut m = one_chunk_world();
    // walls around two side-by-side water tiles at (2, 3) and (3, 3)
    for x in 1..=4 {
        m.change_tile(ivec2(x, 4), Some(barrier())).unwrap();
    }
    m.change_tile(ivec2(1, 3), Some(barrier())).unwrap();
    m.change_tile(ivec2(4, 3), Some(barrier())).unwrap();
    m.change_tile(ivec2(2, 3), Some(water())).unwrap();
    m.change_tile(ivec2(3, 3), Some(water())).unwrap();
    m.tick();
    assert_eq!(m.get_tile(ivec2(2, 3)), Some(water()));
    assert_eq!(m.get_tile(ivec2(3, 3)), Some(water()));
    // both were proven immovable and went lazy
    assert!(!is_active(&m, ivec2(2, 3)));
    assert!(!is_active(&m, ivec2(3, 3)));
}

/// Scenario E: water blocked below and diagonally, with an empty cell to
/// its left, flows left.
#[test]
fn water_flows_left() {
    let mut m = one_chunk_world();
    m.change_tile(ivec2(2, 4), Some(barrier())).unwrap();
    m.change_tile(ivec2(3, 4), Some(barrier())).unwrap();
    m.change_tile(ivec2(4, 4), Some(barrier())).unwrap();
    m.change_tile(ivec2(3, 3), Some(water())).unwrap();
    m.tick();
    assert_eq!(m.get_tile(ivec2(3, 3)), None);
    assert_eq!(m.get_tile(ivec2(2, 3)), Some(water()));
}

/// Smoke rises toward negative y.
#[test]
fn smoke_rises() {
    let mut m = one_chunk_world();
    m.change_tile(ivec2(3, 4), Some(smoke())).unwrap();
    m.tick();
    assert_eq!(m.get_tile(ivec2(3, 4)), None);
    assert_eq!(m.get_tile(ivec2(3, 3)), Some(smoke()));
}

/// Conservation: the number of occupied cells never changes across ticks,
/// through stacking, diagonal slides and boundary crossings.
#[test]
fn tile_count_is_conserved() {
    let mut m = Model::with_chunks(ivec2(4, 4), ivec2(-1, -1), ivec2(1, 1)).unwrap();
    for x in -2..=2 {
        m.change_tile(ivec2(x, -3), Some(sand())).unwrap();
        m.change_tile(ivec2(x, -2), Some(water())).unwrap();
    }
    m.change_tile(ivec2(0, 5), Some(barrier())).unwrap();
    let before = occupied_count(&m);
    for _ in 0..12 {
        m.tick();
        assert_eq!(occupied_count(&m), before);
    }
}

/// A tile at the edge of the world cannot move into an unloaded chunk: it
/// stays, and the tile count still holds.
#[test]
fn world_edge_blocks_movement() {
    let mut m = Model::with_chunks(ivec2(3, 3), ivec2(0, 0), ivec2(0, 0)).unwrap();
    m.change_tile(ivec2(1, 2), Some(sand())).unwrap();
    m.tick();
    m.tick();
    assert_eq!(m.get_tile(ivec2(1, 2)), Some(sand()));
    assert_eq!(occupied_count(&m), 1);
}

/// A stack of sand collapses into a pile: the column falls, the diagonal
/// candidates spread it, and every tile survives.
#[test]
fn sand_pile_spreads() {
    let mut m = one_chunk_world();
    for x in 0..7 {
        m.change_tile(ivec2(x, 6), Some(barrier())).unwrap();
    }
    m.change_tile(ivec2(3, 2), Some(sand())).unwrap();
    m.change_tile(ivec2(3, 3), Some(sand())).unwrap();
    m.change_tile(ivec2(3, 4), Some(sand())).unwrap();
    m.change_tile(ivec2(3, 5), Some(sand())).unwrap();
    let before = occupied_count(&m);
    for _ in 0..8 {
        m.tick();
    }
    assert_eq!(occupied_count(&m), before);
    // the bottom-most sand still sits on the floor
    assert_eq!(m.get_tile(ivec2(3, 5)), Some(sand()));
    // everything has settled onto the two rows above the floor
    let mut settled = 0;
    for x in 0..7 {
        for y in 4..=5 {
            if m.get_tile(ivec2(x, y)) == Some(sand()) {
                settled += 1;
            }
        }
    }
    assert_eq!(settled, 4);
}

/// A falling column moves as a chain in a single tick: the upper tile
/// steps into the cell its neighbor vacates.
#[test]
fn falling_column_moves_as_a_chain() {
    let mut m = one_chunk_world();
    m.change_tile(ivec2(3, 2), Some(sand())).unwrap();
    m.change_tile(ivec2(3, 3), Some(sand())).unwrap();
    m.tick();
    assert_eq!(m.get_tile(ivec2(3, 2)), None);
    assert_eq!(m.get_tile(ivec2(3, 3)), Some(sand()));
    assert_eq!(m.get_tile(ivec2(3, 4)), Some(sand()));
}

/// Determinism: two identically seeded worlds stay identical, tick after
/// tick, cell by cell and view entry by view entry.
#[test]
fn identical_worlds_stay_identical() {
    let build = || {
        let mut m = Model::with_chunks(ivec2(5, 5), ivec2(0, 0), ivec2(1, 1)).unwrap();
        for x in 0..10 {
            m.change_tile(ivec2(x, 9), Some(barrier())).unwrap();
        }
        m.change_tile(ivec2(4, 1), Some(sand())).unwrap();
        m.change_tile(ivec2(4, 2), Some(sand())).unwrap();
        m.change_tile(ivec2(6, 3), Some(water())).unwrap();
        m.change_tile(ivec2(2, 7), Some(smoke())).unwrap();
        m
    };
    let mut a = build();
    let mut b = build();
    for _ in 0..10 {
        a.tick();
        b.tick();
        for x in 0..10 {
            for y in 0..10 {
                assert_eq!(a.get_tile(ivec2(x, y)), b.get_tile(ivec2(x, y)));
            }
        }
        assert_eq!(a.get_update_view().tiles(), b.get_update_view().tiles());
    }
}

/// Editing a cell out of every loaded chunk is rejected with the typed
/// out-of-bounds error, and the world is untouched.
#[test]
fn edit_out_of_bounds_is_rejected() {
    let mut m = one_chunk_world();
    let r = m.change_tile(ivec2(100, 100), Some(sand()));
    assert_eq!(r, Err(ModelError::OutOfBounds));
    assert_eq!(occupied_count(&m), 0);
}

/// Clearing a cell reactivates its neighborhood: sand resting on a
/// removed barrier falls again on the next tick.
#[test]
fn clearing_reactivates_neighbors() {
    let mut m = one_chunk_world();
    m.change_tile(ivec2(2, 4), Some(barrier())).unwrap();
    m.change_tile(ivec2(3, 4), Some(barrier())).unwrap();
    m.change_tile(ivec2(4, 4), Some(barrier())).unwrap();
    m.change_tile(ivec2(3, 3), Some(sand())).unwrap();
    m.tick();
    assert!(!is_active(&m, ivec2(3, 3)));
    m.change_tile(ivec2(3, 4), None).unwrap();
    assert!(is_active(&m, ivec2(3, 3)));
    m.tick();
    assert_eq!(m.get_tile(ivec2(3, 3)), None);
    assert_eq!(m.get_tile(ivec2(3, 4)), Some(sand()));
}
