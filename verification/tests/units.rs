//! Unit tests for the coordinate arithmetic, the chunk store, the material
//! table and the view diff.

use tile_physics::chunk::{
    data_array, tile_index_to_position, tile_position_to_index, Chunk, Position, Tile,
};
use tile_physics::model::{Model, ModelError};
use tile_physics::tile::{TileContent, TileGas, TileLiquid, TileSolid};
use tile_physics::vec2::{ivec2, IVec2};
use tile_physics::view::UpdateView;

fn sand() -> TileContent {
    TileContent::Solid { tile_solid: TileSolid::Sand }
}

#[test]
fn ivec2_builds_pairs() {
    let v = ivec2(-3, 7);
    assert_eq!(v, IVec2 { x: -3, y: 7 });
}

#[test]
fn data_array_fills() {
    let a = data_array(5u32, 4);
    assert_eq!(a, vec![5, 5, 5, 5]);
    let b: Vec<bool> = data_array(false, 3);
    assert_eq!(b, vec![false, false, false]);
}

#[test]
fn index_position_roundtrip() {
    let cs = ivec2(5, 4);
    assert_eq!(tile_position_to_index(ivec2(0, 0), cs), 0);
    assert_eq!(tile_position_to_index(ivec2(3, 2), cs), 13);
    assert_eq!(tile_index_to_position(13, cs), ivec2(3, 2));
    assert_eq!(tile_index_to_position(19, cs), ivec2(4, 3));
    for idx in 0..20 {
        let p = tile_index_to_position(idx, cs);
        assert_eq!(tile_position_to_index(p, cs), idx);
    }
}

#[test]
fn position_wraps_row_major_indices() {
    let cs = ivec2(6, 6);
    let p = Position::from_ivec2(ivec2(2, 3), cs);
    assert_eq!(p.index, 20);
    assert_eq!(p.to_ivec2(cs), ivec2(2, 3));
}

#[test]
fn chunk_set_get_remove() {
    let mut ch = Chunk::empty(ivec2(0, 0), ivec2(4, 4));
    assert_eq!(ch.get_tile(5), None);
    ch.set_tile(5, sand());
    assert_eq!(ch.get_tile(5), Some(sand()));
    assert!(ch.need_update[5]);
    assert_eq!(ch.tiles().iter().filter(|c| c.is_some()).count(), 1);
    let removed = ch.remove_tile(5);
    assert_eq!(removed, Some(sand()));
    assert_eq!(ch.get_tile(5), None);
}

#[test]
fn shift_position_stays_or_crosses() {
    let ch = Chunk::empty(ivec2(0, 0), ivec2(4, 4));
    // (1, 1) shifted right stays inside
    let idx = tile_position_to_index(ivec2(1, 1), ivec2(4, 4));
    assert_eq!(ch.shift_position(idx, ivec2(1, 0)), Ok(tile_position_to_index(ivec2(2, 1), ivec2(4, 4))));
    // (0, 1) shifted left leaves toward chunk (-1, 0)
    let edge = tile_position_to_index(ivec2(0, 1), ivec2(4, 4));
    let crossed = ch.shift_position(edge, ivec2(-1, 0));
    assert_eq!(
        crossed,
        Err(Tile { chunk_pos: ivec2(-1, 0), index: tile_position_to_index(ivec2(3, 1), ivec2(4, 4)) })
    );
}

#[test]
fn move_directions_follow_the_rule_table() {
    let barrier = TileContent::Solid { tile_solid: TileSolid::Barrier };
    assert_eq!(barrier.move_directions(), vec![]);
    assert_eq!(sand().move_directions(), vec![ivec2(0, 1), ivec2(-1, 1), ivec2(1, 1)]);
    let water = TileContent::Liquid { tile_liquid: TileLiquid::Water };
    assert_eq!(
        water.move_directions(),
        vec![ivec2(0, 1), ivec2(-1, 1), ivec2(1, 1), ivec2(-1, 0), ivec2(1, 0)]
    );
    let smoke = TileContent::Gas { tile_gas: TileGas::Smoke };
    assert_eq!(
        smoke.move_directions(),
        vec![ivec2(0, -1), ivec2(-1, -1), ivec2(1, -1), ivec2(-1, 0), ivec2(1, 0)]
    );
}

#[test]
fn update_view_replaces_per_cell() {
    let mut v = UpdateView::new();
    v.update_tile(ivec2(1, 1), Some(sand()));
    v.update_tile(ivec2(2, 2), None);
    v.update_tile(ivec2(1, 1), None);
    let entries = v.tiles();
    assert_eq!(entries.len(), 2);
    assert_eq!(entries.iter().find(|e| e.0 == ivec2(1, 1)), Some(&(ivec2(1, 1), None)));
    assert_eq!(entries.iter().find(|e| e.0 == ivec2(2, 2)), Some(&(ivec2(2, 2), None)));
}

#[test]
fn model_hands_out_and_resets_the_view() {
    let mut m = Model::with_chunks(ivec2(4, 4), ivec2(0, 0), ivec2(0, 0)).unwrap();
    m.change_tile(ivec2(1, 1), Some(sand())).unwrap();
    let v = m.get_update_view();
    assert_eq!(v.tiles().len(), 1);
    let v2 = m.get_update_view();
    assert_eq!(v2.tiles().len(), 0);
}

#[test]
fn bad_geometry_is_rejected() {
    assert_eq!(
        Model::with_chunks(ivec2(0, 4), ivec2(0, 0), ivec2(0, 0)).err(),
        Some(ModelError::OutOfBounds)
    );
    assert_eq!(
        Model::with_chunks(ivec2(-3, 4), ivec2(0, 0), ivec2(0, 0)).err(),
        Some(ModelError::OutOfBounds)
    );
    // a chunk coordinate whose cells overflow i32 is rejected too
    assert_eq!(
        Model::with_chunks(ivec2(1 << 16, 1), ivec2(1 << 16, 0), ivec2(1 << 16, 0)).err(),
        Some(ModelError::OutOfBounds)
    );
}

#[test]
fn default_world_is_empty_and_quiet() {
    let mut m = Model::new();
    assert_eq!(m.chunk_size, ivec2(25, 25));
    assert_eq!(m.chunks.len(), 121);
    assert_eq!(m.get_tile(ivec2(0, 0)), None);
    m.tick();
    assert_eq!(m.get_tile(ivec2(0, 0)), None);
}

#[test]
fn locate_finds_the_owning_chunk() {
    let m = Model::with_chunks(ivec2(3, 3), ivec2(-1, -1), ivec2(0, 0)).unwrap();
    let l = m.locate(ivec2(-1, -1)).unwrap();
    assert_eq!(m.chunks[l.chunk].chunk_pos, ivec2(-1, -1));
    assert_eq!(l.index, tile_position_to_index(ivec2(2, 2), ivec2(3, 3)));
    assert!(m.locate(ivec2(3, 0)).is_none());
}
