//! The closed set of material kinds and the ordered candidate directions
//! each kind consults when seeking a move.

use vstd::prelude::*;

use crate::vec2::{ivec2, IVec2};

verus! {

/// Solid materials.  A barrier never moves; sand falls.
#[derive(Clone, Copy, Debug, PartialEq, Eq, Structural)]
pub enum TileSolid {
    Barrier,
    Sand,
}

/// Liquid materials.
#[derive(Clone, Copy, Debug, PartialEq, Eq, Structural)]
pub enum TileLiquid {
    Water,
}

/// Gaseous materials.
#[derive(Clone, Copy, Debug, PartialEq, Eq, Structural)]
pub enum TileGas {
    Smoke,
}

/// The material tag stored in an occupied cell.
#[derive(Clone, Copy, Debug, PartialEq, Eq, Structural)]
pub enum TileContent {
    Solid { tile_solid: TileSolid },
    Liquid { tile_liquid: TileLiquid },
    Gas { tile_gas: TileGas },
}

/// The fixed, priority-ordered candidate directions of a material.
/// This is the sole tie-break rule: the first candidate that resolves
/// as free wins, scanned in this order every tick.
pub open spec fn spec_move_directions(content: TileContent) -> Seq<IVec2> {
    match content {
        TileContent::Solid { tile_solid } => match tile_solid {
            TileSolid::Barrier => Seq::empty(),
            TileSolid::Sand => seq![
                IVec2 { x: 0i32, y: 1i32 },
                IVec2 { x: -1i32, y: 1i32 },
                IVec2 { x: 1i32, y: 1i32 },
            ],
        },
        TileContent::Liquid { .. } => seq![
            IVec2 { x: 0i32, y: 1i32 },
            IVec2 { x: -1i32, y: 1i32 },
            IVec2 { x: 1i32, y: 1i32 },
            IVec2 { x: -1i32, y: 0i32 },
            IVec2 { x: 1i32, y: 0i32 },
        ],
        TileContent::Gas { .. } => seq![
            IVec2 { x: 0i32, y: -1i32 },
            IVec2 { x: -1i32, y: -1i32 },
            IVec2 { x: 1i32, y: -1i32 },
            IVec2 { x: -1i32, y: 0i32 },
            IVec2 { x: 1i32, y: 0i32 },
        ],
    }
}

/// Every candidate direction is a nonzero single step.
pub open spec fn small_dir(d: IVec2) -> bool {
    &&& -1 <= d.x <= 1
    &&& -1 <= d.y <= 1
    &&& d != (IVec2 { x: 0, y: 0 })
}

pub proof fn lemma_move_directions_small(content: TileContent)
    ensures
        forall|i: int|
            0 <= i < spec_move_directions(content).len() ==> small_dir(
                #[trigger] spec_move_directions(content)[i],
            ),
{
}

impl TileContent {
    /// The ordered candidate offsets this material tries each tick.
    pub fn move_directions(&self) -> (dirs: Vec<IVec2>)
        ensures
            dirs@ == spec_move_directions(*self),
    {
        match self {
            TileContent::Solid { tile_solid } => match tile_solid {
                TileSolid::Barrier => {
                    let dirs: Vec<IVec2> = Vec::new();
                    assert(dirs@ =~= spec_move_directions(*self));
                    dirs
                },
                TileSolid::Sand => {
                    let mut dirs: Vec<IVec2> = Vec::new();
                    dirs.push(ivec2(0, 1));
                    dirs.push(ivec2(-1, 1));
                    dirs.push(ivec2(1, 1));
                    assert(dirs@ =~= spec_move_directions(*self));
                    dirs
                },
            },
            TileContent::Liquid { .. } => {
                let mut dirs: Vec<IVec2> = Vec::new();
                dirs.push(ivec2(0, 1));
                dirs.push(ivec2(-1, 1));
                dirs.push(ivec2(1, 1));
                dirs.push(ivec2(-1, 0));
                dirs.push(ivec2(1, 0));
                assert(dirs@ =~= spec_move_directions(*self));
                dirs
            },
            TileContent::Gas { .. } => {
                let mut dirs: Vec<IVec2> = Vec::new();
                dirs.push(ivec2(0, -1));
                dirs.push(ivec2(-1, -1));
                dirs.push(ivec2(1, -1));
                dirs.push(ivec2(-1, 0));
                dirs.push(ivec2(1, 0));
                assert(dirs@ =~= spec_move_directions(*self));
                dirs
            },
        }
    }
}

} // verus!
