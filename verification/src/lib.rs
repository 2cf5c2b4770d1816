//! A verified core for a falling-sand style cellular simulation.
//!
//! The world is an unbounded two-dimensional grid of cells, partitioned into
//! fixed-size chunks addressed by signed chunk coordinates.  Each occupied
//! cell holds a material tag; each tick, every active tile tries the ordered
//! candidate directions of its material and moves into the first destination
//! that resolves as free.  The per-tick pipeline is: per-chunk local
//! resolution, cross-chunk resolution of deferred tiles, move execution, and
//! a view diff for a renderer.
//!
//! The central contracts state that the committed move map is injective (no
//! two moves share a source or a destination) and follows each material's
//! candidate offsets; that resolution is total on the active set (every
//! active occupied cell ends with a move or a cant-move verdict, nothing
//! stays deferred); that executing the moves preserves the total number of
//! occupied cells and never lands two tiles on one cell; and that a cell is
//! active after a tick exactly when the lazy rule allows — it stayed
//! active, or occupancy changed in its 3x3 neighborhood.

pub mod chunk;
pub mod counting;
pub mod executor;
pub mod laws;
pub mod model;
pub mod resolution;
pub mod tile;
pub mod view;
pub mod vec2;
