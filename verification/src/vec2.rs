//! A two-component integer vector, used for chunk coordinates, global cell
//! positions, local cell positions and candidate move directions.

use vstd::prelude::*;

verus! {

/// A pair of `i32` coordinates.  `y` grows downward, as on a screen:
/// solids and liquids fall toward positive `y`, gases rise toward
/// negative `y`.
#[derive(Clone, Copy, Debug, PartialEq, Eq, Structural, Hash)]
pub struct IVec2 {
    pub x: i32,
    pub y: i32,
}

/// Builds an [`IVec2`] from its two components.
pub fn ivec2(x: i32, y: i32) -> (r: IVec2)
    ensures
        r == (IVec2 { x, y }),
{
    IVec2 { x, y }
}

} // verus!
