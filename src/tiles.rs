//! Which tile of the tileset draws a board cell.
use vstd::prelude::*;

verus! {

/// Tileset index of the floor tile.
pub const I_FLOOR: usize = 843;

/// Tileset index of the wall tile.
pub const I_WALL: usize = 0;

/// The tileset index that draws a cell: floor where it can be walked
/// through, wall elsewhere.
pub fn texture_index_for_cell(passable: bool) -> (r: usize)
    ensures
        r == (if passable {
            I_FLOOR
        } else {
            I_WALL
        }),
{
    if passable {
        I_FLOOR
    } else {
        I_WALL
    }
}

} // verus!
